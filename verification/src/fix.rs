use vstd::prelude::*;
use vstd::utf8::valid_utf8;
use vstd::slice::slice_subrange;

use crate::text::{
    all_digits, digits_value,
    lemma_decimal_digits, lemma_ascii_valid_utf8, lemma_decimal_digits_ascii, lemma_parse_decimal_digits,
    append_bytes, byte_sum, bytes_equal, decimal_digits, digit_byte, has_prefix_at,
    parse_unsigned, parse_unsigned_bytes, push_decimal, utf8_text,
};
use crate::workload::{from_values, workload_request};

verus! {

/// Whether `b` ends a FIX field: the SOH byte or a newline.
pub open spec fn is_separator(b: u8) -> bool {
    b == 1 || b == 10
}

/// The fields of a message: the pieces between separators, in order. A message with
/// `k` separators has `k + 1` fields, some of which may be empty.
pub open spec fn split_fields(m: Seq<u8>) -> Seq<Seq<u8>>
    decreases m.len(),
{
    if m.len() == 0 {
        seq![Seq::empty()]
    } else {
        let init = split_fields(m.drop_last());
        if is_separator(m.last()) {
            init.push(Seq::empty())
        } else {
            init.update(init.len() - 1, init.last().push(m.last()))
        }
    }
}

/// `split_fields` always gives at least one field.
pub proof fn lemma_split_fields_nonempty(m: Seq<u8>)
    ensures
        split_fields(m).len() >= 1,
    decreases m.len(),
{
    if m.len() > 0 {
        lemma_split_fields_nonempty(m.drop_last());
    }
}

/// The field `35=0`, which marks a heartbeat.
pub open spec fn heartbeat_field() -> Seq<u8> {
    seq![51u8, 53u8, 61u8, 48u8]
}

/// A message is a heartbeat when one of its fields is exactly `35=0`.
pub open spec fn spec_is_heartbeat(m: Seq<u8>) -> bool {
    split_fields(m).contains(heartbeat_field())
}


/// How the fields of a message grow when one more byte is read.
pub proof fn lemma_split_fields_step(m: Seq<u8>, i: int)
    requires
        0 <= i < m.len(),
    ensures
        split_fields(m.take(i + 1)) == (if is_separator(m[i]) {
            split_fields(m.take(i)).push(Seq::empty())
        } else {
            let init = split_fields(m.take(i));
            init.update(init.len() - 1, init.last().push(m[i]))
        }),
{
    assert(m.take(i + 1).drop_last() =~= m.take(i));
}

/// The fields completed in a prefix of a message are the first fields of the message.
pub proof fn lemma_split_fields_prefix(m: Seq<u8>, i: int, j: int)
    requires
        0 <= i <= j <= m.len(),
    ensures
        split_fields(m.take(j)).len() >= split_fields(m.take(i)).len(),
        split_fields(m.take(j)).take(split_fields(m.take(i)).len() - 1) == split_fields(
            m.take(i),
        ).drop_last(),
    decreases j - i,
{
    lemma_split_fields_nonempty(m.take(i));
    if i < j {
        lemma_split_fields_prefix(m, i, j - 1);
        lemma_split_fields_step(m, j - 1);
        lemma_split_fields_nonempty(m.take(j - 1));
        let a = split_fields(m.take(j - 1));
        let b = split_fields(m.take(j));
        let l = split_fields(m.take(i)).len() - 1;
        assert(b.take(l) =~= a.take(l));
    } else {
        assert(split_fields(m.take(j)).take(split_fields(m.take(i)).len() - 1)
            =~= split_fields(m.take(i)).drop_last());
    }
}

/// A sequence with one more element contains `x` when it did before or the new element
/// is `x`.
pub proof fn lemma_contains_push(s: Seq<Seq<u8>>, y: Seq<u8>, x: Seq<u8>)
    ensures
        s.push(y).contains(x) <==> (s.contains(x) || y == x),
{
    if y == x {
        assert(s.push(y)[s.len() as int] == y);
    }
    if s.contains(x) {
        let k = choose|k: int| 0 <= k < s.len() && s[k] == x;
        assert(s.push(y)[k] == s[k]);
    }
    if s.push(y).contains(x) {
        let k = choose|k: int| 0 <= k < s.push(y).len() && s.push(y)[k] == x;
        if k < s.len() {
            assert(s[k] == s.push(y)[k]);
        }
    }
}

/// Whether the message holds a field that is exactly `35=0`.
pub fn is_heartbeat(message: &[u8]) -> (r: bool)
    ensures
        r == spec_is_heartbeat(message@),
{
    let marker: Vec<u8> = vec![51u8, 53u8, 61u8, 48u8];
    assert(marker@ =~= heartbeat_field());
    let n = message.len();
    let mut start: usize = 0;
    let mut found = false;
    let ghost mut done: Seq<Seq<u8>> = Seq::empty();
    let mut i: usize = 0;
    assert(message@.take(0) =~= Seq::<u8>::empty());
    assert(message@.subrange(0, 0) =~= Seq::<u8>::empty());
    assert(split_fields(message@.take(0)) =~= done.push(message@.subrange(0, 0)));
    while i < n
        invariant
            start <= i <= n,
            n == message@.len(),
            marker@ == heartbeat_field(),
            split_fields(message@.take(i as int)) == done.push(message@.subrange(start as int, i as int)),
            found == done.contains(heartbeat_field()),
        decreases n - i,
    {
        let b = message[i];
        proof {
            lemma_split_fields_step(message@, i as int);
        }
        if b == 1u8 || b == 10u8 {
            let field = slice_subrange(message, start, i);
            let eq = bytes_equal(field, marker.as_slice());
            let ghost f = message@.subrange(start as int, i as int);
            proof {
                lemma_contains_push(done, f, heartbeat_field());
                done = done.push(f);
                assert(message@.subrange(i + 1, i + 1) =~= Seq::<u8>::empty());
            }
            found = found || eq;
            start = i + 1;
        } else {
            proof {
                assert(message@.subrange(start as int, i + 1) =~= message@.subrange(
                    start as int,
                    i as int,
                ).push(message@[i as int]));
            }
        }
        i = i + 1;
    }
    let last = slice_subrange(message, start, n);
    let eq = bytes_equal(last, marker.as_slice());
    proof {
        let f = message@.subrange(start as int, n as int);
        assert(message@.take(n as int) =~= message@);
        lemma_contains_push(done, f, heartbeat_field());
    }
    found || eq
}

/// The tag `9000=`, whose field carries the requested CPU load in percent.
pub open spec fn cpu_tag() -> Seq<u8> {
    seq![57u8, 48u8, 48u8, 48u8, 61u8]
}

/// The tag `9001=`, whose field carries the requested duration in milliseconds.
pub open spec fn duration_tag() -> Seq<u8> {
    seq![57u8, 48u8, 48u8, 49u8, 61u8]
}

/// Narrows a parsed number that is known to fit in `u8`.
pub open spec fn as_u8_option(v: Option<nat>) -> Option<u8> {
    match v {
        Some(x) => Some(x as u8),
        None => None,
    }
}

/// Narrows a parsed number that is known to fit in `u64`.
pub open spec fn as_u64_option(v: Option<nat>) -> Option<u64> {
    match v {
        Some(x) => Some(x as u64),
        None => None,
    }
}

/// One field's effect on the workload scan: a `9000=` or `9001=` field sets the CPU load
/// or the duration to what its value parses to (`None` when it does not parse); a value
/// that is not UTF-8 ends the scan with no workload (`None`); other fields change
/// nothing.
pub open spec fn field_step(st: (Option<u8>, Option<u64>), f: Seq<u8>) -> Option<
    (Option<u8>, Option<u64>),
> {
    if f.len() >= 5 && f.take(5) == cpu_tag() {
        if valid_utf8(f.skip(5)) {
            Some((as_u8_option(parse_unsigned(f.skip(5), 255)), st.1))
        } else {
            None
        }
    } else if f.len() >= 5 && f.take(5) == duration_tag() {
        if valid_utf8(f.skip(5)) {
            Some((st.0, as_u64_option(parse_unsigned(f.skip(5), 0xffff_ffff_ffff_ffff))))
        } else {
            None
        }
    } else {
        Some(st)
    }
}

/// The workload fields seen in `fs`, read in order, the later overriding the earlier;
/// `None` when a workload value was not UTF-8.
pub open spec fn scan_workload(fs: Seq<Seq<u8>>) -> Option<(Option<u8>, Option<u64>)>
    decreases fs.len(),
{
    if fs.len() == 0 {
        Some((None, None))
    } else {
        match scan_workload(fs.drop_last()) {
            Some(st) => field_step(st, fs.last()),
            None => None,
        }
    }
}

/// The workload that a FIX message asks for: both fields present and parsed, and
/// within the limits.
pub open spec fn message_workload(m: Seq<u8>) -> Option<(u8, u64)> {
    match scan_workload(split_fields(m)) {
        Some((Some(cpu), Some(duration))) => workload_request(cpu, duration),
        _ => None,
    }
}

/// Once the scan has stopped, reading more fields does not restart it.
pub proof fn lemma_scan_stops(fs: Seq<Seq<u8>>, k: int)
    requires
        0 <= k <= fs.len(),
        scan_workload(fs.take(k)) is None,
    ensures
        scan_workload(fs) is None,
    decreases fs.len() - k,
{
    if k < fs.len() {
        assert(fs.take(k + 1).drop_last() =~= fs.take(k));
        lemma_scan_stops(fs, k + 1);
    } else {
        assert(fs.take(k) =~= fs);
    }
}

/// Applies one field, `message[start..end]`, to the workload scan.
fn apply_field(message: &[u8], start: usize, end: usize, st: (Option<u8>, Option<u64>)) -> (r:
    Option<(Option<u8>, Option<u64>)>)
    requires
        start <= end <= message@.len(),
    ensures
        r == field_step(st, message@.subrange(start as int, end as int)),
{
    let ghost f = message@.subrange(start as int, end as int);
    let cpu: Vec<u8> = vec![57u8, 48u8, 48u8, 48u8, 61u8];
    let duration: Vec<u8> = vec![57u8, 48u8, 48u8, 49u8, 61u8];
    assert(cpu@ =~= cpu_tag());
    assert(duration@ =~= duration_tag());
    let is_cpu = has_prefix_at(message, start, end, cpu.as_slice());
    let is_duration = has_prefix_at(message, start, end, duration.as_slice());
    proof {
        if f.len() >= 5 {
            assert(f.take(5) =~= message@.subrange(start as int, start + 5));
        }
    }
    if is_cpu || is_duration {
        let value = slice_subrange(message, start + 5, end);
        assert(value@ =~= f.skip(5));
        if utf8_text(value).is_none() {
            return None;
        }
        if is_cpu {
            let parsed = parse_unsigned_bytes(value, 255);
            let v: Option<u8> = match parsed {
                Some(x) => Some(x as u8),
                None => None,
            };
            Some((v, st.1))
        } else {
            let parsed = parse_unsigned_bytes(value, 0xffff_ffff_ffff_ffff);
            Some((st.0, parsed))
        }
    } else {
        Some(st)
    }
}

/// The workload that a FIX message asks for with its `9000=` (CPU percent) and `9001=`
/// (duration in milliseconds) fields, when both are present, parse, and are within
/// the limits.
pub fn workload_fields(message: &[u8]) -> (r: Option<(u8, u64)>)
    ensures
        r == message_workload(message@),
{
    let n = message.len();
    let mut start: usize = 0;
    let mut st: (Option<u8>, Option<u64>) = (None, None);
    let ghost mut done: Seq<Seq<u8>> = Seq::empty();
    let mut i: usize = 0;
    assert(message@.take(0) =~= Seq::<u8>::empty());
    assert(message@.subrange(0, 0) =~= Seq::<u8>::empty());
    assert(split_fields(message@.take(0)) =~= done.push(message@.subrange(0, 0)));
    while i < n
        invariant
            start <= i <= n,
            n == message@.len(),
            split_fields(message@.take(i as int)) == done.push(message@.subrange(start as int, i as int)),
            scan_workload(done) == Some(st),
        decreases n - i,
    {
        let b = message[i];
        proof {
            lemma_split_fields_step(message@, i as int);
        }
        if b == 1u8 || b == 10u8 {
            let ghost f = message@.subrange(start as int, i as int);
            let next = apply_field(message, start, i, st);
            proof {
                assert(done.push(f).drop_last() =~= done);
            }
            match next {
                Some(s2) => {
                    st = s2;
                },
                None => {
                    proof {
                        let fs = split_fields(message@);
                        lemma_split_fields_prefix(message@, i + 1, n as int);
                        assert(message@.take(n as int) =~= message@);
                        let pre = split_fields(message@.take(i + 1));
                        assert(pre.drop_last() =~= done.push(f));
                        lemma_scan_stops(fs, done.len() + 1int);
                    }
                    return None;
                },
            }
            proof {
                done = done.push(f);
                assert(message@.subrange(i + 1, i + 1) =~= Seq::<u8>::empty());
            }
            start = i + 1;
        } else {
            proof {
                assert(message@.subrange(start as int, i + 1) =~= message@.subrange(
                    start as int,
                    i as int,
                ).push(message@[i as int]));
            }
        }
        i = i + 1;
    }
    let ghost f = message@.subrange(start as int, n as int);
    let last = apply_field(message, start, n, st);
    proof {
        assert(message@.take(n as int) =~= message@);
        assert(done.push(f).drop_last() =~= done);
    }
    match last {
        Some((Some(cpu), Some(duration))) => from_values(cpu, duration),
        _ => None,
    }
}


/// `8=FIX.4.4` followed by SOH: the BeginString field that opens every message.
pub open spec fn begin_string() -> Seq<u8> {
    seq![56u8, 61u8, 70u8, 73u8, 88u8, 46u8, 52u8, 46u8, 52u8, 1u8]
}

/// The three decimal digits of `c` (`c < 1000`), with leading zeros.
pub open spec fn three_digits(c: nat) -> Seq<u8> {
    seq![digit_byte(c / 100), digit_byte((c / 10) % 10), digit_byte(c % 10)]
}

/// What precedes the checksum: BeginString, `9=` with the body's length in decimal and
/// SOH, then the body.
pub open spec fn message_head(body: Seq<u8>) -> Seq<u8> {
    begin_string() + seq![57u8, 61u8] + decimal_digits(body.len()) + seq![1u8] + body
}

/// The checksum of a message: the sum of the bytes before the checksum field, modulo 256.
pub open spec fn checksum(head: Seq<u8>) -> nat {
    byte_sum(head) % 256
}

/// A complete FIX message around `body`: the head, then `10=`, the checksum in three
/// digits, SOH and a newline.
pub open spec fn fix_message(body: Seq<u8>) -> Seq<u8> {
    let head = message_head(body);
    head + seq![49u8, 48u8, 61u8] + three_digits(checksum(head)) + seq![1u8, 10u8]
}

/// The checksum of `message`: the sum of its bytes modulo 256.
fn checksum_of(message: &[u8]) -> (r: u8)
    ensures
        r as nat == checksum(message@),
{
    let n = message.len();
    let mut sum: u32 = 0;
    let mut i: usize = 0;
    while i < n
        invariant
            i <= n,
            n == message@.len(),
            sum < 256,
            sum as nat == byte_sum(message@.take(i as int)) % 256,
        decreases n - i,
    {
        proof {
            assert(message@.take(i + 1).drop_last() =~= message@.take(i as int));
            vstd::arithmetic::div_mod::lemma_add_mod_noop(
                byte_sum(message@.take(i as int)) as int,
                message@[i as int] as int,
                256,
            );
            vstd::arithmetic::div_mod::lemma_small_mod(message@[i as int] as nat, 256);
            vstd::arithmetic::div_mod::lemma_mod_twice(
                byte_sum(message@.take(i as int)) as int,
                256,
            );
        }
        sum = (sum + message[i] as u32) % 256;
        i = i + 1;
    }
    assert(message@.take(n as int) =~= message@);
    sum as u8
}

/// Wraps `body` into a FIX 4.4 message: BeginString, BodyLength, the body, and the
/// CheckSum field, followed by a newline.
pub fn build_message(body: &[u8]) -> (r: Vec<u8>)
    ensures
        r@ == fix_message(body@),
{
    let mut message: Vec<u8> = vec![56u8, 61u8, 70u8, 73u8, 88u8, 46u8, 52u8, 46u8, 52u8, 1u8];
    message.push(57u8);
    message.push(61u8);
    push_decimal(&mut message, body.len() as u64);
    message.push(1u8);
    append_bytes(&mut message, body);
    assert(message@ =~= message_head(body@));
    let c = checksum_of(message.as_slice());
    message.push(49u8);
    message.push(48u8);
    message.push(61u8);
    message.push(48u8 + c / 100);
    message.push(48u8 + (c / 10) % 10);
    message.push(48u8 + c % 10);
    message.push(1u8);
    message.push(10u8);
    assert(message@ =~= fix_message(body@));
    message
}

/// The body of a heartbeat: `35=0` and SOH.
pub open spec fn heartbeat_body() -> Seq<u8> {
    seq![51u8, 53u8, 61u8, 48u8, 1u8]
}

/// The body of a reject: `35=3`, SOH, `58=Unsupported FIX message`, SOH.
pub open spec fn reject_body() -> Seq<u8> {
    seq![
        51u8, 53u8, 61u8, 51u8, 1u8, 53u8, 56u8, 61u8, 85u8, 110u8, 115u8, 117u8, 112u8,
        112u8, 111u8, 114u8, 116u8, 101u8, 100u8, 32u8, 70u8, 73u8, 88u8, 32u8, 109u8, 101u8,
        115u8, 115u8, 97u8, 103u8, 101u8, 1u8,
    ]
}

/// The heartbeat message (`35=0`) sent in answer to a heartbeat.
pub fn heartbeat_message() -> (r: Vec<u8>)
    ensures
        r@ == fix_message(heartbeat_body()),
{
    let body: Vec<u8> = vec![51u8, 53u8, 61u8, 48u8, 1u8];
    assert(body@ =~= heartbeat_body());
    build_message(body.as_slice())
}

/// The reject message (`35=3`, text `Unsupported FIX message`) sent for anything else.
pub fn reject_message() -> (r: Vec<u8>)
    ensures
        r@ == fix_message(reject_body()),
{
    let body: Vec<u8> = vec![
        51u8, 53u8, 61u8, 51u8, 1u8, 53u8, 56u8, 61u8, 85u8, 110u8, 115u8, 117u8, 112u8,
        112u8, 111u8, 114u8, 116u8, 101u8, 100u8, 32u8, 70u8, 73u8, 88u8, 32u8, 109u8, 101u8,
        115u8, 115u8, 97u8, 103u8, 101u8, 1u8,
    ];
    assert(body@ =~= reject_body());
    build_message(body.as_slice())
}


/// What the FIX acceptor makes of one request line: the workload it asks for, the
/// message to send back, and whether the exchange counts as a success.
pub struct FixExchange {
    pub workload: Option<(u8, u64)>,
    pub response: Vec<u8>,
    pub success: bool,
}

/// Answers one FIX request line: a heartbeat with a heartbeat, anything else with a
/// reject; only a heartbeat counts as a success.
pub fn respond(request: &[u8]) -> (r: FixExchange)
    ensures
        r.workload == message_workload(request@),
        r.success == spec_is_heartbeat(request@),
        r.response@ == (if spec_is_heartbeat(request@) {
            fix_message(heartbeat_body())
        } else {
            fix_message(reject_body())
        }),
{
    let workload = workload_fields(request);
    let success = is_heartbeat(request);
    let response = if success {
        heartbeat_message()
    } else {
        reject_message()
    };
    FixExchange { workload, response, success }
}


/// The fields of two pieces joined by a separator are the fields of the first followed
/// by the fields of the second.
pub proof fn lemma_split_fields_concat(a: Seq<u8>, sep: u8, b: Seq<u8>)
    requires
        is_separator(sep),
    ensures
        split_fields(a + seq![sep] + b) == split_fields(a) + split_fields(b),
    decreases b.len(),
{
    let m = a + seq![sep] + b;
    if b.len() == 0 {
        assert(m.drop_last() =~= a);
        assert(split_fields(a) + split_fields(b) =~= split_fields(a).push(Seq::empty()));
    } else {
        lemma_split_fields_concat(a, sep, b.drop_last());
        lemma_split_fields_nonempty(b.drop_last());
        assert(m.drop_last() =~= a + seq![sep] + b.drop_last());
        let fa = split_fields(a);
        let fb = split_fields(b.drop_last());
        if is_separator(b.last()) {
            assert((fa + fb).push(Seq::empty()) =~= fa + fb.push(Seq::empty()));
        } else {
            let x = b.last();
            assert((fa + fb).update((fa + fb).len() - 1, (fa + fb).last().push(x)) =~= fa + fb.update(
                fb.len() - 1,
                fb.last().push(x),
            ));
        }
    }
}

/// A piece with no separator is a single field.
pub proof fn lemma_split_fields_single(f: Seq<u8>)
    requires
        forall|i: int| 0 <= i < f.len() ==> !is_separator(#[trigger] f[i]),
    ensures
        split_fields(f) == seq![f],
    decreases f.len(),
{
    if f.len() > 0 {
        lemma_split_fields_single(f.drop_last());
        assert(f.drop_last().push(f.last()) =~= f);
        assert(seq![f.drop_last()].update(0, f.drop_last().push(f.last())) =~= seq![f]);
    } else {
        assert(f =~= Seq::<u8>::empty());
    }
}

/// The reply to a heartbeat is itself recognised as a heartbeat: it holds the field
/// `35=0`.
pub proof fn heartbeat_reply_is_heartbeat()
    ensures
        spec_is_heartbeat(fix_message(heartbeat_body())),
{
    let m = fix_message(heartbeat_body());
    let head = message_head(heartbeat_body());
    assert(decimal_digits(5) =~= seq![53u8]);
    let a: Seq<u8> = seq![56u8, 61u8, 70u8, 73u8, 88u8, 46u8, 52u8, 46u8, 52u8, 1u8, 57u8, 61u8, 53u8];
    let rest: Seq<u8> = seq![49u8, 48u8, 61u8] + three_digits(checksum(head)) + seq![1u8, 10u8];
    assert(m =~= a + seq![1u8] + (heartbeat_field() + seq![1u8] + rest));
    lemma_split_fields_concat(a, 1u8, heartbeat_field() + seq![1u8] + rest);
    lemma_split_fields_concat(heartbeat_field(), 1u8, rest);
    assert forall|i: int| 0 <= i < heartbeat_field().len() implies !is_separator(
        #[trigger] heartbeat_field()[i],
    ) by {}
    lemma_split_fields_single(heartbeat_field());
    let fs = split_fields(m);
    let fa = split_fields(a);
    lemma_split_fields_nonempty(a);
    assert(fs == fa + (seq![heartbeat_field()] + split_fields(rest)));
    assert(fs[fa.len() as int] == heartbeat_field());
}

/// A message that carries the workload fields `9000=<cpu>` and `9001=<duration>`, each
/// written in decimal and ended by SOH.
pub open spec fn workload_message(cpu: u8, duration: u64) -> Seq<u8> {
    cpu_tag() + decimal_digits(cpu as nat) + seq![1u8] + duration_tag() + decimal_digits(
        duration as nat,
    ) + seq![1u8]
}

/// A workload written into FIX fields `9000=` and `9001=` in decimal is read back as
/// written, and accepted exactly when it is within the limits.
pub proof fn fix_workload_fields_read_back(cpu: u8, duration: u64)
    ensures
        message_workload(workload_message(cpu, duration)) == workload_request(cpu, duration),
{
    let dc = decimal_digits(cpu as nat);
    let dd = decimal_digits(duration as nat);
    let f1 = cpu_tag() + dc;
    let f2 = duration_tag() + dd;
    let m = workload_message(cpu, duration);
    lemma_decimal_digits_ascii(cpu as nat);
    lemma_decimal_digits_ascii(duration as nat);
    assert(m =~= f1 + seq![1u8] + (f2 + seq![1u8] + Seq::<u8>::empty()));
    lemma_split_fields_concat(f1, 1u8, f2 + seq![1u8] + Seq::<u8>::empty());
    lemma_split_fields_concat(f2, 1u8, Seq::<u8>::empty());
    assert forall|i: int| 0 <= i < f1.len() implies !is_separator(#[trigger] f1[i]) by {
        if i >= 5 {
            assert(f1[i] == dc[i - 5]);
        }
    }
    assert forall|i: int| 0 <= i < f2.len() implies !is_separator(#[trigger] f2[i]) by {
        if i >= 5 {
            assert(f2[i] == dd[i - 5]);
        }
    }
    lemma_split_fields_single(f1);
    lemma_split_fields_single(f2);
    let empty = Seq::<u8>::empty();
    assert(split_fields(empty) == seq![empty]);
    let fs = split_fields(m);
    assert(fs =~= seq![f1, f2, empty]);
    assert(f1.take(5) =~= cpu_tag());
    assert(f1.skip(5) =~= dc);
    assert(f2.take(5) =~= duration_tag());
    assert(f2.skip(5) =~= dd);
    assert(f2.take(5) != cpu_tag()) by {
        assert(f2.take(5)[3] != cpu_tag()[3]);
    }
    lemma_ascii_valid_utf8(dc);
    lemma_ascii_valid_utf8(dd);
    lemma_parse_decimal_digits(cpu as nat, 255);
    lemma_parse_decimal_digits(duration as nat, 0xffff_ffff_ffff_ffff);
    assert(fs.drop_last().drop_last().drop_last() =~= Seq::<Seq<u8>>::empty());
    assert(fs.drop_last().drop_last() =~= seq![f1]);
    assert(fs.drop_last() =~= seq![f1, f2]);
    assert(seq![f1].drop_last() =~= Seq::<Seq<u8>>::empty());
    assert(scan_workload(Seq::<Seq<u8>>::empty()) == Some((None::<u8>, None::<u64>)));
    assert(parse_unsigned(f1.skip(5), 255) == Some(cpu as nat));
    assert(as_u8_option(Some(cpu as nat)) == Some(cpu));
    assert(field_step((None, None), f1) == Some((Some(cpu), None::<u64>)));
    assert(scan_workload(seq![f1]) == Some((Some(cpu), None::<u64>)));
    assert(scan_workload(seq![f1, f2]) == Some((Some(cpu), Some(duration))));
    assert(scan_workload(fs) == Some((Some(cpu), Some(duration))));
}


/// The reply to anything other than a heartbeat is not itself a heartbeat: none of its
/// fields is `35=0`.
pub proof fn reject_reply_is_not_heartbeat()
    ensures
        !spec_is_heartbeat(fix_message(reject_body())),
{
    let m = fix_message(reject_body());
    let head = message_head(reject_body());
    assert(decimal_digits(3) =~= seq![51u8]);
    assert(decimal_digits(32) =~= seq![51u8, 50u8]);
    let c = three_digits(checksum(head));
    let f1: Seq<u8> = seq![56u8, 61u8, 70u8, 73u8, 88u8, 46u8, 52u8, 46u8, 52u8];
    let f2: Seq<u8> = seq![57u8, 61u8, 51u8, 50u8];
    let f3: Seq<u8> = seq![51u8, 53u8, 61u8, 51u8];
    let f4: Seq<u8> = reject_body().subrange(5, 31);
    let f5: Seq<u8> = seq![49u8, 48u8, 61u8] + c;
    let empty = Seq::<u8>::empty();
    let t5 = empty + seq![10u8] + empty;
    let t4 = f5 + seq![1u8] + t5;
    let t3 = f4 + seq![1u8] + t4;
    let t2 = f3 + seq![1u8] + t3;
    let t1 = f2 + seq![1u8] + t2;
    assert(m =~= f1 + seq![1u8] + t1);
    lemma_split_fields_concat(f1, 1u8, t1);
    lemma_split_fields_concat(f2, 1u8, t2);
    lemma_split_fields_concat(f3, 1u8, t3);
    lemma_split_fields_concat(f4, 1u8, t4);
    lemma_split_fields_concat(f5, 1u8, t5);
    lemma_split_fields_concat(empty, 10u8, empty);
    assert(forall|i: int| 0 <= i < f1.len() ==> !is_separator(#[trigger] f1[i]));
    assert(forall|i: int| 0 <= i < f2.len() ==> !is_separator(#[trigger] f2[i]));
    assert(forall|i: int| 0 <= i < f3.len() ==> !is_separator(#[trigger] f3[i]));
    assert(forall|i: int| 0 <= i < f4.len() ==> !is_separator(#[trigger] f4[i]));
    assert forall|i: int| 0 <= i < f5.len() implies !is_separator(#[trigger] f5[i]) by {
        if i >= 3 {
            assert(f5[i] == c[i - 3]);
        }
    }
    lemma_split_fields_single(f1);
    lemma_split_fields_single(f2);
    lemma_split_fields_single(f3);
    lemma_split_fields_single(f4);
    lemma_split_fields_single(f5);
    lemma_split_fields_single(empty);
    let fs = split_fields(m);
    assert(fs =~= seq![f1, f2, f3, f4, f5, empty, empty]);
    let hb = heartbeat_field();
    assert(f2[0] != hb[0]);
    assert(f3[3] != hb[3]);
    if fs.contains(hb) {
        let k = choose|k: int| 0 <= k < fs.len() && fs[k] == hb;
        assert(fs[k].len() == 4);
    }
}


/// The BeginString field, `8=FIX.4.4`.
pub open spec fn begin_field() -> Seq<u8> {
    seq![56u8, 61u8, 70u8, 73u8, 88u8, 46u8, 52u8, 46u8, 52u8]
}

/// The BodyLength field for a body of `len` bytes.
pub open spec fn length_field(len: nat) -> Seq<u8> {
    seq![57u8, 61u8] + decimal_digits(len)
}

/// The CheckSum field of a message whose head is `head`.
pub open spec fn checksum_field(head: Seq<u8>) -> Seq<u8> {
    seq![49u8, 48u8, 61u8] + three_digits(checksum(head))
}

/// Whether a field changes nothing in the workload scan.
pub open spec fn is_neutral_field(f: Seq<u8>) -> bool {
    forall|st: (Option<u8>, Option<u64>)| #[trigger] field_step(st, f) == Some(st)
}

/// A sequence joined from two contains `x` when either part does.
pub proof fn lemma_contains_concat(a: Seq<Seq<u8>>, b: Seq<Seq<u8>>, x: Seq<u8>)
    ensures
        (a + b).contains(x) <==> (a.contains(x) || b.contains(x)),
{
    if a.contains(x) {
        let k = choose|k: int| 0 <= k < a.len() && a[k] == x;
        assert((a + b)[k] == x);
    }
    if b.contains(x) {
        let k = choose|k: int| 0 <= k < b.len() && b[k] == x;
        assert((a + b)[a.len() + k] == x);
    }
    if (a + b).contains(x) {
        let k = choose|k: int| 0 <= k < (a + b).len() && (a + b)[k] == x;
        if k < a.len() {
            assert(a[k] == x);
        } else {
            assert(b[k - a.len()] == x);
        }
    }
}

/// Scans that agree on a prefix agree on any continuation.
pub proof fn lemma_scan_same_prefix(p: Seq<Seq<u8>>, q: Seq<Seq<u8>>, rest: Seq<Seq<u8>>)
    requires
        scan_workload(p) == scan_workload(q),
    ensures
        scan_workload(p + rest) == scan_workload(q + rest),
    decreases rest.len(),
{
    if rest.len() == 0 {
        assert(p + rest =~= p);
        assert(q + rest =~= q);
    } else {
        lemma_scan_same_prefix(p, q, rest.drop_last());
        assert((p + rest).drop_last() =~= p + rest.drop_last());
        assert((q + rest).drop_last() =~= q + rest.drop_last());
    }
}

/// A piece of digits holds no separator.
proof fn lemma_no_separator_after(prefix: Seq<u8>, digits: Seq<u8>)
    requires
        forall|i: int| 0 <= i < prefix.len() ==> !is_separator(#[trigger] prefix[i]),
        forall|i: int| 0 <= i < digits.len() ==> 48 <= #[trigger] digits[i] <= 57,
    ensures
        forall|i: int|
            0 <= i < (prefix + digits).len() ==> !is_separator(#[trigger] (prefix + digits)[i]),
{
    assert forall|i: int| 0 <= i < (prefix + digits).len() implies !is_separator(
        #[trigger] (prefix + digits)[i],
    ) by {
        if i >= prefix.len() {
            assert((prefix + digits)[i] == digits[i - prefix.len()]);
        } else {
            assert((prefix + digits)[i] == prefix[i]);
        }
    }
}

/// The fields of a framed message, for a body that is empty or ends with a separator:
/// BeginString, BodyLength, the body's fields, CheckSum, and two empty fields (after the
/// closing SOH and after the newline).
pub proof fn lemma_fix_message_fields(body: Seq<u8>)
    requires
        body.len() == 0 || is_separator(body.last()),
    ensures
        split_fields(fix_message(body)) == seq![begin_field(), length_field(body.len())]
            + split_fields(body).drop_last() + seq![
            checksum_field(message_head(body)),
            Seq::<u8>::empty(),
            Seq::<u8>::empty(),
        ],
{
    let f1 = begin_field();
    let f2 = length_field(body.len());
    let f5 = checksum_field(message_head(body));
    let empty = Seq::<u8>::empty();
    let tail = empty + seq![10u8] + empty;
    let t5 = f5 + seq![1u8] + tail;
    lemma_decimal_digits_ascii(body.len());
    lemma_no_separator_after(seq![57u8, 61u8], decimal_digits(body.len()));
    let c = three_digits(checksum(message_head(body)));
    assert(forall|i: int| 0 <= i < c.len() ==> 48 <= #[trigger] c[i] <= 57);
    lemma_no_separator_after(seq![49u8, 48u8, 61u8], c);
    assert(forall|i: int| 0 <= i < f1.len() ==> !is_separator(#[trigger] f1[i]));
    lemma_split_fields_single(f1);
    lemma_split_fields_single(f2);
    lemma_split_fields_single(f5);
    lemma_split_fields_single(empty);
    lemma_split_fields_concat(empty, 10u8, empty);
    lemma_split_fields_concat(f5, 1u8, tail);
    let sf5 = split_fields(t5);
    assert(sf5 =~= seq![f5, empty, empty]);
    if body.len() == 0 {
        let t2 = f2 + seq![1u8] + t5;
        assert(fix_message(body) =~= f1 + seq![1u8] + t2);
        lemma_split_fields_concat(f1, 1u8, t2);
        lemma_split_fields_concat(f2, 1u8, t5);
        assert(split_fields(body) =~= seq![empty]);
        assert(split_fields(fix_message(body)) =~= seq![f1, f2] + split_fields(body).drop_last()
            + sf5);
    } else {
        let b = body.drop_last();
        let s = body.last();
        let t3 = b + seq![s] + t5;
        let t2 = f2 + seq![1u8] + t3;
        assert(body =~= b + seq![s] + empty);
        assert(fix_message(body) =~= f1 + seq![1u8] + t2);
        lemma_split_fields_concat(f1, 1u8, t2);
        lemma_split_fields_concat(f2, 1u8, t3);
        lemma_split_fields_concat(b, s, t5);
        lemma_split_fields_concat(b, s, empty);
        assert(split_fields(body) == split_fields(b) + seq![empty]);
        assert(split_fields(body).drop_last() =~= split_fields(b));
        assert(split_fields(fix_message(body)) =~= seq![f1, f2] + split_fields(b) + sf5);
    }
}

/// Framing a body that is empty or ends with a separator keeps the heartbeat test:
/// the fields that framing adds are never `35=0`.
pub proof fn framing_keeps_heartbeat(body: Seq<u8>)
    requires
        body.len() == 0 || is_separator(body.last()),
    ensures
        spec_is_heartbeat(fix_message(body)) == spec_is_heartbeat(body),
{
    lemma_fix_message_fields(body);
    let hb = heartbeat_field();
    let d = split_fields(body).drop_last();
    let f1 = begin_field();
    let f2 = length_field(body.len());
    let f5 = checksum_field(message_head(body));
    let empty = Seq::<u8>::empty();
    lemma_split_fields_nonempty(body);
    lemma_contains_concat(seq![f1, f2] + d, seq![f5, empty, empty], hb);
    lemma_contains_concat(seq![f1, f2], d, hb);
    assert(split_fields(body) =~= d + seq![split_fields(body).last()]);
    lemma_contains_concat(d, seq![split_fields(body).last()], hb);
    if body.len() == 0 {
        assert(split_fields(body).last() == empty);
    } else {
        lemma_split_fields_step(body, body.len() - 1);
        assert(body.take(body.len() - 1) =~= body.drop_last());
        assert(body.take(body.len() as int) =~= body);
        assert(split_fields(body).last() == empty);
    }
    assert(f1[0] != hb[0]);
    assert(f2[1] != hb[1]);
    assert(f5[0] != hb[0]);
    assert(!seq![f1, f2].contains(hb)) by {
        if seq![f1, f2].contains(hb) {
            let k = choose|k: int| 0 <= k < 2 && seq![f1, f2][k] == hb;
            assert(k == 0 || k == 1);
        }
    }
    assert(!seq![f5, empty, empty].contains(hb)) by {
        if seq![f5, empty, empty].contains(hb) {
            let k = choose|k: int| 0 <= k < 3 && seq![f5, empty, empty][k] == hb;
            assert(k == 0 || k == 1 || k == 2);
        }
    }
    assert(!seq![empty].contains(hb)) by {
        if seq![empty].contains(hb) {
            let k = choose|k: int| 0 <= k < 1 && seq![empty][k] == hb;
        }
    }
}

/// Framing a body that is empty or ends with a separator keeps the workload it asks
/// for: the fields that framing adds never carry `9000=` or `9001=`.
pub proof fn framing_keeps_workload(body: Seq<u8>)
    requires
        body.len() == 0 || is_separator(body.last()),
    ensures
        message_workload(fix_message(body)) == message_workload(body),
{
    lemma_fix_message_fields(body);
    let d = split_fields(body).drop_last();
    let f1 = begin_field();
    let f2 = length_field(body.len());
    let f5 = checksum_field(message_head(body));
    let empty = Seq::<u8>::empty();
    assert(f1.take(5)[0] != cpu_tag()[0] && f1.take(5)[0] != duration_tag()[0]);
    assert(is_neutral_field(f1));
    lemma_decimal_digits(body.len());
    if f2.len() >= 5 {
        assert(f2.take(5)[1] != cpu_tag()[1] && f2.take(5)[1] != duration_tag()[1]);
    }
    assert(is_neutral_field(f2));
    assert(f5.take(5)[0] != cpu_tag()[0] && f5.take(5)[0] != duration_tag()[0]);
    assert(is_neutral_field(f5));
    assert(is_neutral_field(empty));
    let e0 = Seq::<Seq<u8>>::empty();
    assert(seq![f1, f2].drop_last() =~= seq![f1]);
    assert(seq![f1].drop_last() =~= e0);
    assert(scan_workload(seq![f1]) == Some((None::<u8>, None::<u64>)));
    assert(scan_workload(seq![f1, f2]) == scan_workload(e0));
    lemma_scan_same_prefix(seq![f1, f2], e0, d);
    assert(e0 + d =~= d);
    let a = seq![f1, f2] + d;
    assert((a + seq![f5, empty, empty]).drop_last() =~= a + seq![f5, empty]);
    assert((a + seq![f5, empty]).drop_last() =~= a + seq![f5]);
    assert((a + seq![f5]).drop_last() =~= a);
    lemma_split_fields_nonempty(body);
    let fb = split_fields(body);
    assert(fb.drop_last() == d);
    if body.len() == 0 {
        assert(fb.last() == empty);
    } else {
        lemma_split_fields_step(body, body.len() - 1);
        assert(body.take(body.len() - 1) =~= body.drop_last());
        assert(body.take(body.len() as int) =~= body);
        assert(fb.last() == empty);
    }
    assert(scan_workload(a) == scan_workload(d));
    assert(scan_workload(a + seq![f5]) == scan_workload(a)) by {
        assert((a + seq![f5]).last() == f5);
        if let Some(st) = scan_workload(a) {
            assert(field_step(st, f5) == Some(st));
        }
    }
    assert(scan_workload(a + seq![f5, empty]) == scan_workload(a + seq![f5])) by {
        assert((a + seq![f5, empty]).last() == empty);
        if let Some(st) = scan_workload(a + seq![f5]) {
            assert(field_step(st, empty) == Some(st));
        }
    }
    assert(scan_workload(a + seq![f5, empty, empty]) == scan_workload(a + seq![f5, empty])) by {
        assert((a + seq![f5, empty, empty]).last() == empty);
        if let Some(st) = scan_workload(a + seq![f5, empty]) {
            assert(field_step(st, empty) == Some(st));
        }
    }
    assert(scan_workload(fb) == scan_workload(d)) by {
        if let Some(st) = scan_workload(d) {
            assert(field_step(st, empty) == Some(st));
        }
    }
    assert(split_fields(fix_message(body)) == a + seq![f5, empty, empty]);
    assert(scan_workload(split_fields(fix_message(body))) == scan_workload(d));
}


/// Three digits with leading zeros write any number below 1000 exactly.
pub proof fn three_digits_write_the_number(c: nat)
    requires
        c < 1000,
    ensures
        three_digits(c).len() == 3,
        all_digits(three_digits(c)),
        digits_value(three_digits(c)) == c,
{
    let d = three_digits(c);
    vstd::arithmetic::div_mod::lemma_fundamental_div_mod(c as int, 10);
    vstd::arithmetic::div_mod::lemma_fundamental_div_mod((c / 10) as int, 10);
    vstd::arithmetic::div_mod::lemma_div_denominator(c as int, 10, 10);
    assert(c / 100 < 10);
    assert(digit_byte(c / 100) == 48 + c / 100);
    assert(digit_byte((c / 10) % 10) == 48 + (c / 10) % 10);
    assert(digit_byte(c % 10) == 48 + c % 10);
    assert(d.drop_last().drop_last().drop_last() =~= Seq::<u8>::empty());
    assert(d.drop_last().drop_last() =~= seq![d[0]]);
    assert(d.drop_last() =~= seq![d[0], d[1]]);
    assert(d[0] == 48 + c / 100);
    assert(d[1] == 48 + (c / 10) % 10);
    assert(d[2] == 48 + c % 10);
    assert(seq![d[0]].drop_last() =~= Seq::<u8>::empty());
    assert(digits_value(Seq::<u8>::empty()) == 0);
    assert(seq![d[0]].last() == d[0]);
    assert(seq![d[0], d[1]].drop_last() =~= seq![d[0]]);
    assert(digits_value(seq![d[0]]) == c / 100);
    assert(digits_value(seq![d[0], d[1]]) == (c / 100) * 10 + (c / 10) % 10);
    assert((c / 10) / 10 == c / 100);
    assert(10 * (c / 100) == (c / 100) * 10);
    assert(10 * (c / 10) == (c / 10) * 10);
}

/// A framed message is its head (BeginString, then `9=` and the body's length written
/// in decimal without leading zeros, SOH, and the body), then `10=`, three digits whose
/// value is the byte sum of the head modulo 256, SOH and a newline.
pub proof fn framed_message_layout(body: Seq<u8>)
    ensures
        ({
            let m = fix_message(body);
            let head = message_head(body);
            let h = head.len() as int;
            let len_digits = head.subrange(12, h - body.len() - 1);
            &&& m.len() == h + 8
            &&& m.take(h) == head
            &&& head.take(12) == seq![56u8, 61u8, 70u8, 73u8, 88u8, 46u8, 52u8, 46u8, 52u8, 1u8, 57u8, 61u8]
            &&& head[h - body.len() - 1] == 1u8
            &&& head.skip(h - body.len()) == body
            &&& len_digits.len() >= 1
            &&& all_digits(len_digits)
            &&& digits_value(len_digits) == body.len()
            &&& (len_digits.len() == 1 || len_digits[0] != 48u8)
            &&& m.subrange(h, h + 3) == seq![49u8, 48u8, 61u8]
            &&& all_digits(m.subrange(h + 3, h + 6))
            &&& digits_value(m.subrange(h + 3, h + 6)) == byte_sum(head) % 256
            &&& m[h + 6] == 1u8
            &&& m[h + 7] == 10u8
        }),
{
    let m = fix_message(body);
    let head = message_head(body);
    let h = head.len() as int;
    let dd = decimal_digits(body.len());
    crate::text::lemma_decimal_digits(body.len());
    lemma_leading_digit(body.len());
    three_digits_write_the_number(checksum(head));
    assert(head =~= seq![56u8, 61u8, 70u8, 73u8, 88u8, 46u8, 52u8, 46u8, 52u8, 1u8, 57u8, 61u8] + dd
        + seq![1u8] + body);
    assert(head.subrange(12, h - body.len() - 1) =~= dd);
    assert(head.skip(h - body.len()) =~= body);
    assert(m.take(h) =~= head);
    assert(m.subrange(h, h + 3) =~= seq![49u8, 48u8, 61u8]);
    assert(m.subrange(h + 3, h + 6) =~= three_digits(checksum(head)));
}

/// The decimal digits of a number start with a zero only when the number is zero.
pub proof fn lemma_leading_digit(n: nat)
    ensures
        decimal_digits(n).len() == 1 || decimal_digits(n)[0] != 48u8,
    decreases n,
{
    if n >= 10 {
        let q = n / 10;
        lemma_leading_digit(q);
        crate::text::lemma_decimal_digits(q);
        assert(decimal_digits(n) == decimal_digits(q).push(digit_byte(n % 10)));
        assert(decimal_digits(n)[0] == decimal_digits(q)[0]);
        if q < 10 {
            assert(decimal_digits(q) == seq![digit_byte(q)]);
            assert(digit_byte(q) == 48 + q);
        } else {
            assert(decimal_digits(q) == decimal_digits(q / 10).push(digit_byte(q % 10)));
            crate::text::lemma_decimal_digits(q / 10);
        }
    }
}

} // verus!
