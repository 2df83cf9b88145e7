use vstd::prelude::*;
use vstd::string::StringSliceAdditionalSpecFns;
use vstd::utf8::valid_utf8;

verus! {

/// The ASCII code of the digit `d` (`0 <= d < 10`).
pub open spec fn digit_byte(d: nat) -> u8 {
    (48 + d) as u8
}

/// Whether `b` is an ASCII decimal digit.
pub open spec fn is_digit(b: u8) -> bool {
    48 <= b <= 57
}

/// The shortest decimal representation of `n`, most significant digit first.
pub open spec fn decimal_digits(n: nat) -> Seq<u8>
    decreases n,
{
    if n < 10 {
        seq![digit_byte(n)]
    } else {
        decimal_digits(n / 10).push(digit_byte(n % 10))
    }
}

/// Appends the decimal representation of `n` to `out`.
pub fn push_decimal(out: &mut Vec<u8>, n: u64)
    ensures
        final(out)@ == old(out)@ + decimal_digits(n as nat),
    decreases n,
{
    if n >= 10 {
        push_decimal(out, n / 10);
    }
    let d: u8 = (n % 10) as u8;
    out.push(48u8 + d);
    assert(out@ =~= old(out)@ + decimal_digits(n as nat));
}


/// The number written by the decimal digits `s`, most significant first.
pub open spec fn digits_value(s: Seq<u8>) -> nat
    decreases s.len(),
{
    if s.len() == 0 {
        0
    } else {
        digits_value(s.drop_last()) * 10 + (s.last() - 48) as nat
    }
}

/// Whether every byte of `s` is an ASCII decimal digit.
pub open spec fn all_digits(s: Seq<u8>) -> bool {
    forall|i: int| 0 <= i < s.len() ==> is_digit(#[trigger] s[i])
}

/// `s` without one leading `+` sign, if it has one.
pub open spec fn unsigned_digits(s: Seq<u8>) -> Seq<u8> {
    if s.len() > 0 && s[0] == 43 {
        s.drop_first()
    } else {
        s
    }
}

/// What parsing `s` as an unsigned integer type whose largest value is `max` gives:
/// an optional `+`, then at least one decimal digit and nothing else, with a value
/// of at most `max`.
pub open spec fn parse_unsigned(s: Seq<u8>, max: nat) -> Option<nat> {
    let d = unsigned_digits(s);
    if d.len() > 0 && all_digits(d) && digits_value(d) <= max {
        Some(digits_value(d))
    } else {
        None
    }
}

/// Appending a digit never makes a decimal number smaller.
pub proof fn lemma_digits_value_prefix(s: Seq<u8>, i: int, j: int)
    requires
        0 <= i <= j <= s.len(),
        all_digits(s),
    ensures
        digits_value(s.take(i)) <= digits_value(s.take(j)),
    decreases j - i,
{
    if i < j {
        lemma_digits_value_prefix(s, i, j - 1);
        assert(s.take(j).drop_last() =~= s.take(j - 1));
    }
}

/// Parses `s` the way Rust's `FromStr` does for an unsigned integer type whose largest
/// value is `max`.
pub fn parse_unsigned_bytes(s: &[u8], max: u64) -> (r: Option<u64>)
    ensures
        match r {
            Some(v) => parse_unsigned(s@, max as nat) == Some(v as nat),
            None => parse_unsigned(s@, max as nat) is None,
        },
{
    let n = s.len();
    let mut start: usize = 0;
    if n > 0 && s[0] == 43u8 {
        start = 1;
    }
    let ghost d = unsigned_digits(s@);
    assert(d =~= s@.skip(start as int));
    if start == n {
        return None;
    }
    let mut acc: u128 = 0;
    let mut i: usize = start;
    while i < n
        invariant
            start <= i <= n,
            n == s@.len(),
            d == s@.skip(start as int),
            d == unsigned_digits(s@),
            forall|k: int| 0 <= k < i - start ==> is_digit(#[trigger] d[k]),
            acc == digits_value(d.take(i - start)),
            acc <= max,
        decreases n - i,
    {
        let b = s[i];
        if b < 48u8 || b > 57u8 {
            assert(!is_digit(d[i - start]));
            assert(!all_digits(d));
            assert(parse_unsigned(s@, max as nat) is None);
            return None;
        }
        let next: u128 = acc * 10 + (b - 48u8) as u128;
        assert(d.take(i + 1 - start).drop_last() =~= d.take(i - start));
        if next > max as u128 {
            proof {
                if all_digits(d) {
                    lemma_digits_value_prefix(d, i + 1 - start, d.len() as int);
                    assert(d.take(d.len() as int) =~= d);
                }
            }
            assert(parse_unsigned(s@, max as nat) is None);
            return None;
        }
        acc = next;
        i = i + 1;
    }
    assert(d.take(n - start) =~= d);
    Some(acc as u64)
}


/// The sum of the bytes of `s`.
pub open spec fn byte_sum(s: Seq<u8>) -> nat
    decreases s.len(),
{
    if s.len() == 0 {
        0
    } else {
        byte_sum(s.drop_last()) + s.last() as nat
    }
}

/// Appends the bytes of `src` to `out`.
pub fn append_bytes(out: &mut Vec<u8>, src: &[u8])
    ensures
        final(out)@ == old(out)@ + src@,
{
    let n = src.len();
    let mut i: usize = 0;
    while i < n
        invariant
            i <= n,
            n == src@.len(),
            out@ == old(out)@ + src@.take(i as int),
        decreases n - i,
    {
        out.push(src[i]);
        assert(src@.take(i + 1) =~= src@.take(i as int).push(src@[i as int]));
        i = i + 1;
    }
    assert(src@.take(n as int) =~= src@);
}

/// Whether `s` and `t` hold the same bytes.
pub fn bytes_equal(s: &[u8], t: &[u8]) -> (r: bool)
    ensures
        r == (s@ == t@),
{
    if s.len() != t.len() {
        return false;
    }
    let n = s.len();
    let mut i: usize = 0;
    while i < n
        invariant
            i <= n,
            n == s@.len(),
            n == t@.len(),
            forall|k: int| 0 <= k < i ==> s@[k] == t@[k],
        decreases n - i,
    {
        if s[i] != t[i] {
            return false;
        }
        i = i + 1;
    }
    assert(s@ =~= t@);
    true
}

/// Whether the bytes of `s` starting at `start` begin with `prefix`.
pub fn has_prefix_at(s: &[u8], start: usize, end: usize, prefix: &[u8]) -> (r: bool)
    requires
        start <= end <= s@.len(),
    ensures
        r == (prefix@.len() <= end - start && s@.subrange(start as int, start + prefix@.len())
            == prefix@),
{
    let k = prefix.len();
    if k > end - start {
        return false;
    }
    let mut i: usize = 0;
    while i < k
        invariant
            i <= k,
            k == prefix@.len(),
            start + k <= end <= s@.len(),
            forall|j: int| 0 <= j < i ==> s@[start + j] == prefix@[j],
        decreases k - i,
    {
        if s[start + i] != prefix[i] {
            assert(s@.subrange(start as int, start + k)[i as int] != prefix@[i as int]);
            return false;
        }
        i = i + 1;
    }
    assert(s@.subrange(start as int, start + k) =~= prefix@);
    true
}

/// Wraps `std::str::from_utf8`: as its documentation states, it succeeds exactly when
/// `bytes` is well-formed UTF-8, and the text it then gives is encoded by `bytes`.
#[verifier::external_body]
pub fn utf8_text(bytes: &[u8]) -> (r: Option<&str>)
    ensures
        r is Some <==> valid_utf8(bytes@),
        r matches Some(t) ==> t.spec_bytes() == bytes@,
{
    std::str::from_utf8(bytes).ok()
}


/// Bytes below 128 (ASCII) are well-formed UTF-8.
pub proof fn lemma_ascii_valid_utf8(s: Seq<u8>)
    requires
        forall|i: int| 0 <= i < s.len() ==> #[trigger] s[i] < 128,
    ensures
        valid_utf8(s),
    decreases s.len(),
{
    if s.len() > 0 {
        let b = s[0];
        assert(b < 128);
        assert(((b & 0x7F) as u32) < 0x80) by (bit_vector);
        assert(vstd::utf8::pop_first_scalar(s) =~= s.drop_first());
        lemma_ascii_valid_utf8(s.drop_first());
    }
}

/// The decimal digits of `n` are digits, start with a digit, and have the value `n`.
pub proof fn lemma_decimal_digits(n: nat)
    ensures
        decimal_digits(n).len() >= 1,
        all_digits(decimal_digits(n)),
        digits_value(decimal_digits(n)) == n,
    decreases n,
{
    if n >= 10 {
        lemma_decimal_digits(n / 10);
        let d = decimal_digits(n);
        assert(d.drop_last() =~= decimal_digits(n / 10));
        vstd::arithmetic::div_mod::lemma_fundamental_div_mod(n as int, 10);
        assert(d.last() == digit_byte(n % 10));
        assert(digits_value(d) == digits_value(decimal_digits(n / 10)) * 10 + (n % 10));
        assert((n / 10) * 10 == 10 * (n / 10)) by (nonlinear_arith);
        assert forall|i: int| 0 <= i < d.len() implies is_digit(#[trigger] d[i]) by {
            if i < d.len() - 1 {
                assert(d[i] == decimal_digits(n / 10)[i]);
            }
        }
    } else {
        assert(decimal_digits(n).drop_last() =~= Seq::<u8>::empty());
        assert(digit_byte(n) == 48 + n);
        assert(decimal_digits(n).last() == digit_byte(n));
        assert(digits_value(decimal_digits(n).drop_last()) == 0);
        assert(digits_value(decimal_digits(n)) == n);
    }
}

/// Parsing the decimal digits of `n` gives `n` back, when `n` fits.
pub proof fn lemma_parse_decimal_digits(n: nat, max: nat)
    ensures
        parse_unsigned(decimal_digits(n), max) == (if n <= max {
            Some(n)
        } else {
            None::<nat>
        }),
{
    lemma_decimal_digits(n);
    let d = decimal_digits(n);
    assert(is_digit(d[0]));
    assert(unsigned_digits(d) == d);
}

/// The decimal digits of a number are ASCII.
pub proof fn lemma_decimal_digits_ascii(n: nat)
    ensures
        forall|i: int|
            0 <= i < decimal_digits(n).len() ==> 48 <= #[trigger] decimal_digits(n)[i] <= 57,
{
    lemma_decimal_digits(n);
    assert forall|i: int| 0 <= i < decimal_digits(n).len() implies 48 <= #[trigger] decimal_digits(
        n,
    )[i] <= 57 by {
        assert(is_digit(decimal_digits(n)[i]));
    }
}

} // verus!
