use vstd::prelude::*;

use axum::http::HeaderMap;

use crate::text::{
    decimal_digits, lemma_decimal_digits_ascii, lemma_parse_decimal_digits, parse_unsigned,
    parse_unsigned_bytes,
};

verus! {

/// The highest CPU load, in percent, that a workload may ask for.
pub const MAX_CPU_PERCENT: u8 = 100;

/// The longest duration, in milliseconds, that a workload may ask for.
pub const MAX_DURATION_MS: u64 = 60000;

/// A requested workload is accepted exactly when it stays within both limits.
pub open spec fn workload_request(cpu_percent: u8, duration_ms: u64) -> Option<(u8, u64)> {
    if cpu_percent <= MAX_CPU_PERCENT && duration_ms <= MAX_DURATION_MS {
        Some((cpu_percent, duration_ms))
    } else {
        None
    }
}

/// Accepts a requested CPU load and duration when both are within their limits.
pub fn from_values(cpu_percent: u8, duration_ms: u64) -> (r: Option<(u8, u64)>)
    ensures
        r == workload_request(cpu_percent, duration_ms),
{
    if cpu_percent <= MAX_CPU_PERCENT && duration_ms <= MAX_DURATION_MS {
        Some((cpu_percent, duration_ms))
    } else {
        None
    }
}


/// The header that carries the requested CPU load, in percent.
pub const CPU_HEADER: &'static str = "x-workload-cpu-percent";

/// The header that carries the requested duration, in milliseconds.
pub const DURATION_HEADER: &'static str = "x-workload-duration-ms";

#[verifier::external_type_specification]
#[verifier::external_body]
#[verifier::reject_recursive_types(T)]
pub struct ExHeaderMap<T>(axum::http::HeaderMap<T>);

#[verifier::external_type_specification]
#[verifier::external_body]
pub struct ExHeaderValue(axum::http::HeaderValue);

/// What a header map holds: for each header name present (in lowercase), the first
/// value stored under it, as bytes.
pub uninterp spec fn header_values(headers: HeaderMap) -> Map<Seq<char>, Seq<u8>>;

/// Whether `name` is a header name written in lowercase letters, digits and dashes.
pub open spec fn is_lowercase_header_name(name: Seq<char>) -> bool {
    &&& name.len() > 0
    &&& forall|i: int|
        0 <= i < name.len() ==> ('a' <= #[trigger] name[i] <= 'z' || '0' <= name[i] <= '9'
            || name[i] == '-')
}

/// The first value stored under `name`, if any.
pub open spec fn header_lookup(values: Map<Seq<char>, Seq<u8>>, name: Seq<char>) -> Option<
    Seq<u8>,
> {
    if values.contains_key(name) {
        Some(values[name])
    } else {
        None
    }
}

/// Wraps `HeaderMap::get`: the first value stored under the lowercase `name`, as its
/// bytes, or `None` when the map holds no value under that name.
#[verifier::external_body]
fn header_bytes(headers: &HeaderMap, name: &str) -> (r: Option<Vec<u8>>)
    requires
        is_lowercase_header_name(name@),
    ensures
        match r {
            Some(v) => header_lookup(header_values(*headers), name@) == Some(v@),
            None => header_lookup(header_values(*headers), name@) is None,
        },
{
    headers.get(name).map(|value| value.as_bytes().to_vec())
}

/// Whether a header value byte is visible ASCII or a tab, the bytes that a header value
/// must consist of to be read as text.
pub open spec fn is_visible_ascii(b: u8) -> bool {
    (32 <= b && b < 127) || b == 9
}

/// The number that a header value gives: it must be visible ASCII text, and then parse
/// as an unsigned integer of at most `max`.
pub open spec fn header_number(value: Option<Seq<u8>>, max: nat) -> Option<nat> {
    match value {
        Some(bytes) => if forall|i: int| 0 <= i < bytes.len() ==> is_visible_ascii(
            #[trigger] bytes[i],
        ) {
            parse_unsigned(bytes, max)
        } else {
            None
        },
        None => None,
    }
}

/// The workload that two header values ask for: both present, readable as text, parsed
/// (as `u8` and `u64`) and within the limits.
pub open spec fn header_workload(cpu: Option<Seq<u8>>, duration: Option<Seq<u8>>) -> Option<
    (u8, u64),
> {
    match (header_number(cpu, 255), header_number(duration, 0xffff_ffff_ffff_ffff)) {
        (Some(c), Some(d)) => workload_request(c as u8, d as u64),
        _ => None,
    }
}

/// The bytes of an optional byte slice.
pub open spec fn bytes_view(value: Option<&[u8]>) -> Option<Seq<u8>> {
    match value {
        Some(b) => Some(b@),
        None => None,
    }
}

/// Reads a header value as text and parses it as an unsigned integer of at most `max`.
fn header_number_of(value: Option<&[u8]>, max: u64) -> (r: Option<u64>)
    ensures
        match r {
            Some(v) => header_number(
                bytes_view(value),
                max as nat,
            ) == Some(v as nat),
            None => header_number(
                bytes_view(value),
                max as nat,
            ) is None,
        },
{
    match value {
        None => None,
        Some(bytes) => {
            let n = bytes.len();
            let mut i: usize = 0;
            while i < n
                invariant
                    i <= n,
                    n == bytes@.len(),
                    bytes_view(value) == Some(bytes@),
                    forall|k: int| 0 <= k < i ==> is_visible_ascii(#[trigger] bytes@[k]),
                decreases n - i,
            {
                let b = bytes[i];
                if !((32u8 <= b && b < 127u8) || b == 9u8) {
                    assert(!is_visible_ascii(bytes@[i as int]));
                    assert(header_number(Some(bytes@), max as nat) is None);
                    return None;
                }
                i = i + 1;
            }
            parse_unsigned_bytes(bytes, max)
        },
    }
}

/// The workload that a CPU-percent value and a duration value ask for, read as text
/// and parsed the way request headers and gRPC metadata are.
pub fn from_header_values(cpu: Option<&[u8]>, duration: Option<&[u8]>) -> (r: Option<
    (u8, u64),
>)
    ensures
        r == header_workload(
            bytes_view(cpu),
            bytes_view(duration),
        ),
{
    let c = header_number_of(cpu, 255);
    let d = header_number_of(duration, 0xffff_ffff_ffff_ffff);
    match (c, d) {
        (Some(c), Some(d)) => from_values(c as u8, d),
        _ => None,
    }
}

/// The workload that a request's `x-workload-cpu-percent` and `x-workload-duration-ms`
/// headers ask for.
pub fn from_headers(headers: &HeaderMap) -> (r: Option<(u8, u64)>)
    ensures
        r == header_workload(
            header_lookup(header_values(*headers), CPU_HEADER@),
            header_lookup(header_values(*headers), DURATION_HEADER@),
        ),
{
    proof {
        reveal_strlit("x-workload-cpu-percent");
        reveal_strlit("x-workload-duration-ms");
    }
    let cpu = header_bytes(headers, CPU_HEADER);
    let duration = header_bytes(headers, DURATION_HEADER);
    let cpu_slice: Option<&[u8]> = match &cpu {
        Some(v) => Some(v.as_slice()),
        None => None,
    };
    let duration_slice: Option<&[u8]> = match &duration {
        Some(v) => Some(v.as_slice()),
        None => None,
    };
    from_header_values(cpu_slice, duration_slice)
}


/// The length of one busy-then-idle slice of a workload, in milliseconds.
pub const SLICE_MS: u64 = 10;

/// The busy part of one slice, in microseconds, for a requested CPU load. It is half
/// again the requested share of the slice, to make up for the idle time that coarse
/// timer wake-ups add.
pub open spec fn busy_slice_us(cpu_percent: u8) -> nat {
    (SLICE_MS * 1000 * cpu_percent * 3 / 2 / 100) as nat
}

/// The idle rest of one slice, in microseconds: the slice minus its busy part, or zero
/// when the busy part fills it.
pub open spec fn idle_slice_us(cpu_percent: u8) -> nat {
    if busy_slice_us(cpu_percent) < SLICE_MS * 1000 {
        (SLICE_MS * 1000 - busy_slice_us(cpu_percent)) as nat
    } else {
        0
    }
}

/// The busy and idle parts, in microseconds, of each slice of a workload at
/// `cpu_percent`.
pub fn duty_cycle(cpu_percent: u8) -> (r: (u64, u64))
    ensures
        r.0 == busy_slice_us(cpu_percent),
        r.1 == idle_slice_us(cpu_percent),
{
    let c = cpu_percent as u64;
    assert(SLICE_MS * 1000 * c * 3 <= 7650000) by (nonlinear_arith)
        requires
            SLICE_MS == 10,
            c <= 255,
    ;
    let busy: u64 = SLICE_MS * 1000 * c * 3 / 2 / 100;
    let slice: u64 = SLICE_MS * 1000;
    let idle: u64 = if busy < slice {
        slice - busy
    } else {
        0
    };
    (busy, idle)
}


/// What a running workload does next: one more busy-then-idle slice, or stop.
pub enum WorkloadStep {
    Busy { busy_us: u64, idle_us: u64 },
    Done,
}

/// Decides the next step of a workload at `cpu_percent` that should last `duration_ms`
/// and has run for `elapsed_ns`: it stops exactly once the target duration has passed,
/// and otherwise runs one more slice of the duty cycle.
pub fn workload_step(cpu_percent: u8, duration_ms: u64, elapsed_ns: u128) -> (r: WorkloadStep)
    ensures
        (r is Done) <==> elapsed_ns >= duration_ms as nat * 1_000_000,
        r matches WorkloadStep::Busy { busy_us, idle_us } ==> busy_us == busy_slice_us(
            cpu_percent,
        ) && idle_us == idle_slice_us(cpu_percent),
{
    let target_ns: u128 = duration_ms as u128 * 1_000_000;
    if elapsed_ns >= target_ns {
        WorkloadStep::Done
    } else {
        let (busy_us, idle_us) = duty_cycle(cpu_percent);
        WorkloadStep::Busy { busy_us, idle_us }
    }
}

/// The busy time that one slice counts: the time spent spinning, but no more than the
/// slice's busy part.
pub fn busy_credit(spun_ns: u128, busy_ns: u128) -> (r: u128)
    ensures
        r == (if spun_ns < busy_ns {
            spun_ns
        } else {
            busy_ns
        }),
{
    if spun_ns < busy_ns {
        spun_ns
    } else {
        busy_ns
    }
}

/// A workload is accepted exactly when it asks for at most 100 percent and at most
/// 60000 milliseconds, and then it is accepted as asked, whatever the values within
/// those limits.
pub proof fn workload_accepted_exactly_within_limits(cpu_percent: u8, duration_ms: u64)
    ensures
        cpu_percent <= 100 && duration_ms <= 60000 ==> workload_request(cpu_percent, duration_ms)
            == Some((cpu_percent, duration_ms)),
        !(cpu_percent <= 100 && duration_ms <= 60000) ==> workload_request(
            cpu_percent,
            duration_ms,
        ) is None,
{
}

/// A workload written into the two headers in decimal is read back as written, and
/// accepted exactly when it is within the limits.
pub proof fn header_workload_read_back(cpu: u8, duration: u64)
    ensures
        header_workload(
            Some(decimal_digits(cpu as nat)),
            Some(decimal_digits(duration as nat)),
        ) == workload_request(cpu, duration),
{
    lemma_decimal_digits_ascii(cpu as nat);
    lemma_decimal_digits_ascii(duration as nat);
    lemma_parse_decimal_digits(cpu as nat, 255);
    lemma_parse_decimal_digits(duration as nat, 0xffff_ffff_ffff_ffff);
    let dc = decimal_digits(cpu as nat);
    let dd = decimal_digits(duration as nat);
    assert(forall|i: int| 0 <= i < dc.len() ==> is_visible_ascii(#[trigger] dc[i]));
    assert(forall|i: int| 0 <= i < dd.len() ==> is_visible_ascii(#[trigger] dd[i]));
    assert(header_number(Some(dc), 255) == Some(cpu as nat));
    assert(header_number(Some(dd), 0xffff_ffff_ffff_ffff) == Some(duration as nat));
}

/// A workload that is accepted is within both limits, and is exactly what was asked for.
pub proof fn accepted_workload_within_limits(cpu_percent: u8, duration_ms: u64)
    ensures
        workload_request(cpu_percent, duration_ms) matches Some((c, d)) ==> c == cpu_percent
            && d == duration_ms && c <= 100 && d <= 60000,
{
}

} // verus!
