use axum::http::{HeaderMap, HeaderValue};
use bdd_rust_multiprotocol_server::workload::{
    busy_credit, duty_cycle, from_header_values, from_headers, from_values, workload_step,
    WorkloadStep,
};

#[test]
fn workload_from_values_accepts_within_limits() {
    assert_eq!(from_values(0, 0), Some((0, 0)));
    assert_eq!(from_values(100, 60_000), Some((100, 60_000)));
    assert_eq!(from_values(50, 250), Some((50, 250)));
}

#[test]
fn workload_from_values_rejects_beyond_limits() {
    assert_eq!(from_values(101, 0), None);
    assert_eq!(from_values(0, 60_001), None);
    assert_eq!(from_values(255, u64::MAX), None);
}

#[test]
fn workload_from_headers_reads_both_headers() {
    let mut headers = HeaderMap::new();
    headers.insert("x-workload-cpu-percent", HeaderValue::from_static("40"));
    headers.insert("x-workload-duration-ms", HeaderValue::from_static("250"));
    assert_eq!(from_headers(&headers), Some((40, 250)));
}

#[test]
fn workload_from_headers_uses_first_value() {
    let mut headers = HeaderMap::new();
    headers.append("x-workload-cpu-percent", HeaderValue::from_static("40"));
    headers.append("x-workload-cpu-percent", HeaderValue::from_static("90"));
    headers.insert("x-workload-duration-ms", HeaderValue::from_static("10"));
    assert_eq!(from_headers(&headers), Some((40, 10)));
}

#[test]
fn workload_from_headers_missing_or_bad_values() {
    let mut headers = HeaderMap::new();
    assert_eq!(from_headers(&headers), None);
    headers.insert("x-workload-cpu-percent", HeaderValue::from_static("40"));
    assert_eq!(from_headers(&headers), None);
    headers.insert("x-workload-duration-ms", HeaderValue::from_static("soon"));
    assert_eq!(from_headers(&headers), None);
    headers.insert("x-workload-duration-ms", HeaderValue::from_static("70000"));
    assert_eq!(from_headers(&headers), None);
    headers.insert("x-workload-duration-ms", HeaderValue::from_bytes(b"1\xff").unwrap());
    assert_eq!(from_headers(&headers), None);
    headers.insert("x-workload-duration-ms", HeaderValue::from_static("20"));
    headers.insert("x-workload-cpu-percent", HeaderValue::from_static("101"));
    assert_eq!(from_headers(&headers), None);
}

#[test]
fn workload_from_header_values_text_rules() {
    assert_eq!(from_header_values(Some(b"+5"), Some(b"9")), Some((5, 9)));
    assert_eq!(from_header_values(Some(b"5\t"), Some(b"9")), None);
    assert_eq!(from_header_values(Some(b"5\x7f"), Some(b"9")), None);
    assert_eq!(from_header_values(None, Some(b"9")), None);
    assert_eq!(from_header_values(Some(b"5"), None), None);
}

#[test]
fn workload_duty_cycle_slices() {
    assert_eq!(duty_cycle(0), (0, 10_000));
    assert_eq!(duty_cycle(40), (6_000, 4_000));
    assert_eq!(duty_cycle(66), (9_900, 100));
    assert_eq!(duty_cycle(67), (10_050, 0));
    assert_eq!(duty_cycle(100), (15_000, 0));
    assert_eq!(duty_cycle(255), (38_250, 0));
}

#[test]
fn workload_step_stops_at_target() {
    assert!(matches!(workload_step(40, 250, 0), WorkloadStep::Busy { busy_us: 6_000, idle_us: 4_000 }));
    assert!(matches!(workload_step(40, 250, 249_999_999), WorkloadStep::Busy { .. }));
    assert!(matches!(workload_step(40, 250, 250_000_000), WorkloadStep::Done));
    assert!(matches!(workload_step(0, 0, 0), WorkloadStep::Done));
    assert!(matches!(workload_step(100, u64::MAX, u64::MAX as u128), WorkloadStep::Busy { busy_us: 15_000, idle_us: 0 }));
}

#[test]
fn workload_busy_credit_is_capped() {
    assert_eq!(busy_credit(5, 10), 5);
    assert_eq!(busy_credit(12, 10), 10);
    assert_eq!(busy_credit(10, 10), 10);
}
