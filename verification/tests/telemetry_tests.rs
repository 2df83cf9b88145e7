use bdd_rust_multiprotocol_server::telemetry::{bytes_lt, TelemetryStore};

fn names(store: &TelemetryStore) -> Vec<String> {
    store
        .snapshot()
        .iter()
        .map(|e| String::from_utf8(e.name.clone()).unwrap())
        .collect()
}

#[test]
fn telemetry_empty_snapshot_lists_all_protocols() {
    let store = TelemetryStore::new();
    assert_eq!(names(&store), vec!["fix", "graphql", "grpc", "rest", "soap", "websocket"]);
    for entry in store.snapshot() {
        assert_eq!(entry.counts.requests, 0);
        assert_eq!(entry.counts.failures, 0);
        assert_eq!(entry.counts.total_duration_ns, 0);
        assert_eq!(entry.counts.request_bytes, 0);
        assert_eq!(entry.counts.response_bytes, 0);
    }
}

#[test]
fn telemetry_record_accumulates() {
    let mut store = TelemetryStore::new();
    store.record("fix", true, 1_000, 10, 20);
    store.record("fix", false, 500, 5, 0);
    let c = store.counts("fix").unwrap();
    assert_eq!(c.requests, 2);
    assert_eq!(c.failures, 1);
    assert_eq!(c.total_duration_ns, 1_500);
    assert_eq!(c.request_bytes, 15);
    assert_eq!(c.response_bytes, 20);
    assert!(store.counts("soap").is_none());
    let snap = store.snapshot();
    let fix = snap.iter().find(|e| e.name == b"fix").unwrap();
    assert_eq!(fix.counts.requests, 2);
    let soap = snap.iter().find(|e| e.name == b"soap").unwrap();
    assert_eq!(soap.counts.requests, 0);
}

#[test]
fn telemetry_snapshot_includes_other_protocols_in_order() {
    let mut store = TelemetryStore::new();
    store.record("zeta", true, 1, 1, 1);
    store.record("alpha", true, 1, 1, 1);
    store.record("soap", false, 1, 1, 1);
    assert_eq!(
        names(&store),
        vec!["alpha", "fix", "graphql", "grpc", "rest", "soap", "websocket", "zeta"]
    );
}

#[test]
fn telemetry_can_record_detects_overflow() {
    let mut store = TelemetryStore::new();
    assert!(store.can_record("grpc", true, u64::MAX, 0, 0));
    store.record("grpc", true, u64::MAX, 0, 0);
    assert!(!store.can_record("grpc", true, 1, 0, 0));
    assert!(store.can_record("grpc", false, 0, u64::MAX, u64::MAX));
    assert!(store.can_record("rest", true, 1, 0, 0));
}

#[test]
fn telemetry_bytes_order() {
    assert!(bytes_lt(b"fix", b"grpc"));
    assert!(bytes_lt(b"grpc", b"grpca"));
    assert!(bytes_lt(b"", b"a"));
    assert!(!bytes_lt(b"soap", b"soap"));
    assert!(!bytes_lt(b"rest", b"graphql"));
    assert!(bytes_lt(b"graphql", b"grpc"));
}

#[test]
fn telemetry_failures_never_exceed_requests() {
    let mut store = TelemetryStore::new();
    for i in 0..20u64 {
        store.record(if i % 3 == 0 { "rest" } else { "soap" }, i % 2 == 0, i, i, i);
    }
    for entry in store.snapshot() {
        assert!(entry.counts.failures <= entry.counts.requests);
    }
    let rest = store.counts("rest").unwrap();
    assert_eq!(rest.requests, 7);
    assert_eq!(rest.failures, 3);
}

#[test]
fn telemetry_counts_add_up_over_many_records() {
    let mut store = TelemetryStore::new();
    let mut failed = 0u64;
    let mut req = 0u64;
    for i in 0..10u64 {
        let ok = i % 4 != 0;
        if !ok {
            failed += 1;
        }
        req += i * 3;
        store.record("graphql", ok, i * 1000, i * 3, 7);
        store.record("rest", true, 1, 1, 1);
    }
    let c = store.counts("graphql").unwrap();
    assert_eq!(c.requests, 10);
    assert_eq!(c.failures, failed);
    assert_eq!(c.request_bytes, req);
    assert_eq!(c.response_bytes, 70);
    assert_eq!(c.total_duration_ns, 45_000);
}
