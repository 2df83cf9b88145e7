use bdd_rust_multiprotocol_server::fix::{
    build_message, heartbeat_message, is_heartbeat, reject_message, respond, workload_fields,
};

const HEARTBEAT_REQUEST: &[u8] = b"8=FIX.4.4\x019=5\x0135=0\x0110=000\x01\n";

#[test]
fn fix_heartbeat_request_is_recognised() {
    assert!(is_heartbeat(HEARTBEAT_REQUEST));
}

#[test]
fn fix_heartbeat_field_must_match_exactly() {
    assert!(!is_heartbeat(b"8=FIX.4.4\x0135=00\x01"));
    assert!(!is_heartbeat(b"8=FIX.4.4\x01135=0\x01"));
    assert!(!is_heartbeat(b"35=1\x01"));
    assert!(!is_heartbeat(b""));
}

#[test]
fn fix_heartbeat_field_at_either_end() {
    assert!(is_heartbeat(b"35=0"));
    assert!(is_heartbeat(b"35=0\n"));
    assert!(is_heartbeat(b"8=FIX.4.4\n35=0"));
}

#[test]
fn fix_build_message_frames_body_with_length_and_checksum() {
    assert_eq!(
        build_message(b"35=0\x01"),
        b"8=FIX.4.4\x019=5\x0135=0\x0110=163\x01\n".to_vec()
    );
    assert_eq!(build_message(b""), b"8=FIX.4.4\x019=0\x0110=200\x01\n".to_vec());
}

#[test]
fn fix_heartbeat_and_reject_messages() {
    assert_eq!(
        heartbeat_message(),
        b"8=FIX.4.4\x019=5\x0135=0\x0110=163\x01\n".to_vec()
    );
    assert_eq!(
        reject_message(),
        b"8=FIX.4.4\x019=32\x0135=3\x0158=Unsupported FIX message\x0110=054\x01\n".to_vec()
    );
}

#[test]
fn fix_checksum_is_sum_of_preceding_bytes_mod_256() {
    let body = vec![0xffu8; 300];
    let message = build_message(&body);
    let tail = &message[message.len() - 8..];
    assert_eq!(&tail[..3], b"10=");
    let sum: u32 = message[..message.len() - 8].iter().map(|b| *b as u32).sum::<u32>() % 256;
    assert_eq!(&tail[3..6], format!("{sum:03}").as_bytes());
    assert_eq!(&tail[6..], b"\x01\n");
    assert!(message.starts_with(b"8=FIX.4.4\x019=300\x01"));
}

#[test]
fn fix_response_to_heartbeat_contains_message_type_0() {
    let exchange = respond(HEARTBEAT_REQUEST);
    assert!(exchange.success);
    let text = String::from_utf8_lossy(&exchange.response).into_owned();
    assert!(text.contains("35=0"));
    assert!(is_heartbeat(&exchange.response));
    assert_eq!(exchange.workload, None);
}

#[test]
fn fix_response_to_other_message_is_reject() {
    let exchange = respond(b"8=FIX.4.4\x019=5\x0135=A\x01\n");
    assert!(!exchange.success);
    assert_eq!(exchange.response, reject_message());
    assert!(!is_heartbeat(&exchange.response));
}

#[test]
fn fix_workload_fields_are_read() {
    assert_eq!(workload_fields(b"35=0\x019000=50\x019001=100\x01"), Some((50, 100)));
    assert_eq!(workload_fields(b"9001=60000\n9000=100"), Some((100, 60000)));
    assert_eq!(workload_fields(b"9000=+7\x019001=0\x01"), Some((7, 0)));
    assert_eq!(workload_fields(b"9000=007\x019001=01\x01"), Some((7, 1)));
}

#[test]
fn fix_workload_fields_need_both_values_within_limits() {
    assert_eq!(workload_fields(b"9000=50\x01"), None);
    assert_eq!(workload_fields(b"9001=50\x01"), None);
    assert_eq!(workload_fields(b"9000=101\x019001=10\x01"), None);
    assert_eq!(workload_fields(b"9000=10\x019001=60001\x01"), None);
    assert_eq!(workload_fields(b"9000=256\x019001=10\x01"), None);
    assert_eq!(workload_fields(b"9000=ten\x019001=10\x01"), None);
    assert_eq!(workload_fields(b"9000=-1\x019001=10\x01"), None);
    assert_eq!(workload_fields(b"9000=+\x019001=10\x01"), None);
    assert_eq!(workload_fields(b"9000=\x019001=10\x01"), None);
    assert_eq!(workload_fields(b"9000= 1\x019001=10\x01"), None);
}

#[test]
fn fix_workload_later_field_overrides_earlier() {
    assert_eq!(workload_fields(b"9000=10\x019001=5\x019000=20\x01"), Some((20, 5)));
    assert_eq!(workload_fields(b"9000=10\x019001=5\x019000=x\x01"), None);
}

#[test]
fn fix_workload_value_that_is_not_utf8_stops_the_scan() {
    assert_eq!(workload_fields(b"9000=\xff\x019000=10\x019001=5\x01"), None);
    assert_eq!(workload_fields(b"9001=\xc3\x01"), None);
}

#[test]
fn fix_workload_u64_duration_bounds() {
    assert_eq!(workload_fields(b"9000=1\x019001=18446744073709551615\x01"), None);
    assert_eq!(workload_fields(b"9000=1\x019001=18446744073709551616\x01"), None);
}

#[test]
fn fix_framing_keeps_heartbeat_and_workload() {
    let bodies: [&[u8]; 4] = [b"", b"35=0\x01", b"9000=50\x019001=100\x01", b"35=1\n9000=7\x019001=9\n"];
    for body in bodies {
        let framed = build_message(body);
        assert_eq!(is_heartbeat(&framed), is_heartbeat(body));
        assert_eq!(workload_fields(&framed), workload_fields(body));
    }
}
