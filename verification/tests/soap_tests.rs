use bdd_rust_multiprotocol_server::soap::{
    acknowledgement, local_name, ping_payload, ping_payload_of, soap_reply, XmlEvent,
};

const PING_REQUEST: &str = r#"
        <soap:Envelope xmlns:soap="http://schemas.xmlsoap.org/soap/envelope/">
            <soap:Body>
                <PingRequest>
                    <Message>Hello from BDD SOAP test</Message>
                </PingRequest>
            </soap:Body>
        </soap:Envelope>
    "#;

const ACK: &str = "<?xml version=\"1.0\" encoding=\"UTF-8\"?>\n<soap:Envelope xmlns:soap=\"http://schemas.xmlsoap.org/soap/envelope/\">\n  <soap:Body>\n    <PingResponse>\n      <Message>SOAP message</Message>\n    </PingResponse>\n  </soap:Body>\n</soap:Envelope>";

#[test]
fn soap_local_name_drops_prefix() {
    assert_eq!(local_name(b"soap:Envelope"), b"Envelope");
    assert_eq!(local_name(b"a:b:Body"), b"Body");
    assert_eq!(local_name(b"Message"), b"Message");
    assert_eq!(local_name(b"soap:"), b"");
    assert_eq!(local_name(b""), b"");
}

#[test]
fn soap_acknowledgement_wraps_message() {
    assert_eq!(acknowledgement("SOAP message".to_string()), ACK);
    let raw = acknowledgement("<&>".to_string());
    assert!(raw.contains("<Message><&></Message>"));
}

#[test]
fn soap_ping_payload_of_bdd_request() {
    assert_eq!(
        ping_payload(PING_REQUEST.as_bytes()),
        Some("Hello from BDD SOAP test".to_string())
    );
}

#[test]
fn soap_ping_payload_unescapes_message_text() {
    let body = b"<Envelope><Body><PingRequest><Message>a &amp; b &lt;c&gt;</Message></PingRequest></Body></Envelope>";
    assert_eq!(ping_payload(body), Some("a & b <c>".to_string()));
}

#[test]
fn soap_ping_payload_bad_entity_in_message() {
    let body = b"<Envelope><Body><PingRequest><Message>a &bogus; b</Message></PingRequest></Body></Envelope>";
    assert_eq!(ping_payload(body), None);
}

#[test]
fn soap_ping_payload_ignores_text_outside_message() {
    let body = b"<Envelope><Body>&bogus;<PingRequest>x<Message>m</Message>y</PingRequest></Body></Envelope>";
    assert_eq!(ping_payload(body), Some("m".to_string()));
}

#[test]
fn soap_ping_payload_without_message_is_empty() {
    let body = b"<Envelope><Body><PingRequest/></Body></Envelope>";
    assert_eq!(ping_payload(body), None);
    let body = b"<Envelope><Body><PingRequest></PingRequest></Body></Envelope>";
    assert_eq!(ping_payload(body), Some(String::new()));
}

#[test]
fn soap_ping_payload_rejects_non_soap() {
    assert_eq!(ping_payload(b"hello"), None);
    assert_eq!(ping_payload(b""), None);
    assert_eq!(ping_payload(b"<Envelope><Body></Body></Envelope>"), None);
    assert_eq!(ping_payload(b"<PingRequest><Message>x</Message></PingRequest>"), None);
    assert_eq!(ping_payload(b"<Envelope><PingRequest></PingRequest></Envelope>"), None);
}

#[test]
fn soap_ping_payload_malformed_xml() {
    assert_eq!(
        ping_payload(b"<Envelope><Body><PingRequest><Message>x</Body></Envelope>"),
        None
    );
}

#[test]
fn soap_ping_payload_envelope_end_stops_reading() {
    let body = b"<Envelope><Body><PingRequest><Message>x</Message></PingRequest></Body></Envelope><Envelope>";
    assert_eq!(ping_payload(body), Some("x".to_string()));
}

#[test]
fn soap_ping_payload_of_events() {
    let events = vec![
        XmlEvent::Start(b"s:Envelope".to_vec()),
        XmlEvent::Start(b"s:Body".to_vec()),
        XmlEvent::Start(b"PingRequest".to_vec()),
        XmlEvent::Start(b"Message".to_vec()),
        XmlEvent::Text(b"one".to_vec()),
        XmlEvent::Other,
        XmlEvent::Text(b" t&#119;o".to_vec()),
        XmlEvent::End(b"Message".to_vec()),
        XmlEvent::Text(b"&bogus;".to_vec()),
        XmlEvent::End(b"s:Envelope".to_vec()),
        XmlEvent::Failed,
    ];
    assert_eq!(ping_payload_of(&events), Some("one two".to_string()));
    let failing = vec![
        XmlEvent::Start(b"Envelope".to_vec()),
        XmlEvent::Start(b"Body".to_vec()),
        XmlEvent::Start(b"PingRequest".to_vec()),
        XmlEvent::Failed,
    ];
    assert_eq!(ping_payload_of(&failing), None);
    let unfinished = vec![
        XmlEvent::Start(b"Envelope".to_vec()),
        XmlEvent::Start(b"Body".to_vec()),
        XmlEvent::Start(b"PingRequest".to_vec()),
    ];
    assert_eq!(ping_payload_of(&unfinished), Some(String::new()));
    let body_first = vec![
        XmlEvent::Start(b"Body".to_vec()),
        XmlEvent::Start(b"Envelope".to_vec()),
        XmlEvent::Start(b"PingRequest".to_vec()),
        XmlEvent::Eof,
    ];
    assert_eq!(ping_payload_of(&body_first), None);
}

#[test]
fn soap_reply_acknowledges_ping() {
    let reply = soap_reply(PING_REQUEST.as_bytes());
    assert!(reply.success);
    assert_eq!(reply.status, 200);
    assert!(reply.content_type.starts_with("text/xml"));
    assert!(reply.body.contains("SOAP message"));
    assert_eq!(reply.body, ACK);
}

#[test]
fn soap_reply_rejects_other_requests() {
    let reply = soap_reply(b"{\"not\": \"soap\"}");
    assert!(!reply.success);
    assert_eq!(reply.status, 400);
    assert_eq!(reply.content_type, "text/plain; charset=utf-8");
    assert_eq!(reply.body, "Request received, but it was not recognized as SOAP");
}

#[test]
fn soap_ping_payload_of_text_that_does_not_decode() {
    let bad_utf8 = vec![
        XmlEvent::Start(b"Envelope".to_vec()),
        XmlEvent::Start(b"Body".to_vec()),
        XmlEvent::Start(b"PingRequest".to_vec()),
        XmlEvent::Start(b"Message".to_vec()),
        XmlEvent::Text(b"\xff".to_vec()),
        XmlEvent::Eof,
    ];
    assert_eq!(ping_payload_of(&bad_utf8), None);
    let bad_entity = vec![
        XmlEvent::Start(b"Envelope".to_vec()),
        XmlEvent::Start(b"Body".to_vec()),
        XmlEvent::Start(b"PingRequest".to_vec()),
        XmlEvent::Start(b"Message".to_vec()),
        XmlEvent::Text(b"a &unknown; b".to_vec()),
        XmlEvent::Eof,
    ];
    assert_eq!(ping_payload_of(&bad_entity), None);
}

#[test]
fn soap_ping_payload_trims_and_joins_message_texts() {
    assert_eq!(
        ping_payload(b"<Envelope><Body><PingRequest><Message>  hi  </Message></PingRequest></Body></Envelope>"),
        Some("hi".to_string())
    );
    assert_eq!(
        ping_payload(b"<Envelope><Body><PingRequest><Message>a</Message><Message>b</Message></PingRequest></Body></Envelope>"),
        Some("ab".to_string())
    );
    assert_eq!(
        ping_payload(b"<a:Envelope><b:Body><c:PingRequest></c:PingRequest></b:Body></a:Envelope>"),
        Some(String::new())
    );
}

#[test]
fn soap_ping_payload_rejects_misplaced_elements() {
    let rejected: [&[u8]; 4] = [
        b"<Envelope><Body></Body><PingRequest></PingRequest></Envelope>",
        b"<Body><PingRequest></PingRequest></Body>",
        b"<Envelope><Body><PingRequest></Body></Envelope>",
        b"<Envelope><PingRequest><Message>x</Message></PingRequest></Envelope>",
    ];
    for body in rejected {
        assert_eq!(ping_payload(body), None);
    }
}

#[test]
fn soap_ping_payload_ignores_garbage_after_envelope() {
    let x: &[u8] = b"<Envelope><Body><PingRequest><Message>ok</Message></PingRequest></Body></Envelope>";
    let mut with_garbage = x.to_vec();
    with_garbage.extend_from_slice(b"\xff</Nope><<&bogus;");
    assert_eq!(ping_payload(&with_garbage), ping_payload(x));
    assert_eq!(ping_payload(x), Some("ok".to_string()));
}
