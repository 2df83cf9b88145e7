use bdd_rust_multiprotocol_server::protocols::protocol_response;
use bdd_rust_multiprotocol_server::websocket::{websocket_action, WsAction, WsInbound};

#[test]
fn protocol_response_names_the_protocol() {
    assert_eq!(protocol_response("gRPC"), "gRPC message");
    assert_eq!(protocol_response("GraphQL"), "GraphQL message");
    assert_eq!(protocol_response("REST"), "REST message");
    assert_eq!(protocol_response(""), " message");
}

#[test]
fn websocket_text_gets_websocket_message() {
    match websocket_action(&WsInbound::Text { len: 5 }) {
        WsAction::Respond { response, request_bytes } => {
            assert_eq!(response, "WebSocket message");
            assert_eq!(request_bytes, 5);
        }
        _ => panic!("expected a response"),
    }
}

#[test]
fn websocket_binary_is_rejected() {
    match websocket_action(&WsInbound::Binary { len: 3 }) {
        WsAction::Reject { request_bytes, reason } => {
            assert_eq!(request_bytes, 3);
            assert_eq!(reason, "text messages are required");
        }
        _ => panic!("expected a reject"),
    }
}

#[test]
fn websocket_control_frames() {
    assert!(matches!(websocket_action(&WsInbound::Ping), WsAction::Pong));
    assert!(matches!(websocket_action(&WsInbound::Pong), WsAction::Stop));
    assert!(matches!(websocket_action(&WsInbound::Close), WsAction::Stop));
}
