use vstd::prelude::*;
use vstd::string::StringExecFns;

use crate::protocols::{protocol_response, response_text};

verus! {

/// A message received on a WebSocket, reduced to what the server decides on: its kind,
/// and the size of a text or binary payload.
pub enum WsInbound {
    Text { len: usize },
    Binary { len: usize },
    Ping,
    Pong,
    Close,
}

/// What the server does with a received WebSocket message.
pub enum WsAction {
    /// Answer with `response` and count the exchange, a success when the answer was
    /// sent; stop if it could not be sent.
    Respond { response: String, request_bytes: u64 },
    /// Count a failed exchange with no response bytes and close the socket, giving
    /// `reason`.
    Reject { request_bytes: u64, reason: String },
    /// Answer with a pong carrying the ping's payload; stop if it could not be sent.
    Pong,
    /// Stop serving the socket.
    Stop,
}

/// Why a binary message closes the socket.
pub const BINARY_REJECT_REASON: &'static str = "text messages are required";

/// Decides what to do with a received WebSocket message: text is answered with
/// `WebSocket message`, binary data closes the socket, a ping is answered with a pong,
/// and a pong or close ends the session.
pub fn websocket_action(message: &WsInbound) -> (r: WsAction)
    ensures
        match *message {
            WsInbound::Text { len } => r matches WsAction::Respond { response, request_bytes }
                && response@ == response_text("WebSocket"@) && request_bytes == len,
            WsInbound::Binary { len } => r matches WsAction::Reject { request_bytes, reason }
                && request_bytes == len && reason@ == BINARY_REJECT_REASON@,
            WsInbound::Ping => r is Pong,
            WsInbound::Pong => r is Stop,
            WsInbound::Close => r is Stop,
        },
{
    match message {
        WsInbound::Text { len } => WsAction::Respond {
            response: protocol_response("WebSocket"),
            request_bytes: *len as u64,
        },
        WsInbound::Binary { len } => WsAction::Reject {
            request_bytes: *len as u64,
            reason: String::from_str(BINARY_REJECT_REASON),
        },
        WsInbound::Ping => WsAction::Pong,
        WsInbound::Pong => WsAction::Stop,
        WsInbound::Close => WsAction::Stop,
    }
}

} // verus!
