use vstd::prelude::*;
use vstd::string::StringExecFns;

verus! {

/// The text every protocol answers a request with: the protocol's name followed by
/// ` message`.
pub open spec fn response_text(protocol: Seq<char>) -> Seq<char> {
    protocol + " message"@
}

/// The answer that the server sends for `protocol`, such as `gRPC message`.
pub fn protocol_response(protocol: &str) -> (r: String)
    ensures
        r@ == response_text(protocol@),
{
    let mut text = String::from_str(protocol);
    text.append(" message");
    text
}

} // verus!
