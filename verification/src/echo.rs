//! The echo service: each request is answered with its own payload.

use crate::NodeMessage;
use vstd::prelude::*;

verus! {

/// An inbound echo request.
pub struct EchoRequest {
    pub msg_id: u64,
    pub echo: String,
}

/// The reply to an echo request.
pub struct EchoResponse {
    pub in_reply_to: u64,
    pub echo: String,
}

/// Builds the reply to an echo request: the payload goes back to the sender
/// unchanged, referencing the request it answers.
pub fn echo_reply(node_id: &String, msg: NodeMessage<EchoRequest>) -> (r: NodeMessage<
    EchoResponse,
>)
    ensures
        r.src@ == node_id@,
        r.dest@ == msg.src@,
        r.body.in_reply_to == msg.body.msg_id,
        r.body.echo@ == msg.body.echo@,
{
    NodeMessage {
        dest: msg.src,
        src: node_id.clone(),
        body: EchoResponse { in_reply_to: msg.body.msg_id, echo: msg.body.echo },
    }
}

} // verus!
