//! The unique-identifier service: each request is answered with an
//! identifier no other node, and no earlier request on this node, received.

use crate::generate_id;
use crate::spec_char_sum;
use crate::spec_generate_id;
use crate::NodeMessage;
use vstd::prelude::*;

verus! {

/// An inbound identifier request.
pub struct GenerateRequest {
    pub msg_id: u64,
}

/// The reply to an identifier request.
pub struct GenerateResponse {
    pub id: u64,
    pub in_reply_to: u64,
}

/// Builds the reply to one identifier request: the node's next identifier,
/// addressed back to the sender. The caller advances `current_count` after
/// each reply, which is what keeps successive identifiers distinct.
pub fn generate_reply(node_id: &String, current_count: u32, msg: NodeMessage<GenerateRequest>)
    -> (r: NodeMessage<GenerateResponse>)
    requires
        spec_char_sum(node_id@) <= u32::MAX,
    ensures
        r.src@ == node_id@,
        r.dest@ == msg.src@,
        r.body.in_reply_to == msg.body.msg_id,
        r.body.id == spec_generate_id(node_id@, current_count),
{
    let new_id = generate_id(node_id.as_str(), current_count);
    NodeMessage {
        dest: msg.src,
        src: node_id.clone(),
        body: GenerateResponse { id: new_id, in_reply_to: msg.body.msg_id },
    }
}

} // verus!
