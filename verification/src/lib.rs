//! A cluster node for an eventually-consistent value-dissemination protocol,
//! together with the small single-shot protocols that share its transport:
//! an echo service, a unique-id generator, a replicated counter backed by a
//! linearizable key-value service, and an offset-addressed append log.
//!
//! All protocol logic lives here as pure state machines over plain values;
//! the surrounding process (transport, scheduling) hands envelopes in and
//! carries the returned envelopes out.

pub mod broadcast;
pub mod clock;
pub mod echo;
pub mod error;
pub mod g_counter;
pub mod generate;
pub mod ids;
pub mod kafka;
pub mod seq_kv;
pub mod text;

use vstd::prelude::*;

verus! {

/// A single routed protocol message: a body `B` addressed from one node to
/// another. Node identifiers are the raw strings assigned by the cluster.
pub struct NodeMessage<B> {
    pub src: String,
    pub dest: String,
    pub body: B,
}

/// The mathematical shape of a routed message: both identifiers as character
/// sequences, the body as its own view.
pub struct MsgView<BV> {
    pub src: Seq<char>,
    pub dest: Seq<char>,
    pub body: BV,
}

impl<B: View> View for NodeMessage<B> {
    type V = MsgView<B::V>;

    open spec fn view(&self) -> MsgView<B::V> {
        MsgView { src: self.src@, dest: self.dest@, body: self.body@ }
    }
}

impl<B: View> DeepView for NodeMessage<B> {
    type V = MsgView<B::V>;

    open spec fn deep_view(&self) -> MsgView<B::V> {
        self.view()
    }
}

/// The initial handshake request a freshly started node receives: it carries
/// the identifier assigned to the node and the whole cluster roster.
pub struct InitRequest {
    pub msg_id: u64,
    pub node_id: String,
    pub node_ids: Vec<String>,
}

/// The acknowledgment of the initial handshake.
pub struct InitResponse {
    pub in_reply_to: u64,
}

/// Builds the handshake acknowledgment: it is addressed from the identifier
/// the request assigns to this node, back to the sender of the request.
pub fn init_reply(msg: &NodeMessage<InitRequest>) -> (r: NodeMessage<InitResponse>)
    ensures
        r.src@ == msg.body.node_id@,
        r.dest@ == msg.src@,
        r.body.in_reply_to == msg.body.msg_id,
{
    NodeMessage {
        src: msg.body.node_id.clone(),
        dest: msg.src.clone(),
        body: InitResponse { in_reply_to: msg.body.msg_id },
    }
}

/// The sum of the character values of `s`.
pub open spec fn spec_char_sum(s: Seq<char>) -> nat
    decreases s.len(),
{
    if s.len() == 0 {
        0
    } else {
        spec_char_sum(s.drop_last()) + s.last() as nat
    }
}

/// A node-local unique identifier: the sum of the character values of the
/// node's identifier in the high 32 bits, a per-node counter in the low 32.
pub open spec fn spec_generate_id(id: Seq<char>, current_count: u32) -> nat {
    spec_char_sum(id) * 0x1_0000_0000 + current_count as nat
}

/// Generates an identifier unique across the cluster: distinct nodes differ
/// in the high half, successive calls on one node in the low half.
pub fn generate_id(node_id: &str, current_count: u32) -> (r: u64)
    requires
        spec_char_sum(node_id@) <= u32::MAX,
    ensures
        r == spec_generate_id(node_id@, current_count),
{
    let mut acc: u32 = 0;
    let len = node_id.unicode_len();
    let mut i: usize = 0;
    while i < len
        invariant
            0 <= i <= len,
            len == node_id@.len(),
            spec_char_sum(node_id@) <= u32::MAX,
            acc == spec_char_sum(node_id@.subrange(0, i as int)),
        decreases len - i,
    {
        let c = node_id.get_char(i);
        proof {
            assert(node_id@.subrange(0, i + 1).drop_last() =~= node_id@.subrange(0, i as int));
            assert(node_id@.subrange(0, i + 1).last() == node_id@[i as int]);
            lemma_char_sum_prefix(node_id@, i + 1);
        }
        acc = acc + (c as u32);
        i = i + 1;
    }
    proof {
        assert(node_id@.subrange(0, len as int) =~= node_id@);
    }
    let high = (acc as u64) << 32u64;
    proof {
        assert(high == acc * 0x1_0000_0000) by (bit_vector)
            requires
                high == (acc as u64) << 32u64,
        ;
    }
    high + (current_count as u64)
}

/// A prefix of `s` never sums to more than `s` itself.
proof fn lemma_char_sum_prefix(s: Seq<char>, i: int)
    requires
        0 <= i <= s.len(),
    ensures
        spec_char_sum(s.subrange(0, i)) <= spec_char_sum(s),
    decreases s.len() - i,
{
    if i < s.len() {
        lemma_char_sum_prefix(s, i + 1);
        assert(s.subrange(0, i + 1).drop_last() =~= s.subrange(0, i));
    } else {
        assert(s.subrange(0, i) =~= s);
    }
}

} // verus!
