//! The replicated grow-only counter, backed by the cluster's linearizable
//! key-value service: adds accumulate locally and move to the shared `sum`
//! key by compare-and-swap; reads are answered after a short settle delay.

use crate::clock::Timer;
use crate::generate_id;
use crate::seq_kv::SeqKVCompareAndSwapRequest;
use crate::seq_kv::SeqKVErrorResponse;
use crate::seq_kv::SeqKVNoDataResponse;
use crate::seq_kv::SeqKVReadRequest;
use crate::seq_kv::SeqKVReadResponse;
use crate::seq_kv::SeqKVRequest;
use crate::spec_char_sum;
use crate::spec_generate_id;
use crate::ids::spec_node_name;
use crate::ids::node_name;
use crate::NodeMessage;
use vstd::prelude::*;

verus! {

/// How long a deferred counter read waits before it is answered.
pub const READ_OK_WAIT_MS: u64 = 400;

/// How long an unacknowledged compare-and-swap waits before it is retried.
pub const PENDING_ADD_WAIT_MS: u64 = 200;

/// How many nodes run the counter.
pub const NODE_COUNT: u64 = 3;

/// One inbound counter message, by kind.
pub enum RequestType {
    Add(AddBody),
    Read(ReadBody),
    SeqKVError(SeqKVErrorResponse),
    CasOk(SeqKVNoDataResponse),
    ReadOk(SeqKVReadResponse),
}

/// Adds `delta` to the counter.
pub struct AddBody {
    pub in_reply_to: Option<u64>,
    pub msg_id: Option<u64>,
    pub delta: u64,
}

/// Reads the counter.
pub struct ReadBody {
    pub in_reply_to: Option<u64>,
    pub msg_id: Option<u64>,
}

/// The counter's value, as a reply or as peer-to-peer synchronisation.
pub struct ReadResponse {
    pub value: u64,
    pub in_reply_to: Option<u64>,
    pub msg_id: Option<u64>,
}

/// The acknowledgment of an add.
pub struct AddResponse {
    pub in_reply_to: Option<u64>,
    pub msg_id: Option<u64>,
}

/// One outbound counter message, by kind.
pub enum CounterResponse {
    SeqKV(SeqKVRequest),
    ReadOk(ReadResponse),
    AddOk(AddResponse),
}

/// The delta accumulated locally but not yet moved to the shared key, with
/// the identifier of the compare-and-swap in flight for it, if any.
pub struct PendingAdd {
    pub timer: Timer,
    pub msg_id: Option<u64>,
    pub value: u64,
}

impl PendingAdd {
    /// A pending delta with a fresh retry timer and no swap in flight.
    pub fn new(value: u64) -> (p: PendingAdd)
        ensures
            p.value == value,
            p.msg_id is None,
            p.timer.duration_ms == PENDING_ADD_WAIT_MS,
    {
        PendingAdd { timer: Timer::from_millis(PENDING_ADD_WAIT_MS), msg_id: None, value }
    }
}

/// A read waiting out its settle delay: who asked, and what to reference.
pub struct PendingReadOk {
    pub timer: Timer,
    pub message_data: (String, Option<u64>),
}

/// A counter node's whole state.
pub struct MaelstromHandler {
    pub node_id: String,
    pub count: u64,
    pub cas_id_counter: u64,
    pub pending_add: PendingAdd,
    pub pending_read_ok: Vec<PendingReadOk>,
    pub other_nodes: Vec<String>,
}

/// The identifiers of the first `n` counter nodes, this node excluded.
pub open spec fn spec_other_nodes(me: Seq<char>, n: int) -> Seq<Seq<char>>
    decreases n,
{
    if n <= 0 {
        Seq::empty()
    } else {
        let rest = spec_other_nodes(me, n - 1);
        if spec_node_name((n - 1) as u64) == me {
            rest
        } else {
            rest.push(spec_node_name((n - 1) as u64))
        }
    }
}

/// Whether `m` is a compare-and-swap of the shared `sum` key from `from` to
/// `to` under identifier `msg_id`, sent by `me` to the key-value service.
pub open spec fn is_cas_msg(
    m: NodeMessage<CounterResponse>,
    me: Seq<char>,
    from: Option<u64>,
    to: Option<u64>,
    msg_id: u64,
) -> bool {
    &&& m.src@ == me
    &&& m.dest@ == "seq-kv"@
    &&& match m.body {
        CounterResponse::SeqKV(SeqKVRequest::CompareAndSwap(c)) => {
            &&& c.key@ == "sum"@
            &&& c.from == from
            &&& c.to == to
            &&& c.msg_id == Some(msg_id)
            &&& c.in_reply_to is None
            &&& c.create_if_not_exists
        },
        _ => false,
    }
}

/// Whether `m` reads the shared `sum` key, sent by `me` to the key-value
/// service.
pub open spec fn is_kv_read_msg(m: NodeMessage<CounterResponse>, me: Seq<char>) -> bool {
    &&& m.src@ == me
    &&& m.dest@ == "seq-kv"@
    &&& match m.body {
        CounterResponse::SeqKV(SeqKVRequest::Read(rr)) => {
            &&& rr.key@ == "sum"@
            &&& rr.msg_id is None
            &&& rr.in_reply_to is None
        },
        _ => false,
    }
}

/// Whether `m` reports counter value `value` from `me` to `dest`,
/// referencing `in_reply_to`.
pub open spec fn is_read_ok_msg(
    m: NodeMessage<CounterResponse>,
    me: Seq<char>,
    dest: Seq<char>,
    value: u64,
    in_reply_to: Option<u64>,
) -> bool {
    &&& m.src@ == me
    &&& m.dest@ == dest
    &&& match m.body {
        CounterResponse::ReadOk(ro) => {
            &&& ro.value == value
            &&& ro.in_reply_to == in_reply_to
            &&& ro.msg_id is None
        },
        _ => false,
    }
}

/// Whether `m` acknowledges an add from `me` to `dest`, referencing
/// `in_reply_to`.
pub open spec fn is_add_ok_msg(
    m: NodeMessage<CounterResponse>,
    me: Seq<char>,
    dest: Seq<char>,
    in_reply_to: Option<u64>,
) -> bool {
    &&& m.src@ == me
    &&& m.dest@ == dest
    &&& match m.body {
        CounterResponse::AddOk(a) => a.in_reply_to == in_reply_to && a.msg_id is None,
        _ => false,
    }
}


/// How an `add` transforms the state and what it sends.
pub open spec fn add_step(
    pre: MaelstromHandler,
    post: MaelstromHandler,
    src: Seq<char>,
    body: AddBody,
    out: Seq<NodeMessage<CounterResponse>>,
) -> bool {
    &&& post.node_id == pre.node_id
    &&& post.count == pre.count
    &&& post.other_nodes == pre.other_nodes
    &&& post.pending_read_ok == pre.pending_read_ok
    &&& post.cas_id_counter == pre.cas_id_counter + 1
    &&& body.delta == 0 ==> {
        &&& post.pending_add.value == pre.pending_add.value
        &&& post.pending_add.msg_id == pre.pending_add.msg_id
        &&& out.len() == 1
        &&& is_add_ok_msg(out[0], pre.node_id@, src, body.msg_id)
    }
    &&& body.delta != 0 ==> {
        &&& post.pending_add.value == pre.pending_add.value + body.delta
        &&& post.pending_add.msg_id == Some(
            spec_generate_id(pre.node_id@, (pre.cas_id_counter + 1) as u32) as u64,
        )
        &&& out.len() == 2
        &&& is_add_ok_msg(out[0], pre.node_id@, src, body.msg_id)
        &&& is_cas_msg(
            out[1],
            pre.node_id@,
            if pre.count == 0 {
                None
            } else {
                Some(pre.count)
            },
            Some((pre.count + pre.pending_add.value + body.delta) as u64),
            spec_generate_id(pre.node_id@, (pre.cas_id_counter + 1) as u32) as u64,
        )
    }
}

/// How a client `read` transforms the state: it joins the deferred queue.
pub open spec fn counter_read_step(
    pre: MaelstromHandler,
    post: MaelstromHandler,
    src: Seq<char>,
    body: ReadBody,
    out: Seq<NodeMessage<CounterResponse>>,
) -> bool {
    &&& post.node_id == pre.node_id
    &&& post.count == pre.count
    &&& post.cas_id_counter == pre.cas_id_counter
    &&& post.other_nodes == pre.other_nodes
    &&& post.pending_add == pre.pending_add
    &&& post.pending_read_ok@.len() == pre.pending_read_ok@.len() + 1
    &&& post.pending_read_ok@.drop_last() == pre.pending_read_ok@
    &&& post.pending_read_ok@.last().message_data.0@ == src
    &&& post.pending_read_ok@.last().message_data.1 == body.msg_id
    &&& out.len() == 0
}

/// How a key-value error transforms the state and what it sends.
pub open spec fn kv_error_step(
    pre: MaelstromHandler,
    post: MaelstromHandler,
    err: SeqKVErrorResponse,
    out: Seq<NodeMessage<CounterResponse>>,
) -> bool {
    &&& post.node_id == pre.node_id
    &&& post.count == pre.count
    &&& post.cas_id_counter == pre.cas_id_counter
    &&& post.other_nodes == pre.other_nodes
    &&& post.pending_read_ok == pre.pending_read_ok
    &&& post.pending_add.value == pre.pending_add.value
    &&& if err.in_reply_to == pre.pending_add.msg_id && err.code == 22 {
        &&& post.pending_add.msg_id is None
        &&& out.len() == 1
        &&& is_kv_read_msg(out[0], pre.node_id@)
    } else {
        &&& post.pending_add.msg_id == pre.pending_add.msg_id
        &&& out.len() == 0
    }
}

/// How a swap acknowledgment transforms the state and what it sends.
pub open spec fn cas_ok_step(
    pre: MaelstromHandler,
    post: MaelstromHandler,
    out: Seq<NodeMessage<CounterResponse>>,
) -> bool {
    &&& post.node_id == pre.node_id
    &&& post.count == pre.count + pre.pending_add.value
    &&& post.cas_id_counter == pre.cas_id_counter
    &&& post.other_nodes == pre.other_nodes
    &&& post.pending_read_ok == pre.pending_read_ok
    &&& post.pending_add.value == 0
    &&& post.pending_add.msg_id is None
    &&& out.len() == pre.other_nodes@.len()
    &&& forall|i: int|
        0 <= i < out.len() ==> is_read_ok_msg(
            #[trigger] out[i],
            pre.node_id@,
            pre.other_nodes.deep_view()[i],
            (pre.count + pre.pending_add.value) as u64,
            None,
        )
}

/// How a shared-key read transforms the state: the count never shrinks.
pub open spec fn kv_read_ok_step(
    pre: MaelstromHandler,
    post: MaelstromHandler,
    read_ok: SeqKVReadResponse,
    out: Seq<NodeMessage<CounterResponse>>,
) -> bool {
    &&& post.node_id == pre.node_id
    &&& post.count == if read_ok.value > pre.count {
        read_ok.value
    } else {
        pre.count
    }
    &&& post.cas_id_counter == pre.cas_id_counter
    &&& post.other_nodes == pre.other_nodes
    &&& post.pending_read_ok == pre.pending_read_ok
    &&& post.pending_add == pre.pending_add
    &&& out.len() == 0
}

/// How one inbound counter message transforms the state and what it sends,
/// by kind.
pub open spec fn counter_step(
    pre: MaelstromHandler,
    post: MaelstromHandler,
    request: NodeMessage<RequestType>,
    out: Seq<NodeMessage<CounterResponse>>,
) -> bool {
    match request.body {
        RequestType::Add(b) => add_step(pre, post, request.src@, b, out),
        RequestType::Read(b) => counter_read_step(pre, post, request.src@, b, out),
        RequestType::SeqKVError(e) => kv_error_step(pre, post, e, out),
        RequestType::CasOk(_) => cas_ok_step(pre, post, out),
        RequestType::ReadOk(r) => kv_read_ok_step(pre, post, r, out),
    }
}

impl MaelstromHandler {
    /// A fresh counter node: zero everywhere, peers derived from the fixed
    /// cluster size.
    pub fn new(node_id: String) -> (h: MaelstromHandler)
        ensures
            h.node_id == node_id,
            h.count == 0,
            h.cas_id_counter == 0,
            h.pending_add.value == 0,
            h.pending_add.msg_id is None,
            h.pending_read_ok@.len() == 0,
            h.other_nodes.deep_view() == spec_other_nodes(node_id@, NODE_COUNT as int),
    {
        let mut system_nodes: Vec<String> = Vec::new();
        let mut v: u64 = 0;
        #[verifier::loop_isolation(false)]
        while v < NODE_COUNT
            invariant
                v <= NODE_COUNT,
                system_nodes.deep_view() =~~= spec_other_nodes(node_id@, v as int),
            decreases NODE_COUNT - v,
        {
            let name = node_name(v);
            if !name.eq(&node_id) {
                system_nodes.push(name);
            }
            proof {
                assert(system_nodes.deep_view() =~~= spec_other_nodes(node_id@, v + 1));
            }
            v = v + 1;
        }
        MaelstromHandler {
            node_id,
            count: 0,
            cas_id_counter: 0,
            pending_add: PendingAdd::new(0),
            pending_read_ok: Vec::new(),
            other_nodes: system_nodes,
        }
    }

    /// The next per-node unique identifier; the counter behind it advances.
    pub fn get_id(&mut self) -> (r: u64)
        requires
            old(self).cas_id_counter < u64::MAX,
            spec_char_sum(old(self).node_id@) <= u32::MAX,
        ensures
            final(self).cas_id_counter == old(self).cas_id_counter + 1,
            r == spec_generate_id(old(self).node_id@, (old(self).cas_id_counter + 1) as u32),
            final(self).node_id == old(self).node_id,
            final(self).count == old(self).count,
            final(self).pending_add == old(self).pending_add,
            final(self).pending_read_ok == old(self).pending_read_ok,
            final(self).other_nodes == old(self).other_nodes,
    {
        self.cas_id_counter = self.cas_id_counter + 1;
        generate_id(self.node_id.as_str(), self.cas_id_counter as u32)
    }

    /// Builds the read of the shared `sum` key.
    pub fn send_seq_kv_read(&self) -> (m: NodeMessage<CounterResponse>)
        ensures
            is_kv_read_msg(m, self.node_id@),
    {
        proof {
            reveal_strlit("seq-kv");
            reveal_strlit("sum");
        }
        NodeMessage {
            src: self.node_id.clone(),
            dest: String::from_str("seq-kv"),
            body: CounterResponse::SeqKV(
                SeqKVRequest::Read(
                    SeqKVReadRequest {
                        in_reply_to: None,
                        msg_id: None,
                        key: String::from_str("sum"),
                    },
                ),
            ),
        }
    }

    /// Builds the compare-and-swap that moves the accumulated delta onto
    /// the shared `sum` key.
    pub fn send_seq_kv_compare_and_swap(
        &self,
        from: Option<u64>,
        to: Option<u64>,
        msg_id: u64,
    ) -> (m: NodeMessage<CounterResponse>)
        ensures
            is_cas_msg(m, self.node_id@, from, to, msg_id),
    {
        proof {
            reveal_strlit("seq-kv");
            reveal_strlit("sum");
        }
        NodeMessage {
            src: self.node_id.clone(),
            dest: String::from_str("seq-kv"),
            body: CounterResponse::SeqKV(
                SeqKVRequest::CompareAndSwap(
                    SeqKVCompareAndSwapRequest {
                        in_reply_to: None,
                        msg_id: Some(msg_id),
                        key: String::from_str("sum"),
                        from,
                        to,
                        create_if_not_exists: true,
                    },
                ),
            ),
        }
    }

    /// Builds the value report sent to `dst`.
    pub fn send_read_ok(&self, dst: &String, in_reply_to: Option<u64>) -> (m: NodeMessage<
        CounterResponse,
    >)
        ensures
            is_read_ok_msg(m, self.node_id@, dst@, self.count, in_reply_to),
    {
        NodeMessage {
            src: self.node_id.clone(),
            dest: dst.clone(),
            body: CounterResponse::ReadOk(
                ReadResponse { value: self.count, in_reply_to, msg_id: None },
            ),
        }
    }

    /// Builds the acknowledgment of an add from `src`.
    pub fn send_add_ok(&self, src: &String, in_reply_to: Option<u64>) -> (m: NodeMessage<
        CounterResponse,
    >)
        ensures
            is_add_ok_msg(m, self.node_id@, src@, in_reply_to),
    {
        NodeMessage {
            src: self.node_id.clone(),
            dest: src.clone(),
            body: CounterResponse::AddOk(AddResponse { in_reply_to, msg_id: None }),
        }
    }

    /// Handles an `add`: acknowledges it, and — for a non-zero delta —
    /// folds it into the pending value and starts a compare-and-swap for
    /// the whole accumulated delta.
    pub fn handle_add(&mut self, src: &String, body: AddBody) -> (out: Vec<NodeMessage<
        CounterResponse,
    >>)
        requires
            old(self).cas_id_counter < u64::MAX,
            spec_char_sum(old(self).node_id@) <= u32::MAX,
            old(self).pending_add.value + body.delta <= u64::MAX,
            old(self).count + old(self).pending_add.value + body.delta <= u64::MAX,
        ensures
            final(self).node_id == old(self).node_id,
            final(self).count == old(self).count,
            final(self).other_nodes == old(self).other_nodes,
            final(self).pending_read_ok == old(self).pending_read_ok,
            final(self).cas_id_counter == old(self).cas_id_counter + 1,
            body.delta == 0 ==> {
                &&& final(self).pending_add.value == old(self).pending_add.value
                &&& final(self).pending_add.msg_id == old(self).pending_add.msg_id
                &&& out@.len() == 1
                &&& is_add_ok_msg(out@[0], old(self).node_id@, src@, body.msg_id)
            },
            body.delta != 0 ==> {
                &&& final(self).pending_add.value == old(self).pending_add.value + body.delta
                &&& final(self).pending_add.msg_id == Some(
                    spec_generate_id(old(self).node_id@, (old(self).cas_id_counter + 1) as u32) as u64,
                )
                &&& out@.len() == 2
                &&& is_add_ok_msg(out@[0], old(self).node_id@, src@, body.msg_id)
                &&& is_cas_msg(
                    out@[1],
                    old(self).node_id@,
                    if old(self).count == 0 {
                        None
                    } else {
                        Some(old(self).count)
                    },
                    Some(
                        (old(self).count + old(self).pending_add.value + body.delta) as u64,
                    ),
                    spec_generate_id(old(self).node_id@, (old(self).cas_id_counter + 1) as u32) as u64,
                )
            },
    {
        let msg_id = self.get_id();
        let mut out: Vec<NodeMessage<CounterResponse>> = Vec::new();
        let add_ok = self.send_add_ok(src, body.msg_id);
        out.push(add_ok);
        if body.delta == 0 {
            return out;
        }
        self.pending_add.value = self.pending_add.value + body.delta;
        let from = if self.count == 0 {
            None
        } else {
            Some(self.count)
        };
        let to = Some(self.count + self.pending_add.value);
        let cas = self.send_seq_kv_compare_and_swap(from, to, msg_id);
        out.push(cas);
        self.pending_add.msg_id = Some(msg_id);
        out
    }

    /// Handles the acknowledgment of this node's own compare-and-swap: the
    /// pending delta has landed on the shared key, so it folds into the
    /// local count and every peer is told the new value.
    pub fn handle_cas_ok(&mut self, cas_ok: SeqKVNoDataResponse) -> (out: Vec<NodeMessage<
        CounterResponse,
    >>)
        requires
            cas_ok.in_reply_to == old(self).pending_add.msg_id,
            old(self).count + old(self).pending_add.value <= u64::MAX,
        ensures
            final(self).node_id == old(self).node_id,
            final(self).count == old(self).count + old(self).pending_add.value,
            final(self).cas_id_counter == old(self).cas_id_counter,
            final(self).other_nodes == old(self).other_nodes,
            final(self).pending_read_ok == old(self).pending_read_ok,
            final(self).pending_add.value == 0,
            final(self).pending_add.msg_id is None,
            out@.len() == old(self).other_nodes@.len(),
            forall|i: int|
                0 <= i < out@.len() ==> is_read_ok_msg(
                    #[trigger] out@[i],
                    old(self).node_id@,
                    old(self).other_nodes.deep_view()[i],
                    (old(self).count + old(self).pending_add.value) as u64,
                    None,
                ),
    {
        self.count = self.count + self.pending_add.value;
        self.pending_add.value = 0;
        self.pending_add.msg_id = None;
        let mut out: Vec<NodeMessage<CounterResponse>> = Vec::new();
        let n = self.other_nodes.len();
        let mut i: usize = 0;
        #[verifier::loop_isolation(false)]
        while i < n
            invariant
                i <= n,
                n == self.other_nodes@.len(),
                out@.len() == i,
                forall|x: int|
                    0 <= x < i ==> is_read_ok_msg(
                        #[trigger] out@[x],
                        self.node_id@,
                        self.other_nodes.deep_view()[x],
                        self.count,
                        None,
                    ),
            decreases n - i,
        {
            let m = self.send_read_ok(&self.other_nodes[i], None);
            out.push(m);
            i = i + 1;
        }
        out
    }

    /// Handles an error from the key-value service: a precondition failure
    /// for this node's own swap means the shared value moved, so the swap is
    /// abandoned and the shared key re-read; anything else is dropped.
    pub fn handle_seq_kv_error(&mut self, err: SeqKVErrorResponse) -> (out: Vec<NodeMessage<
        CounterResponse,
    >>)
        ensures
            final(self).node_id == old(self).node_id,
            final(self).count == old(self).count,
            final(self).cas_id_counter == old(self).cas_id_counter,
            final(self).other_nodes == old(self).other_nodes,
            final(self).pending_read_ok == old(self).pending_read_ok,
            final(self).pending_add.value == old(self).pending_add.value,
            if err.in_reply_to == old(self).pending_add.msg_id && err.code == 22 {
                &&& final(self).pending_add.msg_id is None
                &&& out@.len() == 1
                &&& is_kv_read_msg(out@[0], old(self).node_id@)
            } else {
                &&& final(self).pending_add.msg_id == old(self).pending_add.msg_id
                &&& out@.len() == 0
            },
    {
        let mut out: Vec<NodeMessage<CounterResponse>> = Vec::new();
        let matches_pending = match (err.in_reply_to, self.pending_add.msg_id) {
            (Some(a), Some(b)) => a == b,
            (None, None) => true,
            _ => false,
        };
        if matches_pending && err.code == 22 {
            self.pending_add.msg_id = None;
            let m = self.send_seq_kv_read();
            out.push(m);
        }
        out
    }

    /// Handles a read of the shared key: a larger shared value replaces the
    /// local count; the count never goes backwards.
    pub fn handle_read_ok(&mut self, read_ok: SeqKVReadResponse) -> (out: Vec<NodeMessage<
        CounterResponse,
    >>)
        ensures
            final(self).node_id == old(self).node_id,
            final(self).count == if read_ok.value > old(self).count {
                read_ok.value
            } else {
                old(self).count
            },
            final(self).cas_id_counter == old(self).cas_id_counter,
            final(self).other_nodes == old(self).other_nodes,
            final(self).pending_read_ok == old(self).pending_read_ok,
            final(self).pending_add == old(self).pending_add,
            out@.len() == 0,
    {
        if read_ok.value > self.count {
            self.count = read_ok.value;
        }
        Vec::new()
    }

    /// Handles a client read: the reply is deferred behind a settle timer so
    /// that in-flight synchronisation can land first.
    pub fn handle_read(&mut self, src: &String, body: ReadBody) -> (out: Vec<NodeMessage<
        CounterResponse,
    >>)
        ensures
            final(self).node_id == old(self).node_id,
            final(self).count == old(self).count,
            final(self).cas_id_counter == old(self).cas_id_counter,
            final(self).other_nodes == old(self).other_nodes,
            final(self).pending_add == old(self).pending_add,
            final(self).pending_read_ok@.len() == old(self).pending_read_ok@.len() + 1,
            final(self).pending_read_ok@.drop_last() == old(self).pending_read_ok@,
            final(self).pending_read_ok@.last().message_data.0@ == src@,
            final(self).pending_read_ok@.last().message_data.1 == body.msg_id,
            out@.len() == 0,
    {
        self.pending_read_ok.push(
            PendingReadOk {
                timer: Timer::from_millis(READ_OK_WAIT_MS),
                message_data: (src.clone(), body.msg_id),
            },
        );
        Vec::new()
    }

    /// One idle tick: answers the oldest deferred read whose settle timer
    /// has elapsed; otherwise, if a delta is pending with its retry timer
    /// elapsed, starts a fresh compare-and-swap for it. The timers belong to
    /// the clock, so which of the three outcomes happens is not promised —
    /// only what each outcome looks like.
    pub fn handle_free_cycle(&mut self) -> (out: Vec<NodeMessage<CounterResponse>>)
        requires
            old(self).cas_id_counter < u64::MAX,
            spec_char_sum(old(self).node_id@) <= u32::MAX,
            old(self).count + old(self).pending_add.value <= u64::MAX,
        ensures
            final(self).node_id == old(self).node_id,
            final(self).count == old(self).count,
            final(self).other_nodes == old(self).other_nodes,
            ({
                // The oldest deferred read was due and is answered now.
                &&& old(self).pending_read_ok@.len() > 0
                &&& final(self).pending_read_ok@ == old(self).pending_read_ok@.drop_first()
                &&& final(self).cas_id_counter == old(self).cas_id_counter
                &&& final(self).pending_add.value == old(self).pending_add.value
                &&& final(self).pending_add.msg_id == old(self).pending_add.msg_id
                &&& out@.len() == 1
                &&& is_read_ok_msg(
                    out@[0],
                    old(self).node_id@,
                    old(self).pending_read_ok@[0].message_data.0@,
                    old(self).count,
                    old(self).pending_read_ok@[0].message_data.1,
                )
            } || {
                // The pending delta was due and a fresh swap goes out.
                &&& old(self).pending_add.value > 0
                &&& final(self).pending_read_ok == old(self).pending_read_ok
                &&& final(self).cas_id_counter == old(self).cas_id_counter + 1
                &&& final(self).pending_add.value == old(self).pending_add.value
                &&& final(self).pending_add.msg_id == Some(
                    spec_generate_id(old(self).node_id@, (old(self).cas_id_counter + 1) as u32) as u64,
                )
                &&& out@.len() == 1
                &&& is_cas_msg(
                    out@[0],
                    old(self).node_id@,
                    Some(old(self).count),
                    Some((old(self).count + old(self).pending_add.value) as u64),
                    spec_generate_id(old(self).node_id@, (old(self).cas_id_counter + 1) as u32) as u64,
                )
            } || {
                // Nothing was due.
                &&& final(self).pending_read_ok == old(self).pending_read_ok
                &&& final(self).pending_add.value == old(self).pending_add.value
                &&& final(self).pending_add.msg_id == old(self).pending_add.msg_id
                &&& (final(self).cas_id_counter == old(self).cas_id_counter || final(self).cas_id_counter == old(self).cas_id_counter + 1)
                &&& out@.len() == 0
            }),
    {
        let mut out: Vec<NodeMessage<CounterResponse>> = Vec::new();
        let mut front_due = false;
        if self.pending_read_ok.len() > 0 {
            front_due = self.pending_read_ok[0].timer.is_done();
        }
        if front_due {
            let pending = self.pending_read_ok.remove(0);
            let (source, msg_id) = pending.message_data;
            let m = self.send_read_ok(&source, msg_id);
            out.push(m);
            return out;
        }
        let new_id = self.get_id();
        if self.pending_add.value > 0 && self.pending_add.timer.is_done() {
            let from = Some(self.count);
            let to = Some(self.count + self.pending_add.value);
            let cas = self.send_seq_kv_compare_and_swap(from, to, new_id);
            out.push(cas);
            self.pending_add.msg_id = Some(new_id);
            self.pending_add.timer.reset();
        }
        out
    }

    /// Dispatches one inbound counter message.
    pub fn handle_message(&mut self, request: NodeMessage<RequestType>) -> (out: Vec<NodeMessage<
        CounterResponse,
    >>)
        requires
            old(self).cas_id_counter < u64::MAX,
            spec_char_sum(old(self).node_id@) <= u32::MAX,
            forall|b: AddBody|
                old(self).request_is_add(request, b) ==> old(self).pending_add.value + b.delta
                    <= u64::MAX && old(self).count + old(self).pending_add.value + b.delta
                    <= u64::MAX,
            forall|c: SeqKVNoDataResponse|
                old(self).request_is_cas_ok(request, c) ==> c.in_reply_to == old(
                    self,
                ).pending_add.msg_id && old(self).count + old(self).pending_add.value <= u64::MAX,
        ensures
            counter_step(*old(self), *final(self), request, out@),
    {
        match request.body {
            RequestType::Add(body) => {
                proof {
                    assert(old(self).request_is_add(request, body));
                }
                self.handle_add(&request.src, body)
            },
            RequestType::Read(body) => self.handle_read(&request.src, body),
            RequestType::SeqKVError(err) => self.handle_seq_kv_error(err),
            RequestType::CasOk(cas_ok) => {
                proof {
                    assert(old(self).request_is_cas_ok(request, cas_ok));
                }
                self.handle_cas_ok(cas_ok)
            },
            RequestType::ReadOk(read_ok) => self.handle_read_ok(read_ok),
        }
    }

    /// Whether `request` is an `add` carrying `b`.
    pub open spec fn request_is_add(self, request: NodeMessage<RequestType>, b: AddBody) -> bool {
        request.body == RequestType::Add(b)
    }

    /// Whether `request` is a swap acknowledgment carrying `c`.
    pub open spec fn request_is_cas_ok(
        self,
        request: NodeMessage<RequestType>,
        c: SeqKVNoDataResponse,
    ) -> bool {
        request.body == RequestType::CasOk(c)
    }
}

} // verus!
