//! The dissemination engine: a topology-aware, acknowledgment-driven
//! broadcast protocol with per-peer deduplication, asymmetric retry, and
//! delayed read reconciliation.
//!
//! Everything here is a pure state machine: inbound envelopes go in, the
//! state mutates, and the envelopes to transmit come back out. The process
//! around it owns the transport and the scheduling.

use crate::clock::Timer;
use crate::ids::spec_is_customer;
use crate::ids::spec_is_main;
use crate::ids::spec_links_of_id;
use crate::ids::is_customer_node;
use crate::ids::is_main_node;
use crate::ids::links_of_id;
use crate::MsgView;
use crate::NodeMessage;
use vstd::prelude::*;

verus! {

// ------------------------------------------------------------------
// Message bodies. Each protocol message kind is its own tagged variant;
// the wire tag is attached only at serialization time, outside the engine.
// ------------------------------------------------------------------
/// An inbound `broadcast`: a value to disseminate.
pub struct BroadcastBody {
    pub message: u64,
    pub in_reply_to: Option<u64>,
    pub msg_id: Option<u64>,
}

/// An inbound `read` or `broadcast_ok`: bookkeeping fields only. For a
/// `broadcast_ok`, `msg_id` echoes the acknowledged value.
pub struct ReadBody {
    pub in_reply_to: Option<u64>,
    pub msg_id: Option<u64>,
}

/// An inbound `read_ok`: the values another node knows.
pub struct ReadOkBody {
    pub messages: Vec<u64>,
    pub in_reply_to: Option<u64>,
    pub msg_id: Option<u64>,
}

/// An inbound `topology`: the adjacency the membership source suggests.
pub struct TopologyBody {
    pub topology: Vec<(String, Vec<String>)>,
    pub in_reply_to: Option<u64>,
    pub msg_id: Option<u64>,
}

/// An outbound `broadcast_ok` or `topology_ok`.
pub struct BasicResponse {
    pub in_reply_to: Option<u64>,
    pub msg_id: Option<u64>,
}

/// An outbound `read_ok`: the values this node knows.
pub struct ReadResponse {
    pub messages: Vec<u64>,
    pub in_reply_to: Option<u64>,
    pub msg_id: Option<u64>,
}

/// An outbound `broadcast`.
pub struct BroadcastResponse {
    pub message: u64,
    pub in_reply_to: Option<u64>,
    pub msg_id: Option<u64>,
}

/// One inbound protocol message, by kind.
pub enum RequestType {
    Broadcast(BroadcastBody),
    Read(ReadBody),
    ReadOk(ReadOkBody),
    Topology(TopologyBody),
    BroadcastOk(ReadBody),
}

/// One outbound protocol message, by kind.
pub enum ResponseBody {
    BroadcastOk(BasicResponse),
    TopologyOk(BasicResponse),
    Broadcast(BroadcastResponse),
    ReadOk(ReadResponse),
    ReadRequest(ReadBody),
}

// ------------------------------------------------------------------
// Views.
// ------------------------------------------------------------------
/// The view of a body that carries a value list.
pub struct ReadOkView {
    pub messages: Seq<u64>,
    pub in_reply_to: Option<u64>,
    pub msg_id: Option<u64>,
}

/// The view of a stored adjacency.
pub struct TopologyView {
    pub topology: Seq<(Seq<char>, Seq<Seq<char>>)>,
    pub in_reply_to: Option<u64>,
    pub msg_id: Option<u64>,
}

/// The view of an outbound message body, by kind.
pub enum ResponseView {
    BroadcastOk(BasicResponse),
    TopologyOk(BasicResponse),
    Broadcast(BroadcastResponse),
    ReadOk(ReadOkView),
    ReadRequest(ReadBody),
}

impl View for BroadcastBody {
    type V = BroadcastBody;

    open spec fn view(&self) -> BroadcastBody {
        *self
    }
}

impl View for ReadBody {
    type V = ReadBody;

    open spec fn view(&self) -> ReadBody {
        *self
    }
}

impl View for BasicResponse {
    type V = BasicResponse;

    open spec fn view(&self) -> BasicResponse {
        *self
    }
}

impl View for BroadcastResponse {
    type V = BroadcastResponse;

    open spec fn view(&self) -> BroadcastResponse {
        *self
    }
}

impl View for ReadOkBody {
    type V = ReadOkView;

    open spec fn view(&self) -> ReadOkView {
        ReadOkView { messages: self.messages@, in_reply_to: self.in_reply_to, msg_id: self.msg_id }
    }
}

impl View for ReadResponse {
    type V = ReadOkView;

    open spec fn view(&self) -> ReadOkView {
        ReadOkView { messages: self.messages@, in_reply_to: self.in_reply_to, msg_id: self.msg_id }
    }
}

impl View for TopologyBody {
    type V = TopologyView;

    open spec fn view(&self) -> TopologyView {
        TopologyView {
            topology: Seq::new(
                self.topology@.len(),
                |i: int| (self.topology@[i].0@, self.topology@[i].1.deep_view()),
            ),
            in_reply_to: self.in_reply_to,
            msg_id: self.msg_id,
        }
    }
}

impl View for ResponseBody {
    type V = ResponseView;

    open spec fn view(&self) -> ResponseView {
        match self {
            ResponseBody::BroadcastOk(b) => ResponseView::BroadcastOk(*b),
            ResponseBody::TopologyOk(b) => ResponseView::TopologyOk(*b),
            ResponseBody::Broadcast(b) => ResponseView::Broadcast(*b),
            ResponseBody::ReadOk(b) => ResponseView::ReadOk(b@),
            ResponseBody::ReadRequest(b) => ResponseView::ReadRequest(*b),
        }
    }
}

/// Copies a tracked broadcast message; the copy equals the original.
pub fn clone_broadcast_message(m: &NodeMessage<BroadcastResponse>) -> (r: NodeMessage<
    BroadcastResponse,
>)
    ensures
        r == *m,
{
    NodeMessage {
        src: m.src.clone(),
        dest: m.dest.clone(),
        body: BroadcastResponse {
            message: m.body.message,
            in_reply_to: m.body.in_reply_to,
            msg_id: m.body.msg_id,
        },
    }
}

// ------------------------------------------------------------------
// Peer retry bus.
// ------------------------------------------------------------------
/// The retry state for one assigned peer: a shared retransmission timer and
/// the in-flight, unacknowledged broadcast message per value.
pub struct PeerLink {
    pub peer: String,
    pub timer: Timer,
    pub pending: Vec<(u64, NodeMessage<BroadcastResponse>)>,
}

/// The peer retry bus: one `PeerLink` per assigned peer. For each
/// (peer, value) pair it keeps at most one in-flight broadcast message, and
/// it retries exactly the still-unacknowledged ones, one peer per tick, in a
/// fixed rotation.
pub struct MessageBus {
    pub links: Vec<PeerLink>,
    pub retry_wait_ms: u64,
}

impl MessageBus {
    /// Internal consistency: peers are distinct, each peer's pending values
    /// are distinct, and every stored message is the broadcast of its value
    /// addressed to its peer.
    pub open spec fn wf(self) -> bool {
        &&& forall|i: int, j: int|
            0 <= i < self.links@.len() && 0 <= j < self.links@.len() && i != j
                ==> #[trigger] self.links@[i].peer@ != #[trigger] self.links@[j].peer@
        &&& forall|i: int, a: int, b: int|
            0 <= i < self.links@.len() && 0 <= a < self.links@[i].pending@.len() && 0 <= b
                < self.links@[i].pending@.len() && a != b
                ==> #[trigger] self.links@[i].pending@[a].0 != #[trigger] self.links@[i].pending@[b].0
        &&& forall|i: int, a: int|
            0 <= i < self.links@.len() && 0 <= a < self.links@[i].pending@.len()
                ==> (#[trigger] self.links@[i].pending@[a].1).dest@ == self.links@[i].peer@
                && self.links@[i].pending@[a].1.body.message == self.links@[i].pending@[a].0
    }

    /// Whether the bus tracks peer `p`.
    pub open spec fn tracks(self, p: Seq<char>) -> bool {
        exists|i: int| 0 <= i < self.links@.len() && (#[trigger] self.links@[i].peer@) == p
    }

    /// Whether entry `(i, a)` is the in-flight slot for `(p, v)`.
    pub open spec fn pending_at(self, i: int, a: int, p: Seq<char>, v: u64) -> bool {
        &&& 0 <= i < self.links@.len()
        &&& self.links@[i].peer@ == p
        &&& 0 <= a < self.links@[i].pending@.len()
        &&& self.links@[i].pending@[a].0 == v
    }

    /// Whether an unacknowledged broadcast of `v` to peer `p` is in flight.
    pub open spec fn has_pending(self, p: Seq<char>, v: u64) -> bool {
        exists|i: int, a: int| self.pending_at(i, a, p, v)
    }

    /// The in-flight message for `(p, v)`; meaningful when `has_pending`.
    pub open spec fn pending_msg(self, p: Seq<char>, v: u64) -> NodeMessage<BroadcastResponse> {
        let (i, a) = choose|i: int, a: int| self.pending_at(i, a, p, v);
        self.links@[i].pending@[a].1
    }

    /// Everything tracked and in flight is the same in `self` as in `other`.
    pub open spec fn same_pending(self, other: MessageBus) -> bool {
        &&& forall|p: Seq<char>| self.tracks(p) == other.tracks(p)
        &&& forall|p: Seq<char>, v: u64| self.has_pending(p, v) == other.has_pending(p, v)
        &&& forall|p: Seq<char>, v: u64|
            other.has_pending(p, v) ==> self.pending_msg(p, v) == other.pending_msg(p, v)
    }

    /// A bus with no peers yet; retries wait `retry_wait_ms` between sends.
    pub fn new(retry_wait_ms: u64) -> (bus: MessageBus)
        ensures
            bus.wf(),
            bus.retry_wait_ms == retry_wait_ms,
            forall|p: Seq<char>| !bus.tracks(p),
            forall|p: Seq<char>, v: u64| !bus.has_pending(p, v),
    {
        MessageBus { links: Vec::new(), retry_wait_ms }
    }

    /// The index of the link for `peer`, if the bus tracks it.
    fn find_link(&self, peer: &String) -> (r: Option<usize>)
        ensures
            match r {
                Some(i) => i < self.links@.len() && self.links@[i as int].peer@ == peer@,
                None => !self.tracks(peer@),
            },
    {
        let mut i: usize = 0;
        while i < self.links.len()
            invariant
                i <= self.links@.len(),
                forall|k: int| 0 <= k < i ==> (#[trigger] self.links@[k].peer@) != peer@,
            decreases self.links@.len() - i,
        {
            if self.links[i].peer.eq(peer) {
                return Some(i);
            }
            i = i + 1;
        }
        None
    }

    /// The position of value `v` in this link's pending list, if present.
    fn find_pending(link: &PeerLink, v: u64) -> (r: Option<usize>)
        ensures
            match r {
                Some(a) => a < link.pending@.len() && link.pending@[a as int].0 == v,
                None => forall|a: int| 0 <= a < link.pending@.len() ==> (#[trigger] link.pending@[a].0) != v,
            },
    {
        let mut a: usize = 0;
        while a < link.pending.len()
            invariant
                a <= link.pending@.len(),
                forall|k: int| 0 <= k < a ==> (#[trigger] link.pending@[k].0) != v,
            decreases link.pending@.len() - a,
        {
            if link.pending[a].0 == v {
                return Some(a);
            }
            a = a + 1;
        }
        None
    }

    /// Replaces the full peer set: afterwards exactly the peers of
    /// `neighborhood` are tracked, each with a fresh timer and nothing in
    /// flight. Links of peers no longer present are discarded.
    pub fn update_neighborhood(&mut self, neighborhood: &Vec<String>)
        ensures
            final(self).wf(),
            final(self).retry_wait_ms == old(self).retry_wait_ms,
            forall|p: Seq<char>|
                final(self).tracks(p) == neighborhood.deep_view().contains(p),
            forall|p: Seq<char>, v: u64| !final(self).has_pending(p, v),
    {
        let wait = self.retry_wait_ms;
        let mut links: Vec<PeerLink> = Vec::new();
        let mut i: usize = 0;
        while i < neighborhood.len()
            invariant
                i <= neighborhood@.len(),
                forall|a: int, b: int|
                    0 <= a < links@.len() && 0 <= b < links@.len() && a != b
                        ==> #[trigger] links@[a].peer@ != #[trigger] links@[b].peer@,
                forall|a: int| 0 <= a < links@.len() ==> (#[trigger] links@[a].pending@.len()) == 0,
                forall|a: int|
                    0 <= a < links@.len()
                        ==> neighborhood.deep_view().subrange(0, i as int).contains(
                        #[trigger] links@[a].peer@,
                    ),
                forall|p: Seq<char>|
                    neighborhood.deep_view().subrange(0, i as int).contains(p)
                        ==> exists|a: int| 0 <= a < links@.len() && (#[trigger] links@[a].peer@) == p,
            decreases neighborhood@.len() - i,
    {
            let id = &neighborhood[i];
            let mut present = false;
            let mut k: usize = 0;
            while k < links.len()
                invariant
                    k <= links@.len(),
                    present == exists|a: int| 0 <= a < k && (#[trigger] links@[a].peer@) == id@,
                decreases links@.len() - k,
            {
                if links[k].peer.eq(id) {
                    present = true;
                    k = links.len();
                } else {
                    k = k + 1;
                }
            }
            let ghost had = links@;
            if !present {
                links.push(
                    PeerLink { peer: id.clone(), timer: Timer::from_millis(wait), pending: Vec::new() },
                );
                proof {
                    assert(links@[links@.len() - 1].peer@ == id@);
                }
            }
            proof {
                let part = neighborhood.deep_view().subrange(0, i + 1);
                assert(part.drop_last() =~= neighborhood.deep_view().subrange(0, i as int));
                assert(part.last() == id@);
                assert forall|p: Seq<char>| #![trigger part.contains(p)]
                    part.contains(p) implies exists|a: int|
                    0 <= a < links@.len() && (#[trigger] links@[a].peer@) == p by {
                    let w = choose|w: int| 0 <= w < part.len() && part[w] == p;
                    if w < part.len() - 1 {
                        assert(neighborhood.deep_view().subrange(0, i as int)[w] == p);
                        assert(neighborhood.deep_view().subrange(0, i as int).contains(p));
                        let a = choose|a: int| 0 <= a < had.len() && (#[trigger] had[a].peer@) == p;
                        assert(links@[a].peer@ == p);
                    } else {
                        assert(p == id@);
                        if present {
                            let a = choose|a: int|
                                0 <= a < had.len() && (#[trigger] had[a].peer@) == id@;
                            assert(links@[a].peer@ == id@);
                        } else {
                            assert(links@[links@.len() - 1].peer@ == id@);
                        }
                    }
                }
                assert forall|a: int| 0 <= a < links@.len() implies neighborhood.deep_view().subrange(
                    0,
                    i + 1,
                ).contains(#[trigger] links@[a].peer@) by {
                    if a < had.len() {
                        assert(had[a].peer@ == links@[a].peer@);
                        assert(neighborhood.deep_view().subrange(0, i as int).contains(
                            links@[a].peer@,
                        ));
                        let w = choose|w: int|
                            0 <= w < i && neighborhood.deep_view().subrange(0, i as int)[w]
                                == links@[a].peer@;
                        assert(neighborhood.deep_view().subrange(0, i + 1)[w] == links@[a].peer@);
                    } else {
                        assert(links@[a].peer@ == id@);
                        assert(neighborhood.deep_view().subrange(0, i + 1)[i as int] == id@);
                    }
                }
            }
            i = i + 1;
        }
        proof {
            assert(neighborhood.deep_view().subrange(0, neighborhood@.len() as int)
                =~= neighborhood.deep_view());
        }
        self.links = links;
    }

    /// Records `message` as the in-flight attempt for `(node_id,
    /// message_value)` and returns it for transmission — but only if no
    /// attempt for that pair is outstanding. A second offer before the
    /// acknowledgment returns `None` and leaves the first message in place.
    /// Either way the peer's retransmission timer restarts.
    pub fn add_message(
        &mut self,
        node_id: &String,
        message_value: u64,
        message: NodeMessage<BroadcastResponse>,
    ) -> (r: Option<NodeMessage<BroadcastResponse>>)
        requires
            old(self).wf(),
            old(self).tracks(node_id@),
            message.dest@ == node_id@,
            message.body.message == message_value,
        ensures
            final(self).wf(),
            final(self).retry_wait_ms == old(self).retry_wait_ms,
            forall|p: Seq<char>| final(self).tracks(p) == old(self).tracks(p),
            offer_step(*old(self), *final(self), node_id@, message_value, message, r),
            old(self).has_pending(node_id@, message_value) ==> r is None && final(self).same_pending(
                *old(self),
            ),
            !old(self).has_pending(node_id@, message_value) ==> {
                &&& r == Some(message)
                &&& final(self).has_pending(node_id@, message_value)
                &&& final(self).pending_msg(node_id@, message_value) == message
                &&& forall|p: Seq<char>, v: u64|
                    !(p == node_id@ && v == message_value) ==> final(self).has_pending(p, v) == old(self).has_pending(p, v)
                &&& forall|p: Seq<char>, v: u64|
                    !(p == node_id@ && v == message_value) && old(self).has_pending(p, v) ==> final(self).pending_msg(p, v) == old(self).pending_msg(p, v)
            },
    {
        let found = self.find_link(node_id);
        let i = match found {
            Some(i) => i,
            None => {
                proof {
                    assert(false);
                }
                return None;
            },
        };
        let link = &mut self.links[i];
        link.timer.reset();
        proof {
            lemma_same_links_same_pending(*self, *old(self));
        }
        let dup = Self::find_pending(&self.links[i], message_value);
        let ghost mid = *self;
        match dup {
            Some(a) => {
                proof {
                    assert(old(self).pending_at(i as int, a as int, node_id@, message_value));
                }
                None
            },
            None => {
                proof {
                    if old(self).has_pending(node_id@, message_value) {
                        let (i2, a2) = choose|i2: int, a2: int|
                            old(self).pending_at(i2, a2, node_id@, message_value);
                        assert(i2 == i as int);
                        assert(false);
                    }
                }
                let stored = clone_broadcast_message(&message);
                let link2 = &mut self.links[i];
                let ghost plen = link2.pending@.len() as int;
                link2.pending.push((message_value, stored));
                proof {
                    let p0 = node_id@;
                    let v0 = message_value;
                    assert(self.links@ =~= mid.links@.update(
                        i as int,
                        self.links@[i as int],
                    ));
                    assert(self.links@[i as int].pending@ == mid.links@[i as int].pending@.push(
                        (v0, stored),
                    ));
                    assert(self.wf()) by {
                        assert forall|x: int, a: int, b: int|
                            0 <= x < self.links@.len() && 0 <= a < self.links@[x].pending@.len()
                                && 0 <= b < self.links@[x].pending@.len() && a != b implies
                            #[trigger] self.links@[x].pending@[a].0 != #[trigger] self.links@[x].pending@[b].0 by {
                            if x == i as int {
                                if a == plen || b == plen {
                                    assert(forall|c: int|
                                        0 <= c < plen ==> (#[trigger] mid.links@[i as int].pending@[c].0)
                                            != v0);
                                }
                            }
                        }
                    }
                    assert(self.pending_at(i as int, plen, p0, v0));
                    lemma_pending_msg_unique(*self, i as int, plen, p0, v0);
                    assert forall|p: Seq<char>, v: u64| !(p == p0 && v == v0) implies self.has_pending(
                        p,
                        v,
                    ) == old(self).has_pending(p, v) by {
                        if old(self).has_pending(p, v) {
                            let (i2, a2) = choose|i2: int, a2: int|
                                old(self).pending_at(i2, a2, p, v);
                            assert(self.pending_at(i2, a2, p, v));
                        }
                        if self.has_pending(p, v) {
                            let (i2, a2) = choose|i2: int, a2: int| self.pending_at(i2, a2, p, v);
                            if i2 == i as int && a2 == plen {
                                assert(false);
                            } else {
                                assert(old(self).pending_at(i2, a2, p, v));
                            }
                        }
                    }
                    assert forall|p: Seq<char>, v: u64|
                        !(p == p0 && v == v0) && old(self).has_pending(p, v) implies self.pending_msg(
                        p,
                        v,
                    ) == old(self).pending_msg(p, v) by {
                        let (i2, a2) = choose|i2: int, a2: int| old(self).pending_at(i2, a2, p, v);
                        assert(self.pending_at(i2, a2, p, v));
                        lemma_pending_msg_unique(*old(self), i2, a2, p, v);
                        lemma_pending_msg_unique(*self, i2, a2, p, v);
                    }
                    assert forall|p: Seq<char>| self.tracks(p) == old(self).tracks(p) by {
                        if old(self).tracks(p) {
                            let i2 = choose|i2: int|
                                0 <= i2 < old(self).links@.len() && (#[trigger] old(self).links@[i2].peer@) == p;
                            assert(self.links@[i2].peer@ == p);
                        }
                        if self.tracks(p) {
                            let i2 = choose|i2: int|
                                0 <= i2 < self.links@.len() && (#[trigger] self.links@[i2].peer@)
                                    == p;
                            assert(old(self).links@[i2].peer@ == p);
                        }
                    }
                }
                Some(message)
            },
        }
    }

    /// Clears the in-flight entry for `(node_id, message)`; nothing happens
    /// when no such entry or peer exists.
    pub fn delete_message_checked(&mut self, node_id: &String, message: u64)
        requires
            old(self).wf(),
        ensures
            final(self).wf(),
            final(self).retry_wait_ms == old(self).retry_wait_ms,
            forall|p: Seq<char>| final(self).tracks(p) == old(self).tracks(p),
            !final(self).has_pending(node_id@, message),
            forall|p: Seq<char>, v: u64|
                !(p == node_id@ && v == message) ==> final(self).has_pending(p, v) == old(self).has_pending(p, v),
            forall|p: Seq<char>, v: u64|
                !(p == node_id@ && v == message) && old(self).has_pending(p, v) ==> final(self).pending_msg(p, v) == old(self).pending_msg(p, v),
    {
        let found = self.find_link(node_id);
        match found {
            Some(i) => {
                let dup = Self::find_pending(&self.links[i], message);
                match dup {
                    Some(a) => {
                        let link = &mut self.links[i];
                        link.pending.remove(a);
                        proof {
                            let p0 = node_id@;
                            let v0 = message;
                            let oldp = old(self).links@[i as int].pending@;
                            assert(self.links@[i as int].pending@ == oldp.remove(a as int));
                            assert(self.wf()) by {
                                assert forall|x: int, c: int, d: int|
                                    0 <= x < self.links@.len() && 0 <= c
                                        < self.links@[x].pending@.len() && 0 <= d
                                        < self.links@[x].pending@.len() && c != d implies
                                    #[trigger] self.links@[x].pending@[c].0
                                        != #[trigger] self.links@[x].pending@[d].0 by {
                                    if x == i as int {
                                        let c2: int = if c < a as int { c } else { c + 1 };
                                        let d2: int = if d < a as int { d } else { d + 1 };
                                        assert(self.links@[x].pending@[c] == oldp[c2]);
                                        assert(self.links@[x].pending@[d] == oldp[d2]);
                                        assert(oldp[c2].0 != oldp[d2].0);
                                    }
                                }
                                assert forall|x: int, c: int|
                                    0 <= x < self.links@.len() && 0 <= c
                                        < self.links@[x].pending@.len() implies (#[trigger] self.links@[x].pending@[c].1).dest@
                                    == self.links@[x].peer@ && self.links@[x].pending@[c].1.body.message
                                    == self.links@[x].pending@[c].0 by {
                                    if x == i as int {
                                        let c2: int = if c < a as int { c } else { c + 1 };
                                        assert(self.links@[x].pending@[c] == oldp[c2]);
                                    }
                                }
                            }
                            assert(!self.has_pending(p0, v0)) by {
                                if self.has_pending(p0, v0) {
                                    let (i2, x) = choose|i2: int, x: int|
                                        self.pending_at(i2, x, p0, v0);
                                    assert(old(self).links@[i2].peer@ == self.links@[i2].peer@);
                                    assert(i2 == i as int);
                                    let x2: int = if x < a as int { x } else { x + 1 };
                                    assert(self.links@[i2].pending@[x] == oldp[x2]);
                                    assert(oldp[x2].0 == v0);
                                    assert(oldp[a as int].0 == v0);
                                    assert(x2 != a as int);
                                    assert(false);
                                }
                            }
                            assert forall|p: Seq<char>, v: u64| !(p == p0 && v == v0) implies
                                self.has_pending(p, v) == old(self).has_pending(p, v) by {
                                if old(self).has_pending(p, v) {
                                    let (i2, x) = choose|i2: int, x: int|
                                        old(self).pending_at(i2, x, p, v);
                                    if i2 == i as int {
                                        assert(x != a as int);
                                        let x2: int = if x < a as int { x } else { x - 1 };
                                        assert(self.links@[i2].pending@[x2] == oldp[x]);
                                        assert(self.pending_at(i2, x2, p, v));
                                    } else {
                                        assert(self.pending_at(i2, x, p, v));
                                    }
                                }
                                if self.has_pending(p, v) {
                                    let (i2, x) = choose|i2: int, x: int|
                                        self.pending_at(i2, x, p, v);
                                    if i2 == i as int {
                                        let x2: int = if x < a as int { x } else { x + 1 };
                                        assert(self.links@[i2].pending@[x] == oldp[x2]);
                                        assert(old(self).pending_at(i2, x2, p, v));
                                    } else {
                                        assert(old(self).pending_at(i2, x, p, v));
                                    }
                                }
                            }
                            assert forall|p: Seq<char>, v: u64|
                                !(p == p0 && v == v0) && old(self).has_pending(p, v) implies
                                self.pending_msg(p, v) == old(self).pending_msg(p, v) by {
                                let (i2, x) = choose|i2: int, x: int|
                                    old(self).pending_at(i2, x, p, v);
                                lemma_pending_msg_unique(*old(self), i2, x, p, v);
                                if i2 == i as int {
                                    assert(x != a as int);
                                    let x2: int = if x < a as int { x } else { x - 1 };
                                    assert(self.links@[i2].pending@[x2] == oldp[x]);
                                    assert(self.pending_at(i2, x2, p, v));
                                    lemma_pending_msg_unique(*self, i2, x2, p, v);
                                } else {
                                    assert(self.pending_at(i2, x, p, v));
                                    lemma_pending_msg_unique(*self, i2, x, p, v);
                                }
                            }
                            assert forall|p: Seq<char>| self.tracks(p) == old(self).tracks(p) by {
                                if old(self).tracks(p) {
                                    let i2 = choose|i2: int|
                                        0 <= i2 < old(self).links@.len() && (#[trigger] old(self).links@[i2].peer@) == p;
                                    assert(self.links@[i2].peer@ == p);
                                }
                                if self.tracks(p) {
                                    let i2 = choose|i2: int|
                                        0 <= i2 < self.links@.len() && (#[trigger] self.links@[i2].peer@)
                                            == p;
                                    assert(old(self).links@[i2].peer@ == p);
                                }
                            }
                        }
                    },
                    None => {
                        proof {
                            if self.has_pending(node_id@, message) {
                                let (i2, x) = choose|i2: int, x: int|
                                    self.pending_at(i2, x, node_id@, message);
                                assert(i2 == i as int);
                                assert(false);
                            }
                        }
                    },
                }
            },
            None => {
                proof {
                    if self.has_pending(node_id@, message) {
                        let (i2, x) = choose|i2: int, x: int|
                            self.pending_at(i2, x, node_id@, message);
                        assert(self.tracks(node_id@));
                        assert(false);
                    }
                }
            },
        }
    }

    /// Clears the in-flight entry for `(node_id, message)` at a peer the bus
    /// tracks.
    pub fn delete_message(&mut self, node_id: &String, message: u64)
        requires
            old(self).wf(),
            old(self).tracks(node_id@),
        ensures
            final(self).wf(),
            final(self).retry_wait_ms == old(self).retry_wait_ms,
            forall|p: Seq<char>| final(self).tracks(p) == old(self).tracks(p),
            !final(self).has_pending(node_id@, message),
            forall|p: Seq<char>, v: u64|
                !(p == node_id@ && v == message) ==> final(self).has_pending(p, v) == old(self).has_pending(p, v),
            forall|p: Seq<char>, v: u64|
                !(p == node_id@ && v == message) && old(self).has_pending(p, v) ==> final(self).pending_msg(p, v) == old(self).pending_msg(p, v),
    {
        self.delete_message_checked(node_id, message);
    }

    /// Serves one retry tick: scans peers in a fixed rotation, restarts the
    /// timer of the first peer whose timer has elapsed, and returns one of
    /// that peer's still-pending messages, exactly as it was offered — or
    /// `None` when no peer is due or the due peer has nothing in flight.
    /// Nothing in flight changes.
    #[verifier::spinoff_prover]
    pub fn pick_message(&mut self) -> (r: Option<NodeMessage<BroadcastResponse>>)
        requires
            old(self).wf(),
        ensures
            final(self).wf(),
            final(self).retry_wait_ms == old(self).retry_wait_ms,
            final(self).same_pending(*old(self)),
            retry_step(*old(self), *final(self), r),
            match r {
                Some(m) => exists|p: Seq<char>, v: u64|
                    old(self).has_pending(p, v) && m == old(self).pending_msg(p, v),
                None => true,
            },
    {
        let ghost orig = *self;
        let mut i: usize = 0;
        #[verifier::loop_isolation(false)]
        while i < self.links.len()
            invariant
                i <= self.links@.len(),
                self.wf(),
                self.retry_wait_ms == orig.retry_wait_ms,
                self.links@.len() == orig.links@.len(),
                forall|k: int|
                    0 <= k < self.links@.len() ==> (#[trigger] self.links@[k].peer@) == orig.links@[k].peer@
                        && self.links@[k].pending@ == orig.links@[k].pending@,
            decreases self.links@.len() - i,
        {
            let due = self.links[i].timer.is_done();
            if due {
                let link = &mut self.links[i];
                link.timer.reset();
                if link.pending.len() > 0 {
                    let picked = clone_broadcast_message(&link.pending[0].1);
                    proof {
                        let p = self.links@[i as int].peer@;
                        let v = self.links@[i as int].pending@[0].0;
                        assert(orig.pending_at(i as int, 0, p, v));
                        assert(orig.has_pending(p, v));
                        lemma_pending_msg_unique(orig, i as int, 0, p, v);
                        assert(self.same_pending(orig)) by {
                            lemma_same_links_same_pending(*self, orig);
                        }
                    }
                    return Some(picked);
                }
                proof {
                    assert(self.same_pending(orig)) by {
                        lemma_same_links_same_pending(*self, orig);
                    }
                }
                return None;
            }
            i = i + 1;
        }
        proof {
            assert(self.same_pending(orig)) by {
                lemma_same_links_same_pending(*self, orig);
            }
        }
        None
    }
}

// ------------------------------------------------------------------
// Read reconciliation bus.
// ------------------------------------------------------------------
/// The read reconciliation bus: a first-in-first-out queue of pending read
/// replies for externally-originated queries. Each reply waits behind a
/// settle timer so that anti-entropy synchronisation can land first; its
/// payload is filled in only at emission time.
pub struct CustomerBus {
    pub messages: Vec<(Timer, NodeMessage<ReadResponse>)>,
    pub read_wait_ms: u64,
}

impl CustomerBus {
    /// The queued reply skeletons, oldest first.
    pub open spec fn queue(self) -> Seq<NodeMessage<ReadResponse>> {
        self.messages@.map_values(|e: (Timer, NodeMessage<ReadResponse>)| e.1)
    }

    /// An empty bus whose replies settle for `read_wait_ms` milliseconds.
    pub fn new(read_wait_ms: u64) -> (bus: CustomerBus)
        ensures
            bus.read_wait_ms == read_wait_ms,
            bus.queue() =~= Seq::<NodeMessage<ReadResponse>>::empty(),
    {
        CustomerBus { messages: Vec::new(), read_wait_ms }
    }

    /// Queues a reply skeleton behind a fresh settle timer.
    pub fn add(&mut self, message: NodeMessage<ReadResponse>)
        ensures
            final(self).read_wait_ms == old(self).read_wait_ms,
            final(self).queue() == old(self).queue().push(message),
    {
        let wait = self.read_wait_ms;
        self.messages.push((Timer::from_millis(wait), message));
        proof {
            assert(self.queue() =~= old(self).queue().push(message));
        }
    }

    /// Releases the oldest reply skeleton once its settle timer has elapsed;
    /// `None` while the queue is empty or the front timer still runs.
    pub fn pop(&mut self) -> (r: Option<NodeMessage<ReadResponse>>)
        ensures
            final(self).read_wait_ms == old(self).read_wait_ms,
            match r {
                Some(m) => old(self).queue().len() > 0 && m == old(self).queue()[0] && final(self).queue() == old(self).queue().drop_first(),
                None => final(self).queue() == old(self).queue(),
            },
    {
        if self.messages.len() > 0 {
            let due = self.messages[0].0.is_done();
            if due {
                let (_, m) = self.messages.remove(0);
                proof {
                    assert(self.queue() =~= old(self).queue().drop_first());
                    assert(m == old(self).queue()[0]);
                }
                return Some(m);
            }
        }
        proof {
            assert(self.queue() =~= old(self).queue());
        }
        None
    }
}

// ------------------------------------------------------------------
// Deduplication store.
// ------------------------------------------------------------------
/// The two monotone value sets of a node: every value it has ever observed
/// (the convergent payload returned on reads) and every value it has already
/// fanned out to its whole peer set.
pub struct DedupStore {
    pub values: Vec<u64>,
    pub past_broadcast: Vec<u64>,
}

impl DedupStore {
    /// Both lists hold each value at most once, and a value is only marked
    /// broadcast once it is known.
    pub open spec fn wf(self) -> bool {
        &&& forall|a: int, b: int|
            0 <= a < self.values@.len() && 0 <= b < self.values@.len() && a != b
                ==> #[trigger] self.values@[a] != #[trigger] self.values@[b]
        &&& forall|a: int, b: int|
            0 <= a < self.past_broadcast@.len() && 0 <= b < self.past_broadcast@.len() && a != b
                ==> #[trigger] self.past_broadcast@[a] != #[trigger] self.past_broadcast@[b]
        &&& forall|v: u64| self.broadcasted(v) ==> self.known(v)
    }

    /// Whether value `v` has been observed.
    pub open spec fn known(self, v: u64) -> bool {
        self.values@.contains(v)
    }

    /// Whether value `v` has already been fanned out.
    pub open spec fn broadcasted(self, v: u64) -> bool {
        self.past_broadcast@.contains(v)
    }

    /// An empty store.
    pub fn new() -> (store: DedupStore)
        ensures
            store.wf(),
            store.values@ =~= Seq::<u64>::empty(),
            store.past_broadcast@ =~= Seq::<u64>::empty(),
    {
        DedupStore { values: Vec::new(), past_broadcast: Vec::new() }
    }

    /// Whether `haystack` holds `v`.
    fn vec_contains(haystack: &Vec<u64>, v: u64) -> (r: bool)
        ensures
            r == haystack@.contains(v),
    {
        let mut i: usize = 0;
        while i < haystack.len()
            invariant
                i <= haystack@.len(),
                forall|k: int| 0 <= k < i ==> (#[trigger] haystack@[k]) != v,
            decreases haystack@.len() - i,
        {
            if haystack[i] == v {
                return true;
            }
            i = i + 1;
        }
        false
    }

    /// Observes a value: inserts it and reports whether it was newly seen.
    /// The known set only grows, by exactly this value.
    pub fn observe(&mut self, v: u64) -> (fresh: bool)
        requires
            old(self).wf(),
        ensures
            final(self).wf(),
            fresh == !old(self).known(v),
            final(self).known(v),
            forall|w: u64| final(self).known(w) == (old(self).known(w) || w == v),
            forall|w: u64| final(self).broadcasted(w) == old(self).broadcasted(w),
            final(self).values@ == if old(self).known(v) {
                old(self).values@
            } else {
                old(self).values@.push(v)
            },
            final(self).past_broadcast@ == old(self).past_broadcast@,
    {
        if Self::vec_contains(&self.values, v) {
            false
        } else {
            self.values.push(v);
            proof {
                assert(self.values@.last() == v);
                assert forall|w: u64| self.known(w) == (old(self).known(w) || w == v) by {
                    if self.known(w) {
                        let k = choose|k: int|
                            0 <= k < self.values@.len() && (#[trigger] self.values@[k]) == w;
                        if k < self.values@.len() - 1 {
                            assert(old(self).values@[k] == w);
                        }
                    }
                    if old(self).known(w) {
                        let k = choose|k: int|
                            0 <= k < old(self).values@.len() && (#[trigger] old(self).values@[k]) == w;
                        assert(self.values@[k] == w);
                    }
                }
            }
            true
        }
    }

    /// A snapshot of every known value, in observation order.
    pub fn snapshot(&self) -> (r: Vec<u64>)
        ensures
            r@ == self.values@,
    {
        let mut r: Vec<u64> = Vec::new();
        let mut i: usize = 0;
        while i < self.values.len()
            invariant
                i <= self.values@.len(),
                r@ =~= self.values@.take(i as int),
            decreases self.values@.len() - i,
        {
            r.push(self.values[i]);
            proof {
                assert(r@ =~= self.values@.take(i + 1));
            }
            i = i + 1;
        }
        proof {
            assert(self.values@.take(self.values@.len() as int) =~= self.values@);
        }
        r
    }

    /// Whether `v` was already fanned out to the whole peer set.
    pub fn already_broadcast(&self, v: u64) -> (r: bool)
        ensures
            r == self.broadcasted(v),
    {
        Self::vec_contains(&self.past_broadcast, v)
    }

    /// Marks `v` as fanned out. The broadcast set only grows, by exactly
    /// this value.
    pub fn mark_broadcast(&mut self, v: u64)
        requires
            old(self).wf(),
            old(self).known(v),
        ensures
            final(self).wf(),
            final(self).broadcasted(v),
            forall|w: u64| final(self).broadcasted(w) == (old(self).broadcasted(w) || w == v),
            forall|w: u64| final(self).known(w) == old(self).known(w),
            final(self).values@ == old(self).values@,
            final(self).past_broadcast@ == if old(self).broadcasted(v) {
                old(self).past_broadcast@
            } else {
                old(self).past_broadcast@.push(v)
            },
    {
        if !Self::vec_contains(&self.past_broadcast, v) {
            self.past_broadcast.push(v);
            proof {
                assert(self.past_broadcast@.last() == v);
                assert forall|w: u64| self.broadcasted(w) == (old(self).broadcasted(w) || w
                    == v) by {
                    if self.broadcasted(w) {
                        let k = choose|k: int|
                            0 <= k < self.past_broadcast@.len() && (#[trigger] self.past_broadcast@[k])
                                == w;
                        if k < self.past_broadcast@.len() - 1 {
                            assert(old(self).past_broadcast@[k] == w);
                        }
                    }
                    if old(self).broadcasted(w) {
                        let k = choose|k: int|
                            0 <= k < old(self).past_broadcast@.len() && (#[trigger] old(self).past_broadcast@[k]) == w;
                        assert(self.past_broadcast@[k] == w);
                    }
                }
            }
        }
    }
}

// ------------------------------------------------------------------
// The dissemination engine.
// ------------------------------------------------------------------
/// A node's whole protocol state: identity, derived peer links, the stored
/// membership adjacency, the two monotone value sets, and the two buses.
pub struct GlobalState {
    pub node_id: String,
    pub node_count: u64,
    pub neighborhood: Vec<String>,
    pub topology: Vec<(String, Vec<String>)>,
    pub dedup: DedupStore,
    pub message_bus: MessageBus,
    pub customer_read_bus: CustomerBus,
}

/// The broadcast of value `v` from `me` to `dest`, as fan-out mints it.
pub open spec fn spec_broadcast_msg(me: Seq<char>, dest: Seq<char>, v: u64) -> MsgView<
    BroadcastResponse,
> {
    MsgView { src: me, dest, body: BroadcastResponse { message: v, in_reply_to: None, msg_id: None } }
}

impl GlobalState {
    /// The stored adjacency, as character sequences.
    pub open spec fn topo_view(self) -> Seq<(Seq<char>, Seq<Seq<char>>)> {
        Seq::new(
            self.topology@.len(),
            |i: int| (self.topology@[i].0@, self.topology@[i].1.deep_view()),
        )
    }

    /// Internal consistency: the stores and buses are well formed, the peer
    /// links are distinct, the retry bus tracks exactly the peer links, and
    /// everything in flight is a broadcast this node minted.
    pub open spec fn wf(self) -> bool {
        &&& self.dedup.wf()
        &&& self.message_bus.wf()
        &&& forall|a: int, b: int|
            0 <= a < self.neighborhood@.len() && 0 <= b < self.neighborhood@.len() && a != b
                ==> #[trigger] self.neighborhood@[a]@ != #[trigger] self.neighborhood@[b]@
        &&& forall|p: Seq<char>|
            self.message_bus.tracks(p) == self.neighborhood.deep_view().contains(p)
        &&& forall|p: Seq<char>, v: u64|
            #[trigger] self.message_bus.has_pending(p, v) ==> self.message_bus.pending_msg(p, v)@
                == spec_broadcast_msg(self.node_id@, p, v)
    }

    /// A fresh node: no peers, nothing known, nothing queued. Retries wait
    /// `retry_wait_ms`; read replies settle for `read_wait_ms`.
    pub fn new(node_id: String, node_count: u64, retry_wait_ms: u64, read_wait_ms: u64) -> (s:
        GlobalState)
        ensures
            s.wf(),
            s.node_id == node_id,
            s.node_count == node_count,
            s.neighborhood@.len() == 0,
            s.topology@.len() == 0,
            forall|w: u64| !s.dedup.known(w) && !s.dedup.broadcasted(w),
            forall|p: Seq<char>, v: u64| !s.message_bus.has_pending(p, v),
            s.customer_read_bus.queue().len() == 0,
            s.message_bus.retry_wait_ms == retry_wait_ms,
            s.customer_read_bus.read_wait_ms == read_wait_ms,
    {
        let s = GlobalState {
            node_id,
            node_count,
            neighborhood: Vec::new(),
            topology: Vec::new(),
            dedup: DedupStore::new(),
            message_bus: MessageBus::new(retry_wait_ms),
            customer_read_bus: CustomerBus::new(read_wait_ms),
        };
        proof {
            assert(forall|w: u64| !s.dedup.known(w) && !s.dedup.broadcasted(w));
            assert(forall|p: Seq<char>|
                !s.message_bus.tracks(p) && !s.neighborhood.deep_view().contains(p));
        }
        s
    }
}

/// The parts of the engine state a step never touches aside from the ones it
/// names: identity and configuration.
pub open spec fn same_identity(pre: GlobalState, post: GlobalState) -> bool {
    &&& post.node_id == pre.node_id
    &&& post.node_count == pre.node_count
    &&& post.message_bus.retry_wait_ms == pre.message_bus.retry_wait_ms
    &&& post.customer_read_bus.read_wait_ms == pre.customer_read_bus.read_wait_ms
}

/// The fan-out of value `v` over the first `n` peer links of `pre`: one
/// broadcast per link, skipping the sender (`skip_src`) or this node itself
/// (`skip_me`) as the path demands, and skipping a backbone peer that
/// already has this value in flight.
pub open spec fn spec_fanout(
    pre: GlobalState,
    src: Seq<char>,
    v: u64,
    skip_src: bool,
    skip_me: bool,
    n: int,
) -> Seq<MsgView<ResponseView>>
    decreases n,
{
    if n <= 0 {
        Seq::empty()
    } else {
        let rest = spec_fanout(pre, src, v, skip_src, skip_me, n - 1);
        let peer = pre.neighborhood@[n - 1]@;
        if (skip_src && peer == src) || (skip_me && peer == pre.node_id@) {
            rest
        } else if spec_is_main(peer) && spec_is_main(pre.node_id@) && peer != src
            && pre.message_bus.has_pending(peer, v) {
            rest
        } else {
            rest.push(
                MsgView {
                    src: pre.node_id@,
                    dest: peer,
                    body: ResponseView::Broadcast(
                        BroadcastResponse { message: v, in_reply_to: None, msg_id: None },
                    ),
                },
            )
        }
    }
}

/// Whether the fan-out of `v` leaves `(p, v)` in flight: the pair survives
/// from before (unless `p` is the sender, whose entry is cleared), or `p` is
/// a backbone peer link that was just offered the value.
pub open spec fn spec_fanout_pending(
    pre: GlobalState,
    src: Seq<char>,
    v: u64,
    skip_src: bool,
    skip_me: bool,
    p: Seq<char>,
) -> bool {
    ||| (p != src && pre.message_bus.has_pending(p, v))
    ||| (pre.neighborhood.deep_view().contains(p) && !(skip_src && p == src) && !(skip_me && p
        == pre.node_id@) && spec_is_main(p) && spec_is_main(pre.node_id@))
}

/// The acknowledgment a `broadcast` earns, if any: clients and
/// backbone-to-backbone traffic are acknowledged, everything else is not.
pub open spec fn spec_broadcast_ok_part(pre: GlobalState, src: Seq<char>, b: BroadcastBody) -> Seq<
    MsgView<ResponseView>,
> {
    if spec_is_customer(src) || (spec_is_main(src) && spec_is_main(pre.node_id@)) {
        seq![
            MsgView {
                src: pre.node_id@,
                dest: src,
                body: ResponseView::BroadcastOk(
                    BasicResponse { in_reply_to: b.msg_id, msg_id: Some(b.message) },
                ),
            },
        ]
    } else {
        Seq::empty()
    }
}

/// Everything a `broadcast` sends: the acknowledgment, then — only the first
/// time this node fans the value out — one broadcast per peer link except
/// back to the sender.
pub open spec fn spec_broadcast_outputs(pre: GlobalState, src: Seq<char>, b: BroadcastBody) -> Seq<
    MsgView<ResponseView>,
> {
    spec_broadcast_ok_part(pre, src, b) + if pre.dedup.broadcasted(b.message) {
        Seq::empty()
    } else {
        spec_fanout(pre, src, b.message, true, false, pre.neighborhood@.len() as int)
    }
}

/// How handling `broadcast(b)` from `src` transforms the state and what it
/// sends: the value becomes known and marked fanned out, the sender's
/// in-flight entry for it is cleared, the first observation fans it out to
/// every other peer link, and everything else stays as it was.
pub open spec fn broadcast_step(
    pre: GlobalState,
    post: GlobalState,
    src: Seq<char>,
    b: BroadcastBody,
    out: Seq<MsgView<ResponseView>>,
) -> bool {
    &&& same_identity(pre, post)
    &&& post.neighborhood == pre.neighborhood
    &&& post.topology == pre.topology
    &&& post.customer_read_bus.queue() == pre.customer_read_bus.queue()
    &&& forall|w: u64| #![trigger post.dedup.known(w)]
        post.dedup.known(w) == (pre.dedup.known(w) || w == b.message)
    &&& forall|w: u64| #![trigger post.dedup.broadcasted(w)]
        post.dedup.broadcasted(w) == (pre.dedup.broadcasted(w) || w == b.message)
    &&& post.dedup.values@ == if pre.dedup.known(b.message) {
        pre.dedup.values@
    } else {
        pre.dedup.values@.push(b.message)
    }
    &&& forall|p: Seq<char>| #![trigger post.message_bus.tracks(p)]
        post.message_bus.tracks(p) == pre.message_bus.tracks(p)
    &&& forall|p: Seq<char>, w: u64| #![trigger post.message_bus.has_pending(p, w)]
        w != b.message ==> post.message_bus.has_pending(p, w) == pre.message_bus.has_pending(p, w)
    &&& forall|p: Seq<char>, w: u64| #![trigger post.message_bus.pending_msg(p, w)]
        w != b.message && pre.message_bus.has_pending(p, w) ==> post.message_bus.pending_msg(p, w)
            == pre.message_bus.pending_msg(p, w)
    &&& forall|p: Seq<char>| #![trigger post.message_bus.has_pending(p, b.message)]
        post.message_bus.has_pending(p, b.message) == (p != src && (pre.message_bus.has_pending(
            p,
            b.message,
        ) || (!pre.dedup.broadcasted(b.message) && pre.neighborhood.deep_view().contains(p)
            && spec_is_main(p) && spec_is_main(pre.node_id@))))
    &&& out == spec_broadcast_outputs(pre, src, b)
}

impl GlobalState {
    /// Handles an inbound `broadcast`: observes the value, acknowledges the
    /// sender where the protocol owes an acknowledgment, clears the sender's
    /// in-flight entry for the value, and — if this node has not fanned the
    /// value out before — sends it to every peer link except the sender,
    /// tracking backbone-to-backbone copies on the retry bus. A broadcast is
    /// never sent back to the node it just came from.
    #[verifier::rlimit(100)]
    #[verifier::spinoff_prover]
    pub fn handle_broadcast(&mut self, src: &String, body: BroadcastBody) -> (out: Vec<
        NodeMessage<ResponseBody>,
    >)
        requires
            old(self).wf(),
        ensures
            final(self).wf(),
            broadcast_step(*old(self), *final(self), src@, body, out.deep_view()),
            forall|k: int|
                0 <= k < out.deep_view().len() && (#[trigger] out.deep_view()[k].body) is Broadcast
                    ==> out.deep_view()[k].dest != src@,
    {
        let ghost pre = *old(self);
        let v = body.message;
        let mut out: Vec<NodeMessage<ResponseBody>> = Vec::new();
        self.dedup.observe(v);
        let is_cust = is_customer_node(src.as_str());
        let me_main = is_main_node(&self.node_id);
        let src_main = is_main_node(src);
        if is_cust || (src_main && me_main) {
            out.push(
                NodeMessage {
                    src: self.node_id.clone(),
                    dest: src.clone(),
                    body: ResponseBody::BroadcastOk(
                        BasicResponse { in_reply_to: body.msg_id, msg_id: Some(v) },
                    ),
                },
            );
        }
        proof {
            assert(out.deep_view() =~~= spec_broadcast_ok_part(pre, src@, body));
        }
        self.message_bus.delete_message_checked(src, v);
        if self.dedup.already_broadcast(v) {
            proof {
                assert(out.deep_view() =~~= spec_broadcast_outputs(pre, src@, body));
                assert forall|p: Seq<char>|
                    self.message_bus.has_pending(p, v) == (p != src@ && (
                    pre.message_bus.has_pending(p, v) || (!pre.dedup.broadcasted(v)
                        && pre.neighborhood.deep_view().contains(p) && spec_is_main(p)
                        && spec_is_main(pre.node_id@)))) by {
                    if p == src@ {
                        assert(!self.message_bus.has_pending(p, v));
                    }
                }
                assert forall|p: Seq<char>, w: u64|
                    #[trigger] self.message_bus.has_pending(p, w) implies
                    self.message_bus.pending_msg(p, w)@ == spec_broadcast_msg(
                    self.node_id@,
                    p,
                    w,
                ) by {
                    assert(pre.message_bus.has_pending(p, w));
                    assert(self.message_bus.pending_msg(p, w) == pre.message_bus.pending_msg(p, w));
                }
                assert forall|k: int|
                    0 <= k < out.deep_view().len() && (#[trigger] out.deep_view()[k].body) is Broadcast implies
                    out.deep_view()[k].dest != src@ by {
                    assert(out.deep_view()[k] == spec_broadcast_ok_part(pre, src@, body)[k]);
                }
            }
            return out;
        }
        let ghost ok_part = out.deep_view();
        let n = self.neighborhood.len();
        let mut i: usize = 0;
        #[verifier::loop_isolation(false)]
        while i < n
            invariant
                i <= n,
                n == self.neighborhood@.len(),
                self.node_id == pre.node_id,
                self.node_count == pre.node_count,
                self.neighborhood == pre.neighborhood,
                self.topology == pre.topology,
                self.customer_read_bus == pre.customer_read_bus,
                self.dedup.wf(),
                self.dedup.values@ == if pre.dedup.known(v) {
                    pre.dedup.values@
                } else {
                    pre.dedup.values@.push(v)
                },
                forall|w: u64| self.dedup.known(w) == (pre.dedup.known(w) || w == v),
                forall|w: u64| self.dedup.broadcasted(w) == pre.dedup.broadcasted(w),
                self.message_bus.wf(),
                self.message_bus.retry_wait_ms == pre.message_bus.retry_wait_ms,
                forall|p: Seq<char>|
                    self.message_bus.tracks(p) == pre.message_bus.tracks(p),
                forall|p: Seq<char>, w: u64|
                    w != v ==> self.message_bus.has_pending(p, w) == pre.message_bus.has_pending(
                        p,
                        w,
                    ),
                forall|p: Seq<char>, w: u64|
                    w != v && pre.message_bus.has_pending(p, w) ==> self.message_bus.pending_msg(
                        p,
                        w,
                    ) == pre.message_bus.pending_msg(p, w),
                forall|p: Seq<char>| #![trigger self.message_bus.has_pending(p, v)]
                    self.message_bus.has_pending(p, v) == (p != src@ && (
                    pre.message_bus.has_pending(p, v) || (
                    pre.neighborhood.deep_view().subrange(0, i as int).contains(p)
                        && spec_is_main(p) && spec_is_main(pre.node_id@)))),
                forall|p: Seq<char>, w: u64|
                    #[trigger] self.message_bus.has_pending(p, w)
                        ==> self.message_bus.pending_msg(p, w)@ == spec_broadcast_msg(
                        self.node_id@,
                        p,
                        w,
                    ),
                out.deep_view() =~~= ok_part + spec_fanout(pre, src@, v, true, false, i as int),
            decreases n - i,
        {
            let ghost prefix = pre.neighborhood.deep_view().subrange(0, i as int);
            let ghost prefix1 = pre.neighborhood.deep_view().subrange(0, i + 1);
            let ghost bus0 = self.message_bus;
            proof {
                assert(prefix1.drop_last() =~= prefix);
                assert(prefix1.last() == pre.neighborhood.deep_view()[i as int]);
                assert(pre.neighborhood.deep_view()[i as int] == pre.neighborhood@[i as int]@);
                assert forall|p: Seq<char>| prefix1.contains(p) implies (prefix.contains(p) || p
                    == pre.neighborhood@[i as int]@) by {
                    let k = choose|k: int| 0 <= k < prefix1.len() && prefix1[k] == p;
                    if k < prefix1.len() - 1 {
                        assert(prefix[k] == p);
                    }
                }
                assert forall|p: Seq<char>| prefix.contains(p) implies prefix1.contains(p) by {
                    let k = choose|k: int| 0 <= k < prefix.len() && prefix[k] == p;
                    assert(prefix1[k] == p);
                }
            }
            let skip = self.neighborhood[i].eq(src);
            if !skip {
                let peer = self.neighborhood[i].clone();
                let msg = NodeMessage {
                    src: self.node_id.clone(),
                    dest: peer.clone(),
                    body: BroadcastResponse { message: v, in_reply_to: None, msg_id: None },
                };
                let mm = is_main_node(&peer) && me_main;
                if mm {
                    proof {
                        assert(pre.neighborhood.deep_view().contains(peer@)) by {
                            assert(pre.neighborhood.deep_view()[i as int] == peer@);
                        }
                        assert(pre.wf());
                        assert(pre.message_bus.tracks(peer@) == pre.neighborhood.deep_view().contains(peer@));
                        assert(self.message_bus.tracks(peer@) == pre.message_bus.tracks(peer@));
                        assert(self.message_bus.tracks(peer@));
                        assert(!prefix.contains(peer@)) by {
                            if prefix.contains(peer@) {
                                let k = choose|k: int| 0 <= k < i && prefix[k] == peer@;
                                assert(pre.neighborhood.deep_view()[k] == peer@);
                                assert(pre.neighborhood@[k]@ == peer@);
                                assert(pre.neighborhood@[i as int]@ == peer@);
                                assert(false);
                            }
                        }
                        assert(!bus0.has_pending(peer@, v) == !pre.message_bus.has_pending(
                            peer@,
                            v,
                        ));
                    }
                    let ghost msgg = msg;
                    let sent = self.message_bus.add_message(&peer, v, msg);
                    proof {
                        assert forall|p: Seq<char>, w: u64|
                            w != v implies self.message_bus.has_pending(p, w)
                            == pre.message_bus.has_pending(p, w) by {
                            assert(self.message_bus.has_pending(p, w) == bus0.has_pending(p, w));
                        }
                        assert forall|p: Seq<char>, w: u64|
                            w != v && pre.message_bus.has_pending(p, w) implies
                            self.message_bus.pending_msg(p, w) == pre.message_bus.pending_msg(
                            p,
                            w,
                        ) by {
                            assert(bus0.has_pending(p, w));
                            assert(self.message_bus.pending_msg(p, w) == bus0.pending_msg(p, w));
                        }
                        assert forall|p: Seq<char>| #![trigger self.message_bus.has_pending(p, v)]
                            self.message_bus.has_pending(p, v) == (p != src@ && (
                            pre.message_bus.has_pending(p, v) || (prefix1.contains(p)
                                && spec_is_main(p) && spec_is_main(pre.node_id@)))) by {
                            if p == peer@ {
                                assert(self.message_bus.has_pending(p, v));
                                assert(prefix1.contains(p)) by {
                                    assert(prefix1.last() == peer@);
                                }
                            } else {
                                assert(self.message_bus.has_pending(p, v) == bus0.has_pending(
                                    p,
                                    v,
                                ));
                            }
                        }
                        assert forall|p: Seq<char>, w: u64|
                            #[trigger] self.message_bus.has_pending(p, w) implies
                            self.message_bus.pending_msg(p, w)@ == spec_broadcast_msg(
                            self.node_id@,
                            p,
                            w,
                        ) by {
                            if p == peer@ && w == v && !bus0.has_pending(peer@, v) {
                                assert(self.message_bus.pending_msg(p, w) == msgg);
                            } else {
                                assert(bus0.has_pending(p, w));
                                assert(self.message_bus.pending_msg(p, w) == bus0.pending_msg(
                                    p,
                                    w,
                                ));
                            }
                        }
                    }
                    match sent {
                        Some(m) => {
                            proof {
                                assert(m == msgg);
                                assert(pre.neighborhood@[i as int]@ == peer@);
                                assert(!pre.message_bus.has_pending(peer@, v));
                                assert(spec_fanout(pre, src@, v, true, false, i + 1)
                                    == spec_fanout(pre, src@, v, true, false, i as int).push(
                                    MsgView {
                                        src: pre.node_id@,
                                        dest: peer@,
                                        body: ResponseView::Broadcast(
                                            BroadcastResponse { message: v, in_reply_to: None, msg_id: None },
                                        ),
                                    },
                                ));
                            }
                            let ghost outd0 = out.deep_view();
                            let elem = NodeMessage {
                                src: m.src,
                                dest: m.dest,
                                body: ResponseBody::Broadcast(m.body),
                            };
                            let ghost eg = elem;
                            out.push(elem);
                            proof {
                                assert(eg.deep_view() == MsgView {
                                    src: pre.node_id@,
                                    dest: peer@,
                                    body: ResponseView::Broadcast(
                                        BroadcastResponse { message: v, in_reply_to: None, msg_id: None },
                                    ),
                                });
                                assert(out.deep_view() =~~= outd0.push(eg.deep_view()));
                                assert(out.deep_view() =~~= ok_part + spec_fanout(
                                    pre,
                                    src@,
                                    v,
                                    true,
                                    false,
                                    i + 1,
                                ));
                            }
                        },
                        None => {
                            proof {
                                assert(bus0.has_pending(peer@, v));
                                assert(pre.message_bus.has_pending(peer@, v));
                                assert(out.deep_view() =~~= ok_part + spec_fanout(
                                    pre,
                                    src@,
                                    v,
                                    true,
                                    false,
                                    i + 1,
                                ));
                            }
                        },
                    }
                } else {
                    proof {
                        assert(pre.neighborhood@[i as int]@ == peer@);
                        assert(!(spec_is_main(peer@) && spec_is_main(pre.node_id@)));
                        assert(spec_fanout(pre, src@, v, true, false, i + 1)
                            == spec_fanout(pre, src@, v, true, false, i as int).push(
                            MsgView {
                                src: pre.node_id@,
                                dest: peer@,
                                body: ResponseView::Broadcast(
                                    BroadcastResponse { message: v, in_reply_to: None, msg_id: None },
                                ),
                            },
                        ));
                    }
                    let ghost outd0 = out.deep_view();
                    let elem = NodeMessage {
                        src: msg.src,
                        dest: msg.dest,
                        body: ResponseBody::Broadcast(msg.body),
                    };
                    let ghost eg = elem;
                    out.push(elem);
                    proof {
                        assert(eg.deep_view() == MsgView {
                            src: pre.node_id@,
                            dest: peer@,
                            body: ResponseView::Broadcast(
                                BroadcastResponse { message: v, in_reply_to: None, msg_id: None },
                            ),
                        });
                        assert(out.deep_view() =~~= outd0.push(eg.deep_view()));
                        assert forall|p: Seq<char>| #![trigger self.message_bus.has_pending(p, v)]
                            self.message_bus.has_pending(p, v) == (p != src@ && (
                            pre.message_bus.has_pending(p, v) || (prefix1.contains(p)
                                && spec_is_main(p) && spec_is_main(pre.node_id@)))) by {
                            assert(self.message_bus.has_pending(p, v) == (p != src@ && (
                            pre.message_bus.has_pending(p, v) || (prefix.contains(p)
                                && spec_is_main(p) && spec_is_main(pre.node_id@)))));
                            if prefix1.contains(p) && !prefix.contains(p) {
                                assert(p == peer@);
                                assert(!spec_is_main(p) || !spec_is_main(pre.node_id@));
                            }
                            if prefix.contains(p) {
                                assert(prefix1.contains(p));
                            }
                        }
                        assert(out.deep_view() =~~= ok_part + spec_fanout(
                            pre,
                            src@,
                            v,
                            true,
                            false,
                            i + 1,
                        ));
                    }
                }
            } else {
                proof {
                    let ghost peerv = pre.neighborhood@[i as int]@;
                    assert(peerv == src@);
                    assert forall|p: Seq<char>| #![trigger self.message_bus.has_pending(p, v)]
                        self.message_bus.has_pending(p, v) == (p != src@ && (
                        pre.message_bus.has_pending(p, v) || (prefix1.contains(p)
                            && spec_is_main(p) && spec_is_main(pre.node_id@)))) by {
                        assert(self.message_bus.has_pending(p, v) == (p != src@ && (
                        pre.message_bus.has_pending(p, v) || (prefix.contains(p)
                            && spec_is_main(p) && spec_is_main(pre.node_id@)))));
                        if prefix1.contains(p) && !prefix.contains(p) {
                            assert(p == src@);
                        }
                        if prefix.contains(p) {
                            assert(prefix1.contains(p));
                        }
                    }
                    assert(out.deep_view() =~~= ok_part + spec_fanout(pre, src@, v, true, false, i + 1));
                }
            }
            proof {
                assert(prefix1 =~= pre.neighborhood.deep_view().subrange(0, i + 1));
            }
            i = i + 1;
        }
        self.dedup.mark_broadcast(v);
        proof {
            assert(pre.neighborhood.deep_view().subrange(0, n as int)
                =~= pre.neighborhood.deep_view());
            assert forall|p: Seq<char>| #![trigger self.message_bus.has_pending(p, v)]
                self.message_bus.has_pending(p, v) == (p != src@ && (pre.message_bus.has_pending(
                p,
                v,
            ) || (!pre.dedup.broadcasted(v) && pre.neighborhood.deep_view().contains(p)
                && spec_is_main(p) && spec_is_main(pre.node_id@)))) by {
                assert(self.message_bus.has_pending(p, v) == (p != src@ && (
                pre.message_bus.has_pending(p, v) || (
                pre.neighborhood.deep_view().subrange(0, i as int).contains(p) && spec_is_main(p)
                    && spec_is_main(pre.node_id@)))));
            }
            assert forall|p: Seq<char>| self.message_bus.tracks(p)
                == self.neighborhood.deep_view().contains(p) by {
                assert(self.message_bus.tracks(p) == pre.message_bus.tracks(p));
                assert(pre.message_bus.tracks(p) == pre.neighborhood.deep_view().contains(p));
            }
            assert(out.deep_view() =~~= spec_broadcast_outputs(pre, src@, body));
            lemma_fanout_items(pre, src@, v, true, false, n as int);
            let fan = spec_fanout(pre, src@, v, true, false, n as int);
            assert forall|k: int|
                0 <= k < out.deep_view().len() && (#[trigger] out.deep_view()[k].body) is Broadcast implies
                out.deep_view()[k].dest != src@ by {
                if k < ok_part.len() {
                    assert(out.deep_view()[k] == ok_part[k]);
                    assert(ok_part[k] == spec_broadcast_ok_part(pre, src@, body)[k]);
                } else {
                    assert(out.deep_view()[k] == fan[k - ok_part.len()]);
                }
            }
        }
        out
    }
}

/// How handling a `broadcast_ok` from `src` transforms the state: the
/// acknowledged value's in-flight entry at the sender is cleared, nothing is
/// sent, and nothing else changes. An acknowledgment without the echoed
/// value, or for a pair not in flight, is dropped silently.
pub open spec fn broadcast_ok_step(
    pre: GlobalState,
    post: GlobalState,
    src: Seq<char>,
    b: ReadBody,
    out: Seq<MsgView<ResponseView>>,
) -> bool {
    &&& same_identity(pre, post)
    &&& post.neighborhood == pre.neighborhood
    &&& post.topology == pre.topology
    &&& post.customer_read_bus.queue() == pre.customer_read_bus.queue()
    &&& post.dedup == pre.dedup
    &&& forall|p: Seq<char>| post.message_bus.tracks(p) == pre.message_bus.tracks(p)
    &&& out == Seq::<MsgView<ResponseView>>::empty()
    &&& match b.msg_id {
        Some(v) => {
            &&& !post.message_bus.has_pending(src, v)
            &&& forall|p: Seq<char>, w: u64|
                !(p == src && w == v) ==> post.message_bus.has_pending(p, w)
                    == pre.message_bus.has_pending(p, w)
            &&& forall|p: Seq<char>, w: u64|
                !(p == src && w == v) && pre.message_bus.has_pending(p, w)
                    ==> post.message_bus.pending_msg(p, w) == pre.message_bus.pending_msg(p, w)
        },
        None => post.message_bus == pre.message_bus,
    }
}

/// The adjacency list stored for `key`, if any: the first entry with that
/// key wins.
pub open spec fn topo_lookup(t: Seq<(Seq<char>, Seq<Seq<char>>)>, key: Seq<char>) -> Option<
    Seq<Seq<char>>,
>
    decreases t.len(),
{
    if t.len() == 0 {
        None
    } else if t[0].0 == key {
        Some(t[0].1)
    } else {
        topo_lookup(t.drop_first(), key)
    }
}

/// Folds the first `n` entries of `adj` onto `acc`: each entry is appended
/// once, unless it is this node or already present.
pub open spec fn spec_collect(
    adj: Seq<Seq<char>>,
    acc: Seq<Seq<char>>,
    me: Seq<char>,
    n: int,
) -> Seq<Seq<char>>
    decreases n,
{
    if n <= 0 {
        acc
    } else {
        let prev = spec_collect(adj, acc, me, n - 1);
        if adj[n - 1] == me || prev.contains(adj[n - 1]) {
            prev
        } else {
            prev.push(adj[n - 1])
        }
    }
}

/// The peers an externally-originated read is replicated to before the
/// settle timer runs: for a hub, its whole peer set; for a leaf, its owning
/// hub and that hub's stored adjacency; nothing when the node has no links.
pub open spec fn spec_nudge_list(pre: GlobalState) -> Seq<Seq<char>> {
    if spec_is_main(pre.node_id@) {
        pre.neighborhood.deep_view()
    } else if pre.neighborhood@.len() == 0 {
        Seq::empty()
    } else {
        let master = pre.neighborhood.deep_view()[0];
        let adj = match topo_lookup(pre.topo_view(), master) {
            Some(a) => a,
            None => Seq::empty(),
        };
        spec_collect(adj, seq![master], pre.node_id@, adj.len() as int)
    }
}

/// The anti-entropy nudges an externally-originated read sends: one read
/// request to every listed peer other than this node itself.
pub open spec fn spec_read_nudges(pre: GlobalState, n: int) -> Seq<MsgView<ResponseView>>
    decreases n,
{
    if n <= 0 {
        Seq::empty()
    } else {
        let rest = spec_read_nudges(pre, n - 1);
        let t = spec_nudge_list(pre)[n - 1];
        if t == pre.node_id@ {
            rest
        } else {
            rest.push(
                MsgView {
                    src: pre.node_id@,
                    dest: t,
                    body: ResponseView::ReadRequest(ReadBody { in_reply_to: None, msg_id: None }),
                },
            )
        }
    }
}

/// Everything a `read` sends at once: for a client, the anti-entropy nudges
/// (the reply itself waits on the reconciliation bus); for a cluster peer,
/// the immediate reply carrying every known value.
pub open spec fn spec_read_outputs(pre: GlobalState, src: Seq<char>, b: ReadBody) -> Seq<
    MsgView<ResponseView>,
> {
    if spec_is_customer(src) {
        spec_read_nudges(pre, spec_nudge_list(pre).len() as int)
    } else {
        seq![
            MsgView {
                src: pre.node_id@,
                dest: src,
                body: ResponseView::ReadOk(
                    ReadOkView {
                        messages: pre.dedup.values@,
                        in_reply_to: b.msg_id,
                        msg_id: None,
                    },
                ),
            },
        ]
    }
}

/// How handling a `read` from `src` transforms the state and what it sends:
/// a client's read queues a reply skeleton behind the settle timer and nudges
/// the backbone; a peer's read is answered immediately. Nothing else changes.
pub open spec fn read_step(
    pre: GlobalState,
    post: GlobalState,
    src: Seq<char>,
    b: ReadBody,
    out: Seq<MsgView<ResponseView>>,
) -> bool {
    &&& same_identity(pre, post)
    &&& post.neighborhood == pre.neighborhood
    &&& post.topology == pre.topology
    &&& post.dedup == pre.dedup
    &&& post.message_bus == pre.message_bus
    &&& if spec_is_customer(src) {
        &&& post.customer_read_bus.queue().len() == pre.customer_read_bus.queue().len() + 1
        &&& post.customer_read_bus.queue().drop_last() == pre.customer_read_bus.queue()
        &&& post.customer_read_bus.queue().last()@ == (MsgView {
            src: pre.node_id@,
            dest: src,
            body: ReadOkView { messages: pre.dedup.values@, in_reply_to: b.msg_id, msg_id: None },
        })
    } else {
        post.customer_read_bus.queue() == pre.customer_read_bus.queue()
    }
    &&& out == spec_read_outputs(pre, src, b)
}

/// How handling a `topology` notification transforms the state and what it
/// sends: the payload's adjacency is stored, the peer links are derived
/// afresh from this node's own identifier — the supplied adjacency is
/// deliberately ignored for routing — the retry bus is rebuilt for exactly
/// those peers, and the notification is acknowledged.
pub open spec fn topology_step(
    pre: GlobalState,
    post: GlobalState,
    src: Seq<char>,
    t: TopologyView,
    out: Seq<MsgView<ResponseView>>,
) -> bool {
    &&& same_identity(pre, post)
    &&& post.topo_view() == t.topology
    &&& post.neighborhood.deep_view() == spec_links_of_id(pre.node_id@, pre.node_count)
    &&& post.customer_read_bus.queue() == pre.customer_read_bus.queue()
    &&& post.dedup == pre.dedup
    &&& forall|p: Seq<char>|
        post.message_bus.tracks(p) == spec_links_of_id(pre.node_id@, pre.node_count).contains(p)
    &&& forall|p: Seq<char>, w: u64| !post.message_bus.has_pending(p, w)
    &&& out == topology_step_out(pre.node_id@, src, t)
}

impl GlobalState {
    /// Handles an inbound `broadcast_ok`: clears the acknowledged value's
    /// in-flight entry for the sender, so it is never retried again. An
    /// acknowledgment that does not echo the value, or that matches nothing
    /// in flight, is dropped without effect.
    pub fn handle_broadcast_ok(&mut self, src: &String, body: ReadBody) -> (out: Vec<
        NodeMessage<ResponseBody>,
    >)
        requires
            old(self).wf(),
        ensures
            final(self).wf(),
            broadcast_ok_step(*old(self), *final(self), src@, body, out.deep_view()),
    {
        match body.msg_id {
            Some(v) => {
                self.message_bus.delete_message_checked(src, v);
                proof {
                    assert forall|p: Seq<char>, w: u64|
                        #[trigger] self.message_bus.has_pending(p, w) implies
                        self.message_bus.pending_msg(p, w)@ == spec_broadcast_msg(
                        self.node_id@,
                        p,
                        w,
                    ) by {
                        assert(old(self).message_bus.has_pending(p, w));
                        assert(self.message_bus.pending_msg(p, w)
                            == old(self).message_bus.pending_msg(p, w));
                    }
                    assert forall|p: Seq<char>| self.message_bus.tracks(p)
                        == self.neighborhood.deep_view().contains(p) by {
                        assert(self.message_bus.tracks(p) == old(self).message_bus.tracks(p));
                    }
                }
            },
            None => (),
        }
        let out: Vec<NodeMessage<ResponseBody>> = Vec::new();
        proof {
            assert(out.deep_view() =~= Seq::<MsgView<ResponseView>>::empty());
        }
        out
    }

    /// Handles an inbound `topology` notification: stores the supplied
    /// adjacency, derives this node's peer links from its own identifier —
    /// degrading to no links when the identifier carries no recognisable
    /// number — rebuilds the retry bus for the new peers, and acknowledges.
    pub fn handle_topology(&mut self, src: &String, body: TopologyBody) -> (out: Vec<
        NodeMessage<ResponseBody>,
    >)
        requires
            old(self).wf(),
        ensures
            final(self).wf(),
            topology_step(*old(self), *final(self), src@, body@, out.deep_view()),
    {
        let ghost bview = body@;
        let msg_id = body.msg_id;
        self.topology = body.topology;
        proof {
            assert(self.topo_view() =~= bview.topology);
        }
        let nc = self.node_count;
        self.neighborhood = links_of_id(&self.node_id, nc);
        self.message_bus.update_neighborhood(&self.neighborhood);
        let mut out: Vec<NodeMessage<ResponseBody>> = Vec::new();
        out.push(
            NodeMessage {
                src: self.node_id.clone(),
                dest: src.clone(),
                body: ResponseBody::TopologyOk(BasicResponse { in_reply_to: msg_id, msg_id: None }),
            },
        );
        proof {
            let links = spec_links_of_id(old(self).node_id@, old(self).node_count);
            assert(self.neighborhood.deep_view() == links);
            assert forall|a: int, b: int|
                0 <= a < self.neighborhood@.len() && 0 <= b < self.neighborhood@.len() && a != b implies
                #[trigger] self.neighborhood@[a]@ != #[trigger] self.neighborhood@[b]@ by {
                match crate::ids::spec_node_index(old(self).node_id@) {
                    Some(index) => {
                        crate::ids::lemma_links_distinct(index, old(self).node_count);
                        assert(self.neighborhood.deep_view()[a] == self.neighborhood@[a]@);
                        assert(self.neighborhood.deep_view()[b] == self.neighborhood@[b]@);
                    },
                    None => {
                        assert(links.len() == 0);
                    },
                }
            }
            assert(out.deep_view() =~~= topology_step_out(old(self).node_id@, src@, bview));
        }
        out
    }

    /// Handles an inbound `read`: a client's read is deferred — a reply
    /// skeleton joins the reconciliation bus, and read requests go out to
    /// the backbone so fresher values can land before the settle timer runs
    /// — while a cluster peer's read is answered immediately with every
    /// known value.
    pub fn handle_read(&mut self, src: &String, body: ReadBody) -> (out: Vec<
        NodeMessage<ResponseBody>,
    >)
        requires
            old(self).wf(),
        ensures
            final(self).wf(),
            read_step(*old(self), *final(self), src@, body, out.deep_view()),
    {
        let snap = self.dedup.snapshot();
        let read_ok = NodeMessage {
            src: self.node_id.clone(),
            dest: src.clone(),
            body: ReadResponse { messages: snap, in_reply_to: body.msg_id, msg_id: None },
        };
        let mut out: Vec<NodeMessage<ResponseBody>> = Vec::new();
        if is_customer_node(src.as_str()) {
            let targets = self.nudge_targets();
            let n = targets.len();
            let mut i: usize = 0;
            #[verifier::loop_isolation(false)]
            while i < n
                invariant
                    i <= n,
                    n == spec_nudge_list(*self).len(),
                    targets.deep_view() == spec_nudge_list(*self),
                    out.deep_view() =~~= spec_read_nudges(*self, i as int),
                decreases n - i,
            {
                let keep = !targets[i].eq(&self.node_id);
                if keep {
                    let ghost outd0 = out.deep_view();
                    let elem = NodeMessage {
                        src: self.node_id.clone(),
                        dest: targets[i].clone(),
                        body: ResponseBody::ReadRequest(ReadBody { in_reply_to: None, msg_id: None }),
                    };
                    let ghost eg = elem;
                    out.push(elem);
                    proof {
                        assert(eg.deep_view() == MsgView {
                            src: self.node_id@,
                            dest: spec_nudge_list(*self)[i as int],
                            body: ResponseView::ReadRequest(ReadBody { in_reply_to: None, msg_id: None }),
                        });
                        assert(out.deep_view() =~~= outd0.push(eg.deep_view()));
                        assert(out.deep_view() =~~= spec_read_nudges(*self, i + 1));
                    }
                } else {
                    proof {
                        assert(out.deep_view() =~~= spec_read_nudges(*self, i + 1));
                    }
                }
                i = i + 1;
            }
            let ghost rok = read_ok;
            self.customer_read_bus.add(read_ok);
            proof {
                assert(self.customer_read_bus.queue()
                    == old(self).customer_read_bus.queue().push(rok));
                assert(self.customer_read_bus.queue().drop_last()
                    =~= old(self).customer_read_bus.queue());
                assert(self.customer_read_bus.queue().last() == rok);
                assert(rok@ == MsgView {
                    src: old(self).node_id@,
                    dest: src@,
                    body: ReadOkView {
                        messages: old(self).dedup.values@,
                        in_reply_to: body.msg_id,
                        msg_id: None,
                    },
                });
                assert(out.deep_view() =~~= spec_read_outputs(*old(self), src@, body));
            }
        } else {
            let ghost outd0 = out.deep_view();
            let elem = NodeMessage {
                src: read_ok.src,
                dest: read_ok.dest,
                body: ResponseBody::ReadOk(read_ok.body),
            };
            let ghost eg = elem;
            out.push(elem);
            proof {
                assert(eg.deep_view() == MsgView {
                    src: old(self).node_id@,
                    dest: src@,
                    body: ResponseView::ReadOk(
                        ReadOkView {
                            messages: old(self).dedup.values@,
                            in_reply_to: body.msg_id,
                            msg_id: None,
                        },
                    ),
                });
                assert(out.deep_view() =~~= outd0.push(eg.deep_view()));
                assert(out.deep_view() =~~= spec_read_outputs(*old(self), src@, body));
            }
        }
        out
    }

    /// The peers a client read is replicated to: the whole peer set for a
    /// hub; the owning hub and its stored adjacency for a leaf.
    fn nudge_targets(&self) -> (r: Vec<String>)
        ensures
            r.deep_view() == spec_nudge_list(*self),
    {
        let mut r: Vec<String> = Vec::new();
        if is_main_node(&self.node_id) {
            let n = self.neighborhood.len();
            let mut i: usize = 0;
            #[verifier::loop_isolation(false)]
            while i < n
                invariant
                    i <= n,
                    r.deep_view() =~~= self.neighborhood.deep_view().take(i as int),
                decreases n - i,
            {
                r.push(self.neighborhood[i].clone());
                proof {
                    assert(r.deep_view() =~~= self.neighborhood.deep_view().take(i + 1));
                }
                i = i + 1;
            }
            proof {
                assert(self.neighborhood.deep_view().take(n as int)
                    =~= self.neighborhood.deep_view());
            }
        } else if self.neighborhood.len() == 0 {
            proof {
                assert(r.deep_view() =~= spec_nudge_list(*self));
            }
        } else {
            let master = self.neighborhood[0].clone();
            r.push(master.clone());
            let adj_opt = self.topo_get(&master);
            match adj_opt {
                Some(adj) => {
                    let ghost adjv = adj.deep_view();
                    let n = adj.len();
                    let mut j: usize = 0;
                    proof {
                        assert(r.deep_view() =~= seq![master@]);
                    }
                    #[verifier::loop_isolation(false)]
                    while j < n
                        invariant
                            j <= n,
                            n == adjv.len(),
                            adj.deep_view() == adjv,
                            r.deep_view() =~~= spec_collect(adjv, seq![master@], self.node_id@, j as int),
                        decreases n - j,
                    {
                        let skip_me = adj[j].eq(&self.node_id);
                        let mut present = false;
                        if !skip_me {
                            let mut k: usize = 0;
                            #[verifier::loop_isolation(false)]
                            while k < r.len()
                                invariant
                                    k <= r@.len(),
                                    present == exists|x: int|
                                        0 <= x < k && (#[trigger] r@[x]@) == adjv[j as int],
                                decreases r@.len() - k,
                            {
                                if r[k].eq(&adj[j]) {
                                    present = true;
                                    k = r.len();
                                } else {
                                    k = k + 1;
                                }
                            }
                            proof {
                                assert(present == r.deep_view().contains(adjv[j as int])) by {
                                    if present {
                                        let x = choose|x: int|
                                            0 <= x < r@.len() && (#[trigger] r@[x]@) == adjv[j as int];
                                        assert(r.deep_view()[x] == adjv[j as int]);
                                    }
                                    if r.deep_view().contains(adjv[j as int]) {
                                        let x = choose|x: int|
                                            0 <= x < r.deep_view().len() && r.deep_view()[x]
                                                == adjv[j as int];
                                        assert(r@[x]@ == adjv[j as int]);
                                    }
                                }
                            }
                            if !present {
                                r.push(adj[j].clone());
                            }
                        }
                        proof {
                            assert(r.deep_view() =~~= spec_collect(
                                adjv,
                                seq![master@],
                                self.node_id@,
                                j + 1,
                            ));
                        }
                        j = j + 1;
                    }
                    proof {
                        assert(r.deep_view() =~~= spec_nudge_list(*self));
                    }
                },
                None => {
                    proof {
                        assert(r.deep_view() =~= seq![master@]);
                        assert(spec_collect(
                            Seq::<Seq<char>>::empty(),
                            seq![master@],
                            self.node_id@,
                            0,
                        ) == seq![master@]);
                        assert(r.deep_view() =~~= spec_nudge_list(*self));
                    }
                },
            }
        }
        r
    }

    /// The stored adjacency for `key`, if one was supplied.
    fn topo_get<'a>(&'a self, key: &String) -> (r: Option<&'a Vec<String>>)
        ensures
            match r {
                Some(a) => topo_lookup(self.topo_view(), key@) == Some(a.deep_view()),
                None => topo_lookup(self.topo_view(), key@) is None,
            },
    {
        let n = self.topology.len();
        let mut i: usize = 0;
        proof {
            assert(self.topo_view().skip(0) =~= self.topo_view());
        }
        #[verifier::loop_isolation(false)]
        while i < n
            invariant
                i <= n,
                n == self.topology@.len(),
                topo_lookup(self.topo_view(), key@) == topo_lookup(
                    self.topo_view().skip(i as int),
                    key@,
                ),
            decreases n - i,
        {
            proof {
                assert(self.topo_view().skip(i as int).drop_first() =~= self.topo_view().skip(
                    i + 1,
                ));
                assert(self.topo_view().skip(i as int)[0] == self.topo_view()[i as int]);
            }
            if self.topology[i].0.eq(key) {
                proof {
                    assert(self.topo_view()[i as int].0 == key@);
                    assert(topo_lookup(self.topo_view(), key@) == Some(
                        self.topo_view()[i as int].1,
                    ));
                    assert(self.topo_view()[i as int].1 == self.topology@[i as int].1.deep_view());
                }
                return Some(&self.topology[i].1);
            }
            i = i + 1;
        }
        proof {
            assert(self.topo_view().skip(n as int) =~= Seq::<(Seq<char>, Seq<Seq<char>>)>::empty());
        }
        None
    }

    /// Releases one due read reply, if any: the oldest queued skeleton whose
    /// settle timer has elapsed leaves the reconciliation bus and goes out
    /// with a snapshot of the values known right now — not the values known
    /// when the read arrived. The delay exists exactly so that this snapshot
    /// reflects values that landed in the meantime.
    pub fn emit_due_read(&mut self) -> (r: Option<NodeMessage<ReadResponse>>)
        requires
            old(self).wf(),
        ensures
            final(self).wf(),
            same_identity(*old(self), *final(self)),
            final(self).neighborhood == old(self).neighborhood,
            final(self).topology == old(self).topology,
            final(self).dedup == old(self).dedup,
            final(self).message_bus == old(self).message_bus,
            match r {
                Some(m) => {
                    &&& old(self).customer_read_bus.queue().len() > 0
                    &&& final(self).customer_read_bus.queue() == old(
                        self,
                    ).customer_read_bus.queue().drop_first()
                    &&& m.src == old(self).customer_read_bus.queue()[0].src
                    &&& m.dest == old(self).customer_read_bus.queue()[0].dest
                    &&& m.body.in_reply_to == old(self).customer_read_bus.queue()[0].body.in_reply_to
                    &&& m.body.msg_id == old(self).customer_read_bus.queue()[0].body.msg_id
                    &&& m.body.messages@ == old(self).dedup.values@
                },
                None => final(self).customer_read_bus.queue() == old(
                    self,
                ).customer_read_bus.queue(),
            },
    {
        match self.customer_read_bus.pop() {
            Some(m) => {
                let mut m = m;
                m.body.messages = self.dedup.snapshot();
                Some(m)
            },
            None => None,
        }
    }
}

/// Whether `a + b` holds `x`: exactly when one of the parts does.
proof fn lemma_contains_append<A>(a: Seq<A>, b: Seq<A>, x: A)
    ensures
        (a + b).contains(x) == (a.contains(x) || b.contains(x)),
{
    if (a + b).contains(x) {
        let i = choose|i: int| 0 <= i < (a + b).len() && (a + b)[i] == x;
        if i < a.len() {
            assert(a[i] == x);
        } else {
            assert(b[i - a.len()] == x);
        }
    }
    if a.contains(x) {
        let i = choose|i: int| 0 <= i < a.len() && a[i] == x;
        assert((a + b)[i] == x);
    }
    if b.contains(x) {
        let i = choose|i: int| 0 <= i < b.len() && b[i] == x;
        assert((a + b)[a.len() + i] == x);
    }
}

/// The values of the first `n` entries of `msgs` that are not in `base`,
/// first occurrence first, each once.
pub open spec fn spec_fresh(base: Seq<u64>, msgs: Seq<u64>, n: int) -> Seq<u64>
    decreases n,
{
    if n <= 0 {
        Seq::empty()
    } else {
        let prev = spec_fresh(base, msgs, n - 1);
        if base.contains(msgs[n - 1]) || prev.contains(msgs[n - 1]) {
            prev
        } else {
            prev.push(msgs[n - 1])
        }
    }
}

/// What the fresh list holds: exactly the listed values that were unknown,
/// each exactly once.
pub proof fn lemma_fresh_props(base: Seq<u64>, msgs: Seq<u64>, n: int)
    requires
        0 <= n <= msgs.len(),
    ensures
        forall|w: u64|
            #[trigger] spec_fresh(base, msgs, n).contains(w) == (msgs.take(n).contains(w)
                && !base.contains(w)),
        forall|a: int, b: int|
            0 <= a < spec_fresh(base, msgs, n).len() && 0 <= b < spec_fresh(base, msgs, n).len()
                && a != b ==> #[trigger] spec_fresh(base, msgs, n)[a] != #[trigger] spec_fresh(
                base,
                msgs,
                n,
            )[b],
    decreases n,
{
    if n > 0 {
        lemma_fresh_props(base, msgs, n - 1);
        let prev = spec_fresh(base, msgs, n - 1);
        let whole = spec_fresh(base, msgs, n);
        let x = msgs[n - 1];
        assert(msgs.take(n).drop_last() =~= msgs.take(n - 1));
        assert(msgs.take(n).last() == x);
        assert forall|w: u64| #[trigger] whole.contains(w) == (msgs.take(n).contains(w)
            && !base.contains(w)) by {
            if whole.contains(w) {
                let i = choose|i: int| 0 <= i < whole.len() && whole[i] == w;
                if i < prev.len() {
                    assert(prev.contains(w));
                    assert(msgs.take(n - 1).contains(w));
                    let j = choose|j: int| 0 <= j < n - 1 && (#[trigger] msgs.take(n - 1)[j]) == w;
                    assert(msgs.take(n)[j] == w);
                } else {
                    assert(w == x);
                    assert(msgs.take(n)[n - 1] == w);
                }
            }
            if msgs.take(n).contains(w) && !base.contains(w) {
                let j = choose|j: int| 0 <= j < n && (#[trigger] msgs.take(n)[j]) == w;
                if j < n - 1 {
                    assert(msgs.take(n - 1)[j] == w);
                    assert(msgs.take(n - 1).contains(w));
                    assert(prev.contains(w));
                    let i = choose|i: int| 0 <= i < prev.len() && prev[i] == w;
                    assert(whole[i] == w);
                } else {
                    assert(w == x);
                    if !prev.contains(w) {
                        assert(whole.last() == w);
                    } else {
                        let i = choose|i: int| 0 <= i < prev.len() && prev[i] == w;
                        assert(whole[i] == w);
                    }
                }
            }
        }
        assert forall|a: int, b: int|
            0 <= a < whole.len() && 0 <= b < whole.len() && a != b implies #[trigger] whole[a]
            != #[trigger] whole[b] by {
            if whole != prev {
                if a < prev.len() && b < prev.len() {
                    assert(prev[a] != prev[b]);
                } else if a == prev.len() {
                    assert(whole[a] == x && !prev.contains(x));
                    assert(prev[b] != x) by {
                        if prev[b] == x {
                            assert(prev.contains(x));
                        }
                    }
                } else {
                    assert(whole[b] == x && !prev.contains(x));
                    assert(prev[a] != x) by {
                        if prev[a] == x {
                            assert(prev.contains(x));
                        }
                    }
                }
            }
        }
    }
}

/// Whether the read-repair fan-out of fresh value `w` leaves `(p, w)` in
/// flight: the pair survives from before (unless `p` is the sender, whose
/// entry is cleared first), or `p` is a backbone peer link other than this
/// node that was just offered the value.
pub open spec fn spec_sync_pending(pre: GlobalState, src: Seq<char>, w: u64, p: Seq<char>) -> bool {
    ||| (p != src && pre.message_bus.has_pending(p, w))
    ||| (pre.neighborhood.deep_view().contains(p) && p != pre.node_id@ && spec_is_main(p)
        && spec_is_main(pre.node_id@))
}

/// Everything a `read_ok` sends: the full fan-out of each fresh value, in
/// the order the values were discovered.
pub open spec fn spec_sync_outputs(
    pre: GlobalState,
    src: Seq<char>,
    fresh: Seq<u64>,
    k: int,
) -> Seq<MsgView<ResponseView>>
    decreases k,
{
    if k <= 0 {
        Seq::empty()
    } else {
        spec_sync_outputs(pre, src, fresh, k - 1) + spec_fanout(
            pre,
            src,
            fresh[k - 1],
            false,
            true,
            pre.neighborhood@.len() as int,
        )
    }
}

/// How handling a `read_ok` from `src` transforms the state and what it
/// sends: every listed value this node did not know becomes known and is
/// fanned out to the whole peer set — bounded anti-entropy repair — exactly
/// as a first-time broadcast would be, except that the sender is a legal
/// fan-out target and this node itself never is. Values already known
/// change nothing.
pub open spec fn read_ok_step(
    pre: GlobalState,
    post: GlobalState,
    src: Seq<char>,
    b: ReadOkView,
    out: Seq<MsgView<ResponseView>>,
) -> bool {
    let fresh = spec_fresh(pre.dedup.values@, b.messages, b.messages.len() as int);
    &&& same_identity(pre, post)
    &&& post.neighborhood == pre.neighborhood
    &&& post.topology == pre.topology
    &&& post.customer_read_bus.queue() == pre.customer_read_bus.queue()
    &&& post.dedup.values@ == pre.dedup.values@ + fresh
    &&& forall|w: u64| #![trigger post.dedup.known(w)]
        post.dedup.known(w) == (pre.dedup.known(w) || b.messages.contains(w))
    &&& forall|w: u64| #![trigger post.dedup.broadcasted(w)]
        post.dedup.broadcasted(w) == (pre.dedup.broadcasted(w) || fresh.contains(w))
    &&& forall|p: Seq<char>| #![trigger post.message_bus.tracks(p)]
        post.message_bus.tracks(p) == pre.message_bus.tracks(p)
    &&& forall|p: Seq<char>, w: u64| #![trigger post.message_bus.has_pending(p, w)]
        !fresh.contains(w) ==> post.message_bus.has_pending(p, w) == pre.message_bus.has_pending(
            p,
            w,
        )
    &&& forall|p: Seq<char>, w: u64| #![trigger post.message_bus.pending_msg(p, w)]
        !fresh.contains(w) && pre.message_bus.has_pending(p, w) ==> post.message_bus.pending_msg(
            p,
            w,
        ) == pre.message_bus.pending_msg(p, w)
    &&& forall|p: Seq<char>, w: u64| #![trigger post.message_bus.has_pending(p, w)]
        fresh.contains(w) ==> post.message_bus.has_pending(p, w) == spec_sync_pending(
            pre,
            src,
            w,
            p,
        )
    &&& out == spec_sync_outputs(pre, src, fresh, fresh.len() as int)
}

impl GlobalState {
    /// Handles an inbound `read_ok`: every listed value this node did not
    /// yet know is observed and fanned out to the whole peer set, exactly as
    /// a first-time broadcast would be — this is the bounded anti-entropy
    /// repair behind deferred reads. The sender's in-flight entry for each
    /// fresh value is cleared first; known values change nothing.
    #[verifier::rlimit(100)]
    #[verifier::spinoff_prover]
    pub fn handle_read_ok(&mut self, src: &String, body: ReadOkBody) -> (out: Vec<
        NodeMessage<ResponseBody>,
    >)
        requires
            old(self).wf(),
        ensures
            final(self).wf(),
            read_ok_step(*old(self), *final(self), src@, body@, out.deep_view()),
    {
        let ghost pre = *old(self);
        let ghost msgs = body.messages@;
        let ghost freshv = spec_fresh(pre.dedup.values@, msgs, msgs.len() as int);
        proof {
            lemma_fresh_props(pre.dedup.values@, msgs, msgs.len() as int);
        }
        let mut new_msgs: Vec<u64> = Vec::new();
        let mlen = body.messages.len();
        let mut i: usize = 0;
        #[verifier::loop_isolation(false)]
        while i < mlen
            invariant
                i <= mlen,
                mlen == msgs.len(),
                new_msgs@ == spec_fresh(pre.dedup.values@, msgs, i as int),
                self.dedup.wf(),
                self.dedup.values@ == pre.dedup.values@ + new_msgs@,
                self.dedup.past_broadcast@ == pre.dedup.past_broadcast@,
                self.message_bus == pre.message_bus,
                self.customer_read_bus == pre.customer_read_bus,
                self.neighborhood == pre.neighborhood,
                self.topology == pre.topology,
                self.node_id == pre.node_id,
                self.node_count == pre.node_count,
            decreases mlen - i,
        {
            let m = body.messages[i];
            let ghost nm0 = new_msgs@;
            proof {
                lemma_contains_append(pre.dedup.values@, nm0, m);
            }
            let fresh = self.dedup.observe(m);
            if fresh {
                new_msgs.push(m);
                proof {
                    assert(self.dedup.values@ =~= pre.dedup.values@ + new_msgs@);
                }
            }
            i = i + 1;
        }
        proof {
            assert(new_msgs@ == freshv);
        }
        let ghost me = pre.node_id@;
        let me_main = is_main_node(&self.node_id);
        let mut out: Vec<NodeMessage<ResponseBody>> = Vec::new();
        let flen = new_msgs.len();
        let nlen = self.neighborhood.len();
        let mut k: usize = 0;
        #[verifier::loop_isolation(false)]
        while k < flen
            invariant
                k <= flen,
                flen == freshv.len(),
                new_msgs@ == freshv,
                nlen == self.neighborhood@.len(),
                self.neighborhood == pre.neighborhood,
                self.topology == pre.topology,
                self.customer_read_bus == pre.customer_read_bus,
                self.node_id == pre.node_id,
                self.node_count == pre.node_count,
                self.dedup.wf(),
                self.dedup.values@ == pre.dedup.values@ + freshv,
                forall|w: u64| #![trigger self.dedup.broadcasted(w)]
                    self.dedup.broadcasted(w) == (pre.dedup.broadcasted(w) || freshv.take(
                        k as int,
                    ).contains(w)),
                self.message_bus.wf(),
                self.message_bus.retry_wait_ms == pre.message_bus.retry_wait_ms,
                forall|p: Seq<char>|
                    self.message_bus.tracks(p) == pre.message_bus.tracks(p),
                forall|p: Seq<char>, w: u64| #![trigger self.message_bus.has_pending(p, w)]
                    !freshv.take(k as int).contains(w) ==> self.message_bus.has_pending(p, w)
                        == pre.message_bus.has_pending(p, w),
                forall|p: Seq<char>, w: u64| #![trigger self.message_bus.pending_msg(p, w)]
                    !freshv.take(k as int).contains(w) && pre.message_bus.has_pending(p, w)
                        ==> self.message_bus.pending_msg(p, w) == pre.message_bus.pending_msg(
                        p,
                        w,
                    ),
                forall|p: Seq<char>, w: u64| #![trigger self.message_bus.has_pending(p, w)]
                    freshv.take(k as int).contains(w) ==> self.message_bus.has_pending(p, w)
                        == spec_sync_pending(pre, src@, w, p),
                forall|p: Seq<char>, w: u64|
                    #[trigger] self.message_bus.has_pending(p, w)
                        ==> self.message_bus.pending_msg(p, w)@ == spec_broadcast_msg(
                        self.node_id@,
                        p,
                        w,
                    ),
                out.deep_view() =~~= spec_sync_outputs(pre, src@, freshv, k as int),
            decreases flen - k,
        {
            let m = new_msgs[k];
            let ghost takek = freshv.take(k as int);
            let ghost takek1 = freshv.take(k + 1);
            proof {
                assert(takek1.drop_last() =~= takek);
                assert(takek1.last() == m);
                assert(!takek.contains(m)) by {
                    if takek.contains(m) {
                        let a = choose|a: int| 0 <= a < k && takek[a] == m;
                        assert(freshv[a] == m && freshv[k as int] == m);
                        assert(false);
                    }
                }
                assert(freshv.contains(m)) by {
                    assert(freshv[k as int] == m);
                }
                assert(!pre.dedup.known(m));
                assert(!pre.dedup.broadcasted(m));
                assert(!self.dedup.broadcasted(m));
            }
            self.message_bus.delete_message_checked(src, m);
            let already = self.dedup.already_broadcast(m);
            if !already {
                let mut j: usize = 0;
                #[verifier::loop_isolation(false)]
                while j < nlen
                    invariant
                        j <= nlen,
                        nlen == self.neighborhood@.len(),
                        self.neighborhood == pre.neighborhood,
                        self.topology == pre.topology,
                        self.customer_read_bus == pre.customer_read_bus,
                        self.node_id == pre.node_id,
                        self.node_count == pre.node_count,
                        self.dedup.wf(),
                        self.dedup.values@ == pre.dedup.values@ + freshv,
                        forall|w: u64| #![trigger self.dedup.broadcasted(w)]
                            self.dedup.broadcasted(w) == (pre.dedup.broadcasted(w)
                                || takek.contains(w)),
                        self.message_bus.wf(),
                        self.message_bus.retry_wait_ms == pre.message_bus.retry_wait_ms,
                        forall|p: Seq<char>|
                            self.message_bus.tracks(p) == pre.message_bus.tracks(p),
                        forall|p: Seq<char>, w: u64| #![trigger self.message_bus.has_pending(p, w)]
                            w != m && !takek.contains(w) ==> self.message_bus.has_pending(p, w)
                                == pre.message_bus.has_pending(p, w),
                        forall|p: Seq<char>, w: u64| #![trigger self.message_bus.pending_msg(p, w)]
                            w != m && !takek.contains(w) && pre.message_bus.has_pending(p, w)
                                ==> self.message_bus.pending_msg(p, w)
                                == pre.message_bus.pending_msg(p, w),
                        forall|p: Seq<char>, w: u64| #![trigger self.message_bus.has_pending(p, w)]
                            w != m && takek.contains(w) ==> self.message_bus.has_pending(p, w)
                                == spec_sync_pending(pre, src@, w, p),
                        forall|p: Seq<char>| #![trigger self.message_bus.has_pending(p, m)]
                            self.message_bus.has_pending(p, m) == ((p != src@
                                && pre.message_bus.has_pending(p, m)) || (
                            pre.neighborhood.deep_view().subrange(0, j as int).contains(p) && p
                                != me && spec_is_main(p) && spec_is_main(me))),
                        forall|p: Seq<char>, w: u64|
                            #[trigger] self.message_bus.has_pending(p, w)
                                ==> self.message_bus.pending_msg(p, w)@ == spec_broadcast_msg(
                                self.node_id@,
                                p,
                                w,
                            ),
                        out.deep_view() =~~= spec_sync_outputs(pre, src@, freshv, k as int)
                            + spec_fanout(pre, src@, m, false, true, j as int),
                    decreases nlen - j,
                {
                    let ghost prefix = pre.neighborhood.deep_view().subrange(0, j as int);
                    let ghost prefix1 = pre.neighborhood.deep_view().subrange(0, j + 1);
                    let ghost outmid = spec_sync_outputs(pre, src@, freshv, k as int);
                    let ghost bus0 = self.message_bus;
                    proof {
                        assert(prefix1.drop_last() =~= prefix);
                        assert(prefix1.last() == pre.neighborhood.deep_view()[j as int]);
                        assert(pre.neighborhood.deep_view()[j as int]
                            == pre.neighborhood@[j as int]@);
                        assert forall|p: Seq<char>| prefix1.contains(p) implies (prefix.contains(p)
                            || p == pre.neighborhood@[j as int]@) by {
                            let x = choose|x: int| 0 <= x < prefix1.len() && prefix1[x] == p;
                            if x < prefix1.len() - 1 {
                                assert(prefix[x] == p);
                            }
                        }
                        assert forall|p: Seq<char>| prefix.contains(p) implies prefix1.contains(
                            p,
                        ) by {
                            let x = choose|x: int| 0 <= x < prefix.len() && prefix[x] == p;
                            assert(prefix1[x] == p);
                        }
                    }
                    let skip = self.neighborhood[j].eq(&self.node_id);
                    if !skip {
                        let peer = self.neighborhood[j].clone();
                        let msg = NodeMessage {
                            src: self.node_id.clone(),
                            dest: peer.clone(),
                            body: BroadcastResponse { message: m, in_reply_to: None, msg_id: None },
                        };
                        let mm = is_main_node(&peer) && me_main;
                        if mm {
                            proof {
                                assert(pre.neighborhood.deep_view().contains(peer@)) by {
                                    assert(pre.neighborhood.deep_view()[j as int] == peer@);
                                }
                                assert(pre.wf());
                                assert(pre.message_bus.tracks(peer@)
                                    == pre.neighborhood.deep_view().contains(peer@));
                                assert(self.message_bus.tracks(peer@)
                                    == pre.message_bus.tracks(peer@));
                                assert(self.message_bus.tracks(peer@));
                                assert(!prefix.contains(peer@)) by {
                                    if prefix.contains(peer@) {
                                        let x = choose|x: int| 0 <= x < j && prefix[x] == peer@;
                                        assert(pre.neighborhood.deep_view()[x] == peer@);
                                        assert(pre.neighborhood@[x]@ == peer@);
                                        assert(pre.neighborhood@[j as int]@ == peer@);
                                        assert(false);
                                    }
                                }
                                assert(bus0.has_pending(peer@, m) == (peer@ != src@
                                    && pre.message_bus.has_pending(peer@, m)));
                            }
                            let ghost msgg = msg;
                            let sent = self.message_bus.add_message(&peer, m, msg);
                            proof {
                                assert forall|p: Seq<char>, w: u64| #![trigger self.message_bus.has_pending(p, w)]
                                    w != m implies self.message_bus.has_pending(p, w)
                                    == bus0.has_pending(p, w) by {}
                                assert forall|p: Seq<char>, w: u64| #![trigger self.message_bus.pending_msg(p, w)]
                                    w != m && bus0.has_pending(p, w) implies
                                    self.message_bus.pending_msg(p, w) == bus0.pending_msg(
                                    p,
                                    w,
                                ) by {}
                                assert forall|p: Seq<char>| #![trigger self.message_bus.has_pending(p, m)]
                                    self.message_bus.has_pending(p, m) == ((p != src@
                                        && pre.message_bus.has_pending(p, m)) || (prefix1.contains(
                                        p,
                                    ) && p != me && spec_is_main(p) && spec_is_main(me))) by {
                                    if p == peer@ {
                                        assert(self.message_bus.has_pending(p, m));
                                        assert(prefix1.contains(p)) by {
                                            assert(prefix1.last() == peer@);
                                        }
                                        assert(p != me);
                                    } else {
                                        assert(self.message_bus.has_pending(p, m)
                                            == bus0.has_pending(p, m));
                                    }
                                }
                                assert forall|p: Seq<char>, w: u64|
                                    #[trigger] self.message_bus.has_pending(p, w) implies
                                    self.message_bus.pending_msg(p, w)@ == spec_broadcast_msg(
                                    self.node_id@,
                                    p,
                                    w,
                                ) by {
                                    if p == peer@ && w == m && !bus0.has_pending(peer@, m) {
                                        assert(self.message_bus.pending_msg(p, w) == msgg);
                                    } else {
                                        assert(bus0.has_pending(p, w));
                                        assert(self.message_bus.pending_msg(p, w)
                                            == bus0.pending_msg(p, w));
                                    }
                                }
                            }
                            match sent {
                                Some(mo) => {
                                    proof {
                                        assert(mo == msgg);
                                        assert(pre.neighborhood@[j as int]@ == peer@);
                                        assert(!(peer@ != src@ && pre.message_bus.has_pending(
                                            peer@,
                                            m,
                                        )));
                                        assert(spec_fanout(pre, src@, m, false, true, j + 1)
                                            == spec_fanout(pre, src@, m, false, true, j as int).push(
                                            MsgView {
                                                src: pre.node_id@,
                                                dest: peer@,
                                                body: ResponseView::Broadcast(
                                                    BroadcastResponse {
                                                        message: m,
                                                        in_reply_to: None,
                                                        msg_id: None,
                                                    },
                                                ),
                                            },
                                        ));
                                    }
                                    let ghost outd0 = out.deep_view();
                                    let elem = NodeMessage {
                                        src: mo.src,
                                        dest: mo.dest,
                                        body: ResponseBody::Broadcast(mo.body),
                                    };
                                    let ghost eg = elem;
                                    out.push(elem);
                                    proof {
                                        assert(eg.deep_view() == MsgView {
                                            src: pre.node_id@,
                                            dest: peer@,
                                            body: ResponseView::Broadcast(
                                                BroadcastResponse {
                                                    message: m,
                                                    in_reply_to: None,
                                                    msg_id: None,
                                                },
                                            ),
                                        });
                                        assert(out.deep_view() =~~= outd0.push(eg.deep_view()));
                                        assert(out.deep_view() =~~= outmid + spec_fanout(
                                            pre,
                                            src@,
                                            m,
                                            false,
                                            true,
                                            j + 1,
                                        ));
                                    }
                                },
                                None => {
                                    proof {
                                        assert(bus0.has_pending(peer@, m));
                                        assert(peer@ != src@ && pre.message_bus.has_pending(
                                            peer@,
                                            m,
                                        ));
                                        assert(out.deep_view() =~~= outmid + spec_fanout(
                                            pre,
                                            src@,
                                            m,
                                            false,
                                            true,
                                            j + 1,
                                        ));
                                    }
                                },
                            }
                        } else {
                            proof {
                                assert(pre.neighborhood@[j as int]@ == peer@);
                                assert(!(spec_is_main(peer@) && spec_is_main(pre.node_id@)));
                                assert(spec_fanout(pre, src@, m, false, true, j + 1)
                                    == spec_fanout(pre, src@, m, false, true, j as int).push(
                                    MsgView {
                                        src: pre.node_id@,
                                        dest: peer@,
                                        body: ResponseView::Broadcast(
                                            BroadcastResponse {
                                                message: m,
                                                in_reply_to: None,
                                                msg_id: None,
                                            },
                                        ),
                                    },
                                ));
                            }
                            let ghost outd0 = out.deep_view();
                            let elem = NodeMessage {
                                src: msg.src,
                                dest: msg.dest,
                                body: ResponseBody::Broadcast(msg.body),
                            };
                            let ghost eg = elem;
                            out.push(elem);
                            proof {
                                assert(eg.deep_view() == MsgView {
                                    src: pre.node_id@,
                                    dest: peer@,
                                    body: ResponseView::Broadcast(
                                        BroadcastResponse { message: m, in_reply_to: None, msg_id: None },
                                    ),
                                });
                                assert(out.deep_view() =~~= outd0.push(eg.deep_view()));
                                assert forall|p: Seq<char>| #![trigger self.message_bus.has_pending(p, m)]
                                    self.message_bus.has_pending(p, m) == ((p != src@
                                        && pre.message_bus.has_pending(p, m)) || (prefix1.contains(
                                        p,
                                    ) && p != me && spec_is_main(p) && spec_is_main(me))) by {
                                    assert(self.message_bus.has_pending(p, m) == ((p != src@
                                        && pre.message_bus.has_pending(p, m)) || (prefix.contains(
                                        p,
                                    ) && p != me && spec_is_main(p) && spec_is_main(me))));
                                    if prefix1.contains(p) && !prefix.contains(p) {
                                        assert(p == peer@);
                                        assert(!spec_is_main(p) || !spec_is_main(me));
                                    }
                                    if prefix.contains(p) {
                                        assert(prefix1.contains(p));
                                    }
                                }
                                assert(out.deep_view() =~~= outmid + spec_fanout(
                                    pre,
                                    src@,
                                    m,
                                    false,
                                    true,
                                    j + 1,
                                ));
                            }
                        }
                    } else {
                        proof {
                            assert(pre.neighborhood@[j as int]@ == me);
                            assert forall|p: Seq<char>| #![trigger self.message_bus.has_pending(p, m)]
                                self.message_bus.has_pending(p, m) == ((p != src@
                                    && pre.message_bus.has_pending(p, m)) || (prefix1.contains(p)
                                    && p != me && spec_is_main(p) && spec_is_main(me))) by {
                                assert(self.message_bus.has_pending(p, m) == ((p != src@
                                    && pre.message_bus.has_pending(p, m)) || (prefix.contains(p)
                                    && p != me && spec_is_main(p) && spec_is_main(me))));
                                if prefix1.contains(p) && !prefix.contains(p) {
                                    assert(p == me);
                                }
                                if prefix.contains(p) {
                                    assert(prefix1.contains(p));
                                }
                            }
                            assert(out.deep_view() =~~= outmid + spec_fanout(
                                pre,
                                src@,
                                m,
                                false,
                                true,
                                j + 1,
                            ));
                        }
                    }
                    proof {
                        assert(prefix1 =~= pre.neighborhood.deep_view().subrange(0, j + 1));
                    }
                    j = j + 1;
                }
                proof {
                    lemma_contains_append(pre.dedup.values@, freshv, m);
                    assert(self.dedup.known(m));
                }
                self.dedup.mark_broadcast(m);
                proof {
                    assert(pre.neighborhood.deep_view().subrange(0, nlen as int)
                        =~= pre.neighborhood.deep_view());
                    assert forall|w: u64| #![trigger self.dedup.broadcasted(w)]
                        self.dedup.broadcasted(w) == (pre.dedup.broadcasted(w)
                        || takek1.contains(w)) by {
                        if takek1.contains(w) && !takek.contains(w) {
                            assert(w == m);
                        }
                        if takek.contains(w) {
                            assert(takek1.contains(w));
                        }
                        if w == m {
                            assert(takek1.last() == m);
                            assert(takek1.contains(m));
                        }
                    }
                    assert forall|p: Seq<char>, w: u64| #![trigger self.message_bus.has_pending(p, w)]
                        takek1.contains(w) implies self.message_bus.has_pending(p, w)
                        == spec_sync_pending(pre, src@, w, p) by {
                        if w == m {
                            assert(self.message_bus.has_pending(p, m) == ((p != src@
                                && pre.message_bus.has_pending(p, m)) || (
                            pre.neighborhood.deep_view().subrange(0, nlen as int).contains(p) && p
                                != me && spec_is_main(p) && spec_is_main(me))));
                        } else {
                            assert(takek.contains(w)) by {
                                let a = choose|a: int| 0 <= a < takek1.len() && takek1[a] == w;
                                assert(a < takek1.len() - 1);
                                assert(takek[a] == w);
                            }
                        }
                    }
                    assert forall|p: Seq<char>, w: u64| #![trigger self.message_bus.has_pending(p, w)]
                        !takek1.contains(w) implies self.message_bus.has_pending(p, w)
                        == pre.message_bus.has_pending(p, w) by {
                        assert(w != m) by {
                            if w == m {
                                assert(takek1.last() == m);
                                assert(takek1.contains(m));
                            }
                        }
                        assert(!takek.contains(w)) by {
                            if takek.contains(w) {
                                let a = choose|a: int| 0 <= a < takek.len() && takek[a] == w;
                                assert(takek1[a] == w);
                            }
                        }
                    }
                    assert forall|p: Seq<char>, w: u64| #![trigger self.message_bus.pending_msg(p, w)]
                        !takek1.contains(w) && pre.message_bus.has_pending(p, w) implies
                        self.message_bus.pending_msg(p, w) == pre.message_bus.pending_msg(
                        p,
                        w,
                    ) by {
                        assert(w != m) by {
                            if w == m {
                                assert(takek1.last() == m);
                                assert(takek1.contains(m));
                            }
                        }
                        assert(!takek.contains(w)) by {
                            if takek.contains(w) {
                                let a = choose|a: int| 0 <= a < takek.len() && takek[a] == w;
                                assert(takek1[a] == w);
                            }
                        }
                    }
                    assert(out.deep_view() =~~= spec_sync_outputs(pre, src@, freshv, k + 1));
                }
            } else {
                proof {
                    assert(false);
                }
            }
            k = k + 1;
        }
        proof {
            assert(freshv.take(flen as int) =~= freshv);
            assert forall|p: Seq<char>| self.message_bus.tracks(p)
                == self.neighborhood.deep_view().contains(p) by {
                assert(self.message_bus.tracks(p) == pre.message_bus.tracks(p));
                assert(pre.wf());
                assert(pre.message_bus.tracks(p) == pre.neighborhood.deep_view().contains(p));
            }
            assert(body@.messages == msgs);
            assert(spec_fresh(pre.dedup.values@, body@.messages, body@.messages.len() as int)
                == freshv);
            assert forall|w: u64| self.dedup.known(w) == (pre.dedup.known(w)
                || body@.messages.contains(w)) by {
                lemma_contains_append(pre.dedup.values@, freshv, w);
                assert(msgs.take(msgs.len() as int) =~= msgs);
                assert(self.dedup.known(w) == (pre.dedup.values@ + freshv).contains(w));
                assert(spec_fresh(pre.dedup.values@, msgs, msgs.len() as int).contains(w)
                    == (msgs.take(msgs.len() as int).contains(w)
                    && !pre.dedup.values@.contains(w)));
            }
            assert(read_ok_step(pre, *self, src@, body@, out.deep_view()));
        }
        out
    }
}

/// The view of an inbound message body, by kind.
pub enum RequestView {
    Broadcast(BroadcastBody),
    Read(ReadBody),
    ReadOk(ReadOkView),
    Topology(TopologyView),
    BroadcastOk(ReadBody),
}

impl View for RequestType {
    type V = RequestView;

    open spec fn view(&self) -> RequestView {
        match self {
            RequestType::Broadcast(b) => RequestView::Broadcast(*b),
            RequestType::Read(b) => RequestView::Read(*b),
            RequestType::ReadOk(b) => RequestView::ReadOk(b@),
            RequestType::Topology(t) => RequestView::Topology(t@),
            RequestType::BroadcastOk(b) => RequestView::BroadcastOk(*b),
        }
    }
}

/// How one inbound envelope transforms the state and what it sends, by
/// message kind.
pub open spec fn message_step(
    pre: GlobalState,
    post: GlobalState,
    m: MsgView<RequestView>,
    out: Seq<MsgView<ResponseView>>,
) -> bool {
    match m.body {
        RequestView::Broadcast(b) => broadcast_step(pre, post, m.src, b, out),
        RequestView::Read(b) => read_step(pre, post, m.src, b, out),
        RequestView::ReadOk(b) => read_ok_step(pre, post, m.src, b, out),
        RequestView::Topology(t) => topology_step(pre, post, m.src, t, out),
        RequestView::BroadcastOk(b) => broadcast_ok_step(pre, post, m.src, b, out),
    }
}

impl GlobalState {
    /// Dispatches one inbound envelope to its handler and returns the
    /// envelopes to transmit in reply.
    pub fn handle_message(&mut self, request: NodeMessage<RequestType>) -> (out: Vec<
        NodeMessage<ResponseBody>,
    >)
        requires
            old(self).wf(),
        ensures
            final(self).wf(),
            message_step(*old(self), *final(self), request@, out.deep_view()),
    {
        match request.body {
            RequestType::Broadcast(b) => self.handle_broadcast(&request.src, b),
            RequestType::Read(b) => self.handle_read(&request.src, b),
            RequestType::ReadOk(b) => self.handle_read_ok(&request.src, b),
            RequestType::Topology(t) => self.handle_topology(&request.src, t),
            RequestType::BroadcastOk(b) => self.handle_broadcast_ok(&request.src, b),
        }
    }
}

// ------------------------------------------------------------------
// Protocol laws.
// ------------------------------------------------------------------
/// No echo: a step that handles `broadcast(v)` from a peer never puts a
/// `broadcast` addressed to that same peer among its outputs.
pub proof fn lemma_no_echo(
    pre: GlobalState,
    post: GlobalState,
    src: Seq<char>,
    b: BroadcastBody,
    out: Seq<MsgView<ResponseView>>,
)
    requires
        broadcast_step(pre, post, src, b, out),
    ensures
        forall|k: int|
            0 <= k < out.len() && (#[trigger] out[k].body) is Broadcast ==> out[k].dest != src,
{
    let n = pre.neighborhood@.len() as int;
    lemma_fanout_items(pre, src, b.message, true, false, n);
    let ok_part = spec_broadcast_ok_part(pre, src, b);
    let fan = if pre.dedup.broadcasted(b.message) {
        Seq::<MsgView<ResponseView>>::empty()
    } else {
        spec_fanout(pre, src, b.message, true, false, n)
    };
    assert forall|k: int|
        0 <= k < out.len() && (#[trigger] out[k].body) is Broadcast implies out[k].dest != src by {
        if k < ok_part.len() {
            assert(out[k] == ok_part[k]);
        } else {
            assert(out[k] == fan[k - ok_part.len()]);
        }
    }
}

/// Idempotence: delivering the same `broadcast(v)` twice leaves the same
/// known values as delivering it once, and the second delivery fans nothing
/// out — it cannot re-enter the first-observation path.
pub proof fn lemma_broadcast_idempotent(
    s0: GlobalState,
    s1: GlobalState,
    s2: GlobalState,
    src1: Seq<char>,
    src2: Seq<char>,
    b: BroadcastBody,
    out1: Seq<MsgView<ResponseView>>,
    out2: Seq<MsgView<ResponseView>>,
)
    requires
        broadcast_step(s0, s1, src1, b, out1),
        broadcast_step(s1, s2, src2, b, out2),
    ensures
        forall|w: u64| s2.dedup.known(w) == s1.dedup.known(w),
        forall|w: u64| s2.dedup.broadcasted(w) == s1.dedup.broadcasted(w),
        s2.dedup.values@ == s1.dedup.values@,
        forall|k: int| 0 <= k < out2.len() ==> !((#[trigger] out2[k].body) is Broadcast),
{
    let v = b.message;
    assert(s1.dedup.known(v));
    assert(s1.dedup.broadcasted(v));
    let ok_part = spec_broadcast_ok_part(s1, src2, b);
    assert(out2 == ok_part + Seq::<MsgView<ResponseView>>::empty());
    assert forall|k: int| 0 <= k < out2.len() implies !((#[trigger] out2[k].body) is Broadcast) by {
        assert(out2[k] == ok_part[k]);
    }
}

/// The relation `add_message` (offer) establishes between the bus before
/// and after, the offered message, and what the caller gets back.
pub open spec fn offer_step(
    pre: MessageBus,
    post: MessageBus,
    peer: Seq<char>,
    v: u64,
    message: NodeMessage<BroadcastResponse>,
    r: Option<NodeMessage<BroadcastResponse>>,
) -> bool {
    &&& post.wf()
    &&& post.retry_wait_ms == pre.retry_wait_ms
    &&& forall|p: Seq<char>| post.tracks(p) == pre.tracks(p)
    &&& pre.has_pending(peer, v) ==> r is None && post.same_pending(pre)
    &&& !pre.has_pending(peer, v) ==> {
        &&& r == Some(message)
        &&& post.has_pending(peer, v)
        &&& post.pending_msg(peer, v) == message
        &&& forall|p: Seq<char>, w: u64|
            !(p == peer && w == v) ==> post.has_pending(p, w) == pre.has_pending(p, w)
        &&& forall|p: Seq<char>, w: u64|
            !(p == peer && w == v) && pre.has_pending(p, w) ==> post.pending_msg(p, w)
                == pre.pending_msg(p, w)
    }
}

/// The relation `pick_message` (serving one retry tick) establishes: the
/// in-flight state is untouched, and anything returned is one of the
/// messages in flight, exactly as stored.
pub open spec fn retry_step(
    pre: MessageBus,
    post: MessageBus,
    r: Option<NodeMessage<BroadcastResponse>>,
) -> bool {
    &&& post.wf()
    &&& post.retry_wait_ms == pre.retry_wait_ms
    &&& post.same_pending(pre)
    &&& match r {
        Some(m) => exists|p: Seq<char>, v: u64|
            pre.has_pending(p, v) && m == pre.pending_msg(p, v),
        None => true,
    }
}

/// At most one in flight: for a given (peer, value) pair, two offers before
/// an acknowledgment hand the message back for transmission only the first
/// time; the second offer transmits nothing and changes nothing.
pub proof fn lemma_at_most_one_in_flight(
    b0: MessageBus,
    b1: MessageBus,
    b2: MessageBus,
    peer: Seq<char>,
    v: u64,
    m1: NodeMessage<BroadcastResponse>,
    m2: NodeMessage<BroadcastResponse>,
    r1: Option<NodeMessage<BroadcastResponse>>,
    r2: Option<NodeMessage<BroadcastResponse>>,
)
    requires
        !b0.has_pending(peer, v),
        offer_step(b0, b1, peer, v, m1, r1),
        offer_step(b1, b2, peer, v, m2, r2),
    ensures
        r1 == Some(m1),
        r2 is None,
        b2.same_pending(b1),
{
}

/// In a well-formed bus, what is in flight for `(p, v)` is a broadcast
/// addressed to `p` carrying `v`.
pub proof fn lemma_pending_msg_wf(bus: MessageBus, p: Seq<char>, v: u64)
    requires
        bus.wf(),
        bus.has_pending(p, v),
    ensures
        bus.pending_msg(p, v).dest@ == p,
        bus.pending_msg(p, v).body.message == v,
{
    let (i, a) = choose|i: int, a: int| bus.pending_at(i, a, p, v);
    lemma_pending_msg_unique(bus, i, a, p, v);
}

/// Retry reuses the message: when a retry tick returns a message for a
/// (peer, value) pair whose in-flight entry was created by an offer, it is
/// exactly the message that offer recorded — byte for byte, not a fresh one.
pub proof fn lemma_retry_reuses_message(
    b0: MessageBus,
    b1: MessageBus,
    b2: MessageBus,
    peer: Seq<char>,
    v: u64,
    m: NodeMessage<BroadcastResponse>,
    r: Option<NodeMessage<BroadcastResponse>>,
    picked: NodeMessage<BroadcastResponse>,
)
    requires
        !b0.has_pending(peer, v),
        offer_step(b0, b1, peer, v, m, r),
        retry_step(b1, b2, Some(picked)),
        picked.dest@ == peer,
        picked.body.message == v,
    ensures
        picked == m,
{
    let (p, w) = choose|p: Seq<char>, w: u64|
        b1.has_pending(p, w) && picked == b1.pending_msg(p, w);
    lemma_pending_msg_wf(b1, p, w);
    assert(p == peer && w == v);
    assert(picked == b1.pending_msg(peer, v));
}

/// The local step behind convergence: when `broadcast(v)` arrives for a
/// value this node has not fanned out before, every peer link other than
/// the sender either is sent `broadcast(v)` among this step's outputs, or
/// already holds it in flight on the retry bus, where it stays — and is
/// retried — until acknowledged.
pub proof fn lemma_dissemination_coverage(
    pre: GlobalState,
    post: GlobalState,
    src: Seq<char>,
    b: BroadcastBody,
    out: Seq<MsgView<ResponseView>>,
    peer: Seq<char>,
)
    requires
        pre.wf(),
        post.wf(),
        broadcast_step(pre, post, src, b, out),
        !pre.dedup.broadcasted(b.message),
        pre.neighborhood.deep_view().contains(peer),
        peer != src,
    ensures
        (exists|k: int|
            0 <= k < out.len() && (#[trigger] out[k]) == (MsgView {
                src: pre.node_id@,
                dest: peer,
                body: ResponseView::Broadcast(
                    BroadcastResponse { message: b.message, in_reply_to: None, msg_id: None },
                ),
            })) || (post.message_bus.has_pending(peer, b.message)
            && post.message_bus.pending_msg(peer, b.message)@ == spec_broadcast_msg(
            pre.node_id@,
            peer,
            b.message,
        )),
{
    let v = b.message;
    let n = pre.neighborhood@.len() as int;
    let me = pre.node_id@;
    if spec_is_main(peer) && spec_is_main(me) {
        assert(post.message_bus.has_pending(peer, v));
        assert(post.message_bus.pending_msg(peer, v)@ == spec_broadcast_msg(post.node_id@, peer, v));
        assert(post.node_id == pre.node_id);
    } else {
        let x = choose|x: int|
            0 <= x < n && (#[trigger] pre.neighborhood.deep_view()[x]) == peer;
        lemma_fanout_covers(pre, src, v, true, false, n, x);
        let fan = spec_fanout(pre, src, v, true, false, n);
        let ok_part = spec_broadcast_ok_part(pre, src, b);
        let target = MsgView {
            src: me,
            dest: peer,
            body: ResponseView::Broadcast(
                BroadcastResponse { message: v, in_reply_to: None, msg_id: None },
            ),
        };
        let j = choose|j: int| 0 <= j < fan.len() && fan[j] == target;
        assert(out[ok_part.len() + j] == target);
    }
}

/// The fan-out over the first `n` peer links reaches link `x` whenever that
/// link is not skipped and does not already have the value in flight.
proof fn lemma_fanout_covers(
    pre: GlobalState,
    src: Seq<char>,
    v: u64,
    skip_src: bool,
    skip_me: bool,
    n: int,
    x: int,
)
    requires
        0 <= x < n <= pre.neighborhood@.len(),
        !(skip_src && pre.neighborhood.deep_view()[x] == src),
        !(skip_me && pre.neighborhood.deep_view()[x] == pre.node_id@),
        !(spec_is_main(pre.neighborhood.deep_view()[x]) && spec_is_main(pre.node_id@)
            && pre.neighborhood.deep_view()[x] != src && pre.message_bus.has_pending(
            pre.neighborhood.deep_view()[x],
            v,
        )),
    ensures
        spec_fanout(pre, src, v, skip_src, skip_me, n).contains(
            MsgView {
                src: pre.node_id@,
                dest: pre.neighborhood.deep_view()[x],
                body: ResponseView::Broadcast(
                    BroadcastResponse { message: v, in_reply_to: None, msg_id: None },
                ),
            },
        ),
    decreases n,
{
    let peer = pre.neighborhood.deep_view()[x];
    let target = MsgView {
        src: pre.node_id@,
        dest: peer,
        body: ResponseView::Broadcast(
            BroadcastResponse { message: v, in_reply_to: None, msg_id: None },
        ),
    };
    let whole = spec_fanout(pre, src, v, skip_src, skip_me, n);
    let rest = spec_fanout(pre, src, v, skip_src, skip_me, n - 1);
    if x == n - 1 {
        assert(pre.neighborhood@[n - 1]@ == peer);
        assert(whole.last() == target);
    } else {
        lemma_fanout_covers(pre, src, v, skip_src, skip_me, n - 1, x);
        let j = choose|j: int| 0 <= j < rest.len() && rest[j] == target;
        assert(whole[j] == target);
    }
}

/// A node never forgets: no inbound message removes a value from the known
/// set, and nothing leaves the fanned-out set either.
pub proof fn lemma_knowledge_monotone(
    pre: GlobalState,
    post: GlobalState,
    m: MsgView<RequestView>,
    out: Seq<MsgView<ResponseView>>,
)
    requires
        message_step(pre, post, m, out),
    ensures
        forall|w: u64| pre.dedup.known(w) ==> post.dedup.known(w),
        forall|w: u64| pre.dedup.broadcasted(w) ==> post.dedup.broadcasted(w),
{
    assert forall|w: u64| pre.dedup.known(w) implies post.dedup.known(w) by {
        match m.body {
            RequestView::Broadcast(b) => {
                assert(post.dedup.known(w) == (pre.dedup.known(w) || w == b.message));
            },
            RequestView::Read(_) => {
                assert(post.dedup == pre.dedup);
            },
            RequestView::ReadOk(b) => {
                assert(post.dedup.known(w) == (pre.dedup.known(w) || b.messages.contains(w)));
            },
            RequestView::Topology(_) => {
                assert(post.dedup == pre.dedup);
            },
            RequestView::BroadcastOk(_) => {
                assert(post.dedup == pre.dedup);
            },
        }
    }
    assert forall|w: u64| pre.dedup.broadcasted(w) implies post.dedup.broadcasted(w) by {
        match m.body {
            RequestView::Broadcast(b) => {
                assert(post.dedup.broadcasted(w) == (pre.dedup.broadcasted(w) || w == b.message));
            },
            RequestView::Read(_) => {
                assert(post.dedup == pre.dedup);
            },
            RequestView::ReadOk(b) => {
                assert(read_ok_step(pre, post, m.src, b, out));
                assert(post.dedup.broadcasted(w) == (pre.dedup.broadcasted(w) || spec_fresh(
                    pre.dedup.values@,
                    b.messages,
                    b.messages.len() as int,
                ).contains(w)));
            },
            RequestView::Topology(_) => {
                assert(post.dedup == pre.dedup);
            },
            RequestView::BroadcastOk(_) => {
                assert(post.dedup == pre.dedup);
            },
        }
    }
}

/// The acknowledgment a `topology` notification earns.
pub open spec fn topology_step_out(me: Seq<char>, src: Seq<char>, t: TopologyView) -> Seq<
    MsgView<ResponseView>,
> {
    seq![
        MsgView {
            src: me,
            dest: src,
            body: ResponseView::TopologyOk(BasicResponse { in_reply_to: t.msg_id, msg_id: None }),
        },
    ]
}

/// Every fan-out message is a broadcast of `v` from this node to one of its
/// peer links, and never to a skipped destination.
pub proof fn lemma_fanout_items(
    pre: GlobalState,
    src: Seq<char>,
    v: u64,
    skip_src: bool,
    skip_me: bool,
    n: int,
)
    requires
        n <= pre.neighborhood@.len(),
    ensures
        forall|j: int|
            0 <= j < spec_fanout(pre, src, v, skip_src, skip_me, n).len() ==> {
                let m = #[trigger] spec_fanout(pre, src, v, skip_src, skip_me, n)[j];
                &&& m.src == pre.node_id@
                &&& m.body == ResponseView::Broadcast(
                    BroadcastResponse { message: v, in_reply_to: None, msg_id: None },
                )
                &&& (skip_src ==> m.dest != src)
                &&& (skip_me ==> m.dest != pre.node_id@)
                &&& exists|x: int|
                    0 <= x < n && x < pre.neighborhood@.len() && (#[trigger] pre.neighborhood@[x]@)
                        == m.dest
            },
    decreases n,
{
    if n > 0 {
        lemma_fanout_items(pre, src, v, skip_src, skip_me, n - 1);
        let whole = spec_fanout(pre, src, v, skip_src, skip_me, n);
        let rest = spec_fanout(pre, src, v, skip_src, skip_me, n - 1);
        let peer = pre.neighborhood@[n - 1]@;
        assert forall|j: int| 0 <= j < whole.len() implies {
            let m = #[trigger] whole[j];
            &&& m.src == pre.node_id@
            &&& m.body == ResponseView::Broadcast(
                BroadcastResponse { message: v, in_reply_to: None, msg_id: None },
            )
            &&& (skip_src ==> m.dest != src)
            &&& (skip_me ==> m.dest != pre.node_id@)
            &&& exists|x: int|
                0 <= x < n && x < pre.neighborhood@.len() && (#[trigger] pre.neighborhood@[x]@)
                    == m.dest
        } by {
            if j < rest.len() {
                assert(whole[j] == rest[j]);
                let x = choose|x: int|
                    0 <= x < n - 1 && x < pre.neighborhood@.len() && (#[trigger] pre.neighborhood@[x]@)
                        == rest[j].dest;
                assert(0 <= x < n && x < pre.neighborhood@.len() && pre.neighborhood@[x]@
                    == whole[j].dest);
            } else {
                assert(whole[j] == whole.last());
                assert(whole[j].dest == peer);
                assert(pre.neighborhood@[n - 1]@ == whole[j].dest);
            }
        }
    }
}

/// Two well-formed buses whose links agree on peers and pending lists track
/// the same pairs and hold the same messages.
proof fn lemma_same_links_same_pending(a: MessageBus, b: MessageBus)
    requires
        a.wf(),
        a.links@.len() == b.links@.len(),
        forall|k: int|
            0 <= k < a.links@.len() ==> (#[trigger] a.links@[k].peer@) == b.links@[k].peer@
                && a.links@[k].pending@ == b.links@[k].pending@,
    ensures
        a.same_pending(b),
{
    assert forall|p: Seq<char>| a.tracks(p) == b.tracks(p) by {
        if a.tracks(p) {
            let i = choose|i: int| 0 <= i < a.links@.len() && (#[trigger] a.links@[i].peer@) == p;
            assert(a.links@[i].peer@ == b.links@[i].peer@);
        }
        if b.tracks(p) {
            let i = choose|i: int| 0 <= i < b.links@.len() && (#[trigger] b.links@[i].peer@) == p;
            assert(a.links@[i].peer@ == b.links@[i].peer@);
            assert(a.links@[i].peer@ == p);
        }
    }
    assert forall|p: Seq<char>, v: u64| a.has_pending(p, v) == b.has_pending(p, v) by {
        if a.has_pending(p, v) {
            let (i, x) = choose|i: int, x: int| a.pending_at(i, x, p, v);
            assert(a.links@[i].peer@ == b.links@[i].peer@);
            assert(a.links@[i].pending@ == b.links@[i].pending@);
            assert(b.pending_at(i, x, p, v));
        }
        if b.has_pending(p, v) {
            let (i, x) = choose|i: int, x: int| b.pending_at(i, x, p, v);
            assert(a.links@[i].peer@ == b.links@[i].peer@);
            assert(a.links@[i].pending@ == b.links@[i].pending@);
            assert(a.pending_at(i, x, p, v));
        }
    }
    assert forall|p: Seq<char>, v: u64| b.has_pending(p, v) implies a.pending_msg(p, v)
        == b.pending_msg(p, v) by {
        let (i, x) = choose|i: int, x: int| b.pending_at(i, x, p, v);
        assert(a.links@[i].peer@ == b.links@[i].peer@);
        assert(a.links@[i].pending@ == b.links@[i].pending@);
        assert(a.pending_at(i, x, p, v));
        lemma_pending_msg_unique(a, i, x, p, v);
        let (i2, x2) = choose|i2: int, x2: int| b.pending_at(i2, x2, p, v);
        assert(b.pending_msg(p, v) == b.links@[i2].pending@[x2].1);
        assert(a.links@[i2].peer@ == b.links@[i2].peer@);
        assert(a.links@[i2].pending@ == b.links@[i2].pending@);
        assert(a.pending_at(i2, x2, p, v));
        assert(i2 == i && x2 == x);
    }
}

/// In a well-formed bus the in-flight slot for a pair is unique, so
/// `pending_msg` returns exactly the message in that slot.
proof fn lemma_pending_msg_unique(bus: MessageBus, i: int, a: int, p: Seq<char>, v: u64)
    requires
        bus.wf(),
        bus.pending_at(i, a, p, v),
    ensures
        bus.pending_msg(p, v) == bus.links@[i].pending@[a].1,
{
    let (i2, a2) = choose|i2: int, a2: int| bus.pending_at(i2, a2, p, v);
    assert(i2 == i);
    assert(a2 == a);
}

} // verus!
