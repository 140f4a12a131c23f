//! The offset-addressed append log: per-key logs of values, each entry at
//! the offset equal to its position, with commit marks and windowed polling.

use crate::NodeMessage;
use vstd::prelude::*;

verus! {

/// How many entries one poll returns per key, at most.
pub const POLL_SIZE: u64 = 50;

/// One inbound log request, by kind.
pub enum RequestType {
    SendRequest(SendRequest),
    PollRequest(PollRequest),
    CommitOffsetsRequest(CommitOffsetsRequest),
    ListCommitedOffsetsRequest(ListCommitedOffsetsRequest),
}

/// Appends `msg` to the log of `key`.
pub struct SendRequest {
    pub key: String,
    pub msg: u64,
    pub in_reply_to: Option<u64>,
    pub msg_id: Option<u64>,
}

/// Reads, for each listed key, the entries from the given offset on.
pub struct PollRequest {
    pub offsets: Vec<(String, u64)>,
    pub in_reply_to: Option<u64>,
    pub msg_id: Option<u64>,
}

/// Marks, for each listed key, every entry at or below the given offset as
/// committed.
pub struct CommitOffsetsRequest {
    pub offsets: Vec<(String, u64)>,
    pub in_reply_to: Option<u64>,
    pub msg_id: Option<u64>,
}

/// Asks, for each listed key, for the last offset of its committed prefix.
pub struct ListCommitedOffsetsRequest {
    pub keys: Vec<String>,
    pub in_reply_to: Option<u64>,
    pub msg_id: Option<u64>,
}

/// One outbound log reply, by kind.
pub enum ResponseType {
    SendResponse(SendResponse),
    PollResponse(PollResponse),
    CommitOffsetsResponse(SimpleMessage),
    ListCommitedOffsetsResponse(ListCommitedOffsetsResponse),
}

/// The offset a send was appended at.
pub struct SendResponse {
    pub offset: u64,
    pub in_reply_to: Option<u64>,
    pub msg_id: Option<u64>,
}

/// The polled (offset, value) pairs, per key.
pub struct PollResponse {
    pub msgs: Vec<(String, Vec<(u64, u64)>)>,
    pub in_reply_to: Option<u64>,
    pub msg_id: Option<u64>,
}

/// A bare acknowledgment.
pub struct SimpleMessage {
    pub in_reply_to: Option<u64>,
    pub msg_id: Option<u64>,
}

/// The last committed offset, per key that has a log.
pub struct ListCommitedOffsetsResponse {
    pub offsets: Vec<(String, u64)>,
    pub in_reply_to: Option<u64>,
    pub msg_id: Option<u64>,
}

/// One log entry: its offset, its value, and whether it is committed.
pub struct SparseLogEntry {
    pub offset: u64,
    pub data: u64,
    pub commited: bool,
}

/// A log node's whole state: its identity and one append-only log per key.
pub struct GlobalState {
    pub node_id: String,
    pub log_entries: Vec<(String, Vec<SparseLogEntry>)>,
}

impl GlobalState {
    /// Internal consistency: keys are distinct and every entry sits at the
    /// offset equal to its position, so offsets are contiguous from zero.
    pub open spec fn wf(self) -> bool {
        &&& forall|a: int, b: int|
            0 <= a < self.log_entries@.len() && 0 <= b < self.log_entries@.len() && a != b
                ==> #[trigger] self.log_entries@[a].0@ != #[trigger] self.log_entries@[b].0@
        &&& forall|a: int, j: int|
            0 <= a < self.log_entries@.len() && 0 <= j < self.log_entries@[a].1@.len()
                ==> (#[trigger] self.log_entries@[a].1@[j]).offset == j
    }

    /// Whether a log exists for `key`.
    pub open spec fn has_log(self, key: Seq<char>) -> bool {
        exists|a: int|
            0 <= a < self.log_entries@.len() && (#[trigger] self.log_entries@[a].0@) == key
    }

    /// The log stored for `key`; meaningful when `has_log`.
    pub open spec fn log_of(self, key: Seq<char>) -> Seq<SparseLogEntry> {
        let a = choose|a: int|
            0 <= a < self.log_entries@.len() && (#[trigger] self.log_entries@[a].0@) == key;
        self.log_entries@[a].1@
    }

    /// A node with no logs yet.
    pub fn new(node_id: String) -> (s: GlobalState)
        ensures
            s.wf(),
            s.node_id == node_id,
            forall|k: Seq<char>| !s.has_log(k),
    {
        GlobalState { node_id, log_entries: Vec::new() }
    }

    /// The position of the log for `key`, if one exists.
    fn find_log(&self, key: &String) -> (r: Option<usize>)
        ensures
            match r {
                Some(a) => a < self.log_entries@.len() && self.log_entries@[a as int].0@ == key@,
                None => !self.has_log(key@),
            },
    {
        let mut a: usize = 0;
        while a < self.log_entries.len()
            invariant
                a <= self.log_entries@.len(),
                forall|x: int| 0 <= x < a ==> (#[trigger] self.log_entries@[x].0@) != key@,
            decreases self.log_entries@.len() - a,
        {
            if self.log_entries[a].0.eq(key) {
                return Some(a);
            }
            a = a + 1;
        }
        None
    }
}

/// The entries a poll of `off` returns from `log`: up to `POLL_SIZE`
/// (offset, value) pairs starting at `off`, or nothing when the key has no
/// log or the offset is past its end.
pub open spec fn spec_poll_points(
    log: Option<Seq<SparseLogEntry>>,
    off: u64,
) -> Seq<(u64, u64)> {
    match log {
        None => Seq::empty(),
        Some(es) => {
            let start = if off > es.len() {
                es.len() as int
            } else {
                off as int
            };
            let end = if start + POLL_SIZE < es.len() {
                start + POLL_SIZE
            } else {
                es.len() as int
            };
            Seq::new((end - start) as nat, |i: int| (es[start + i].offset, es[start + i].data))
        },
    }
}

/// The log of `key` in `s`, if any.
pub open spec fn spec_log_opt(s: GlobalState, key: Seq<char>) -> Option<Seq<SparseLogEntry>> {
    if s.has_log(key) {
        Some(s.log_of(key))
    } else {
        None
    }
}

/// How appending `s` transforms the state and what is answered: the value
/// lands at the end of its key's log — at the offset equal to the old
/// length, zero for a fresh key — every other log stays untouched, and the
/// sender learns the offset.
pub open spec fn send_step(
    pre: GlobalState,
    post: GlobalState,
    src: Seq<char>,
    s: SendRequest,
    r: NodeMessage<ResponseType>,
) -> bool {
    let k = s.key@;
    let oldlog = if pre.has_log(k) {
        pre.log_of(k)
    } else {
        Seq::empty()
    };
    &&& post.node_id == pre.node_id
    &&& post.has_log(k)
    &&& post.log_of(k) == oldlog.push(
        SparseLogEntry { offset: oldlog.len() as u64, data: s.msg, commited: false },
    )
    &&& forall|k2: Seq<char>| k2 != k ==> post.has_log(k2) == pre.has_log(k2)
    &&& forall|k2: Seq<char>|
        k2 != k && pre.has_log(k2) ==> post.log_of(k2) == pre.log_of(k2)
    &&& r.src@ == pre.node_id@
    &&& r.dest@ == src
    &&& r.body == ResponseType::SendResponse(
        SendResponse { offset: oldlog.len() as u64, in_reply_to: s.msg_id, msg_id: None },
    )
}

/// How a poll is answered: the state does not change, and the reply lists,
/// for each requested key in order, the window of entries from the
/// requested offset on.
pub open spec fn poll_step(
    pre: GlobalState,
    post: GlobalState,
    src: Seq<char>,
    p: PollRequest,
    r: NodeMessage<ResponseType>,
) -> bool {
    &&& post == pre
    &&& r.src@ == pre.node_id@
    &&& r.dest@ == src
    &&& match r.body {
        ResponseType::PollResponse(pr) => {
            &&& pr.in_reply_to == p.msg_id
            &&& pr.msg_id is None
            &&& pr.msgs@.len() == p.offsets@.len()
            &&& forall|i: int|
                0 <= i < p.offsets@.len() ==> (#[trigger] pr.msgs@[i]).0@ == p.offsets@[i].0@
                    && pr.msgs@[i].1@ == spec_poll_points(
                    spec_log_opt(pre, p.offsets@[i].0@),
                    p.offsets@[i].1,
                )
        },
        _ => false,
    }
}

/// How a commit transforms the state and what is answered: an entry is
/// committed afterwards exactly when it was before or some requested
/// (key, offset) pair covers it; nothing else about any log changes.
pub open spec fn commit_step(
    pre: GlobalState,
    post: GlobalState,
    src: Seq<char>,
    c: CommitOffsetsRequest,
    r: NodeMessage<ResponseType>,
) -> bool {
    &&& post.node_id == pre.node_id
    &&& forall|k: Seq<char>| post.has_log(k) == pre.has_log(k)
    &&& forall|k: Seq<char>|
        pre.has_log(k) ==> (#[trigger] post.log_of(k)).len() == pre.log_of(k).len()
    &&& forall|k: Seq<char>, j: int|
        pre.has_log(k) && 0 <= j < pre.log_of(k).len() ==> {
            let e0 = pre.log_of(k)[j];
            let e1 = #[trigger] post.log_of(k)[j];
            &&& e1.offset == e0.offset
            &&& e1.data == e0.data
            &&& e1.commited == (e0.commited || exists|x: int|
                0 <= x < c.offsets@.len() && (#[trigger] c.offsets@[x]).0@ == k && e0.offset
                    <= c.offsets@[x].1)
        }
    &&& r.src@ == pre.node_id@
    &&& r.dest@ == src
    &&& r.body == ResponseType::CommitOffsetsResponse(
        SimpleMessage { in_reply_to: c.msg_id, msg_id: None },
    )
}

/// The committed-offset listing for the first `n` requested keys: one pair
/// per key that has a log, in request order.
pub open spec fn spec_list_offsets(
    pre: GlobalState,
    keys: Seq<Seq<char>>,
    n: int,
) -> Seq<(Seq<char>, u64)>
    decreases n,
{
    if n <= 0 {
        Seq::empty()
    } else {
        let rest = spec_list_offsets(pre, keys, n - 1);
        let k = keys[n - 1];
        if pre.has_log(k) {
            rest.push((k, spec_last_committed(pre.log_of(k))))
        } else {
            rest
        }
    }
}

/// The view of a key/offset pair list.
pub open spec fn pairs_view(v: Seq<(String, u64)>) -> Seq<(Seq<char>, u64)> {
    Seq::new(v.len(), |i: int| (v[i].0@, v[i].1))
}

/// How a committed-offset listing is answered: the state does not change,
/// and the reply carries, for each requested key that has a log, the last
/// offset of its committed prefix — zero when nothing is committed.
pub open spec fn list_step(
    pre: GlobalState,
    post: GlobalState,
    src: Seq<char>,
    l: ListCommitedOffsetsRequest,
    r: NodeMessage<ResponseType>,
) -> bool {
    &&& post == pre
    &&& r.src@ == pre.node_id@
    &&& r.dest@ == src
    &&& match r.body {
        ResponseType::ListCommitedOffsetsResponse(resp) => {
            &&& resp.in_reply_to == l.msg_id
            &&& resp.msg_id is None
            &&& pairs_view(resp.offsets@) == spec_list_offsets(
                pre,
                l.keys.deep_view(),
                l.keys@.len() as int,
            )
        },
        _ => false,
    }
}

/// How one inbound log request transforms the state and what is answered,
/// by kind.
pub open spec fn kafka_step(
    pre: GlobalState,
    post: GlobalState,
    msg: NodeMessage<RequestType>,
    r: NodeMessage<ResponseType>,
) -> bool {
    match msg.body {
        RequestType::SendRequest(s) => send_step(pre, post, msg.src@, s, r),
        RequestType::PollRequest(p) => poll_step(pre, post, msg.src@, p, r),
        RequestType::CommitOffsetsRequest(c) => commit_step(pre, post, msg.src@, c, r),
        RequestType::ListCommitedOffsetsRequest(l) => list_step(pre, post, msg.src@, l, r),
    }
}

/// The length of the committed prefix of `es`.
pub open spec fn committed_prefix_len(es: Seq<SparseLogEntry>) -> int
    decreases es.len(),
{
    if es.len() == 0 || !es[0].commited {
        0
    } else {
        1 + committed_prefix_len(es.drop_first())
    }
}

/// What `list_committed_offsets` reports for one key with log `es`: the
/// offset of the last entry of the committed prefix, or zero when nothing
/// is committed.
pub open spec fn spec_last_committed(es: Seq<SparseLogEntry>) -> u64 {
    if committed_prefix_len(es) == 0 {
        0
    } else {
        es[committed_prefix_len(es) - 1].offset
    }
}

/// The committed prefix is the maximal one: everything before it is
/// committed, and the entry right after it — if any — is not.
proof fn lemma_committed_prefix(es: Seq<SparseLogEntry>)
    ensures
        0 <= committed_prefix_len(es) <= es.len(),
        forall|j: int| 0 <= j < committed_prefix_len(es) ==> (#[trigger] es[j]).commited,
        committed_prefix_len(es) < es.len() ==> !es[committed_prefix_len(es)].commited,
    decreases es.len(),
{
    if es.len() > 0 && es[0].commited {
        lemma_committed_prefix(es.drop_first());
        let pl = committed_prefix_len(es);
        assert(pl == 1 + committed_prefix_len(es.drop_first()));
        assert forall|j: int| 0 <= j < pl implies (#[trigger] es[j]).commited by {
            if j > 0 {
                assert(es.drop_first()[j - 1] == es[j]);
            }
        }
        if pl < es.len() {
            assert(es.drop_first()[pl - 1] == es[pl]);
        }
    }
}

/// Marks every entry of `log` at or below offset `off` as committed.
fn commit_log(log: &mut Vec<SparseLogEntry>, off: u64)
    ensures
        final(log)@.len() == old(log)@.len(),
        forall|j: int|
            0 <= j < old(log)@.len() ==> {
                let e0 = old(log)@[j];
                let e1 = (#[trigger] final(log)@[j]);
                &&& e1.offset == e0.offset
                &&& e1.data == e0.data
                &&& e1.commited == (e0.commited || e0.offset <= off)
            },
{
    let n = log.len();
    let mut j: usize = 0;
    #[verifier::loop_isolation(false)]
    while j < n
        invariant
            j <= n,
            n == log@.len(),
            log@.len() == old(log)@.len(),
            forall|x: int|
                0 <= x < old(log)@.len() ==> {
                    let e0 = old(log)@[x];
                    let e1 = (#[trigger] log@[x]);
                    &&& e1.offset == e0.offset
                    &&& e1.data == e0.data
                    &&& e1.commited == (e0.commited || (x < j && e0.offset <= off))
                },
        decreases n - j,
    {
        let e = &mut log[j];
        if e.offset <= off {
            e.commited = true;
        }
        j = j + 1;
    }
}

impl GlobalState {
    /// Handles one inbound log request and returns the reply to transmit.
    #[verifier::rlimit(60)]
    pub fn handle_message(&mut self, msg: NodeMessage<RequestType>) -> (r: NodeMessage<
        ResponseType,
    >)
        requires
            old(self).wf(),
        ensures
            final(self).wf(),
            kafka_step(*old(self), *final(self), msg, r),
    {
        match msg.body {
            RequestType::SendRequest(send) => self.handle_send(&msg.src, send),
            RequestType::PollRequest(poll) => self.handle_poll(&msg.src, poll),
            RequestType::CommitOffsetsRequest(c) => self.handle_commit_offsets(&msg.src, c),
            RequestType::ListCommitedOffsetsRequest(l) => self.handle_list_committed(&msg.src, l),
        }
    }

    /// Appends one value and reports the offset it landed at.
    fn handle_send(&mut self, src: &String, send: SendRequest) -> (r: NodeMessage<ResponseType>)
        requires
            old(self).wf(),
        ensures
            final(self).wf(),
            send_step(*old(self), *final(self), src@, send, r),
    {
        let ghost k = send.key@;
        let found = self.find_log(&send.key);
        let new_offset: u64 = match found {
            Some(li) => {
                let len = self.log_entries[li].1.len();
                let lv = &mut self.log_entries[li];
                lv.1.push(SparseLogEntry { offset: len as u64, data: send.msg, commited: false });
                proof {
                    let a = li as int;
                    assert(self.log_entries@[a].1@ == old(self).log_entries@[a].1@.push(
                        SparseLogEntry { offset: len as u64, data: send.msg, commited: false },
                    ));
                    assert(old(self).has_log(k));
                    lemma_log_of_at(*old(self), a, k);
                    lemma_log_of_at(*self, a, k);
                    assert forall|k2: Seq<char>| k2 != k implies #[trigger] self.has_log(k2)
                        == old(self).has_log(k2) by {
                        if old(self).has_log(k2) {
                            let b = choose|b: int|
                                0 <= b < old(self).log_entries@.len() && (#[trigger] old(
                                    self,
                                ).log_entries@[b].0@) == k2;
                            assert(self.log_entries@[b].0@ == k2);
                        }
                        if self.has_log(k2) {
                            let b = choose|b: int|
                                0 <= b < self.log_entries@.len() && (#[trigger] self.log_entries@[b].0@)
                                    == k2;
                            assert(old(self).log_entries@[b].0@ == k2);
                        }
                    }
                    assert forall|k2: Seq<char>|
                        k2 != k && old(self).has_log(k2) implies #[trigger] self.log_of(k2) == old(
                        self,
                    ).log_of(k2) by {
                        let b = choose|b: int|
                            0 <= b < old(self).log_entries@.len() && (#[trigger] old(
                                self,
                            ).log_entries@[b].0@) == k2;
                        assert(b != a);
                        lemma_log_of_at(*old(self), b, k2);
                        assert(self.log_entries@[b].0@ == k2);
                        lemma_log_of_at(*self, b, k2);
                    }
                }
                len as u64
            },
            None => {
                let entry = SparseLogEntry { offset: 0, data: send.msg, commited: false };
                let mut log: Vec<SparseLogEntry> = Vec::new();
                log.push(entry);
                self.log_entries.push((send.key.clone(), log));
                proof {
                    let a = self.log_entries@.len() - 1;
                    assert(self.log_entries@[a].0@ == k);
                    lemma_log_of_at(*self, a, k);
                    assert(self.log_of(k) =~= Seq::<SparseLogEntry>::empty().push(
                        SparseLogEntry { offset: 0, data: send.msg, commited: false },
                    ));
                    assert forall|k2: Seq<char>| k2 != k implies #[trigger] self.has_log(k2)
                        == old(self).has_log(k2) by {
                        if old(self).has_log(k2) {
                            let b = choose|b: int|
                                0 <= b < old(self).log_entries@.len() && (#[trigger] old(
                                    self,
                                ).log_entries@[b].0@) == k2;
                            assert(self.log_entries@[b].0@ == k2);
                        }
                        if self.has_log(k2) {
                            let b = choose|b: int|
                                0 <= b < self.log_entries@.len() && (#[trigger] self.log_entries@[b].0@)
                                    == k2;
                            assert(b < a);
                            assert(old(self).log_entries@[b].0@ == k2);
                        }
                    }
                    assert forall|k2: Seq<char>|
                        k2 != k && old(self).has_log(k2) implies #[trigger] self.log_of(k2) == old(
                        self,
                    ).log_of(k2) by {
                        let b = choose|b: int|
                            0 <= b < old(self).log_entries@.len() && (#[trigger] old(
                                self,
                            ).log_entries@[b].0@) == k2;
                        lemma_log_of_at(*old(self), b, k2);
                        assert(self.log_entries@[b].0@ == k2);
                        lemma_log_of_at(*self, b, k2);
                    }
                }
                0
            },
        };
        NodeMessage {
            src: self.node_id.clone(),
            dest: src.clone(),
            body: ResponseType::SendResponse(
                SendResponse { offset: new_offset, in_reply_to: send.msg_id, msg_id: None },
            ),
        }
    }

    /// Answers a poll with the requested windows; the state is untouched.
    fn handle_poll(&mut self, src: &String, poll: PollRequest) -> (r: NodeMessage<ResponseType>)
        requires
            old(self).wf(),
        ensures
            final(self).wf(),
            poll_step(*old(self), *final(self), src@, poll, r),
    {
        let mut msgs: Vec<(String, Vec<(u64, u64)>)> = Vec::new();
        let n = poll.offsets.len();
        let mut i: usize = 0;
        #[verifier::loop_isolation(false)]
        while i < n
            invariant
                i <= n,
                n == poll.offsets@.len(),
                *self == *old(self),
                msgs@.len() == i,
                forall|x: int|
                    0 <= x < i ==> (#[trigger] msgs@[x]).0@ == poll.offsets@[x].0@ && msgs@[x].1@
                        == spec_poll_points(
                        spec_log_opt(*old(self), poll.offsets@[x].0@),
                        poll.offsets@[x].1,
                    ),
            decreases n - i,
        {
            let key = &poll.offsets[i].0;
            let off = poll.offsets[i].1;
            let mut points: Vec<(u64, u64)> = Vec::new();
            let found = self.find_log(key);
            match found {
                Some(li) => {
                    proof {
                        lemma_log_of_at(*self, li as int, key@);
                    }
                    let es = &self.log_entries[li].1;
                    let len = es.len();
                    let start: usize = if off > len as u64 {
                        len
                    } else {
                        off as usize
                    };
                    let end: usize = if len - start > 50 {
                        start + 50
                    } else {
                        len
                    };
                    let mut j: usize = start;
                    #[verifier::loop_isolation(false)]
                    while j < end
                        invariant
                            start <= j <= end <= len,
                            len == es@.len(),
                            points@ =~= spec_poll_points(spec_log_opt(*self, key@), off).take(
                                j - start,
                            ),
                        decreases end - j,
                    {
                        points.push((es[j].offset, es[j].data));
                        proof {
                            assert(points@ =~= spec_poll_points(
                                spec_log_opt(*self, key@),
                                off,
                            ).take(j + 1 - start));
                        }
                        j = j + 1;
                    }
                    proof {
                        assert(points@ =~= spec_poll_points(spec_log_opt(*self, key@), off));
                    }
                },
                None => {
                    proof {
                        assert(points@ =~= spec_poll_points(spec_log_opt(*self, key@), off));
                    }
                },
            }
            msgs.push((key.clone(), points));
            i = i + 1;
        }
        NodeMessage {
            src: self.node_id.clone(),
            dest: src.clone(),
            body: ResponseType::PollResponse(
                PollResponse { msgs, in_reply_to: poll.msg_id, msg_id: None },
            ),
        }
    }

    /// Applies the requested commit marks; entries only ever gain the mark.
    #[verifier::rlimit(60)]
    fn handle_commit_offsets(&mut self, src: &String, c: CommitOffsetsRequest) -> (r: NodeMessage<
        ResponseType,
    >)
        requires
            old(self).wf(),
        ensures
            final(self).wf(),
            commit_step(*old(self), *final(self), src@, c, r),
    {
        let n = c.offsets.len();
        let mut i: usize = 0;
        #[verifier::loop_isolation(false)]
        while i < n
            invariant
                i <= n,
                n == c.offsets@.len(),
                self.wf(),
                self.node_id == old(self).node_id,
                self.log_entries@.len() == old(self).log_entries@.len(),
                forall|a: int|
                    0 <= a < self.log_entries@.len() ==> (#[trigger] self.log_entries@[a].0)
                        == old(self).log_entries@[a].0 && self.log_entries@[a].1@.len() == old(
                        self,
                    ).log_entries@[a].1@.len(),
                forall|a: int, j: int|
                    0 <= a < self.log_entries@.len() && 0 <= j < self.log_entries@[a].1@.len()
                        ==> {
                        let e0 = old(self).log_entries@[a].1@[j];
                        let e1 = (#[trigger] self.log_entries@[a].1@[j]);
                        &&& e1.offset == e0.offset
                        &&& e1.data == e0.data
                        &&& e1.commited == (e0.commited || exists|x: int|
                            0 <= x < i && (#[trigger] c.offsets@[x]).0@
                                == self.log_entries@[a].0@ && e0.offset <= c.offsets@[x].1)
                    },
            decreases n - i,
        {
            let key = &c.offsets[i].0;
            let off = c.offsets[i].1;
            let found = self.find_log(key);
            match found {
                Some(li) => {
                    let lv = &mut self.log_entries[li];
                    commit_log(&mut lv.1, off);
                },
                None => (),
            }
            proof {
                assert forall|a: int, j: int|
                    0 <= a < self.log_entries@.len() && 0 <= j < self.log_entries@[a].1@.len() implies {
                    let e0 = old(self).log_entries@[a].1@[j];
                    let e1 = (#[trigger] self.log_entries@[a].1@[j]);
                    &&& e1.offset == e0.offset
                    &&& e1.data == e0.data
                    &&& e1.commited == (e0.commited || exists|x: int|
                        0 <= x < i + 1 && (#[trigger] c.offsets@[x]).0@
                            == self.log_entries@[a].0@ && e0.offset <= c.offsets@[x].1)
                } by {
                    let e0 = old(self).log_entries@[a].1@[j];
                    let e1 = self.log_entries@[a].1@[j];
                    if e1.commited {
                        if !e0.commited {
                            if exists|x: int|
                                0 <= x < i && (#[trigger] c.offsets@[x]).0@
                                    == self.log_entries@[a].0@ && e0.offset <= c.offsets@[x].1 {
                                let x = choose|x: int|
                                    0 <= x < i && (#[trigger] c.offsets@[x]).0@
                                        == self.log_entries@[a].0@ && e0.offset
                                        <= c.offsets@[x].1;
                                assert(0 <= x < i + 1 && c.offsets@[x].0@
                                    == self.log_entries@[a].0@ && e0.offset <= c.offsets@[x].1);
                            } else {
                                assert(c.offsets@[i as int].0@ == self.log_entries@[a].0@
                                    && e0.offset <= c.offsets@[i as int].1);
                            }
                        }
                    } else {
                        if exists|x: int|
                            0 <= x < i + 1 && (#[trigger] c.offsets@[x]).0@
                                == self.log_entries@[a].0@ && e0.offset <= c.offsets@[x].1 {
                            let x = choose|x: int|
                                0 <= x < i + 1 && (#[trigger] c.offsets@[x]).0@
                                    == self.log_entries@[a].0@ && e0.offset <= c.offsets@[x].1;
                            assert(false);
                        }
                    }
                }
            }
            i = i + 1;
        }
        proof {
            assert forall|k: Seq<char>| #[trigger] self.has_log(k) == old(self).has_log(k) by {
                if old(self).has_log(k) {
                    let b = choose|b: int|
                        0 <= b < old(self).log_entries@.len() && (#[trigger] old(
                            self,
                        ).log_entries@[b].0@) == k;
                    assert(self.log_entries@[b].0@ == k);
                }
                if self.has_log(k) {
                    let b = choose|b: int|
                        0 <= b < self.log_entries@.len() && (#[trigger] self.log_entries@[b].0@)
                            == k;
                    assert(old(self).log_entries@[b].0@ == k);
                }
            }
            assert forall|k: Seq<char>, j: int|
                old(self).has_log(k) && 0 <= j < old(self).log_of(k).len() implies {
                let e0 = old(self).log_of(k)[j];
                let e1 = (#[trigger] self.log_of(k)[j]);
                &&& e1.offset == e0.offset
                &&& e1.data == e0.data
                &&& e1.commited == (e0.commited || exists|x: int|
                    0 <= x < c.offsets@.len() && (#[trigger] c.offsets@[x]).0@ == k && e0.offset
                        <= c.offsets@[x].1)
            } by {
                let b = choose|b: int|
                    0 <= b < old(self).log_entries@.len() && (#[trigger] old(
                        self,
                    ).log_entries@[b].0@) == k;
                lemma_log_of_at(*old(self), b, k);
                assert(self.log_entries@[b].0@ == k);
                lemma_log_of_at(*self, b, k);
            }
            assert forall|k: Seq<char>|
                old(self).has_log(k) implies (#[trigger] self.log_of(k)).len() == old(
                self,
            ).log_of(k).len() by {
                let b = choose|b: int|
                    0 <= b < old(self).log_entries@.len() && (#[trigger] old(
                        self,
                    ).log_entries@[b].0@) == k;
                lemma_log_of_at(*old(self), b, k);
                assert(self.log_entries@[b].0@ == k);
                lemma_log_of_at(*self, b, k);
            }
        }
        NodeMessage {
            src: self.node_id.clone(),
            dest: src.clone(),
            body: ResponseType::CommitOffsetsResponse(
                SimpleMessage { in_reply_to: c.msg_id, msg_id: None },
            ),
        }
    }

    /// Answers a committed-offset listing; the state is untouched.
    fn handle_list_committed(&mut self, src: &String, l: ListCommitedOffsetsRequest) -> (r:
        NodeMessage<ResponseType>)
        requires
            old(self).wf(),
        ensures
            final(self).wf(),
            list_step(*old(self), *final(self), src@, l, r),
    {
        let mut offsets: Vec<(String, u64)> = Vec::new();
        let n = l.keys.len();
        let mut i: usize = 0;
        #[verifier::loop_isolation(false)]
        while i < n
            invariant
                i <= n,
                n == l.keys@.len(),
                *self == *old(self),
                pairs_view(offsets@) =~= spec_list_offsets(*old(self), l.keys.deep_view(), i as int),
            decreases n - i,
        {
            let key = &l.keys[i];
            let found = self.find_log(key);
            match found {
                Some(li) => {
                    proof {
                        lemma_log_of_at(*self, li as int, key@);
                    }
                    let es = &self.log_entries[li].1;
                    let len = es.len();
                    let ghost esv = es@;
                    proof {
                        lemma_committed_prefix(esv);
                    }
                    let mut j: usize = 0;
                    #[verifier::loop_isolation(false)]
                    while j < len && es[j].commited
                        invariant
                            j <= len,
                            len == esv.len(),
                            es@ == esv,
                            forall|x: int| 0 <= x < j ==> (#[trigger] esv[x]).commited,
                            j <= committed_prefix_len(esv),
                        decreases len - j,
                    {
                        proof {
                            if j + 1 > committed_prefix_len(esv) {
                                assert(committed_prefix_len(esv) < esv.len());
                                assert(!esv[committed_prefix_len(esv)].commited);
                                assert(esv[j as int].commited);
                                assert(false);
                            }
                        }
                        j = j + 1;
                    }
                    proof {
                        assert(j == committed_prefix_len(esv)) by {
                            if j < committed_prefix_len(esv) {
                                assert(esv[j as int].commited);
                                assert(false);
                            }
                        }
                    }
                    let last: u64 = if j == 0 {
                        0
                    } else {
                        es[j - 1].offset
                    };
                    proof {
                        assert(last == spec_last_committed(esv));
                    }
                    offsets.push((key.clone(), last));
                    proof {
                        assert(pairs_view(offsets@) =~= spec_list_offsets(
                            *old(self),
                            l.keys.deep_view(),
                            i + 1,
                        ));
                    }
                },
                None => {
                    proof {
                        assert(pairs_view(offsets@) =~= spec_list_offsets(
                            *old(self),
                            l.keys.deep_view(),
                            i + 1,
                        ));
                    }
                },
            }
            i = i + 1;
        }
        NodeMessage {
            src: self.node_id.clone(),
            dest: src.clone(),
            body: ResponseType::ListCommitedOffsetsResponse(
                ListCommitedOffsetsResponse { offsets, in_reply_to: l.msg_id, msg_id: None },
            ),
        }
    }
}

/// When entry `a` of the table carries `k`, the log of `k` is that entry's.
proof fn lemma_log_of_at(s: GlobalState, a: int, k: Seq<char>)
    requires
        s.wf(),
        0 <= a < s.log_entries@.len(),
        s.log_entries@[a].0@ == k,
    ensures
        s.has_log(k),
        s.log_of(k) == s.log_entries@[a].1@,
{
    assert(s.has_log(k));
    let b = choose|b: int|
        0 <= b < s.log_entries@.len() && (#[trigger] s.log_entries@[b].0@) == k;
    assert(b == a);
}

} // verus!
