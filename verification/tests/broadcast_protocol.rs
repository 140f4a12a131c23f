use distributed_systems::broadcast::BroadcastBody;
use distributed_systems::broadcast::BroadcastResponse;
use distributed_systems::broadcast::GlobalState;
use distributed_systems::broadcast::MessageBus;
use distributed_systems::broadcast::ReadBody;
use distributed_systems::broadcast::ReadOkBody;
use distributed_systems::broadcast::RequestType;
use distributed_systems::broadcast::ResponseBody;
use distributed_systems::broadcast::TopologyBody;
use distributed_systems::NodeMessage;

const RETRY_MS: u64 = 30;
const READ_MS: u64 = 40;

fn node(id: &str, neighborhood: Vec<&str>) -> GlobalState {
    let mut s = GlobalState::new(id.to_string(), 25, RETRY_MS, READ_MS);
    s.neighborhood = neighborhood.into_iter().map(|v| v.to_string()).collect();
    let links = s.neighborhood.clone();
    s.message_bus.update_neighborhood(&links);
    s
}

fn broadcast(src: &str, dest: &str, v: u64, msg_id: Option<u64>) -> NodeMessage<RequestType> {
    NodeMessage {
        src: src.to_string(),
        dest: dest.to_string(),
        body: RequestType::Broadcast(BroadcastBody { message: v, in_reply_to: None, msg_id }),
    }
}

fn sent_broadcasts(out: &[NodeMessage<ResponseBody>]) -> Vec<(String, u64)> {
    let mut r = Vec::new();
    for m in out {
        if let ResponseBody::Broadcast(b) = &m.body {
            r.push((m.dest.clone(), b.message));
        }
    }
    r
}

fn sent_broadcast_oks(out: &[NodeMessage<ResponseBody>]) -> Vec<(String, Option<u64>, Option<u64>)> {
    let mut r = Vec::new();
    for m in out {
        if let ResponseBody::BroadcastOk(b) = &m.body {
            r.push((m.dest.clone(), b.in_reply_to, b.msg_id));
        }
    }
    r
}

/// A three-node line of hub nodes: the value injected at one end reaches the
/// other end, each hop acknowledges, and no hop echoes the value back.
#[test]
fn line_topology_dissemination() {
    let mut n0 = node("n0", vec!["n5"]);
    let mut n5 = node("n5", vec!["n0", "n10"]);
    let mut n10 = node("n10", vec!["n5"]);

    // A client injects 42 at one end of the line.
    let out0 = n0.handle_message(broadcast("c1", "n0", 42, Some(9)));
    assert_eq!(sent_broadcast_oks(&out0), vec![("c1".to_string(), Some(9), Some(42))]);
    assert_eq!(sent_broadcasts(&out0), vec![("n5".to_string(), 42)]);

    // The middle node acknowledges and forwards onwards, never backwards.
    let out5 = n5.handle_message(broadcast("n0", "n5", 42, None));
    assert_eq!(sent_broadcast_oks(&out5), vec![("n0".to_string(), None, Some(42))]);
    assert_eq!(sent_broadcasts(&out5), vec![("n10".to_string(), 42)]);

    // The far end acknowledges and has nobody left to forward to.
    let out10 = n10.handle_message(broadcast("n5", "n10", 42, None));
    assert_eq!(sent_broadcast_oks(&out10), vec![("n5".to_string(), None, Some(42))]);
    assert_eq!(sent_broadcasts(&out10), vec![]);

    // A peer read at the far end now returns the value immediately.
    let read = NodeMessage {
        src: "n5".to_string(),
        dest: "n10".to_string(),
        body: RequestType::Read(ReadBody { in_reply_to: None, msg_id: Some(3) }),
    };
    let out = n10.handle_message(read);
    assert_eq!(out.len(), 1);
    match &out[0].body {
        ResponseBody::ReadOk(r) => {
            assert_eq!(out[0].dest, "n5");
            assert_eq!(r.messages, vec![42]);
            assert_eq!(r.in_reply_to, Some(3));
        },
        _ => panic!("expected an immediate read_ok"),
    }
}

/// Delivering the same broadcast twice changes nothing the second time and
/// fans out only once.
#[test]
fn duplicate_broadcast_is_idempotent() {
    let mut n0 = node("n0", vec!["n5"]);
    let first = n0.handle_message(broadcast("c1", "n0", 7, None));
    assert_eq!(sent_broadcasts(&first), vec![("n5".to_string(), 7)]);

    let second = n0.handle_message(broadcast("c1", "n0", 7, None));
    assert_eq!(sent_broadcasts(&second), vec![]);
    assert_eq!(sent_broadcast_oks(&second).len(), 1);
    assert_eq!(n0.dedup.values, vec![7]);
}

/// A broadcast is never sent back to the peer it just arrived from.
#[test]
fn no_echo_to_sender() {
    let mut n5 = node("n5", vec!["n0", "n10"]);
    let out = n5.handle_message(broadcast("n10", "n5", 3, None));
    for (dest, _) in sent_broadcasts(&out) {
        assert_ne!(dest, "n10");
    }
    assert_eq!(sent_broadcasts(&out), vec![("n0".to_string(), 3)]);
}

/// Offering the same (peer, value) pair twice before an acknowledgment
/// returns the message only the first time.
#[test]
fn offer_twice_returns_some_once() {
    let mut bus = MessageBus::new(RETRY_MS);
    bus.update_neighborhood(&vec!["n5".to_string()]);
    let msg = NodeMessage {
        src: "n0".to_string(),
        dest: "n5".to_string(),
        body: BroadcastResponse { message: 1, in_reply_to: None, msg_id: None },
    };
    let msg2 = NodeMessage {
        src: "n0".to_string(),
        dest: "n5".to_string(),
        body: BroadcastResponse { message: 1, in_reply_to: None, msg_id: None },
    };
    let first = bus.add_message(&"n5".to_string(), 1, msg);
    assert!(first.is_some());
    let second = bus.add_message(&"n5".to_string(), 1, msg2);
    assert!(second.is_none());
}

/// After an acknowledgment the pair can be offered again.
#[test]
fn acknowledge_clears_the_slot() {
    let mut bus = MessageBus::new(RETRY_MS);
    bus.update_neighborhood(&vec!["n5".to_string()]);
    let mk = || NodeMessage {
        src: "n0".to_string(),
        dest: "n5".to_string(),
        body: BroadcastResponse { message: 1, in_reply_to: None, msg_id: None },
    };
    assert!(bus.add_message(&"n5".to_string(), 1, mk()).is_some());
    bus.delete_message(&"n5".to_string(), 1);
    assert!(bus.add_message(&"n5".to_string(), 1, mk()).is_some());
}

/// When the acknowledgment never arrives, the retry tick resends the
/// identical message that was offered.
#[test]
fn retry_resends_identical_message() {
    let mut n0 = node("n0", vec!["n5"]);
    let out = n0.handle_message(broadcast("c1", "n0", 42, None));
    let sent = sent_broadcasts(&out);
    assert_eq!(sent, vec![("n5".to_string(), 42)]);

    let retried = loop {
        if let Some(m) = n0.message_bus.pick_message() {
            break m;
        }
    };
    assert_eq!(retried.src, "n0");
    assert_eq!(retried.dest, "n5");
    assert_eq!(retried.body.message, 42);
    assert_eq!(retried.body.in_reply_to, None);
    assert_eq!(retried.body.msg_id, None);

    // Once acknowledged, nothing is ever retried again for that pair.
    let ack = NodeMessage {
        src: "n5".to_string(),
        dest: "n0".to_string(),
        body: RequestType::BroadcastOk(ReadBody { in_reply_to: None, msg_id: Some(42) }),
    };
    let out = n0.handle_message(ack);
    assert!(out.is_empty());
    let t = distributed_systems::clock::Timer::from_millis(2 * RETRY_MS);
    loop {
        assert!(n0.message_bus.pick_message().is_none());
        if t.is_done() {
            break;
        }
    }
}

/// A client read of a hub with nothing known is deferred until the settle
/// timer elapses, and the reply reflects values that arrived during the
/// delay window.
#[test]
fn client_read_is_deferred_and_sees_late_values() {
    let mut n0 = node("n0", vec!["n5"]);
    let read = NodeMessage {
        src: "c9".to_string(),
        dest: "n0".to_string(),
        body: RequestType::Read(ReadBody { in_reply_to: None, msg_id: Some(11) }),
    };
    let out = n0.handle_message(read);
    // No immediate reply; only the anti-entropy nudge to the peer hub.
    assert_eq!(out.len(), 1);
    match &out[0].body {
        ResponseBody::ReadRequest(_) => assert_eq!(out[0].dest, "n5"),
        _ => panic!("expected a read request nudge"),
    }

    // A value lands while the reply waits.
    n0.handle_message(broadcast("n5", "n0", 42, None));

    let reply = loop {
        if let Some(m) = n0.emit_due_read() {
            break m;
        }
    };
    assert_eq!(reply.dest, "c9");
    assert_eq!(reply.body.in_reply_to, Some(11));
    assert_eq!(reply.body.messages, vec![42]);
}

/// A read from a cluster peer is answered immediately, with no delay and no
/// nudges.
#[test]
fn peer_read_is_immediate() {
    let mut n0 = node("n0", vec!["n5"]);
    n0.handle_message(broadcast("c1", "n0", 5, None));
    let read = NodeMessage {
        src: "n5".to_string(),
        dest: "n0".to_string(),
        body: RequestType::Read(ReadBody { in_reply_to: None, msg_id: Some(2) }),
    };
    let out = n0.handle_message(read);
    assert_eq!(out.len(), 1);
    match &out[0].body {
        ResponseBody::ReadOk(r) => {
            assert_eq!(out[0].dest, "n5");
            assert_eq!(r.messages, vec![5]);
        },
        _ => panic!("expected an immediate read_ok"),
    }
    assert!(n0.customer_read_bus.messages.is_empty());
}

/// A read_ok brings unknown values in, fans each out once, and answers
/// later reads with them.
#[test]
fn read_ok_repairs_missing_values() {
    let mut n5 = node("n5", vec!["n0", "n10"]);
    n5.handle_message(broadcast("n0", "n5", 1, None));
    let sync = NodeMessage {
        src: "n0".to_string(),
        dest: "n5".to_string(),
        body: RequestType::ReadOk(ReadOkBody { messages: vec![1, 2, 3], in_reply_to: None, msg_id: None }),
    };
    let out = n5.handle_message(sync);
    // 1 was known; 2 and 3 are fresh and go to every peer, the sender included.
    assert_eq!(
        sent_broadcasts(&out),
        vec![
            ("n0".to_string(), 2),
            ("n10".to_string(), 2),
            ("n0".to_string(), 3),
            ("n10".to_string(), 3),
        ],
    );
    assert_eq!(n5.dedup.values, vec![1, 2, 3]);
}

/// A topology notification rebuilds the peer links from the node's own
/// identifier, ignoring the supplied adjacency, and acknowledges.
#[test]
fn topology_rebuilds_links() {
    let mut n0 = GlobalState::new("n0".to_string(), 25, RETRY_MS, READ_MS);
    let topo = NodeMessage {
        src: "c0".to_string(),
        dest: "n0".to_string(),
        body: RequestType::Topology(TopologyBody {
            topology: vec![("n0".to_string(), vec!["n13".to_string()])],
            in_reply_to: None,
            msg_id: Some(8),
        }),
    };
    let out = n0.handle_message(topo);
    assert_eq!(n0.neighborhood, vec!["n1", "n2", "n3", "n4", "n5"]);
    assert_eq!(out.len(), 1);
    match &out[0].body {
        ResponseBody::TopologyOk(b) => {
            assert_eq!(out[0].dest, "c0");
            assert_eq!(b.in_reply_to, Some(8));
        },
        _ => panic!("expected topology_ok"),
    }
}

/// A client read of a leaf nudges its hub and the hub's stored adjacency.
#[test]
fn leaf_read_nudges_hub_cluster() {
    let mut n1 = node("n1", vec!["n0"]);
    n1.topology = vec![(
        "n0".to_string(),
        vec!["n1".to_string(), "n2".to_string(), "n3".to_string()],
    )];
    let read = NodeMessage {
        src: "c2".to_string(),
        dest: "n1".to_string(),
        body: RequestType::Read(ReadBody { in_reply_to: None, msg_id: None }),
    };
    let out = n1.handle_message(read);
    let dests: Vec<String> = out.iter().map(|m| m.dest.clone()).collect();
    assert_eq!(dests, vec!["n0", "n2", "n3"]);
    for m in &out {
        assert!(matches!(m.body, ResponseBody::ReadRequest(_)));
    }
}

/// An acknowledgment that does not echo the value is dropped silently.
#[test]
fn malformed_broadcast_ok_is_dropped() {
    let mut n0 = node("n0", vec!["n5"]);
    n0.handle_message(broadcast("c1", "n0", 4, None));
    let ack = NodeMessage {
        src: "n5".to_string(),
        dest: "n0".to_string(),
        body: RequestType::BroadcastOk(ReadBody { in_reply_to: None, msg_id: None }),
    };
    let out = n0.handle_message(ack);
    assert!(out.is_empty());
    // The pair is still in flight and will be retried.
    let retried = loop {
        if let Some(m) = n0.message_bus.pick_message() {
            break m;
        }
    };
    assert_eq!(retried.body.message, 4);
}

/// Only backbone-to-backbone traffic is tracked for retry: a hub fans out
/// to its leaves exactly once, with no retry bookkeeping.
#[test]
fn leaf_fanout_is_untracked() {
    let mut n0 = node("n0", vec!["n1", "n2", "n5"]);
    let out = n0.handle_message(broadcast("c1", "n0", 8, None));
    assert_eq!(
        sent_broadcasts(&out),
        vec![("n1".to_string(), 8), ("n2".to_string(), 8), ("n5".to_string(), 8)],
    );
    // Only the hub-to-hub copy waits for an acknowledgment.
    let retried = loop {
        if let Some(m) = n0.message_bus.pick_message() {
            break m;
        }
    };
    assert_eq!(retried.dest, "n5");
    // Acknowledge it; afterwards nothing is ever retried.
    let ack = NodeMessage {
        src: "n5".to_string(),
        dest: "n0".to_string(),
        body: RequestType::BroadcastOk(ReadBody { in_reply_to: None, msg_id: Some(8) }),
    };
    n0.handle_message(ack);
    let t = distributed_systems::clock::Timer::from_millis(2 * RETRY_MS);
    loop {
        assert!(n0.message_bus.pick_message().is_none());
        if t.is_done() {
            break;
        }
    }
}

/// Registering a new peer set discards every link of the old one.
#[test]
fn register_peers_discards_old_links() {
    let mut bus = MessageBus::new(RETRY_MS);
    bus.update_neighborhood(&vec!["n5".to_string()]);
    let msg = NodeMessage {
        src: "n0".to_string(),
        dest: "n5".to_string(),
        body: BroadcastResponse { message: 1, in_reply_to: None, msg_id: None },
    };
    assert!(bus.add_message(&"n5".to_string(), 1, msg).is_some());
    bus.update_neighborhood(&vec!["n5".to_string(), "n10".to_string()]);
    // The old in-flight entry is gone, so the pair can be offered afresh.
    let msg = NodeMessage {
        src: "n0".to_string(),
        dest: "n5".to_string(),
        body: BroadcastResponse { message: 1, in_reply_to: None, msg_id: None },
    };
    assert!(bus.add_message(&"n5".to_string(), 1, msg).is_some());
}

/// The deduplication store: first observation reports fresh, the snapshot
/// lists values in observation order, and the broadcast mark sticks.
#[test]
fn dedup_store_basics() {
    let mut store = distributed_systems::broadcast::DedupStore::new();
    assert!(store.observe(5));
    assert!(store.observe(3));
    assert!(!store.observe(5));
    assert_eq!(store.snapshot(), vec![5, 3]);
    assert!(!store.already_broadcast(5));
    store.mark_broadcast(5);
    assert!(store.already_broadcast(5));
    store.mark_broadcast(5);
    assert_eq!(store.snapshot(), vec![5, 3]);
}
