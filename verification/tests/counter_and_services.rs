use distributed_systems::echo::echo_reply;
use distributed_systems::echo::EchoRequest;
use distributed_systems::g_counter::AddBody;
use distributed_systems::g_counter::CounterResponse;
use distributed_systems::g_counter::MaelstromHandler;
use distributed_systems::g_counter::ReadBody;
use distributed_systems::generate::generate_reply;
use distributed_systems::generate::GenerateRequest;
use distributed_systems::init_reply;
use distributed_systems::seq_kv::SeqKVErrorResponse;
use distributed_systems::seq_kv::SeqKVNoDataResponse;
use distributed_systems::seq_kv::SeqKVReadResponse;
use distributed_systems::seq_kv::SeqKVRequest;
use distributed_systems::InitRequest;
use distributed_systems::NodeMessage;

#[test]
fn counter_peers_exclude_self() {
    let h = MaelstromHandler::new("n1".to_string());
    assert_eq!(h.other_nodes, vec!["n0", "n2"]);
    let h0 = MaelstromHandler::new("n0".to_string());
    assert_eq!(h0.other_nodes, vec!["n1", "n2"]);
}

#[test]
fn add_acknowledges_and_starts_a_swap() {
    let mut h = MaelstromHandler::new("n0".to_string());
    let out = h.handle_add(&"c1".to_string(), AddBody { in_reply_to: None, msg_id: Some(5), delta: 3 });
    assert_eq!(out.len(), 2);
    assert_eq!(out[0].dest, "c1");
    match &out[0].body {
        CounterResponse::AddOk(a) => assert_eq!(a.in_reply_to, Some(5)),
        _ => panic!("expected add_ok first"),
    }
    assert_eq!(out[1].dest, "seq-kv");
    match &out[1].body {
        CounterResponse::SeqKV(SeqKVRequest::CompareAndSwap(c)) => {
            assert_eq!(c.key, "sum");
            assert_eq!(c.from, None);
            assert_eq!(c.to, Some(3));
            assert!(c.create_if_not_exists);
        },
        _ => panic!("expected a compare-and-swap second"),
    }
    assert_eq!(h.pending_add.value, 3);
    assert!(h.pending_add.msg_id.is_some());
}

#[test]
fn add_of_zero_only_acknowledges() {
    let mut h = MaelstromHandler::new("n0".to_string());
    let out = h.handle_add(&"c1".to_string(), AddBody { in_reply_to: None, msg_id: None, delta: 0 });
    assert_eq!(out.len(), 1);
    assert_eq!(h.pending_add.value, 0);
}

#[test]
fn cas_ok_folds_the_delta_and_syncs_peers() {
    let mut h = MaelstromHandler::new("n0".to_string());
    h.handle_add(&"c1".to_string(), AddBody { in_reply_to: None, msg_id: None, delta: 4 });
    let pending_id = h.pending_add.msg_id;
    let out = h.handle_cas_ok(SeqKVNoDataResponse { in_reply_to: pending_id, msg_id: None });
    assert_eq!(h.count, 4);
    assert_eq!(h.pending_add.value, 0);
    assert_eq!(h.pending_add.msg_id, None);
    let dests: Vec<String> = out.iter().map(|m| m.dest.clone()).collect();
    assert_eq!(dests, vec!["n1", "n2"]);
    for m in &out {
        match &m.body {
            CounterResponse::ReadOk(r) => assert_eq!(r.value, 4),
            _ => panic!("expected read_ok syncs"),
        }
    }
}

#[test]
fn precondition_failure_triggers_a_reread() {
    let mut h = MaelstromHandler::new("n0".to_string());
    h.handle_add(&"c1".to_string(), AddBody { in_reply_to: None, msg_id: None, delta: 4 });
    let pending_id = h.pending_add.msg_id;
    let out = h.handle_seq_kv_error(SeqKVErrorResponse {
        in_reply_to: pending_id,
        msg_id: None,
        code: 22,
        text: None,
    });
    assert_eq!(h.pending_add.msg_id, None);
    assert_eq!(out.len(), 1);
    assert_eq!(out[0].dest, "seq-kv");
    assert!(matches!(out[0].body, CounterResponse::SeqKV(SeqKVRequest::Read(_))));

    // An unrelated error is dropped.
    let out = h.handle_seq_kv_error(SeqKVErrorResponse {
        in_reply_to: Some(123456),
        msg_id: None,
        code: 13,
        text: None,
    });
    assert!(out.is_empty());
}

#[test]
fn shared_reads_never_lower_the_count() {
    let mut h = MaelstromHandler::new("n0".to_string());
    h.handle_read_ok(SeqKVReadResponse { in_reply_to: None, msg_id: None, value: 9 });
    assert_eq!(h.count, 9);
    h.handle_read_ok(SeqKVReadResponse { in_reply_to: None, msg_id: None, value: 2 });
    assert_eq!(h.count, 9);
}

#[test]
fn counter_read_is_deferred_until_the_timer() {
    let mut h = MaelstromHandler::new("n0".to_string());
    let out = h.handle_read(&"c3".to_string(), ReadBody { in_reply_to: None, msg_id: Some(6) });
    assert!(out.is_empty());
    assert_eq!(h.pending_read_ok.len(), 1);
    // READ_OK_WAIT_MS is 400; spin the free cycle until the reply comes out.
    let reply = loop {
        let out = h.handle_free_cycle();
        if !out.is_empty() {
            break out;
        }
    };
    assert_eq!(reply.len(), 1);
    assert_eq!(reply[0].dest, "c3");
    match &reply[0].body {
        CounterResponse::ReadOk(r) => {
            assert_eq!(r.in_reply_to, Some(6));
            assert_eq!(r.value, 0);
        },
        _ => panic!("expected the deferred read_ok"),
    }
    assert!(h.pending_read_ok.is_empty());
}

#[test]
fn echo_round_trip() {
    let msg = NodeMessage {
        src: "c1".to_string(),
        dest: "n0".to_string(),
        body: EchoRequest { msg_id: 3, echo: "hello there".to_string() },
    };
    let r = echo_reply(&"n0".to_string(), msg);
    assert_eq!(r.src, "n0");
    assert_eq!(r.dest, "c1");
    assert_eq!(r.body.in_reply_to, 3);
    assert_eq!(r.body.echo, "hello there");
}

#[test]
fn generate_round_trip() {
    let msg = NodeMessage {
        src: "c1".to_string(),
        dest: "n1".to_string(),
        body: GenerateRequest { msg_id: 2 },
    };
    let r = generate_reply(&"n1".to_string(), 7, msg);
    assert_eq!(r.src, "n1");
    assert_eq!(r.dest, "c1");
    assert_eq!(r.body.in_reply_to, 2);
    assert_eq!(r.body.id, (159u64 << 32) + 7);
}

#[test]
fn init_handshake_reply() {
    let msg = NodeMessage {
        src: "c0".to_string(),
        dest: "".to_string(),
        body: InitRequest {
            msg_id: 1,
            node_id: "n3".to_string(),
            node_ids: vec!["n0".to_string(), "n3".to_string()],
        },
    };
    let r = init_reply(&msg);
    assert_eq!(r.src, "n3");
    assert_eq!(r.dest, "c0");
    assert_eq!(r.body.in_reply_to, 1);
}
