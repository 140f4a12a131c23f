use distributed_systems::kafka::CommitOffsetsRequest;
use distributed_systems::kafka::GlobalState;
use distributed_systems::kafka::ListCommitedOffsetsRequest;
use distributed_systems::kafka::PollRequest;
use distributed_systems::kafka::RequestType;
use distributed_systems::kafka::ResponseType;
use distributed_systems::kafka::SendRequest;
use distributed_systems::NodeMessage;

fn send(state: &mut GlobalState, key: &str, msg: u64) -> u64 {
    let req = NodeMessage {
        src: "c1".to_string(),
        dest: "n0".to_string(),
        body: RequestType::SendRequest(SendRequest {
            key: key.to_string(),
            msg,
            in_reply_to: None,
            msg_id: Some(1),
        }),
    };
    let r = state.handle_message(req);
    match r.body {
        ResponseType::SendResponse(s) => {
            assert_eq!(s.in_reply_to, Some(1));
            s.offset
        },
        _ => panic!("expected send_ok"),
    }
}

#[test]
fn offsets_are_contiguous_per_key() {
    let mut state = GlobalState::new("n0".to_string());
    assert_eq!(send(&mut state, "a", 10), 0);
    assert_eq!(send(&mut state, "a", 11), 1);
    assert_eq!(send(&mut state, "b", 20), 0);
    assert_eq!(send(&mut state, "a", 12), 2);
}

#[test]
fn poll_returns_the_window_from_the_offset() {
    let mut state = GlobalState::new("n0".to_string());
    for v in 0..5 {
        send(&mut state, "a", 100 + v);
    }
    let req = NodeMessage {
        src: "c1".to_string(),
        dest: "n0".to_string(),
        body: RequestType::PollRequest(PollRequest {
            offsets: vec![("a".to_string(), 2), ("missing".to_string(), 0)],
            in_reply_to: None,
            msg_id: Some(7),
        }),
    };
    let r = state.handle_message(req);
    match r.body {
        ResponseType::PollResponse(p) => {
            assert_eq!(p.in_reply_to, Some(7));
            assert_eq!(p.msgs.len(), 2);
            assert_eq!(p.msgs[0].0, "a");
            assert_eq!(p.msgs[0].1, vec![(2u64, 102u64), (3u64, 103u64), (4u64, 104u64)]);
            assert_eq!(p.msgs[1].0, "missing");
            assert_eq!(p.msgs[1].1, Vec::<(u64, u64)>::new());
        },
        _ => panic!("expected poll_ok"),
    }
}

#[test]
fn poll_past_the_end_is_empty() {
    let mut state = GlobalState::new("n0".to_string());
    send(&mut state, "a", 1);
    let req = NodeMessage {
        src: "c1".to_string(),
        dest: "n0".to_string(),
        body: RequestType::PollRequest(PollRequest {
            offsets: vec![("a".to_string(), 9)],
            in_reply_to: None,
            msg_id: None,
        }),
    };
    let r = state.handle_message(req);
    match r.body {
        ResponseType::PollResponse(p) => assert_eq!(p.msgs[0].1, Vec::<(u64, u64)>::new()),
        _ => panic!("expected poll_ok"),
    }
}

#[test]
fn commit_and_list_committed() {
    let mut state = GlobalState::new("n0".to_string());
    for v in 0..4 {
        send(&mut state, "a", v);
    }
    send(&mut state, "b", 9);

    let commit = NodeMessage {
        src: "c1".to_string(),
        dest: "n0".to_string(),
        body: RequestType::CommitOffsetsRequest(CommitOffsetsRequest {
            offsets: vec![("a".to_string(), 2)],
            in_reply_to: None,
            msg_id: Some(4),
        }),
    };
    let r = state.handle_message(commit);
    match r.body {
        ResponseType::CommitOffsetsResponse(s) => assert_eq!(s.in_reply_to, Some(4)),
        _ => panic!("expected commit_offsets_ok"),
    }

    let list = NodeMessage {
        src: "c1".to_string(),
        dest: "n0".to_string(),
        body: RequestType::ListCommitedOffsetsRequest(ListCommitedOffsetsRequest {
            keys: vec!["a".to_string(), "b".to_string(), "missing".to_string()],
            in_reply_to: None,
            msg_id: Some(5),
        }),
    };
    let r = state.handle_message(list);
    match r.body {
        ResponseType::ListCommitedOffsetsResponse(l) => {
            assert_eq!(l.in_reply_to, Some(5));
            // Key "a" has offsets 0..=2 committed; "b" has nothing committed,
            // which reads back as offset 0; "missing" is skipped.
            assert_eq!(l.offsets, vec![("a".to_string(), 2u64), ("b".to_string(), 0u64)]);
        },
        _ => panic!("expected list_committed_offsets_ok"),
    }
}

#[test]
fn committed_prefix_stops_at_a_gap() {
    let mut state = GlobalState::new("n0".to_string());
    for v in 0..4 {
        send(&mut state, "a", v);
    }
    // Commit up to offset 1 only: entries 2 and 3 stay unmarked, so the
    // committed prefix ends at 1.
    let commit = NodeMessage {
        src: "c1".to_string(),
        dest: "n0".to_string(),
        body: RequestType::CommitOffsetsRequest(CommitOffsetsRequest {
            offsets: vec![("a".to_string(), 1)],
            in_reply_to: None,
            msg_id: None,
        }),
    };
    state.handle_message(commit);
    let list = NodeMessage {
        src: "c1".to_string(),
        dest: "n0".to_string(),
        body: RequestType::ListCommitedOffsetsRequest(ListCommitedOffsetsRequest {
            keys: vec!["a".to_string()],
            in_reply_to: None,
            msg_id: None,
        }),
    };
    let r = state.handle_message(list);
    match r.body {
        ResponseType::ListCommitedOffsetsResponse(l) => {
            assert_eq!(l.offsets, vec![("a".to_string(), 1u64)]);
        },
        _ => panic!("expected list_committed_offsets_ok"),
    }
}
