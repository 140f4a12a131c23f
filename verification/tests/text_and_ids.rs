use distributed_systems::clock::format_timestamp;
use distributed_systems::clock::get_ts;
use distributed_systems::clock::Timer;
use distributed_systems::error::NodeError;
use distributed_systems::generate_id;
use distributed_systems::ids::compute_links;
use distributed_systems::ids::is_customer_node;
use distributed_systems::ids::is_main_node;
use distributed_systems::ids::links_of_id;
use distributed_systems::ids::node_name;
use distributed_systems::ids::parse_node_index;
use distributed_systems::text::parse_digits_from;
use distributed_systems::text::u64_to_string;

#[test]
fn decimal_rendering() {
    assert_eq!(u64_to_string(0), "0");
    assert_eq!(u64_to_string(7), "7");
    assert_eq!(u64_to_string(12345), "12345");
    assert_eq!(u64_to_string(u64::MAX), "18446744073709551615");
}

#[test]
fn digit_parsing() {
    assert_eq!(parse_digits_from("n17", 1), Some(17));
    assert_eq!(parse_digits_from("c0", 1), Some(0));
    assert_eq!(parse_digits_from("n001", 1), Some(1));
    assert_eq!(parse_digits_from("n", 1), None);
    assert_eq!(parse_digits_from("nx7", 1), None);
    assert_eq!(parse_digits_from("n18446744073709551615", 1), Some(u64::MAX));
    assert_eq!(parse_digits_from("n18446744073709551616", 1), None);
}

#[test]
fn node_index_parsing() {
    assert_eq!(parse_node_index(&"n5".to_string()), Some(5));
    assert_eq!(parse_node_index(&"c12".to_string()), Some(12));
    assert_eq!(parse_node_index(&"n".to_string()), None);
    assert_eq!(parse_node_index(&"".to_string()), None);
    assert_eq!(parse_node_index(&"seq-kv".to_string()), None);
}

#[test]
fn role_classification() {
    assert!(is_customer_node("c1"));
    assert!(!is_customer_node("n1"));
    assert!(!is_customer_node(""));
    assert!(is_main_node(&"n0".to_string()));
    assert!(is_main_node(&"n5".to_string()));
    assert!(is_main_node(&"n10".to_string()));
    assert!(is_main_node(&"n15".to_string()));
    assert!(is_main_node(&"n20".to_string()));
    assert!(!is_main_node(&"n1".to_string()));
    assert!(!is_main_node(&"n00".to_string()));
    assert!(!is_main_node(&"c0".to_string()));
}

#[test]
fn node_names() {
    assert_eq!(node_name(0), "n0");
    assert_eq!(node_name(24), "n24");
}

#[test]
fn partition_hubs_and_leaves() {
    assert_eq!(compute_links(0, 25), vec!["n1", "n2", "n3", "n4", "n5"]);
    assert_eq!(compute_links(5, 25), vec!["n0", "n6", "n7", "n8", "n9", "n10"]);
    assert_eq!(compute_links(10, 25), vec!["n5", "n11", "n12", "n13", "n14", "n15"]);
    assert_eq!(compute_links(15, 25), vec!["n10", "n16", "n17", "n18", "n19", "n20"]);
    assert_eq!(compute_links(20, 25), vec!["n15", "n21", "n22", "n23", "n24"]);
    assert_eq!(compute_links(1, 25), vec!["n0"]);
    assert_eq!(compute_links(7, 25), vec!["n5"]);
    assert_eq!(compute_links(24, 25), vec!["n20"]);
    assert_eq!(compute_links(25, 25), Vec::<String>::new());
    assert_eq!(compute_links(99, 25), Vec::<String>::new());
}

#[test]
fn partition_parameterised_by_cluster_size() {
    assert_eq!(compute_links(0, 3), vec!["n1", "n2"]);
    assert_eq!(compute_links(2, 3), vec!["n0"]);
    assert_eq!(compute_links(5, 6), vec!["n0"]);
}

#[test]
fn links_of_unrecognised_identifier_are_empty() {
    assert_eq!(links_of_id(&"bogus".to_string(), 25), Vec::<String>::new());
    assert_eq!(links_of_id(&"seq-kv".to_string(), 25), Vec::<String>::new());
    assert_eq!(links_of_id(&"n3".to_string(), 25), vec!["n0"]);
}

#[test]
fn error_codes() {
    assert_eq!(NodeError::Timeout.code(), 0);
    assert_eq!(NodeError::NodeNotFound.code(), 1);
    assert_eq!(NodeError::NotSupported.code(), 10);
    assert_eq!(NodeError::TemporarilyUnavailable.code(), 11);
    assert_eq!(NodeError::MalformedRequest.code(), 12);
    assert_eq!(NodeError::Crash.code(), 13);
    assert_eq!(NodeError::Abort.code(), 14);
    assert_eq!(NodeError::KeyDoesNotExist.code(), 20);
    assert_eq!(NodeError::KeyAlreadyExists.code(), 21);
    assert_eq!(NodeError::PreconditionFailed.code(), 22);
    assert_eq!(NodeError::TxnConflict.code(), 23);
    assert_eq!(NodeError::Custom(99).code(), 99);
}

#[test]
fn identifier_generation() {
    // 'n' is 110 and '1' is 49, so the high half is 159.
    assert_eq!(generate_id("n1", 7), (159u64 << 32) + 7);
    assert_eq!(generate_id("n1", 0), 159u64 << 32);
    assert_ne!(generate_id("n1", 1), generate_id("n2", 1));
}

#[test]
fn timestamp_rendering() {
    assert_eq!(format_timestamp(12, 5), "12.5");
    assert_eq!(format_timestamp(0, 999), "0.999");
    let ts = get_ts();
    assert!(ts.contains('.'));
}

#[test]
fn timer_decision_rule() {
    let t = Timer { started_at_ms: 100, duration_ms: 50 };
    assert!(!t.done_at(100));
    assert!(!t.done_at(150));
    assert!(t.done_at(151));
    assert!(!t.done_at(0));
}

#[test]
fn timer_elapses() {
    let t = Timer::from_millis(0);
    loop {
        if t.is_done() {
            break;
        }
    }
}
