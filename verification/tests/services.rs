use raft::cluster::majority;
use raft::decimal::append_decimal;
use raft::key_value_command::KeyValueCommand;
use raft::kv_app::KeyValueStore;
use raft::message::Outcome;
use raft::node_id::NodeId;
use raft::persistence::FileOnDiskPersistence;
use raft::remote_node_ref::RemoteNodeRef;
use raft::routes::{delete_reply, get_reply, put_reply};
use raft::term::Term;
use raft::time_window::TimeWindow;
use std::time::Duration;

fn s(text: &str) -> String {
    text.to_string()
}

#[test]
fn urls_of_a_remote_node() {
    let node = RemoteNodeRef::new(NodeId(2), s("localhost"), 8081);
    assert_eq!(node.id, NodeId(2));
    assert_eq!(node.base_url(), "http://localhost:8081");
    assert_eq!(node.url(), "http://localhost:8081/raft");
    let node = RemoteNodeRef::new(NodeId(0), s("10.0.0.1"), 0);
    assert_eq!(node.url(), "http://10.0.0.1:0/raft");
    let node = RemoteNodeRef::new(NodeId(0), s("h"), u16::MAX);
    assert_eq!(node.base_url(), "http://h:65535");
}

#[test]
fn checkpoint_file_is_named_after_the_node() {
    assert_eq!(FileOnDiskPersistence::new(NodeId(1)).path(), "1.json");
    assert_eq!(FileOnDiskPersistence::new(NodeId(0)).path(), "0.json");
    assert_eq!(FileOnDiskPersistence::new(NodeId(u32::MAX)).path(), "4294967295.json");
}

#[test]
fn decimal_notation() {
    for (n, text) in [(0u64, "0"), (7, "7"), (10, "10"), (1234509876, "1234509876"), (u64::MAX, "18446744073709551615")] {
        let mut out = s("n=");
        append_decimal(&mut out, n);
        assert_eq!(out, format!("n={}", text));
    }
}

#[test]
fn term_increment_moves_to_the_next_term() {
    assert_eq!(Term::zero(), Term(0));
    assert_eq!(Term(0).increment(), Term(1));
    assert_eq!(Term(41).increment(), Term(42));
    assert!(Term(41) < Term(42));
}

#[test]
fn majority_of_a_cluster() {
    assert_eq!(majority(0), 1);
    assert_eq!(majority(1), 1);
    assert_eq!(majority(2), 2);
    assert_eq!(majority(3), 2);
    assert_eq!(majority(4), 3);
    assert_eq!(majority(5), 3);
}

#[test]
fn store_reads_back_what_was_written() {
    let mut store = KeyValueStore::new();
    assert_eq!(store.get(&s("a")), None);
    store.apply(KeyValueCommand::Put(s("a"), s("1")));
    store.apply(KeyValueCommand::Put(s("b"), s("2")));
    assert_eq!(store.get(&s("a")), Some(s("1")));
    assert_eq!(store.get(&s("b")), Some(s("2")));
    store.apply(KeyValueCommand::Put(s("a"), s("3")));
    assert_eq!(store.get(&s("a")), Some(s("3")));
    store.apply(KeyValueCommand::Get(s("a")));
    assert_eq!(store.get(&s("a")), Some(s("3")));
    store.apply(KeyValueCommand::Delete(s("a")));
    assert_eq!(store.get(&s("a")), None);
    assert_eq!(store.get(&s("b")), Some(s("2")));
    store.apply(KeyValueCommand::Delete(s("missing")));
    assert_eq!(store.get(&s("b")), Some(s("2")));
    store.apply(KeyValueCommand::Delete(s("b")));
    assert_eq!(store.get(&s("b")), None);
    store.apply(KeyValueCommand::Put(s("b"), s("4")));
    assert_eq!(store.get(&s("b")), Some(s("4")));
}

#[test]
fn replies_of_the_http_front_end() {
    assert_eq!(get_reply(Some(s("v"))), (200, s("v")));
    assert_eq!(get_reply(None), (404, s("Key not found")));
    assert_eq!(put_reply(Some(Outcome::Success)), "OK");
    assert_eq!(put_reply(Some(Outcome::Failure(s("Leader changed.")))), "Error: Leader changed.");
    assert_eq!(put_reply(Some(Outcome::Redirect(NodeId(3)))), "Error: redirect to node 3");
    assert_eq!(put_reply(None), "Error: Channel closed");
    assert_eq!(delete_reply(Some(Outcome::Success)), (200, s("OK")));
    assert_eq!(delete_reply(Some(Outcome::Failure(s("Not the leader")))), (500, s("Not the leader")));
    assert_eq!(delete_reply(Some(Outcome::Redirect(NodeId(12)))), (500, s("redirect to node 12")));
    assert_eq!(delete_reply(None), (500, s("Channel closed")));
}

#[test]
fn time_window_picks_within_its_bounds() {
    let fixed = TimeWindow::new(Duration::from_secs(60), Duration::from_secs(60));
    assert!(fixed.is_valid());
    assert_eq!(fixed.pick(), Duration::from_secs(60));
    let window = TimeWindow::new(Duration::from_millis(5), Duration::from_millis(10));
    assert!(window.is_valid());
    let mut picked_inside = false;
    for _ in 0..200 {
        let d = window.pick();
        assert!(d >= Duration::from_millis(5) && d <= Duration::from_millis(10));
        if d != Duration::from_millis(5) && d != Duration::from_millis(10) {
            picked_inside = true;
        }
    }
    assert!(picked_inside);
    let empty = TimeWindow::new(Duration::from_secs(2), Duration::from_secs(1));
    assert!(!empty.is_valid());
    let nanos = TimeWindow::new(Duration::from_nanos(1), Duration::from_nanos(2));
    assert!(nanos.is_valid());
}

#[test]
fn message_delay_is_whole_milliseconds_below_a_second() {
    for _ in 0..200 {
        let d = raft::cluster::message_delay();
        assert!(d < Duration::from_secs(1));
        assert_eq!(d.as_nanos() % 1_000_000, 0);
    }
}

#[test]
fn store_reads_the_last_write_of_a_sequence_of_commands() {
    let mut store = KeyValueStore::new();
    let commands = vec![
        KeyValueCommand::Put(s("k"), s("1")),
        KeyValueCommand::Put(s("j"), s("2")),
        KeyValueCommand::Get(s("k")),
        KeyValueCommand::Put(s("k"), s("3")),
        KeyValueCommand::Delete(s("j")),
        KeyValueCommand::Get(s("j")),
    ];
    for command in commands {
        store.apply(command);
    }
    assert_eq!(store.get(&s("k")), Some(s("3")));
    assert_eq!(store.get(&s("j")), None);
    assert_eq!(store.get(&s("never")), None);
}

#[test]
fn a_cloned_command_is_the_same_command() {
    let commands = vec![KeyValueCommand::Put(s("a"), s("b")), KeyValueCommand::Get(s("a")), KeyValueCommand::Delete(s("c"))];
    for command in commands {
        assert_eq!(command.clone(), command);
    }
}
