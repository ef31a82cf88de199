use raft_kv::error::RaftError;
use raft_kv::message::Snapshot;
use raft_kv::store::KeyValueStore;
use raft_kv::types::Command;

fn put(k: &str, v: &str) -> Command {
    Command::Put { key: k.to_string(), value: v.to_string() }
}

fn del(k: &str) -> Command {
    Command::Delete { key: k.to_string() }
}

fn state_machine_message(r: Result<(), RaftError>) -> String {
    match r {
        Err(RaftError::StateMachine(m)) => m,
        other => panic!("expected a state machine error, got {:?}", other),
    }
}

#[test]
fn new_store_is_empty() {
    let s = KeyValueStore::new();
    assert_eq!(s.get("a").unwrap(), None);
    assert_eq!(s.contains_key("a").unwrap(), false);
    assert_eq!(s.last_applied_index().unwrap(), 0);
    assert_eq!(s.last_applied_term().unwrap(), 0);
}

#[test]
fn put_then_get_returns_value() {
    let mut s = KeyValueStore::new();
    assert_eq!(s.apply(1, 1, &put("a", "1")).unwrap(), Some("1".to_string()));
    assert_eq!(s.get("a").unwrap(), Some("1".to_string()));
    assert!(s.contains_key("a").unwrap());
    assert_eq!(s.last_applied_index().unwrap(), 1);
    assert_eq!(s.last_applied_term().unwrap(), 1);
}

#[test]
fn put_overwrites_value() {
    let mut s = KeyValueStore::new();
    s.apply(1, 1, &put("a", "1")).unwrap();
    s.apply(2, 1, &put("b", "x")).unwrap();
    s.apply(3, 2, &put("a", "2")).unwrap();
    assert_eq!(s.get("a").unwrap(), Some("2".to_string()));
    assert_eq!(s.get("b").unwrap(), Some("x".to_string()));
    assert_eq!(s.last_applied_index().unwrap(), 3);
    assert_eq!(s.last_applied_term().unwrap(), 2);
}

#[test]
fn delete_returns_removed_value() {
    let mut s = KeyValueStore::new();
    s.apply(1, 1, &put("a", "1")).unwrap();
    assert_eq!(s.apply(2, 1, &del("a")).unwrap(), Some("1".to_string()));
    assert_eq!(s.get("a").unwrap(), None);
    assert_eq!(s.apply(3, 1, &del("a")).unwrap(), None);
    assert_eq!(s.last_applied_index().unwrap(), 3);
}

#[test]
fn noop_only_moves_last_applied() {
    let mut s = KeyValueStore::new();
    s.apply(1, 1, &put("a", "1")).unwrap();
    assert_eq!(s.apply(7, 3, &Command::Noop).unwrap(), None);
    assert_eq!(s.get("a").unwrap(), Some("1".to_string()));
    assert_eq!(s.last_applied_index().unwrap(), 7);
    assert_eq!(s.last_applied_term().unwrap(), 3);
}

#[test]
fn snapshot_bytes_are_length_prefixed_records() {
    let mut s = KeyValueStore::new();
    s.apply(4, 2, &put("k", "vv")).unwrap();
    let snap = s.create_snapshot().unwrap();
    assert_eq!(snap.last_included_index, 4);
    assert_eq!(snap.last_included_term, 2);
    assert_eq!(snap.data, vec![0, 0, 0, 1, b'k', 0, 0, 0, 2, b'v', b'v']);
}

#[test]
fn snapshot_of_empty_store_is_empty() {
    let s = KeyValueStore::new();
    let snap = s.create_snapshot().unwrap();
    assert!(snap.data.is_empty());
}

#[test]
fn snapshot_round_trip_restores_contents() {
    let mut s = KeyValueStore::new();
    s.apply(1, 1, &put("alpha", "1")).unwrap();
    s.apply(2, 1, &put("béta", "ünïcode")).unwrap();
    s.apply(3, 2, &put("empty", "")).unwrap();
    s.apply(4, 2, &del("alpha")).unwrap();
    let snap = s.create_snapshot().unwrap();

    let mut r = KeyValueStore::new();
    r.apply(1, 1, &put("stale", "x")).unwrap();
    r.restore_from_snapshot(&snap).unwrap();
    assert_eq!(r.get("alpha").unwrap(), None);
    assert_eq!(r.get("béta").unwrap(), Some("ünïcode".to_string()));
    assert_eq!(r.get("empty").unwrap(), Some(String::new()));
    assert_eq!(r.get("stale").unwrap(), None);
    assert_eq!(r.last_applied_index().unwrap(), 4);
    assert_eq!(r.last_applied_term().unwrap(), 2);
    assert_eq!(r.create_snapshot().unwrap().data, snap.data);
}

#[test]
fn restore_ignores_short_trailing_bytes() {
    let mut r = KeyValueStore::new();
    let snap = Snapshot {
        last_included_index: 9,
        last_included_term: 3,
        data: vec![0, 0, 0, 1, b'a', 0, 0, 0, 1, b'b', 1, 2, 3, 4, 5, 6, 7],
    };
    r.restore_from_snapshot(&snap).unwrap();
    assert_eq!(r.get("a").unwrap(), Some("b".to_string()));
    assert_eq!(r.last_applied_index().unwrap(), 9);
}

#[test]
fn restore_later_duplicate_key_wins() {
    let mut r = KeyValueStore::new();
    let snap = Snapshot {
        last_included_index: 2,
        last_included_term: 1,
        data: vec![0, 0, 0, 1, b'a', 0, 0, 0, 1, b'1', 0, 0, 0, 1, b'a', 0, 0, 0, 1, b'2'],
    };
    r.restore_from_snapshot(&snap).unwrap();
    assert_eq!(r.get("a").unwrap(), Some("2".to_string()));
}

#[test]
fn restore_reports_key_length_mismatch() {
    let mut r = KeyValueStore::new();
    let snap = Snapshot { last_included_index: 5, last_included_term: 1, data: vec![0, 0, 0, 9, b'a', 0, 0, 0, 0] };
    let m = state_machine_message(r.restore_from_snapshot(&snap));
    assert_eq!(m, "Invalid snapshot format: key length mismatch");
    assert_eq!(r.last_applied_index().unwrap(), 0);
}

#[test]
fn restore_reports_missing_value_length() {
    let mut r = KeyValueStore::new();
    let snap = Snapshot { last_included_index: 5, last_included_term: 1, data: vec![0, 0, 0, 3, b'a', b'b', b'c', 0, 0] };
    let m = state_machine_message(r.restore_from_snapshot(&snap));
    assert_eq!(m, "Invalid snapshot format: value length missing");
}

#[test]
fn restore_reports_value_length_mismatch() {
    let mut r = KeyValueStore::new();
    let snap = Snapshot { last_included_index: 5, last_included_term: 1, data: vec![0, 0, 0, 1, b'a', 0, 0, 0, 5, b'b'] };
    let m = state_machine_message(r.restore_from_snapshot(&snap));
    assert_eq!(m, "Invalid snapshot format: value length mismatch");
}

#[test]
fn restore_reports_invalid_utf8_key() {
    let mut r = KeyValueStore::new();
    let snap = Snapshot { last_included_index: 5, last_included_term: 1, data: vec![0, 0, 0, 1, 0xFF, 0, 0, 0, 0] };
    let m = state_machine_message(r.restore_from_snapshot(&snap));
    let std_text = String::from_utf8(vec![0xFF]).unwrap_err().to_string();
    assert_eq!(m, format!("Invalid UTF-8 in key: {}", std_text));
    assert_eq!(m, "Invalid UTF-8 in key: invalid utf-8 sequence of 1 bytes from index 0");
}

#[test]
fn restore_reports_invalid_utf8_value() {
    let mut r = KeyValueStore::new();
    let snap = Snapshot { last_included_index: 5, last_included_term: 1, data: vec![0, 0, 0, 1, b'k', 0, 0, 0, 1, 0xC3] };
    let m = state_machine_message(r.restore_from_snapshot(&snap));
    let std_text = String::from_utf8(vec![0xC3]).unwrap_err().to_string();
    assert_eq!(m, format!("Invalid UTF-8 in value: {}", std_text));
}

#[test]
fn failed_restore_keeps_records_read_before_the_fault() {
    let mut r = KeyValueStore::new();
    r.apply(3, 1, &put("old", "x")).unwrap();
    let snap = Snapshot {
        last_included_index: 10,
        last_included_term: 4,
        data: vec![0, 0, 0, 1, b'a', 0, 0, 0, 1, b'b', 0, 0, 0, 7, b'c', 0, 0, 0],
    };
    let m = state_machine_message(r.restore_from_snapshot(&snap));
    assert_eq!(m, "Invalid snapshot format: key length mismatch");
    assert_eq!(r.get("a").unwrap(), Some("b".to_string()));
    assert_eq!(r.get("old").unwrap(), None);
    assert_eq!(r.last_applied_index().unwrap(), 3);
    assert_eq!(r.last_applied_term().unwrap(), 1);
}
