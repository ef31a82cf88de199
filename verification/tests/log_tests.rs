use raft_kv::log::ReplicatedLog;
use raft_kv::types::{Command, LogEntry};

fn entry(index: u64, term: u64) -> LogEntry {
    LogEntry { term, index, command: Command::Noop }
}

fn indices(v: &[LogEntry]) -> Vec<u64> {
    v.iter().map(|e| e.index).collect()
}

#[test]
fn empty_log() {
    let log = ReplicatedLog::new();
    assert!(log.is_empty());
    assert_eq!(log.len(), 0);
    assert_eq!(log.last_index(), 0);
    assert_eq!(log.last_term(), 0);
    assert_eq!(log.commit_index(), 0);
    let sentinel = log.get(0).unwrap();
    assert_eq!((sentinel.index, sentinel.term), (0, 0));
    assert!(matches!(sentinel.command, Command::Noop));
    assert!(log.get(1).is_none());
}

#[test]
fn append_then_get_by_position() {
    let mut log = ReplicatedLog::default();
    log.append(entry(1, 1));
    log.append(entry(2, 1));
    log.append(LogEntry { term: 3, index: 3, command: Command::Delete { key: "k".to_string() } });
    assert_eq!(log.len(), 3);
    assert_eq!(log.last_index(), 3);
    assert_eq!(log.last_term(), 3);
    assert_eq!(log.get(2).unwrap().term, 1);
    match log.get(3).unwrap().command {
        Command::Delete { key } => assert_eq!(key, "k"),
        _ => panic!("wrong command"),
    }
    assert!(log.get(4).is_none());
}

#[test]
fn truncate_after_keeps_lower_indices() {
    let mut log = ReplicatedLog::new();
    for i in 1..=5 {
        log.append(entry(i, 1));
    }
    log.truncate_after(3);
    assert_eq!(log.len(), 3);
    assert_eq!(log.last_index(), 3);
    log.truncate_after(0);
    assert!(log.is_empty());
}

#[test]
fn entries_from_positions() {
    let mut log = ReplicatedLog::new();
    for i in 1..=4 {
        log.append(entry(i, 1));
    }
    assert_eq!(indices(&log.entries_from(0)), vec![1, 2, 3, 4]);
    assert_eq!(indices(&log.entries_from(1)), vec![1, 2, 3, 4]);
    assert_eq!(indices(&log.entries_from(3)), vec![3, 4]);
    assert_eq!(indices(&log.entries_from(5)), Vec::<u64>::new());
    let empty = ReplicatedLog::new();
    assert!(empty.entries_from(7).is_empty());
}

#[test]
fn match_log_checks_term_at_position() {
    let mut log = ReplicatedLog::new();
    log.append(entry(1, 1));
    log.append(entry(2, 2));
    assert!(log.match_log(0, 99));
    assert!(log.match_log(2, 2));
    assert!(!log.match_log(2, 1));
    assert!(!log.match_log(3, 2));
}

#[test]
fn commit_index_is_capped_by_last_index() {
    let mut log = ReplicatedLog::new();
    log.append(entry(1, 1));
    log.append(entry(2, 1));
    log.set_commit_index(10);
    assert_eq!(log.commit_index(), 2);
    log.set_commit_index(1);
    assert_eq!(log.commit_index(), 1);
}
