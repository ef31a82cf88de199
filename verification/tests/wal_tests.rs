use raft_kv::error::RaftError;
use raft_kv::wal::{decode_records, encode_record, entry_in_segment, keep_up_to, segment_file_name, segment_id_from_name, sort_segment_ids, WalCounters};

#[test]
fn record_layout_uses_crc32() {
    let payload = b"hello wal".to_vec();
    let rec = encode_record(&payload).unwrap();
    let crc = crc32fast::hash(&payload);
    assert_ne!(crc, 0);
    let mut expected = (payload.len() as u32).to_be_bytes().to_vec();
    expected.extend_from_slice(&crc.to_be_bytes());
    expected.extend_from_slice(&payload);
    assert_eq!(rec, expected);
}

#[test]
fn records_read_back_in_order() {
    let payloads: Vec<Vec<u8>> = vec![b"a".to_vec(), b"second".to_vec(), vec![0u8; 300]];
    let mut bytes = Vec::new();
    for p in &payloads {
        bytes.extend(encode_record(p).unwrap());
    }
    assert_eq!(decode_records(&bytes), payloads);
}

#[test]
fn reading_stops_at_torn_or_corrupt_record() {
    let mut bytes = encode_record(b"one").unwrap();
    let second = encode_record(b"two").unwrap();
    bytes.extend_from_slice(&second[..second.len() - 1]);
    assert_eq!(decode_records(&bytes), vec![b"one".to_vec()]);

    let mut corrupt = encode_record(b"one").unwrap();
    let mut bad = encode_record(b"two").unwrap();
    let last = bad.len() - 1;
    bad[last] ^= 0x01;
    corrupt.extend(bad);
    corrupt.extend(encode_record(b"three").unwrap());
    assert_eq!(decode_records(&corrupt), vec![b"one".to_vec()]);

    let mut zero = encode_record(b"one").unwrap();
    zero.extend_from_slice(&[0, 0, 0, 0, 1, 2, 3, 4]);
    zero.extend(encode_record(b"two").unwrap());
    assert_eq!(decode_records(&zero), vec![b"one".to_vec()]);
    assert!(decode_records(&[0, 0, 1]).is_empty());
}

#[test]
fn empty_payload_record_ends_reading() {
    let mut bytes = encode_record(b"").unwrap();
    bytes.extend(encode_record(b"x").unwrap());
    assert!(decode_records(&bytes).is_empty());
}

#[test]
fn segment_names_round_trip() {
    assert_eq!(segment_file_name(0), "segment_00000000000000000000");
    assert_eq!(segment_file_name(42), "segment_00000000000000000042");
    assert_eq!(segment_file_name(u64::MAX), "segment_18446744073709551615");
    for id in [0u64, 7, 42, 1_000_000, u64::MAX] {
        assert_eq!(segment_id_from_name(&segment_file_name(id)), Some(id));
    }
}

#[test]
fn segment_name_parsing_follows_str_parse() {
    assert_eq!(segment_id_from_name("segment_12"), Some(12));
    assert_eq!(segment_id_from_name("segment_+12"), Some(12));
    assert_eq!(segment_id_from_name("segment_"), None);
    assert_eq!(segment_id_from_name("segment_+"), None);
    assert_eq!(segment_id_from_name("segment_-1"), None);
    assert_eq!(segment_id_from_name("segment_1a"), None);
    assert_eq!(segment_id_from_name("segment_18446744073709551616"), None);
    assert_eq!(segment_id_from_name("segment_18446744073709551615"), Some(u64::MAX));
    assert_eq!(segment_id_from_name("snapshot_1"), None);
    assert_eq!(segment_id_from_name("segmen"), None);
}

#[test]
fn segment_ids_sorted() {
    assert_eq!(sort_segment_ids(&vec![5, 1, 3, 1, 9, 0]), vec![0, 1, 1, 3, 5, 9]);
    assert!(sort_segment_ids(&vec![]).is_empty());
}

#[test]
fn counters_follow_appends() {
    let mut c = WalCounters::recovered(&vec![1, 4], &vec![3, 2], 100);
    assert_eq!(c, WalCounters { current_segment_id: 4, entries_count: 5, current_file_size: 100 });
    assert_eq!(c.record_appended(10), 6);
    assert_eq!(c.current_file_size, 118);
    assert!(c.holds(6));
    assert!(!c.holds(7));
    assert!(!c.holds(0));
    assert!(c.check_truncate(6).is_ok());
    match c.check_truncate(7) {
        Err(RaftError::Storage(m)) => assert_eq!(m, "Index out of bounds"),
        other => panic!("unexpected {:?}", other),
    }
    let e = WalCounters::recovered(&vec![], &vec![], 0);
    assert_eq!(e, WalCounters::empty());
}

fn e(index: u64) -> raft_kv::types::LogEntry {
    raft_kv::types::LogEntry { term: 1, index, command: raft_kv::types::Command::Noop }
}

#[test]
fn entries_found_across_segments() {
    let seg = vec![e(10), e(11), e(12)];
    assert_eq!(entry_in_segment(&seg, 5, 3).unwrap().index, 11);
    assert!(entry_in_segment(&seg, 3, 3).is_none());
    assert!(entry_in_segment(&seg, 7, 3).is_none());
    assert_eq!(entry_in_segment(&seg, 6, 3).unwrap().index, 12);
}

#[test]
fn keep_up_to_stops_at_limit() {
    let mut kept = vec![e(1)];
    keep_up_to(&mut kept, vec![e(2), e(3), e(4)], 3);
    assert_eq!(kept.iter().map(|x| x.index).collect::<Vec<_>>(), vec![1, 2, 3]);
    keep_up_to(&mut kept, vec![e(9)], 3);
    assert_eq!(kept.len(), 3);
    let mut all = Vec::new();
    keep_up_to(&mut all, vec![e(1), e(2)], 10);
    assert_eq!(all.len(), 2);
}
