use raft_kv::snapshot::{is_older_snapshot, is_snapshot_file_name, latest_snapshot_position, snapshot_file_name, snapshot_index_from_name, SnapshotManager};

#[test]
fn snapshot_file_names() {
    assert_eq!(snapshot_file_name(12, 3), "snapshot_12_3.bin");
    assert_eq!(snapshot_file_name(0, 0), "snapshot_0_0.bin");
    assert!(is_snapshot_file_name("snapshot_12_3.bin"));
    assert!(!is_snapshot_file_name("snapshot_12_3.bak"));
    assert!(!is_snapshot_file_name("segment_1"));
    for (i, t) in [(0u64, 0u64), (5, 1), (u64::MAX, 7)] {
        assert_eq!(snapshot_index_from_name(&snapshot_file_name(i, t)), Some(i));
    }
}

#[test]
fn snapshot_index_needs_two_underscores() {
    assert_eq!(snapshot_index_from_name("snapshot_5.bin"), None);
    assert_eq!(snapshot_index_from_name("snapshot_x_1.bin"), None);
    assert_eq!(snapshot_index_from_name("snapshot__1.bin"), None);
    assert_eq!(snapshot_index_from_name("snapshot_7_a_b.bin"), Some(7));
}

#[test]
fn older_snapshots_are_those_below_index() {
    assert!(is_older_snapshot("snapshot_4_1.bin", 5));
    assert!(!is_older_snapshot("snapshot_5_1.bin", 5));
    assert!(!is_older_snapshot("notes.txt", 5));
}

#[test]
fn latest_is_first_largest_index() {
    assert_eq!(latest_snapshot_position(&vec![]), None);
    assert_eq!(latest_snapshot_position(&vec![3, 9, 2, 9]), Some(1));
    assert_eq!(latest_snapshot_position(&vec![4]), Some(0));
}

#[test]
fn manager_paths() {
    let m = SnapshotManager::new("/data/snaps");
    assert_eq!(m.path_for(10, 2), "/data/snaps/snapshot_10_2.bin");
    assert_eq!(SnapshotManager::new("/data/snaps/").path_for(10, 2), "/data/snaps/snapshot_10_2.bin");
    assert_eq!(SnapshotManager::new("").path_for(10, 2), "snapshot_10_2.bin");
    assert_eq!(SnapshotManager::new("é").path_for(1, 1), "é/snapshot_1_1.bin");
}
