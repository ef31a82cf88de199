use raft_kv::error::NetworkError;
use raft_kv::network::PeerTable;

#[test]
fn lookup_known_and_unknown_peers() {
    let mut t: PeerTable<(u8, u16)> = PeerTable::new();
    t.add_peer(1, (10, 5001));
    t.add_peer(2, (10, 5002));
    t.add_peer(1, (11, 6001));
    assert_eq!(t.lookup(1).unwrap(), (11, 6001));
    assert_eq!(t.lookup(2).unwrap(), (10, 5002));
    match t.lookup(3) {
        Err(NetworkError::Connection(m)) => assert_eq!(m, "Peer not found"),
        other => panic!("unexpected {:?}", other),
    }
    t.remove_peer(2);
    assert!(t.lookup(2).is_err());
    t.remove_peer(42);
    assert!(t.lookup(1).is_ok());
}

#[test]
fn broadcast_targets_exclude_one_peer() {
    let mut t: PeerTable<u16> = PeerTable::new();
    t.add_peer(3, 5003);
    t.add_peer(1, 5001);
    t.add_peer(2, 5002);
    t.add_peer(1, 5101);
    assert_eq!(t.targets(None), vec![(3, 5003), (1, 5101), (2, 5002)]);
    assert_eq!(t.targets(Some(1)), vec![(3, 5003), (2, 5002)]);
    t.remove_peer(3);
    assert_eq!(t.targets(Some(9)), vec![(1, 5101), (2, 5002)]);
}
