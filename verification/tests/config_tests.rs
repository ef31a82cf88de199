use raft_kv::config::RaftConfig;
use raft_kv::error::ConfigError;
use raft_kv::node::Node;
use raft_kv::runtime::{check_node_args, CliConfig, Runtime};

#[test]
fn defaults() {
    let c = RaftConfig::new(3);
    assert_eq!(c.node_id, 3);
    assert_eq!((c.election_timeout_min_ms, c.election_timeout_max_ms, c.heartbeat_interval_ms), (150, 300, 50));
    assert_eq!((c.max_log_entries_per_append, c.snapshot_threshold, c.apply_queue_size), (1000, 10000, 100));
    assert_eq!(RaftConfig::default().node_id, 0);
}

#[test]
fn builders_set_timeouts() {
    let c = RaftConfig::new(1).with_timeouts(200, 400).with_heartbeat(20);
    assert_eq!((c.election_timeout_min_ms, c.election_timeout_max_ms, c.heartbeat_interval_ms), (200, 400, 20));
    assert_eq!(c.validate(), Ok(()));
}

#[test]
fn validate_reports_first_broken_rule() {
    assert_eq!(RaftConfig::new(1).with_timeouts(300, 300).validate(), Err("election_timeout_min must be less than election_timeout_max"));
    assert_eq!(RaftConfig::new(1).with_heartbeat(150).validate(), Err("heartbeat_interval must be less than election_timeout_min"));
    assert_eq!(RaftConfig::new(0).validate(), Err("node_id cannot be zero"));
    assert_eq!(RaftConfig::new(0).with_timeouts(5, 1).validate(), Err("election_timeout_min must be less than election_timeout_max"));
}

#[test]
fn election_timeout_from_entropy() {
    let c = RaftConfig::new(1);
    assert_eq!(c.election_timeout_with_entropy(0), 150);
    assert_eq!(c.election_timeout_with_entropy(151), 151);
    assert_eq!(c.election_timeout_with_entropy(u64::MAX), 150 + u64::MAX % 150);
    let fixed = RaftConfig::new(1).with_timeouts(100, 100);
    assert_eq!(fixed.election_timeout_with_entropy(77), 100);
}

#[test]
fn random_election_timeout_in_range() {
    let c = RaftConfig::new(1);
    for _ in 0..20 {
        let t = c.random_election_timeout();
        assert!((150..300).contains(&t));
    }
    assert_eq!(RaftConfig::new(1).with_timeouts(80, 80).random_election_timeout(), 80);
}

#[test]
fn node_args_checks_in_order() {
    assert_eq!(check_node_args(1, true, 150, 300), Err(ConfigError::SelfInPeers));
    assert_eq!(check_node_args(0, false, 150, 300), Err(ConfigError::ZeroNodeId));
    assert_eq!(check_node_args(0, true, 300, 150), Err(ConfigError::SelfInPeers));
    assert_eq!(check_node_args(2, false, 300, 300), Err(ConfigError::EmptyElectionRange));
    assert_eq!(check_node_args(2, false, 150, 300), Ok(()));
    assert_eq!(ConfigError::SelfInPeers.message(), "Node address cannot be in the peer list");
    assert_eq!(ConfigError::ZeroNodeId.message(), "Node ID must be greater than 0");
    assert_eq!(ConfigError::EmptyElectionRange.message(), "Election timeout min must be less than max");
}

#[test]
fn runtime_derives_paths_peers_and_config() {
    let rt = Runtime::new(CliConfig {
        id: 4,
        addr: "127.0.0.1:5000".to_string(),
        peers: vec!["127.0.0.1:5001".to_string(), "127.0.0.1:5002".to_string()],
        data_dir: "./data".to_string(),
        election_timeout_min_ms: 100,
        election_timeout_max_ms: 200,
        heartbeat_interval_ms: 10,
    });
    assert_eq!(rt.wal_path(), "./data/wal");
    assert_eq!(rt.snapshot_path(), "./data/snapshots");
    let peers: Vec<Node> = rt.peer_nodes();
    assert_eq!(peers.iter().map(|n| (n.id, n.addr.clone())).collect::<Vec<_>>(), vec![(0, "127.0.0.1:5001".to_string()), (1, "127.0.0.1:5002".to_string())]);
    let c = rt.raft_config();
    assert_eq!((c.node_id, c.election_timeout_min_ms, c.election_timeout_max_ms, c.heartbeat_interval_ms), (4, 100, 200, 10));
    assert_eq!(c.snapshot_threshold, 10000);
}
