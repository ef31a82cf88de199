//! The command-line node's configuration and the decisions taken while it
//! starts.

use crate::config::{default_config, RaftConfig};
use crate::error::ConfigError;
use crate::node::Node;
use crate::text::join;
use crate::types::NodeId;
use vstd::prelude::*;

verus! {

/// What the node was started with. Peer addresses are kept as text.
#[derive(Debug)]
pub struct CliConfig {
    pub id: NodeId,
    pub addr: String,
    pub peers: Vec<String>,
    pub data_dir: String,
    pub election_timeout_min_ms: u64,
    pub election_timeout_max_ms: u64,
    pub heartbeat_interval_ms: u64,
}

/// Why command-line settings are refused, checking in this order: the
/// node's own address among its peers, a zero identifier, an empty
/// election timeout range.
pub open spec fn node_args_problem(id: NodeId, self_in_peers: bool, min_ms: u64, max_ms: u64) -> Option<
    ConfigError,
> {
    if self_in_peers {
        Some(ConfigError::SelfInPeers)
    } else if id == 0 {
        Some(ConfigError::ZeroNodeId)
    } else if min_ms >= max_ms {
        Some(ConfigError::EmptyElectionRange)
    } else {
        None
    }
}

/// Checks command-line settings; `self_in_peers` tells whether the node's
/// own address is in its peer list.
pub fn check_node_args(id: NodeId, self_in_peers: bool, min_ms: u64, max_ms: u64) -> (r: Result<
    (),
    ConfigError,
>)
    ensures
        match r {
            Ok(()) => node_args_problem(id, self_in_peers, min_ms, max_ms) is None,
            Err(e) => node_args_problem(id, self_in_peers, min_ms, max_ms) == Some(e),
        },
{
    if self_in_peers {
        return Err(ConfigError::SelfInPeers);
    }
    if id == 0 {
        return Err(ConfigError::ZeroNodeId);
    }
    if min_ms >= max_ms {
        return Err(ConfigError::EmptyElectionRange);
    }
    Ok(())
}

/// The text of a configuration error.
pub open spec fn config_error_text(e: ConfigError) -> Seq<char> {
    match e {
        ConfigError::SelfInPeers => "Node address cannot be in the peer list"@,
        ConfigError::ZeroNodeId => "Node ID must be greater than 0"@,
        ConfigError::EmptyElectionRange => "Election timeout min must be less than max"@,
    }
}

impl ConfigError {
    /// The text of the error.
    pub fn message(&self) -> (r: String)
        ensures
            r@ == config_error_text(*self),
    {
        match self {
            ConfigError::SelfInPeers => "Node address cannot be in the peer list".to_owned(),
            ConfigError::ZeroNodeId => "Node ID must be greater than 0".to_owned(),
            ConfigError::EmptyElectionRange => "Election timeout min must be less than max".to_owned(),
        }
    }
}

/// Runs a node from its command-line configuration.
#[derive(Debug)]
pub struct Runtime {
    pub config: CliConfig,
}

impl Runtime {
    pub fn new(config: CliConfig) -> (r: Self)
        ensures
            r.config == config,
    {
        Runtime { config }
    }

    /// The directory of the write-ahead log.
    pub fn wal_path(&self) -> (r: String)
        ensures
            r@ == self.config.data_dir@ + "/wal"@,
    {
        join(self.config.data_dir.as_str(), "/wal")
    }

    /// The directory of the snapshots.
    pub fn snapshot_path(&self) -> (r: String)
        ensures
            r@ == self.config.data_dir@ + "/snapshots"@,
    {
        join(self.config.data_dir.as_str(), "/snapshots")
    }

    /// The peers, numbered from 0 in the order they were given.
    pub fn peer_nodes(&self) -> (r: Vec<Node>)
        ensures
            r@.len() == self.config.peers@.len(),
            forall|i: int|
                0 <= i < r@.len() ==> r@[i].id == i && r@[i].addr@ == self.config.peers@[i]@,
    {
        let mut r: Vec<Node> = Vec::new();
        let mut i: usize = 0;
        while i < self.config.peers.len()
            invariant
                i <= self.config.peers@.len(),
                r@.len() == i,
                forall|j: int|
                    0 <= j < i ==> r@[j].id == j && r@[j].addr@ == self.config.peers@[j]@,
            decreases self.config.peers@.len() - i,
        {
            r.push(Node::new(i as NodeId, self.config.peers[i].clone()));
            i = i + 1;
        }
        r
    }

    /// The consensus configuration: the defaults for this node, with the
    /// timeouts given on the command line.
    pub fn raft_config(&self) -> (r: RaftConfig)
        ensures
            r == (RaftConfig {
                election_timeout_min_ms: self.config.election_timeout_min_ms,
                election_timeout_max_ms: self.config.election_timeout_max_ms,
                heartbeat_interval_ms: self.config.heartbeat_interval_ms,
                ..default_config(self.config.id)
            }),
    {
        RaftConfig::new(self.config.id).with_timeouts(
            self.config.election_timeout_min_ms,
            self.config.election_timeout_max_ms,
        ).with_heartbeat(self.config.heartbeat_interval_ms)
    }
}

} // verus!
