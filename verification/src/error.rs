//! The error types of the crate.

use vstd::prelude::*;

verus! {

/// Errors raised by the consensus layer and the components below it.
#[derive(Debug)]
pub enum RaftError {
    NotLeader,
    StaleTerm { request_term: u64, current_term: u64 },
    LogMismatch { index: u64, local_term: Option<u64>, remote_term: Option<u64> },
    Storage(String),
    Network(String),
    StateMachine(String),
    Snapshot(String),
    Config(String),
    Timeout,
    Shutdown,
}

/// A result whose error is a `RaftError`.
pub type Result<T> = core::result::Result<T, RaftError>;

/// Errors raised by the transport layer. An I/O failure carries the text
/// of the operating system's error.
#[derive(Debug)]
pub enum NetworkError {
    Connection(String),
    Timeout,
    Serialization(String),
    Io(String),
}

/// A command-line configuration that the node refuses to start with.
#[derive(Debug, Clone, Copy, PartialEq, Eq, Structural)]
pub enum ConfigError {
    /// The node's own address is among its peers.
    SelfInPeers,
    /// Node identifiers start at 1.
    ZeroNodeId,
    /// The election timeout range is empty.
    EmptyElectionRange,
}

/// Errors of the command-line node.
#[derive(Debug)]
pub enum CliError {
    Config(ConfigError),
    StorageInit(String),
    Network(String),
    Consensus(RaftError),
    Io(String),
    Runtime(String),
}

} // verus!
