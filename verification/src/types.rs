//! Basic data carried through the protocol: commands and log entries.

use vstd::prelude::*;

verus! {

/// Identifier of a node in the cluster.
pub type NodeId = u64;

/// A Raft term number.
pub type Term = u64;

/// A position in the replicated log (1-based; 0 means "before the log").
pub type Index = u64;

/// A command for the key-value state machine.
#[derive(Debug)]
pub enum Command {
    Noop,
    Put { key: String, value: String },
    Delete { key: String },
}

impl Clone for Command {
    fn clone(&self) -> (res: Self)
        ensures
            res == *self,
    {
        match self {
            Command::Noop => Command::Noop,
            Command::Put { key, value } => Command::Put { key: key.clone(), value: value.clone() },
            Command::Delete { key } => Command::Delete { key: key.clone() },
        }
    }
}

/// One entry of the replicated log.
#[derive(Debug)]
pub struct LogEntry {
    pub term: Term,
    pub index: Index,
    pub command: Command,
}

impl Clone for LogEntry {
    fn clone(&self) -> (res: Self)
        ensures
            res == *self,
    {
        LogEntry { term: self.term, index: self.index, command: self.command.clone() }
    }
}

impl LogEntry {
    /// The entry that stands before every log: index 0, term 0, no command.
    pub open spec fn sentinel_spec() -> LogEntry {
        LogEntry { term: 0, index: 0, command: Command::Noop }
    }

    /// Builds the entry that stands before every log.
    pub fn sentinel() -> (res: LogEntry)
        ensures
            res == LogEntry::sentinel_spec(),
    {
        LogEntry { term: 0, index: 0, command: Command::Noop }
    }
}

/// The role of a node, as the protocol's message handlers see it.
#[derive(Debug, Clone, Copy, PartialEq, Eq, Structural)]
pub enum State {
    Follower,
    Candidate,
    Leader,
}

impl Default for State {
    fn default() -> (res: Self)
        ensures
            res == State::Follower,
    {
        State::Follower
    }
}

impl State {
    pub fn is_leader(self) -> (res: bool)
        ensures
            res == (self == State::Leader),
    {
        matches!(self, State::Leader)
    }

    pub fn is_candidate(self) -> (res: bool)
        ensures
            res == (self == State::Candidate),
    {
        matches!(self, State::Candidate)
    }

    pub fn is_follower(self) -> (res: bool)
        ensures
            res == (self == State::Follower),
    {
        matches!(self, State::Follower)
    }
}

/// How a leader currently feeds a peer.
#[derive(Debug, Clone, Copy, PartialEq, Eq, Structural)]
pub enum PeerState {
    Probe,
    Replicate,
    Snapshot,
}

} // verus!
