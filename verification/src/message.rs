//! Messages exchanged between Raft nodes, and the snapshot they carry.

use crate::types::{Index, LogEntry, NodeId, Term};
use vstd::prelude::*;

verus! {

/// A point-in-time image of the state machine.
#[derive(Debug, Clone)]
pub struct Snapshot {
    pub last_included_index: Index,
    pub last_included_term: Term,
    pub data: Vec<u8>,
}

/// Sent by a candidate to ask for a vote.
#[derive(Debug, Clone, Copy, PartialEq, Eq, Structural)]
pub struct RequestVoteRequest {
    pub term: Term,
    pub candidate_id: NodeId,
    pub last_log_index: Index,
    pub last_log_term: Term,
}

/// The answer to a `RequestVoteRequest`.
#[derive(Debug, Clone, Copy, PartialEq, Eq, Structural)]
pub struct RequestVoteResponse {
    pub term: Term,
    pub vote_granted: bool,
}

/// Sent by a leader to replicate entries (or, with no entries, as a
/// heartbeat).
#[derive(Debug, Clone)]
pub struct AppendEntriesRequest {
    pub term: Term,
    pub leader_id: NodeId,
    pub prev_log_index: Index,
    pub prev_log_term: Term,
    pub entries: Vec<LogEntry>,
    pub leader_commit: Index,
}

/// The answer to an `AppendEntriesRequest`.
#[derive(Debug, Clone, Copy, PartialEq, Eq, Structural)]
pub struct AppendEntriesResponse {
    pub term: Term,
    pub success: bool,
    pub conflict_index: Option<Index>,
    pub conflict_term: Option<Term>,
}

/// Sent by a leader to hand a follower a whole snapshot.
#[derive(Debug, Clone)]
pub struct InstallSnapshotRequest {
    pub term: Term,
    pub leader_id: NodeId,
    pub last_included_index: Index,
    pub last_included_term: Term,
    pub data: Vec<u8>,
}

/// The answer to an `InstallSnapshotRequest`.
#[derive(Debug, Clone, Copy, PartialEq, Eq, Structural)]
pub struct InstallSnapshotResponse {
    pub term: Term,
}

} // verus!
