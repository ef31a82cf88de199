//! A node's identity, its role, and the state that the protocol keeps on it.

use crate::message::Snapshot;
use crate::types::{Index, LogEntry, NodeId, Term};
use vstd::prelude::*;

verus! {

/// A member of the cluster and the address it listens on.
#[derive(Debug, Clone)]
pub struct Node {
    pub id: NodeId,
    pub addr: String,
}

impl Node {
    pub fn new(id: NodeId, addr: String) -> (r: Self)
        ensures
            r.id == id,
            r.addr == addr,
    {
        Node { id, addr }
    }
}

/// The role a node plays in the current term.
#[derive(Debug, Clone, Copy, PartialEq, Eq, Structural)]
pub enum Role {
    Follower,
    Candidate,
    Leader,
}

impl Default for Role {
    fn default() -> (r: Self)
        ensures
            r == Role::Follower,
    {
        Role::Follower
    }
}

/// The index of the last entry of `log`, or 0 for an empty log.
pub open spec fn last_index_of(log: Seq<LogEntry>) -> Index {
    if log.len() == 0 {
        0
    } else {
        log.last().index
    }
}

/// The term of the last entry of `log`, or 0 for an empty log.
pub open spec fn last_term_of(log: Seq<LogEntry>) -> Term {
    if log.len() == 0 {
        0
    } else {
        log.last().term
    }
}

/// `i` is the first position of `log` whose entry carries `index`.
pub open spec fn is_first_with_index(log: Seq<LogEntry>, index: Index, i: int) -> bool {
    &&& 0 <= i < log.len()
    &&& log[i].index == index
    &&& forall|j: int| 0 <= j < i ==> log[j].index != index
}

/// The first entry of `log` that carries `index`, if any.
pub open spec fn first_with_index(log: Seq<LogEntry>, index: Index) -> Option<LogEntry> {
    if exists|i: int| is_first_with_index(log, index, i) {
        Some(log[choose|i: int| is_first_with_index(log, index, i)])
    } else {
        None
    }
}

/// The entry that a node reports at `index`: the sentinel for index 0,
/// otherwise the first entry of its log that carries `index`.
pub open spec fn entry_at(log: Seq<LogEntry>, index: Index) -> Option<LogEntry> {
    if index == 0 {
        Some(LogEntry::sentinel_spec())
    } else {
        first_with_index(log, index)
    }
}

/// Looks up the first entry of `log` that carries `index`.
pub fn find_with_index(log: &Vec<LogEntry>, index: Index) -> (r: Option<usize>)
    ensures
        match r {
            Some(i) => is_first_with_index(log@, index, i as int) && first_with_index(log@, index)
                == Some(log@[i as int]),
            None => first_with_index(log@, index) is None && forall|j: int|
                0 <= j < log@.len() ==> log@[j].index != index,
        },
{
    let mut i: usize = 0;
    while i < log.len()
        invariant
            i <= log@.len(),
            forall|j: int| 0 <= j < i ==> log@[j].index != index,
        decreases log@.len() - i,
    {
        if log[i].index == index {
            assert(is_first_with_index(log@, index, i as int));
            proof {
                let c = choose|c: int| is_first_with_index(log@, index, c);
                assert(c == i) by {
                    if c < i {
                    } else if c > i {
                        assert(log@[i as int].index != index);
                    }
                }
            }
            return Some(i);
        }
        i = i + 1;
    }
    None
}

/// The state that a Raft node keeps.
#[derive(Debug)]
pub struct NodeState {
    pub id: NodeId,
    pub role: Role,
    pub current_term: Term,
    pub voted_for: Option<NodeId>,
    pub log: Vec<LogEntry>,
    pub commit_index: Index,
    pub last_applied: Index,
    pub snapshot: Option<Snapshot>,
}

impl Default for NodeState {
    fn default() -> (r: Self)
        ensures
            r.id == 0,
            r.role == Role::Follower,
            r.current_term == 0,
            r.voted_for is None,
            r.log@ == Seq::<LogEntry>::empty(),
            r.commit_index == 0,
            r.last_applied == 0,
            r.snapshot is None,
    {
        NodeState::new(0)
    }
}

impl NodeState {
    /// A fresh follower at term 0 with an empty log.
    pub fn new(id: NodeId) -> (r: Self)
        ensures
            r.id == id,
            r.role == Role::Follower,
            r.current_term == 0,
            r.voted_for is None,
            r.log@ == Seq::<LogEntry>::empty(),
            r.commit_index == 0,
            r.last_applied == 0,
            r.snapshot is None,
    {
        NodeState {
            id,
            role: Role::Follower,
            current_term: 0,
            voted_for: None,
            log: Vec::new(),
            commit_index: 0,
            last_applied: 0,
            snapshot: None,
        }
    }

    /// The index of the last entry of the log, 0 when the log is empty.
    pub fn last_log_index(&self) -> (r: Index)
        ensures
            r == last_index_of(self.log@),
    {
        if self.log.len() == 0 {
            0
        } else {
            self.log[self.log.len() - 1].index
        }
    }

    /// The term of the last entry of the log, 0 when the log is empty.
    pub fn last_log_term(&self) -> (r: Term)
        ensures
            r == last_term_of(self.log@),
    {
        if self.log.len() == 0 {
            0
        } else {
            self.log[self.log.len() - 1].term
        }
    }

    /// The entry at `index`: the sentinel (term 0, no command) for index 0,
    /// otherwise the first entry of the log that carries `index`.
    pub fn get_entry(&self, index: Index) -> (r: Option<LogEntry>)
        ensures
            r == entry_at(self.log@, index),
    {
        if index == 0 {
            return Some(LogEntry::sentinel());
        }
        match find_with_index(&self.log, index) {
            Some(i) => Some(self.log[i].clone()),
            None => None,
        }
    }
}

} // verus!
