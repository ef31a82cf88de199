//! The messages that travel between nodes, and the client-side rules for
//! reading the answers.

use crate::error::{NetworkError, RaftError};
use std::collections::HashMap;
use crate::message::{AppendEntriesRequest, AppendEntriesResponse, InstallSnapshotRequest,
    InstallSnapshotResponse, RequestVoteRequest, RequestVoteResponse};
use crate::types::{LogEntry, NodeId, Term};
use vstd::prelude::*;

verus! {

/// Every message of the node-to-node protocol.
#[derive(Debug, Clone)]
pub enum RpcMessage {
    RequestVote(RequestVoteRequest),
    RequestVoteResponse(RequestVoteResponse),
    AppendEntries(AppendEntriesRequest),
    AppendEntriesResponse(AppendEntriesResponse),
    InstallSnapshot(InstallSnapshotRequest),
    InstallSnapshotResponse(InstallSnapshotResponse),
}

/// A request, in the flat form of the compact protocol.
#[derive(Debug, Clone)]
pub enum Request {
    AppendEntries {
        term: Term,
        leader_id: NodeId,
        prev_log_index: u64,
        prev_log_term: Term,
        entries: Vec<LogEntry>,
        leader_commit: u64,
    },
    Vote { term: Term, candidate_id: NodeId, last_log_index: u64, last_log_term: Term },
}

/// A response, in the flat form of the compact protocol.
#[derive(Debug, Clone, Copy, PartialEq, Eq, Structural)]
pub enum Response {
    AppendEntries { success: bool, term: Term },
    Vote { vote_granted: bool, term: Term },
}

/// The error for an answer of the wrong kind.
pub open spec fn is_unexpected_response(e: RaftError) -> bool {
    e matches RaftError::Network(m) && m@ == "Unexpected response type"@
}

fn unexpected_response() -> (e: RaftError)
    ensures
        is_unexpected_response(e),
{
    RaftError::Network("Unexpected response type".to_owned())
}

/// Sends requests to peers, giving up on a connection after a timeout.
#[derive(Debug, Clone, Copy, PartialEq, Eq, Structural)]
pub struct RpcClient {
    pub timeout_ms: u64,
}

impl RpcClient {
    pub fn new(timeout_ms: u64) -> (r: Self)
        ensures
            r.timeout_ms == timeout_ms,
    {
        RpcClient { timeout_ms }
    }

    /// The answer to a vote request: it must be a vote response.
    pub fn expect_vote_response(msg: RpcMessage) -> (r: Result<RequestVoteResponse, RaftError>)
        ensures
            match msg {
                RpcMessage::RequestVoteResponse(resp) => r == Ok::<
                    RequestVoteResponse,
                    RaftError,
                >(resp),
                _ => r matches Err(e) && is_unexpected_response(e),
            },
    {
        match msg {
            RpcMessage::RequestVoteResponse(resp) => Ok(resp),
            _ => Err(unexpected_response()),
        }
    }

    /// The answer to an append request: it must be an append response.
    pub fn expect_append_response(msg: RpcMessage) -> (r: Result<AppendEntriesResponse, RaftError>)
        ensures
            match msg {
                RpcMessage::AppendEntriesResponse(resp) => r == Ok::<
                    AppendEntriesResponse,
                    RaftError,
                >(resp),
                _ => r matches Err(e) && is_unexpected_response(e),
            },
    {
        match msg {
            RpcMessage::AppendEntriesResponse(resp) => Ok(resp),
            _ => Err(unexpected_response()),
        }
    }

    /// The answer to a snapshot request: it must be a snapshot response.
    pub fn expect_install_snapshot_response(msg: RpcMessage) -> (r: Result<
        InstallSnapshotResponse,
        RaftError,
    >)
        ensures
            match msg {
                RpcMessage::InstallSnapshotResponse(resp) => r == Ok::<
                    InstallSnapshotResponse,
                    RaftError,
                >(resp),
                _ => r matches Err(e) && is_unexpected_response(e),
            },
    {
        match msg {
            RpcMessage::InstallSnapshotResponse(resp) => Ok(resp),
            _ => Err(unexpected_response()),
        }
    }
}

/// The transport that reaches peers over TCP.
#[derive(Debug, Clone, Copy, PartialEq, Eq, Structural)]
pub struct TcpTransport;

impl TcpTransport {
    pub fn new() -> (r: Self)
        ensures
            r == TcpTransport,
    {
        TcpTransport
    }
}

broadcast use vstd::std_specs::hash::group_hash_axioms;

/// The error for a peer that is not known.
pub open spec fn is_unknown_peer(e: NetworkError) -> bool {
    e matches NetworkError::Connection(m) && m@ == "Peer not found"@
}

/// The address of each known peer, by identifier. Peers are listed in the
/// order they were first added.
#[derive(Debug)]
pub struct PeerTable<A> {
    peers: HashMap<NodeId, A>,
    order: Vec<NodeId>,
}

impl<A> View for PeerTable<A> {
    type V = Map<NodeId, A>;

    closed spec fn view(&self) -> Map<NodeId, A> {
        self.peers@
    }
}

impl<A> PeerTable<A> {
    #[verifier::type_invariant]
    closed spec fn order_lists_peers(&self) -> bool {
        &&& self.order@.no_duplicates()
        &&& forall|id: NodeId| self.peers@.contains_key(id) <==> self.order@.contains(id)
    }
}

impl<A: Copy> PeerTable<A> {
    /// A table with no peer.
    pub fn new() -> (r: Self)
        ensures
            r@ == Map::<NodeId, A>::empty(),
    {
        let r = PeerTable { peers: HashMap::new(), order: Vec::new() };
        assert(r.order@ =~= Seq::<NodeId>::empty());
        r
    }

    /// Records (or replaces) the address of peer `id`.
    pub fn add_peer(&mut self, id: NodeId, addr: A)
        ensures
            final(self)@ == old(self)@.insert(id, addr),
    {
        proof {
            use_type_invariant(&*self);
        }
        let mut t = PeerTable::new();
        std::mem::swap(&mut t, self);
        proof {
            use_type_invariant(&t);
        }
        let PeerTable { mut peers, mut order } = t;
        let ghost old_order = order@;
        let ghost old_peers = peers@;
        assert(old_peers.contains_key(id) <==> old_order.contains(id));
        if !peers.contains_key(&id) {
            order.push(id);
            proof {
                assert forall|i: int, j: int|
                    0 <= i < order@.len() && 0 <= j < order@.len() && i != j implies order@[i]
                    != order@[j] by {
                    if i == old_order.len() as int {
                        assert(!old_order.contains(id));
                        assert(old_order[j] == order@[j]);
                    } else if j == old_order.len() as int {
                        assert(!old_order.contains(id));
                        assert(old_order[i] == order@[i]);
                    } else {
                        assert(old_order[i] == order@[i]);
                        assert(old_order[j] == order@[j]);
                    }
                }
                assert forall|x: NodeId| order@.contains(x) <==> (old_order.contains(x) || x == id) by {
                    if order@.contains(x) {
                        let i = choose|i: int| 0 <= i < order@.len() && order@[i] == x;
                        if i < old_order.len() {
                            assert(old_order[i] == x);
                        }
                    }
                    if old_order.contains(x) {
                        let i = choose|i: int| 0 <= i < old_order.len() && old_order[i] == x;
                        assert(order@[i] == x);
                    }
                    if x == id {
                        assert(order@[old_order.len() as int] == x);
                    }
                }
            }
        }
        peers.insert(id, addr);
        proof {
            assert(peers@ == old_peers.insert(id, addr));
            assert forall|x: NodeId| peers@.contains_key(x) <==> order@.contains(x) by {
                assert(old_peers.contains_key(x) <==> old_order.contains(x));
            }
        }
        *self = PeerTable { peers, order };
    }

    /// Forgets peer `id`.
    pub fn remove_peer(&mut self, id: NodeId)
        ensures
            final(self)@ == old(self)@.remove(id),
    {
        proof {
            use_type_invariant(&*self);
        }
        let mut t = PeerTable::new();
        std::mem::swap(&mut t, self);
        proof {
            use_type_invariant(&t);
        }
        let PeerTable { mut peers, mut order } = t;
        let ghost old_order = order@;
        let ghost old_peers = peers@;
        peers.remove(&id);
        assert(peers@ == old_peers.remove(id));
        let mut i: usize = 0;
        while i < order.len() && order[i] != id
            invariant
                i <= order@.len(),
                order@ == old_order,
                forall|j: int| 0 <= j < i ==> order@[j] != id,
            decreases order@.len() - i,
        {
            i = i + 1;
        }
        if i < order.len() {
            order.remove(i);
            proof {
                assert forall|a: int, b: int|
                    0 <= a < order@.len() && 0 <= b < order@.len() && a != b implies order@[a]
                    != order@[b] by {
                    let pa = if a < i { a } else { a + 1 };
                    let pb = if b < i { b } else { b + 1 };
                    assert(order@[a] == old_order[pa]);
                    assert(order@[b] == old_order[pb]);
                }
                assert forall|x: NodeId| order@.contains(x) <==> (old_order.contains(x) && x != id) by {
                    if order@.contains(x) {
                        let k = choose|k: int| 0 <= k < order@.len() && order@[k] == x;
                        let pk = if k < i { k } else { k + 1 };
                        assert(old_order[pk] == x);
                        assert(pk != i);
                    }
                    if old_order.contains(x) && x != id {
                        let k = choose|k: int| 0 <= k < old_order.len() && old_order[k] == x;
                        assert(old_order[i as int] == id);
                        assert(k != i);
                        let qk = if k < i { k } else { k - 1 };
                        assert(order@[qk] == x);
                    }
                }
            }
        } else {
            assert(!old_order.contains(id));
            assert(order@ == old_order);
        }
        proof {
            assert forall|x: NodeId| peers@.contains_key(x) <==> order@.contains(x) by {
                assert(old_peers.contains_key(x) <==> old_order.contains(x));
            }
        }
        *self = PeerTable { peers, order };
    }

    /// The address of peer `id`; an unknown peer is a connection error.
    pub fn lookup(&self, id: NodeId) -> (r: Result<A, NetworkError>)
        ensures
            self@.contains_key(id) ==> r == Ok::<A, NetworkError>(self@[id]),
            !self@.contains_key(id) ==> (r matches Err(e) && is_unknown_peer(e)),
    {
        match self.peers.get(&id) {
            Some(a) => Ok(*a),
            None => Err(NetworkError::Connection("Peer not found".to_owned())),
        }
    }

    /// Every known peer but `exclude`, each once, with its address, in the
    /// order the peers were first added.
    pub fn targets(&self, exclude: Option<NodeId>) -> (r: Vec<(NodeId, A)>)
        ensures
            forall|i: int|
                0 <= i < r@.len() ==> self@.contains_key(#[trigger] r@[i].0) && self@[r@[i].0]
                    == r@[i].1 && exclude != Some(r@[i].0),
            forall|id: NodeId|
                self@.contains_key(id) && exclude != Some(id) ==> exists|i: int|
                    0 <= i < r@.len() && #[trigger] r@[i].0 == id,
            forall|i: int, j: int| 0 <= i < j < r@.len() ==> r@[i].0 != r@[j].0,
    {
        proof {
            use_type_invariant(self);
        }
        let mut out: Vec<(NodeId, A)> = Vec::new();
        let mut k: usize = 0;
        while k < self.order.len()
            invariant
                k <= self.order@.len(),
                self.order@.no_duplicates(),
                forall|id: NodeId| self.peers@.contains_key(id) <==> self.order@.contains(id),
                forall|i: int|
                    0 <= i < out@.len() ==> self@.contains_key(#[trigger] out@[i].0) && self@[out@[i].0]
                        == out@[i].1 && exclude != Some(out@[i].0),
                forall|i: int|
                    0 <= i < k && exclude != Some(self.order@[i]) ==> exists|j: int|
                        0 <= j < out@.len() && #[trigger] out@[j].0 == self.order@[i],
                forall|j: int|
                    #![trigger out@[j]]
                    0 <= j < out@.len() ==> exists|i: int|
                        #![trigger self.order@[i]]
                        0 <= i < k && self.order@[i] == out@[j].0,
                forall|a: int, b: int| 0 <= a < b < out@.len() ==> out@[a].0 != out@[b].0,
            decreases self.order@.len() - k,
        {
            let id = self.order[k];
            if exclude != Some(id) {
                assert(self.order@.contains(id));
                match self.peers.get(&id) {
                    Some(a) => {
                        let ghost before = out@;
                        out.push((id, *a));
                        proof {
                            assert forall|j: int| 0 <= j < before.len() implies before[j].0 != id by {
                                let i = choose|i: int| #![trigger self.order@[i]] 0 <= i < k && self.order@[i] == before[j].0;
                                assert(self.order@[i] == before[j].0);
                                assert(i != k as int);
                            }
                            assert(out@[before.len() as int].0 == self.order@[k as int]);
                            assert forall|i: int|
                                0 <= i < k && exclude != Some(self.order@[i]) implies exists|j: int|
                                0 <= j < out@.len() && #[trigger] out@[j].0 == self.order@[i] by {
                                let j = choose|j: int|
                                    0 <= j < before.len() && #[trigger] before[j].0 == self.order@[i];
                                assert(out@[j] == before[j]);
                            }
                            assert forall|j: int|
                                #![trigger out@[j]]
                                0 <= j < out@.len() implies exists|i: int|
                                #![trigger self.order@[i]]
                                0 <= i < k + 1 && self.order@[i] == out@[j].0 by {
                                if j < before.len() {
                                    assert(out@[j] == before[j]);
                                    let i = choose|i: int|
                                        #![trigger self.order@[i]]
                                        0 <= i < k && self.order@[i] == before[j].0;
                                } else {
                                    assert(self.order@[k as int] == out@[j].0);
                                }
                            }
                        }
                    },
                    None => {
                        assert(false);
                    },
                }
            }
            k = k + 1;
        }
        proof {
            assert forall|id: NodeId| self@.contains_key(id) && exclude != Some(id) implies exists|i: int|
                0 <= i < out@.len() && #[trigger] out@[i].0 == id by {
                assert(self.order@.contains(id));
                let i = choose|i: int| 0 <= i < self.order@.len() && self.order@[i] == id;
                assert(exclude != Some(self.order@[i]));
            }
        }
        out
    }
}

} // verus!
