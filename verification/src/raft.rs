//! The decisions of the Raft protocol, as steps on a node's state.
//!
//! Each step takes the node's state and an event (a request, a response, a
//! command) and returns the reply or the action to perform. Persisting the
//! term and the vote, sending messages and running timers are left to the
//! caller, which performs them between steps in the order the protocol
//! requires.

use crate::error::RaftError;
use crate::message::{AppendEntriesRequest, AppendEntriesResponse, RequestVoteRequest,
    RequestVoteResponse};
use crate::node::{entry_at, find_with_index, first_with_index, last_index_of, last_term_of,
    NodeState, Role};
use crate::types::{Command, Index, LogEntry, NodeId, Term};
use vstd::prelude::*;

verus! {

/// The entries of `log` whose index is below `bound`, in order.
pub open spec fn keep_below(log: Seq<LogEntry>, bound: int) -> Seq<LogEntry>
    decreases log.len(),
{
    if log.len() == 0 {
        Seq::empty()
    } else {
        let kept = keep_below(log.drop_last(), bound);
        if (log.last().index as int) < bound {
            kept.push(log.last())
        } else {
            kept
        }
    }
}

/// Every entry kept below `bound` has an index below `bound`.
pub proof fn lemma_keep_below_bound(log: Seq<LogEntry>, bound: int)
    ensures
        forall|i: int|
            0 <= i < keep_below(log, bound).len() ==> (#[trigger] keep_below(log, bound)[i]).index
                < bound,
    decreases log.len(),
{
    if log.len() > 0 {
        lemma_keep_below_bound(log.drop_last(), bound);
    }
}

/// Keeps the entries of `log` whose index is below `limit` (or at most
/// `limit` when `inclusive`), in order.
pub fn retain_below(log: &mut Vec<LogEntry>, limit: Index, inclusive: bool)
    ensures
        final(log)@ == keep_below(old(log)@, if inclusive { limit + 1 } else { limit as int }),
{
    let ghost bound: int = if inclusive { limit + 1 } else { limit as int };
    let mut kept: Vec<LogEntry> = Vec::new();
    let mut i: usize = 0;
    while i < log.len()
        invariant
            i <= log@.len(),
            log@ == old(log)@,
            bound == (if inclusive { limit + 1 } else { limit as int }),
            kept@ == keep_below(log@.take(i as int), bound),
        decreases log@.len() - i,
    {
        let keep = if inclusive { log[i].index <= limit } else { log[i].index < limit };
        proof {
            assert(log@.take(i as int + 1).drop_last() =~= log@.take(i as int));
        }
        if keep {
            kept.push(log[i].clone());
        }
        i = i + 1;
    }
    assert(log@.take(i as int) =~= log@);
    *log = kept;
}

/// How the term carried by an incoming request compares with the node's.
#[derive(Debug, Clone, Copy, PartialEq, Eq, Structural)]
pub enum TermCheck {
    /// The request is from an older term: it is refused, nothing changes.
    Stale,
    /// The request is from the node's own term.
    Current,
    /// The request is from a newer term: the node adopted it, stepped down
    /// to follower and forgot its vote. The new term and the cleared vote
    /// must be persisted before going on.
    Newer,
}

/// From `a` to `b` the term only grew, and within one term a vote once
/// given was kept.
pub open spec fn vote_kept(a: NodeState, b: NodeState) -> bool {
    ||| a.current_term < b.current_term
    ||| (a.current_term == b.current_term && (a.voted_for is Some ==> b.voted_for
        == a.voted_for))
}

/// A chain of steps that each keep the vote keeps it as a whole.
pub proof fn lemma_vote_kept_trans(a: NodeState, b: NodeState, c: NodeState)
    requires
        vote_kept(a, b),
        vote_kept(b, c),
    ensures
        vote_kept(a, c),
{
}

/// A node grants its vote in a term to one candidate at most: once it has
/// voted for `first` in term `t`, any later state of the same term that
/// was reached by vote-keeping steps can only grant the vote to `first`.
pub proof fn lemma_one_vote_per_term(voted: NodeState, later: NodeState, candidate: NodeId)
    requires
        voted.voted_for is Some,
        vote_kept(voted, later),
        later.current_term == voted.current_term,
        later.voted_for is None || later.voted_for == Some(candidate),
    ensures
        candidate == voted.voted_for->0,
{
}

/// Whether a node in state `s` grants its vote for `req`: the candidate's
/// log is at least as up to date as the node's, and the node has not voted
/// in this term or has voted for this very candidate.
pub open spec fn grants_vote(s: NodeState, req: RequestVoteRequest) -> bool {
    candidate_up_to_date(s.log@, req.last_log_index, req.last_log_term) && (s.voted_for is None
        || s.voted_for == Some(req.candidate_id))
}

/// Once a node has granted its vote to one candidate, no other candidate
/// gets it in the same term: after a grant to `first`, any state of the
/// same term reached by vote-keeping steps refuses a request from another
/// candidate.
pub proof fn lemma_no_vote_for_second_candidate(
    granted: NodeState,
    later: NodeState,
    first: RequestVoteRequest,
    second: RequestVoteRequest,
)
    requires
        granted.voted_for == Some(first.candidate_id),
        vote_kept(granted, later),
        later.current_term == granted.current_term,
        second.candidate_id != first.candidate_id,
    ensures
        !grants_vote(later, second),
{
}

/// The log of `log` agrees with a leader's at `prev_index`, `prev_term`.
pub open spec fn log_matches(log: Seq<LogEntry>, prev_index: Index, prev_term: Term) -> bool {
    prev_index == 0 || (entry_at(log, prev_index) matches Some(e) && e.term == prev_term)
}

/// When the log agrees with a leader: at index 0 always; at any other
/// index exactly when the log holds an entry there and that entry's term is
/// the leader's term. An entry of any other term, older or newer, or no
/// entry at all, means disagreement, and the append request is refused
/// with the log left unchanged.
pub proof fn lemma_log_agreement(log: Seq<LogEntry>, prev_index: Index, prev_term: Term)
    ensures
        prev_index == 0 ==> log_matches(log, prev_index, prev_term),
        prev_index > 0 && first_with_index(log, prev_index) is None ==> !log_matches(
            log,
            prev_index,
            prev_term,
        ),
        forall|e: LogEntry|
            prev_index > 0 && first_with_index(log, prev_index) == Some(e) ==> (log_matches(
                log,
                prev_index,
                prev_term,
            ) <==> e.term == prev_term),
        forall|e: LogEntry|
            prev_index > 0 && first_with_index(log, prev_index) == Some(e) && e.term != prev_term
                ==> !log_matches(log, prev_index, prev_term),
{
}

/// In a well-indexed log, the leader's previous entry agrees exactly when
/// it stands within the log and its term is the leader's.
pub proof fn lemma_log_agreement_by_position(log: Seq<LogEntry>, prev_index: Index, prev_term: Term)
    requires
        well_indexed(log),
        prev_index > 0,
    ensures
        log_matches(log, prev_index, prev_term) <==> (prev_index <= log.len() && log[prev_index
            - 1].term == prev_term),
{
    lemma_entry_at_well_indexed(log, prev_index);
}

/// How two logs are compared when voting: a candidate whose last term is
/// newer than the voter's is up to date whatever its last index; one whose
/// last term is older never is; with equal last terms, the candidate is up
/// to date exactly when its last index is at least the voter's.
pub proof fn lemma_up_to_date_order(log: Seq<LogEntry>, last_log_index: Index, last_log_term: Term)
    ensures
        last_log_term > last_term_of(log) ==> candidate_up_to_date(
            log,
            last_log_index,
            last_log_term,
        ),
        last_log_term < last_term_of(log) ==> !candidate_up_to_date(
            log,
            last_log_index,
            last_log_term,
        ),
        last_log_term == last_term_of(log) ==> (candidate_up_to_date(
            log,
            last_log_index,
            last_log_term,
        ) <==> last_log_index >= last_index_of(log)),
{
}

/// A node that has not voted in its term grants its vote to a candidate
/// whose last term is newer than its own, whatever the candidate's last
/// index; and it refuses every candidate whose last term is older.
pub proof fn lemma_vote_for_newer_log(s: NodeState, req: RequestVoteRequest)
    ensures
        s.voted_for is None && req.last_log_term > last_term_of(s.log@) ==> grants_vote(s, req),
        req.last_log_term < last_term_of(s.log@) ==> !grants_vote(s, req),
{
}

/// The log after receiving `e`: an entry that conflicts with `e` (same index,
/// other term) is dropped with everything from `e`'s index on, then `e` is
/// appended; an entry that agrees is kept; a missing one is appended.
pub open spec fn merge_entry(log: Seq<LogEntry>, e: LogEntry) -> Seq<LogEntry> {
    match entry_at(log, e.index) {
        Some(x) => if x.term != e.term {
            keep_below(log, e.index as int).push(e)
        } else {
            log
        },
        None => log.push(e),
    }
}

/// The log after receiving `entries` one after another.
pub open spec fn merge_entries(log: Seq<LogEntry>, entries: Seq<LogEntry>) -> Seq<LogEntry>
    decreases entries.len(),
{
    if entries.len() == 0 {
        log
    } else {
        merge_entries(merge_entry(log, entries[0]), entries.drop_first())
    }
}

/// Position `i` of `log` holds the entry of index `i + 1`.
pub open spec fn well_indexed(log: Seq<LogEntry>) -> bool {
    forall|i: int| 0 <= i < log.len() ==> #[trigger] log[i].index == i + 1
}

/// `entries` carry the indices that follow `prev`, in order.
pub open spec fn consecutive_from(entries: Seq<LogEntry>, prev: Index) -> bool {
    forall|j: int| 0 <= j < entries.len() ==> #[trigger] entries[j].index == prev + 1 + j
}

/// In a well-indexed log, the entry reported at index `k >= 1` is the one
/// at position `k - 1`.
pub proof fn lemma_entry_at_well_indexed(log: Seq<LogEntry>, k: Index)
    requires
        well_indexed(log),
        k >= 1,
    ensures
        first_with_index(log, k) == if k <= log.len() {
            Some(log[k - 1])
        } else {
            None::<LogEntry>
        },
{
    if k <= log.len() {
        assert(crate::node::is_first_with_index(log, k, k - 1));
        let c = choose|c: int| crate::node::is_first_with_index(log, k, c);
        assert(log[c].index == c + 1);
    } else {
        assert forall|c: int| !crate::node::is_first_with_index(log, k, c) by {
            if 0 <= c < log.len() {
                assert(log[c].index == c + 1);
            }
        }
    }
}

/// In a well-indexed log, the entries below index `k` are its first
/// `k - 1` entries.
pub proof fn lemma_keep_below_well_indexed(log: Seq<LogEntry>, k: int)
    requires
        well_indexed(log),
        k >= 1,
    ensures
        keep_below(log, k) == log.take(if k - 1 <= log.len() {
            k - 1
        } else {
            log.len() as int
        }),
    decreases log.len(),
{
    if log.len() > 0 {
        let dl = log.drop_last();
        assert(well_indexed(dl)) by {
            assert forall|i: int| 0 <= i < dl.len() implies #[trigger] dl[i].index == i + 1 by {
                assert(dl[i] == log[i]);
            }
        }
        lemma_keep_below_well_indexed(dl, k);
        assert(log.last().index == log.len());
        if (log.len() as int) < k {
            assert(dl.take(dl.len() as int).push(log.last()) =~= log.take(log.len() as int));
        } else {
            assert(dl.take(k - 1) =~= log.take(k - 1));
        }
    } else {
        assert(keep_below(log, k) =~= log.take(0));
    }
}

/// Receiving entries that follow position `base` of a well-indexed log
/// that reaches at least `base` keeps the log well-indexed, keeps its first
/// `base` entries, and leaves each received entry's term at its position.
pub proof fn lemma_merge_consecutive(cur: Seq<LogEntry>, es: Seq<LogEntry>, base: int)
    requires
        well_indexed(cur),
        0 <= base <= cur.len(),
        forall|j: int| 0 <= j < es.len() ==> #[trigger] es[j].index == base + 1 + j,
        base + es.len() <= u64::MAX,
    ensures
        well_indexed(merge_entries(cur, es)),
        merge_entries(cur, es).len() >= base + es.len(),
        merge_entries(cur, es).take(base) == cur.take(base),
        forall|j: int|
            0 <= j < es.len() ==> #[trigger] merge_entries(cur, es)[base + j].term == es[j].term,
    decreases es.len(),
{
    if es.len() > 0 {
        let e = es[0];
        let k = (base + 1) as Index;
        assert(e.index == k);
        lemma_entry_at_well_indexed(cur, k);
        let c1 = merge_entry(cur, e);
        if k <= cur.len() {
            if cur[k - 1].term != e.term {
                lemma_keep_below_well_indexed(cur, k as int);
                assert(c1 == cur.take(base).push(e));
            } else {
                assert(c1 == cur);
            }
        } else {
            assert(c1 == cur.push(e));
        }
        assert(well_indexed(c1)) by {
            assert forall|i: int| 0 <= i < c1.len() implies #[trigger] c1[i].index == i + 1 by {
                if i < base {
                    assert(c1[i] == cur[i]);
                } else if i > base {
                    assert(c1 == cur);
                }
            }
        }
        assert(c1.len() >= base + 1);
        assert(c1.take(base) =~= cur.take(base));
        assert(c1[base].term == e.term);
        let rest = es.drop_first();
        assert forall|j: int| 0 <= j < rest.len() implies #[trigger] rest[j].index == base + 1 + 1
            + j by {
            assert(rest[j] == es[j + 1]);
        }
        lemma_merge_consecutive(c1, rest, base + 1);
        let r = merge_entries(cur, es);
        assert(r == merge_entries(c1, rest));
        assert(r.take(base + 1)[base] == r[base]);
        assert(r.take(base) =~= r.take(base + 1).take(base));
        assert(c1.take(base + 1).take(base) =~= c1.take(base));
        assert(r[base] == c1[base]);
        assert forall|j: int| 0 <= j < es.len() implies #[trigger] r[base + j].term == es[j].term by {
            if j > 0 {
                assert(rest[j - 1] == es[j]);
                assert(r[base + 1 + (j - 1)].term == rest[j - 1].term);
            }
        }
    } else {
        assert(merge_entries(cur, es) == cur);
    }
}

/// The log matching step of Raft: when a well-indexed log agrees with the
/// leader at `prev`, receiving entries that follow `prev` yields a
/// well-indexed log that keeps the first `prev` entries and holds, at each
/// received index, an entry of the received term.
pub proof fn lemma_append_entries_log_matching(
    log: Seq<LogEntry>,
    prev: Index,
    prev_term: Term,
    entries: Seq<LogEntry>,
)
    requires
        well_indexed(log),
        log_matches(log, prev, prev_term),
        consecutive_from(entries, prev),
        prev + entries.len() <= u64::MAX,
    ensures
        well_indexed(merge_entries(log, entries)),
        merge_entries(log, entries).len() >= prev + entries.len(),
        merge_entries(log, entries).take(prev as int) == log.take(prev as int),
        forall|j: int|
            0 <= j < entries.len() ==> #[trigger] merge_entries(log, entries)[prev + j].index
                == entries[j].index && merge_entries(log, entries)[prev + j].term == entries[j].term,
{
    if prev > 0 {
        lemma_entry_at_well_indexed(log, prev);
    }
    lemma_merge_consecutive(log, entries, prev as int);
    let r = merge_entries(log, entries);
    assert forall|j: int| 0 <= j < entries.len() implies #[trigger] r[prev + j].index
        == entries[j].index && r[prev + j].term == entries[j].term by {
        assert(r[prev + j].index == prev + j + 1);
    }
}

/// The commit index after a leader announced `leader_commit`.
pub open spec fn follow_commit(commit: Index, leader_commit: Index, log: Seq<LogEntry>) -> Index {
    if leader_commit > commit {
        if leader_commit <= last_index_of(log) {
            leader_commit
        } else {
            last_index_of(log)
        }
    } else {
        commit
    }
}

/// A candidate's log is at least as up to date as `log`.
pub open spec fn candidate_up_to_date(
    log: Seq<LogEntry>,
    last_log_index: Index,
    last_log_term: Term,
) -> bool {
    !(last_log_term < last_term_of(log) || (last_log_term == last_term_of(log) && last_log_index
        < last_index_of(log)))
}

/// The number of positive answers that wins a decision among `peers`
/// peers.
pub open spec fn quorum_of(peers: nat) -> nat {
    peers / 2 + 1
}

/// The number of positive answers a node waits for from its peers.
pub fn quorum_for_peers(peers: usize) -> (r: usize)
    ensures
        r == quorum_of(peers as nat),
{
    peers / 2 + 1
}

/// The entries of `log` whose index is at least `from`, in order.
pub open spec fn entries_from_index(log: Seq<LogEntry>, from: Index) -> Seq<LogEntry>
    decreases log.len(),
{
    if log.len() == 0 {
        Seq::empty()
    } else {
        let kept = entries_from_index(log.drop_last(), from);
        if log.last().index >= from {
            kept.push(log.last())
        } else {
            kept
        }
    }
}

/// The term of the first entry of `log` that carries `index`, or 0.
pub open spec fn term_at_or_zero(log: Seq<LogEntry>, index: Index) -> Term {
    match first_with_index(log, index) {
        Some(e) => e.term,
        None => 0,
    }
}

impl NodeState {
    /// Compares the term of an incoming request with the node's own and
    /// adopts it when it is newer.
    pub fn observe_term(&mut self, term: Term) -> (r: TermCheck)
        ensures
            r == (if term < old(self).current_term {
                TermCheck::Stale
            } else if term == old(self).current_term {
                TermCheck::Current
            } else {
                TermCheck::Newer
            }),
            r == TermCheck::Newer ==> {
                &&& final(self).current_term == term
                &&& final(self).role == Role::Follower
                &&& final(self).voted_for is None
            },
            r != TermCheck::Newer ==> {
                &&& final(self).current_term == old(self).current_term
                &&& final(self).role == old(self).role
                &&& final(self).voted_for == old(self).voted_for
            },
            final(self).current_term >= old(self).current_term,
            vote_kept(*old(self), *final(self)),
            final(self).id == old(self).id,
            final(self).log == old(self).log,
            final(self).commit_index == old(self).commit_index,
            final(self).last_applied == old(self).last_applied,
            final(self).snapshot == old(self).snapshot,
    {
        if term < self.current_term {
            TermCheck::Stale
        } else if term == self.current_term {
            TermCheck::Current
        } else {
            self.current_term = term;
            self.role = Role::Follower;
            self.voted_for = None;
            TermCheck::Newer
        }
    }

    /// The refusal sent for an append request from an older term.
    pub fn reject_stale_append(&self) -> (r: AppendEntriesResponse)
        ensures
            r == (AppendEntriesResponse {
                term: self.current_term,
                success: false,
                conflict_index: None,
                conflict_term: None,
            }),
    {
        AppendEntriesResponse {
            term: self.current_term,
            success: false,
            conflict_index: None,
            conflict_term: None,
        }
    }

    /// The refusal sent for a vote request from an older term.
    pub fn reject_stale_vote(&self) -> (r: RequestVoteResponse)
        ensures
            r == (RequestVoteResponse { term: self.current_term, vote_granted: false }),
    {
        RequestVoteResponse { term: self.current_term, vote_granted: false }
    }

    /// Whether the log agrees with a leader's at `prev_log_index`: index 0
    /// always does; otherwise the entry there must carry `prev_log_term`.
    pub fn match_log_entry(&self, prev_log_index: Index, prev_log_term: Term) -> (r: bool)
        ensures
            r == log_matches(self.log@, prev_log_index, prev_log_term),
    {
        if prev_log_index == 0 {
            return true;
        }
        match self.get_entry(prev_log_index) {
            Some(e) => e.term == prev_log_term,
            None => false,
        }
    }

    /// Receives one entry from a leader.
    fn merge_one(&mut self, entry: LogEntry)
        ensures
            final(self).log@ == merge_entry(old(self).log@, entry),
            final(self).id == old(self).id,
            final(self).role == old(self).role,
            final(self).current_term == old(self).current_term,
            final(self).voted_for == old(self).voted_for,
            final(self).commit_index == old(self).commit_index,
            final(self).last_applied == old(self).last_applied,
            final(self).snapshot == old(self).snapshot,
    {
        match self.get_entry(entry.index) {
            Some(existing) => {
                if existing.term != entry.term {
                    retain_below(&mut self.log, entry.index, false);
                    self.log.push(entry);
                }
            },
            None => {
                self.log.push(entry);
            },
        }
    }

    /// Handles an append request once its term has been checked (and, if
    /// it was newer, persisted).
    ///
    /// When the log does not agree with the leader's at the request's
    /// previous index, nothing changes and the refusal names the node's last
    /// index and last term. Otherwise the entries are received in order,
    /// the commit index follows the leader's (bounded by the last index of
    /// the log), and the request is acknowledged.
    pub fn accept_append_entries(&mut self, req: AppendEntriesRequest) -> (r:
        AppendEntriesResponse)
        ensures
            final(self).id == old(self).id,
            final(self).role == old(self).role,
            final(self).current_term == old(self).current_term,
            final(self).voted_for == old(self).voted_for,
            final(self).last_applied == old(self).last_applied,
            final(self).snapshot == old(self).snapshot,
            if !log_matches(old(self).log@, req.prev_log_index, req.prev_log_term) {
                &&& final(self).log@ == old(self).log@
                &&& final(self).commit_index == old(self).commit_index
                &&& r == AppendEntriesResponse {
                    term: old(self).current_term,
                    success: false,
                    conflict_index: Some(last_index_of(old(self).log@)),
                    conflict_term: if old(self).log@.len() == 0 {
                        None
                    } else {
                        Some(old(self).log@.last().term)
                    },
                }
            } else {
                &&& final(self).log@ == merge_entries(old(self).log@, req.entries@)
                &&& final(self).commit_index == follow_commit(
                    old(self).commit_index,
                    req.leader_commit,
                    final(self).log@,
                )
                &&& r == AppendEntriesResponse {
                    term: old(self).current_term,
                    success: true,
                    conflict_index: None,
                    conflict_term: None,
                }
            },
    {
        if !self.match_log_entry(req.prev_log_index, req.prev_log_term) {
            let conflict_index = self.last_log_index();
            let conflict_term = if self.log.len() == 0 {
                None
            } else {
                Some(self.log[self.log.len() - 1].term)
            };
            return AppendEntriesResponse {
                term: self.current_term,
                success: false,
                conflict_index: Some(conflict_index),
                conflict_term,
            };
        }
        let entries = req.entries;
        assert(entries@.skip(0) =~= entries@);
        let mut i: usize = 0;
        while i < entries.len()
            invariant
                i <= entries@.len(),
                entries@ == req.entries@,
                merge_entries(old(self).log@, entries@) == merge_entries(
                    self.log@,
                    entries@.skip(i as int),
                ),
                self.id == old(self).id,
                self.role == old(self).role,
                self.current_term == old(self).current_term,
                self.voted_for == old(self).voted_for,
                self.commit_index == old(self).commit_index,
                self.last_applied == old(self).last_applied,
                self.snapshot == old(self).snapshot,
            decreases entries@.len() - i,
        {
            proof {
                assert(entries@.skip(i as int)[0] == entries@[i as int]);
                assert(entries@.skip(i as int).drop_first() =~= entries@.skip(i as int + 1));
            }
            self.merge_one(entries[i].clone());
            i = i + 1;
        }
        assert(entries@.skip(i as int) =~= Seq::<LogEntry>::empty());
        if req.leader_commit > self.commit_index {
            let last = self.last_log_index();
            self.commit_index = if req.leader_commit <= last {
                req.leader_commit
            } else {
                last
            };
        }
        AppendEntriesResponse {
            term: self.current_term,
            success: true,
            conflict_index: None,
            conflict_term: None,
        }
    }

    /// Decides a vote request once its term has been checked (and, if it
    /// was newer, persisted).
    ///
    /// The vote is refused when the candidate's log is behind the node's;
    /// otherwise it is granted when the node has not voted in this term or
    /// has voted for this very candidate, and the node then records its
    /// vote (which must be persisted, and the election timer reset, before
    /// the answer is sent).
    pub fn decide_vote(&mut self, req: &RequestVoteRequest) -> (r: RequestVoteResponse)
        ensures
            r.term == old(self).current_term,
            r.vote_granted == grants_vote(*old(self), *req),
            final(self).voted_for == (if r.vote_granted {
                Some(req.candidate_id)
            } else {
                old(self).voted_for
            }),
            vote_kept(*old(self), *final(self)),
            final(self).id == old(self).id,
            final(self).role == old(self).role,
            final(self).current_term == old(self).current_term,
            final(self).log == old(self).log,
            final(self).commit_index == old(self).commit_index,
            final(self).last_applied == old(self).last_applied,
            final(self).snapshot == old(self).snapshot,
    {
        let last_log_index = self.last_log_index();
        let last_log_term = self.last_log_term();
        if req.last_log_term < last_log_term || (req.last_log_term == last_log_term
            && req.last_log_index < last_log_index) {
            return RequestVoteResponse { term: self.current_term, vote_granted: false };
        }
        let may_vote = match self.voted_for {
            None => true,
            Some(c) => c == req.candidate_id,
        };
        if may_vote {
            self.voted_for = Some(req.candidate_id);
            RequestVoteResponse { term: self.current_term, vote_granted: true }
        } else {
            RequestVoteResponse { term: self.current_term, vote_granted: false }
        }
    }

    /// Starts an election: the node moves to the next term, becomes a
    /// candidate and votes for itself (the term and the vote must then be
    /// persisted), and returns the request to send to every peer.
    pub fn begin_election(&mut self) -> (r: RequestVoteRequest)
        requires
            old(self).current_term < u64::MAX,
        ensures
            final(self).current_term == old(self).current_term + 1,
            final(self).role == Role::Candidate,
            final(self).voted_for == Some(old(self).id),
            r == (RequestVoteRequest {
                term: final(self).current_term,
                candidate_id: old(self).id,
                last_log_index: last_index_of(old(self).log@),
                last_log_term: last_term_of(old(self).log@),
            }),
            vote_kept(*old(self), *final(self)),
            final(self).id == old(self).id,
            final(self).log == old(self).log,
            final(self).commit_index == old(self).commit_index,
            final(self).last_applied == old(self).last_applied,
            final(self).snapshot == old(self).snapshot,
    {
        let last_log_index = self.last_log_index();
        let last_log_term = self.last_log_term();
        self.current_term = self.current_term + 1;
        self.role = Role::Candidate;
        self.voted_for = Some(self.id);
        RequestVoteRequest {
            term: self.current_term,
            candidate_id: self.id,
            last_log_index,
            last_log_term,
        }
    }

    /// Makes the node the leader of its current term.
    pub fn become_leader(&mut self)
        ensures
            final(self).role == Role::Leader,
            final(self).id == old(self).id,
            final(self).current_term == old(self).current_term,
            final(self).voted_for == old(self).voted_for,
            final(self).log == old(self).log,
            final(self).commit_index == old(self).commit_index,
            final(self).last_applied == old(self).last_applied,
            final(self).snapshot == old(self).snapshot,
    {
        self.role = Role::Leader;
    }

    /// Steps down when a peer answered a request sent in `sent_term` with a
    /// newer term than the node's: the node adopts that term, becomes a
    /// follower and forgets its vote. Returns whether it did (the new term
    /// and the cleared vote are then to be persisted).
    pub fn step_down_if_newer(&mut self, sent_term: Term, reply_term: Term) -> (r: bool)
        ensures
            r == (reply_term > sent_term && reply_term > old(self).current_term),
            r ==> {
                &&& final(self).current_term == reply_term
                &&& final(self).role == Role::Follower
                &&& final(self).voted_for is None
            },
            !r ==> {
                &&& final(self).current_term == old(self).current_term
                &&& final(self).role == old(self).role
                &&& final(self).voted_for == old(self).voted_for
            },
            vote_kept(*old(self), *final(self)),
            final(self).id == old(self).id,
            final(self).log == old(self).log,
            final(self).commit_index == old(self).commit_index,
            final(self).last_applied == old(self).last_applied,
            final(self).snapshot == old(self).snapshot,
    {
        if reply_term > sent_term && reply_term > self.current_term {
            self.current_term = reply_term;
            self.role = Role::Follower;
            self.voted_for = None;
            true
        } else {
            false
        }
    }

    /// Counts the answer to a vote request of the election held in
    /// `election_term`. A granted vote counts while the node is still a
    /// candidate, and the node becomes leader once `votes` reaches `quorum`.
    /// An answer from a newer term makes the node step down; the result
    /// says whether it did (the new term and the cleared vote are then to
    /// be persisted).
    pub fn on_vote_response(
        &mut self,
        votes: &mut usize,
        quorum: usize,
        election_term: Term,
        resp: &RequestVoteResponse,
    ) -> (r: bool)
        requires
            *old(votes) < usize::MAX,
        ensures
            ({
                let counted = resp.vote_granted && old(self).role == Role::Candidate;
                let won = counted && *old(votes) + 1 >= quorum;
                let role_after_count = if won {
                    Role::Leader
                } else {
                    old(self).role
                };
                &&& *final(votes) == if counted {
                    *old(votes) + 1
                } else {
                    *old(votes) as int
                }
                &&& r == (resp.term > election_term && resp.term > old(self).current_term)
                &&& r ==> final(self).current_term == resp.term && final(self).role
                    == Role::Follower && final(self).voted_for is None
                &&& !r ==> final(self).current_term == old(self).current_term && final(self).role
                    == role_after_count && final(self).voted_for == old(self).voted_for
            }),
            vote_kept(*old(self), *final(self)),
            final(self).id == old(self).id,
            final(self).log == old(self).log,
            final(self).commit_index == old(self).commit_index,
            final(self).last_applied == old(self).last_applied,
            final(self).snapshot == old(self).snapshot,
    {
        if resp.vote_granted && self.role == Role::Candidate {
            *votes = *votes + 1;
            if *votes >= quorum && self.role == Role::Candidate {
                self.become_leader();
            }
        }
        self.step_down_if_newer(election_term, resp.term)
    }

    /// Appends a client command to the leader's log, at the index after its
    /// last one and with its current term, and returns that index. A node
    /// that is not the leader refuses.
    pub fn append_command(&mut self, command: Command) -> (r: Result<Index, RaftError>)
        requires
            old(self).role == Role::Leader ==> last_index_of(old(self).log@) < u64::MAX,
        ensures
            old(self).role != Role::Leader ==> (r matches Err(RaftError::NotLeader) && *final(self)
                == *old(self)),
            old(self).role == Role::Leader ==> {
                &&& r == Ok::<Index, RaftError>((last_index_of(old(self).log@) + 1) as Index)
                &&& final(self).log@ == old(self).log@.push(
                    LogEntry {
                        term: old(self).current_term,
                        index: (last_index_of(old(self).log@) + 1) as Index,
                        command,
                    },
                )
                &&& final(self).id == old(self).id
                &&& final(self).role == old(self).role
                &&& final(self).current_term == old(self).current_term
                &&& final(self).voted_for == old(self).voted_for
                &&& final(self).commit_index == old(self).commit_index
                &&& final(self).last_applied == old(self).last_applied
                &&& final(self).snapshot == old(self).snapshot
            },
    {
        if self.role != Role::Leader {
            return Err(RaftError::NotLeader);
        }
        let next_index = self.last_log_index() + 1;
        let entry = LogEntry { term: self.current_term, index: next_index, command };
        self.log.push(entry);
        Ok(next_index)
    }

    /// The request that replicates the entries from `index` on to the
    /// peers: none when the log holds no such entry. Its previous index is
    /// the one before `index` (0 for `index` 0), with the term of the first
    /// entry carrying it (0 when there is none).
    pub fn replication_request(&self, index: Index) -> (r: Option<AppendEntriesRequest>)
        ensures
            entries_from_index(self.log@, index).len() == 0 ==> r is None,
            entries_from_index(self.log@, index).len() > 0 ==> (r matches Some(req) && {
                let prev = if index == 0 {
                    0
                } else {
                    (index - 1) as Index
                };
                &&& req.term == self.current_term
                &&& req.leader_id == self.id
                &&& req.prev_log_index == prev
                &&& req.prev_log_term == term_at_or_zero(self.log@, prev)
                &&& req.entries@ == entries_from_index(self.log@, index)
                &&& req.leader_commit == self.commit_index
            }),
    {
        let mut entries: Vec<LogEntry> = Vec::new();
        let mut i: usize = 0;
        while i < self.log.len()
            invariant
                i <= self.log@.len(),
                entries@ == entries_from_index(self.log@.take(i as int), index),
            decreases self.log@.len() - i,
        {
            proof {
                assert(self.log@.take(i as int + 1).drop_last() =~= self.log@.take(i as int));
            }
            if self.log[i].index >= index {
                entries.push(self.log[i].clone());
            }
            i = i + 1;
        }
        assert(self.log@.take(i as int) =~= self.log@);
        if entries.len() == 0 {
            return None;
        }
        let prev_log_index = index.saturating_sub(1);
        let prev_log_term = match find_with_index(&self.log, prev_log_index) {
            Some(j) => self.log[j].term,
            None => 0,
        };
        Some(
            AppendEntriesRequest {
                term: self.current_term,
                leader_id: self.id,
                prev_log_index,
                prev_log_term,
                entries,
                leader_commit: self.commit_index,
            },
        )
    }

    /// Counts the answer to an append request for the entries up to
    /// `index`, sent in `request_term`. A success counts while the node is
    /// still the leader, and once `acks` reaches `quorum` the commit index
    /// rises to `index` (it never falls). An answer from a newer term makes
    /// the node step down; the result says whether it did (the new term and
    /// the cleared vote are then to be persisted).
    pub fn on_append_response(
        &mut self,
        acks: &mut usize,
        quorum: usize,
        index: Index,
        request_term: Term,
        resp: &AppendEntriesResponse,
    ) -> (r: bool)
        requires
            *old(acks) < usize::MAX,
        ensures
            ({
                let counted = resp.success && old(self).role == Role::Leader;
                let reached = counted && *old(acks) + 1 >= quorum;
                &&& *final(acks) == if counted {
                    *old(acks) + 1
                } else {
                    *old(acks) as int
                }
                &&& final(self).commit_index == if reached && index > old(self).commit_index {
                    index
                } else {
                    old(self).commit_index
                }
                &&& r == (resp.term > request_term && resp.term > old(self).current_term)
                &&& r ==> final(self).current_term == resp.term && final(self).role
                    == Role::Follower && final(self).voted_for is None
                &&& !r ==> final(self).current_term == old(self).current_term && final(self).role
                    == old(self).role && final(self).voted_for == old(self).voted_for
            }),
            final(self).commit_index >= old(self).commit_index,
            vote_kept(*old(self), *final(self)),
            final(self).id == old(self).id,
            final(self).log == old(self).log,
            final(self).last_applied == old(self).last_applied,
            final(self).snapshot == old(self).snapshot,
    {
        if resp.success && self.role == Role::Leader {
            *acks = *acks + 1;
            let reached = *acks >= quorum;
            if reached && self.role == Role::Leader {
                if index > self.commit_index {
                    self.commit_index = index;
                }
            }
        }
        self.step_down_if_newer(request_term, resp.term)
    }
}

} // verus!
