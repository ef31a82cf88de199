use raft_kv::error::RaftError;
use raft_kv::message::{AppendEntriesRequest, AppendEntriesResponse, RequestVoteRequest, RequestVoteResponse};
use raft_kv::node::{NodeState, Role};
use raft_kv::raft::{quorum_for_peers, TermCheck};
use raft_kv::types::{Command, LogEntry};

fn entry(index: u64, term: u64) -> LogEntry {
    LogEntry { term, index, command: Command::Noop }
}

fn node_with_log(id: u64, term: u64, log: Vec<LogEntry>) -> NodeState {
    let mut s = NodeState::new(id);
    s.current_term = term;
    s.log = log;
    s
}

fn log_shape(s: &NodeState) -> Vec<(u64, u64)> {
    s.log.iter().map(|e| (e.index, e.term)).collect()
}

fn append_req(term: u64, prev_index: u64, prev_term: u64, entries: Vec<LogEntry>, commit: u64) -> AppendEntriesRequest {
    AppendEntriesRequest { term, leader_id: 9, prev_log_index: prev_index, prev_log_term: prev_term, entries, leader_commit: commit }
}

#[test]
fn fresh_node_state() {
    let s = NodeState::default();
    assert_eq!(s.role, Role::Follower);
    assert_eq!(s.current_term, 0);
    assert_eq!(s.last_log_index(), 0);
    assert_eq!(s.last_log_term(), 0);
    assert_eq!(Role::default(), Role::Follower);
}

#[test]
fn get_entry_finds_by_index_field() {
    let s = node_with_log(1, 1, vec![entry(5, 1), entry(6, 2)]);
    assert_eq!(s.get_entry(6).unwrap().term, 2);
    assert!(s.get_entry(1).is_none());
    let z = s.get_entry(0).unwrap();
    assert_eq!((z.index, z.term), (0, 0));
    assert_eq!(s.last_log_index(), 6);
    assert_eq!(s.last_log_term(), 2);
}

#[test]
fn observe_term_classifies_and_steps_down() {
    let mut s = node_with_log(1, 5, vec![]);
    s.role = Role::Leader;
    s.voted_for = Some(1);
    assert_eq!(s.observe_term(4), TermCheck::Stale);
    assert_eq!(s.observe_term(5), TermCheck::Current);
    assert_eq!(s.role, Role::Leader);
    assert_eq!(s.observe_term(7), TermCheck::Newer);
    assert_eq!(s.current_term, 7);
    assert_eq!(s.role, Role::Follower);
    assert_eq!(s.voted_for, None);
}

#[test]
fn stale_rejections_carry_current_term() {
    let s = node_with_log(1, 3, vec![]);
    assert_eq!(s.reject_stale_append(), AppendEntriesResponse { term: 3, success: false, conflict_index: None, conflict_term: None });
    assert_eq!(s.reject_stale_vote(), RequestVoteResponse { term: 3, vote_granted: false });
}

#[test]
fn append_entries_appends_and_follows_commit() {
    let mut s = node_with_log(2, 1, vec![entry(1, 1)]);
    let r = s.accept_append_entries(append_req(1, 1, 1, vec![entry(2, 1), entry(3, 1)], 10));
    assert_eq!(r, AppendEntriesResponse { term: 1, success: true, conflict_index: None, conflict_term: None });
    assert_eq!(log_shape(&s), vec![(1, 1), (2, 1), (3, 1)]);
    assert_eq!(s.commit_index, 3);
}

#[test]
fn append_entries_rejects_mismatched_log() {
    let mut s = node_with_log(2, 2, vec![entry(1, 1), entry(2, 2)]);
    let r = s.accept_append_entries(append_req(2, 2, 1, vec![entry(3, 2)], 0));
    assert_eq!(r, AppendEntriesResponse { term: 2, success: false, conflict_index: Some(2), conflict_term: Some(2) });
    assert_eq!(log_shape(&s), vec![(1, 1), (2, 2)]);
    let mut e = node_with_log(2, 2, vec![]);
    let r = e.accept_append_entries(append_req(2, 4, 1, vec![], 0));
    assert_eq!(r, AppendEntriesResponse { term: 2, success: false, conflict_index: Some(0), conflict_term: None });
}

#[test]
fn append_entries_replaces_conflicting_suffix() {
    let mut s = node_with_log(2, 3, vec![entry(1, 1), entry(2, 1), entry(3, 1)]);
    let r = s.accept_append_entries(append_req(3, 1, 1, vec![entry(2, 3), entry(3, 3)], 1));
    assert!(r.success);
    assert_eq!(log_shape(&s), vec![(1, 1), (2, 3), (3, 3)]);
    assert_eq!(s.commit_index, 1);
}

#[test]
fn append_entries_keeps_agreeing_entries_and_commit() {
    let mut s = node_with_log(2, 1, vec![entry(1, 1), entry(2, 1)]);
    s.commit_index = 2;
    let r = s.accept_append_entries(append_req(1, 0, 0, vec![entry(1, 1)], 1));
    assert!(r.success);
    assert_eq!(log_shape(&s), vec![(1, 1), (2, 1)]);
    assert_eq!(s.commit_index, 2);
}

#[test]
fn vote_granted_once_per_term() {
    let mut s = node_with_log(1, 2, vec![entry(1, 1)]);
    let req = RequestVoteRequest { term: 2, candidate_id: 7, last_log_index: 1, last_log_term: 1 };
    assert_eq!(s.decide_vote(&req), RequestVoteResponse { term: 2, vote_granted: true });
    assert_eq!(s.voted_for, Some(7));
    assert!(s.decide_vote(&req).vote_granted);
    let other = RequestVoteRequest { candidate_id: 8, ..req };
    assert_eq!(s.decide_vote(&other), RequestVoteResponse { term: 2, vote_granted: false });
    assert_eq!(s.voted_for, Some(7));
}

#[test]
fn vote_refused_to_stale_log() {
    let mut s = node_with_log(1, 3, vec![entry(1, 1), entry(2, 3)]);
    let older_term = RequestVoteRequest { term: 3, candidate_id: 4, last_log_index: 9, last_log_term: 2 };
    assert!(!s.decide_vote(&older_term).vote_granted);
    let shorter = RequestVoteRequest { term: 3, candidate_id: 4, last_log_index: 1, last_log_term: 3 };
    assert!(!s.decide_vote(&shorter).vote_granted);
    assert_eq!(s.voted_for, None);
    let equal = RequestVoteRequest { term: 3, candidate_id: 4, last_log_index: 2, last_log_term: 3 };
    assert!(s.decide_vote(&equal).vote_granted);
}

#[test]
fn election_round_to_leadership() {
    let mut s = node_with_log(3, 4, vec![entry(1, 2)]);
    let req = s.begin_election();
    assert_eq!(req, RequestVoteRequest { term: 5, candidate_id: 3, last_log_index: 1, last_log_term: 2 });
    assert_eq!(s.role, Role::Candidate);
    assert_eq!(s.voted_for, Some(3));
    let quorum = quorum_for_peers(4);
    assert_eq!(quorum, 3);
    let mut votes = 1usize;
    let yes = RequestVoteResponse { term: 5, vote_granted: true };
    assert!(!s.on_vote_response(&mut votes, quorum, 5, &yes));
    assert_eq!((votes, s.role), (2, Role::Candidate));
    assert!(!s.on_vote_response(&mut votes, quorum, 5, &RequestVoteResponse { term: 5, vote_granted: false }));
    assert_eq!(votes, 2);
    assert!(!s.on_vote_response(&mut votes, quorum, 5, &yes));
    assert_eq!((votes, s.role), (3, Role::Leader));
    assert!(!s.on_vote_response(&mut votes, quorum, 5, &yes));
    assert_eq!(votes, 3);
}

#[test]
fn vote_response_from_newer_term_steps_down() {
    let mut s = node_with_log(3, 4, vec![]);
    s.begin_election();
    let mut votes = 1usize;
    assert!(s.on_vote_response(&mut votes, 2, 5, &RequestVoteResponse { term: 8, vote_granted: false }));
    assert_eq!((s.current_term, s.role, s.voted_for), (8, Role::Follower, None));
}

#[test]
fn append_command_requires_leadership() {
    let mut s = node_with_log(1, 2, vec![entry(1, 1)]);
    assert!(matches!(s.append_command(Command::Noop), Err(RaftError::NotLeader)));
    s.become_leader();
    let idx = s.append_command(Command::Put { key: "a".into(), value: "b".into() }).unwrap();
    assert_eq!(idx, 2);
    assert_eq!(log_shape(&s), vec![(1, 1), (2, 2)]);
}

#[test]
fn replication_request_covers_entries_from_index() {
    let mut s = node_with_log(1, 2, vec![entry(1, 1), entry(2, 2), entry(3, 2)]);
    s.commit_index = 1;
    let req = s.replication_request(2).unwrap();
    assert_eq!((req.term, req.leader_id, req.prev_log_index, req.prev_log_term, req.leader_commit), (2, 1, 1, 1, 1));
    assert_eq!(req.entries.iter().map(|e| e.index).collect::<Vec<_>>(), vec![2, 3]);
    assert!(s.replication_request(4).is_none());
    let first = s.replication_request(0).unwrap();
    assert_eq!((first.prev_log_index, first.prev_log_term), (0, 0));
}

#[test]
fn append_acknowledgements_commit_at_quorum() {
    let mut s = node_with_log(1, 2, vec![entry(1, 2), entry(2, 2)]);
    s.become_leader();
    let mut acks = 1usize;
    let ok = AppendEntriesResponse { term: 2, success: true, conflict_index: None, conflict_term: None };
    assert!(!s.on_append_response(&mut acks, 3, 2, 2, &ok));
    assert_eq!((acks, s.commit_index), (2, 0));
    assert!(!s.on_append_response(&mut acks, 3, 2, 2, &ok));
    assert_eq!((acks, s.commit_index), (3, 2));
    assert!(!s.on_append_response(&mut acks, 3, 1, 2, &ok));
    assert_eq!(s.commit_index, 2);
    let newer = AppendEntriesResponse { term: 9, success: false, conflict_index: None, conflict_term: None };
    assert!(s.on_append_response(&mut acks, 3, 2, 2, &newer));
    assert_eq!((s.current_term, s.role), (9, Role::Follower));
}
