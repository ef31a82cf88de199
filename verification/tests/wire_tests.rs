use raft_kv::error::RaftError;
use raft_kv::message::{AppendEntriesResponse, InstallSnapshotResponse, RequestVoteResponse};
use raft_kv::network::{RpcClient, RpcMessage, TcpTransport};
use raft_kv::types::{LogEntry, PeerState, State};
use raft_kv::wire::{encode_length_prefixed, frame_length};
use raft_kv::decimal::{format_decimal, parse_decimal};

#[test]
fn length_prefixed_frames() {
    let f = encode_length_prefixed(b"abc");
    assert_eq!(f, vec![0, 0, 0, 3, b'a', b'b', b'c']);
    assert_eq!(frame_length(&f[..4]), 3);
    let big = vec![7u8; 70000];
    let g = encode_length_prefixed(&big);
    assert_eq!(frame_length(&g[..4]), 70000);
    assert_eq!(&g[..4], &70000u32.to_be_bytes());
    assert_eq!(frame_length(&[1, 2, 3, 4]), u32::from_be_bytes([1, 2, 3, 4]));
}

#[test]
fn decimal_formatting_and_parsing() {
    assert_eq!(format_decimal(0, 0), b"0".to_vec());
    assert_eq!(format_decimal(1234, 6), b"001234".to_vec());
    assert_eq!(format_decimal(1234, 2), b"1234".to_vec());
    let s = b"x+0042y";
    assert_eq!(parse_decimal(s, 1, 6), Some(42));
    assert_eq!(parse_decimal(s, 0, 6), None);
    assert_eq!(parse_decimal(s, 2, 2), None);
}

#[test]
fn client_checks_response_kind() {
    let v = RequestVoteResponse { term: 2, vote_granted: true };
    assert_eq!(RpcClient::expect_vote_response(RpcMessage::RequestVoteResponse(v)).unwrap(), v);
    let a = AppendEntriesResponse { term: 1, success: true, conflict_index: None, conflict_term: None };
    assert_eq!(RpcClient::expect_append_response(RpcMessage::AppendEntriesResponse(a)).unwrap(), a);
    let i = InstallSnapshotResponse { term: 5 };
    assert_eq!(RpcClient::expect_install_snapshot_response(RpcMessage::InstallSnapshotResponse(i)).unwrap(), i);
    match RpcClient::expect_vote_response(RpcMessage::AppendEntriesResponse(a)) {
        Err(RaftError::Network(m)) => assert_eq!(m, "Unexpected response type"),
        other => panic!("unexpected {:?}", other),
    }
    assert!(RpcClient::expect_append_response(RpcMessage::RequestVoteResponse(v)).is_err());
    assert!(RpcClient::expect_install_snapshot_response(RpcMessage::RequestVoteResponse(v)).is_err());
    assert_eq!(RpcClient::new(250).timeout_ms, 250);
    assert_eq!(TcpTransport::new(), TcpTransport);
}

#[test]
fn states_and_entries() {
    assert!(State::Leader.is_leader());
    assert!(!State::Leader.is_follower());
    assert!(State::Candidate.is_candidate());
    assert!(State::default().is_follower());
    assert_ne!(PeerState::Probe, PeerState::Replicate);
    let z = LogEntry::sentinel();
    assert_eq!((z.index, z.term), (0, 0));
}
