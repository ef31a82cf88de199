//! A replicated key-value store built on the Raft consensus protocol.
//!
//! The crate holds the protocol's decision logic, the replicated log, the
//! cluster membership rules, the key-value state machine with its snapshot
//! format, and the byte formats of the write-ahead log and of the wire.
//! Everything that touches files, sockets, clocks or async runtimes lives
//! in the application around the crate and calls into these functions.

pub mod config;
pub mod decimal;
pub mod error;
pub mod log;
pub mod membership;
pub mod message;
pub mod network;
pub mod node;
pub mod raft;
pub mod runtime;
pub mod snapshot;
pub mod store;
pub mod text;
pub mod types;
pub mod wal;
pub mod wire;
