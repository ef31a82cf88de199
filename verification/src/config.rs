//! The configuration of a Raft node.
//!
//! Durations are kept as whole milliseconds.

use vstd::prelude::*;

verus! {

/// Configuration for a Raft node.
#[derive(Debug, Clone, Copy, PartialEq, Eq, Structural)]
pub struct RaftConfig {
    pub node_id: u64,
    pub election_timeout_min_ms: u64,
    pub election_timeout_max_ms: u64,
    pub heartbeat_interval_ms: u64,
    pub max_log_entries_per_append: usize,
    pub snapshot_threshold: u64,
    pub apply_queue_size: usize,
}

/// The default configuration, for node `node_id`.
pub open spec fn default_config(node_id: u64) -> RaftConfig {
    RaftConfig {
        node_id,
        election_timeout_min_ms: 150,
        election_timeout_max_ms: 300,
        heartbeat_interval_ms: 50,
        max_log_entries_per_append: 1000,
        snapshot_threshold: 10000,
        apply_queue_size: 100,
    }
}

/// Why a configuration is refused, if it is: the election range must not be
/// empty, the heartbeat must be shorter than the shortest election timeout,
/// and node identifiers start at 1. The first failed rule is reported.
pub open spec fn config_problem(c: RaftConfig) -> Option<Seq<char>> {
    if c.election_timeout_min_ms >= c.election_timeout_max_ms {
        Some("election_timeout_min must be less than election_timeout_max"@)
    } else if c.heartbeat_interval_ms >= c.election_timeout_min_ms {
        Some("heartbeat_interval must be less than election_timeout_min"@)
    } else if c.node_id == 0 {
        Some("node_id cannot be zero"@)
    } else {
        None
    }
}

/// The election timeout drawn with `entropy`: the minimum plus `entropy`
/// reduced modulo the width of the range (the minimum itself when the range
/// is empty).
pub open spec fn timeout_for_entropy(c: RaftConfig, entropy: u64) -> u64 {
    let range = (c.election_timeout_max_ms - c.election_timeout_min_ms) as u64;
    if range > 0 {
        (c.election_timeout_min_ms + entropy % range) as u64
    } else {
        c.election_timeout_min_ms
    }
}

/// Reads the system clock: the nanoseconds since the Unix epoch, truncated
/// to 64 bits (0 when the clock stands before the epoch), by
/// `std::time::SystemTime::now` and `duration_since`. Nothing is stated of
/// the value, which depends on the time.
#[verifier::external_body]
fn clock_nanos() -> u64 {
    std::time::SystemTime::now().duration_since(std::time::UNIX_EPOCH).unwrap_or_default().as_nanos() as u64
}

impl Default for RaftConfig {
    fn default() -> (r: Self)
        ensures
            r == default_config(0),
    {
        RaftConfig {
            node_id: 0,
            election_timeout_min_ms: 150,
            election_timeout_max_ms: 300,
            heartbeat_interval_ms: 50,
            max_log_entries_per_append: 1000,
            snapshot_threshold: 10000,
            apply_queue_size: 100,
        }
    }
}

impl RaftConfig {
    /// The default configuration for node `node_id`.
    pub fn new(node_id: u64) -> (r: Self)
        ensures
            r == default_config(node_id),
    {
        RaftConfig { node_id, ..Default::default() }
    }

    /// The same configuration with the election timeout range set to
    /// `min_ms..max_ms`.
    pub fn with_timeouts(self, min_ms: u64, max_ms: u64) -> (r: Self)
        ensures
            r == (RaftConfig {
                election_timeout_min_ms: min_ms,
                election_timeout_max_ms: max_ms,
                ..self
            }),
    {
        let mut c = self;
        c.election_timeout_min_ms = min_ms;
        c.election_timeout_max_ms = max_ms;
        c
    }

    /// The same configuration with the heartbeat interval set to
    /// `interval_ms`.
    pub fn with_heartbeat(self, interval_ms: u64) -> (r: Self)
        ensures
            r == (RaftConfig { heartbeat_interval_ms: interval_ms, ..self }),
    {
        let mut c = self;
        c.heartbeat_interval_ms = interval_ms;
        c
    }

    /// Checks the configuration's rules and reports the first one broken.
    pub fn validate(&self) -> (r: Result<(), &'static str>)
        ensures
            match r {
                Ok(()) => config_problem(*self) is None,
                Err(m) => config_problem(*self) == Some(m@),
            },
    {
        if self.election_timeout_min_ms >= self.election_timeout_max_ms {
            return Err("election_timeout_min must be less than election_timeout_max");
        }
        if self.heartbeat_interval_ms >= self.election_timeout_min_ms {
            return Err("heartbeat_interval must be less than election_timeout_min");
        }
        if self.node_id == 0 {
            return Err("node_id cannot be zero");
        }
        Ok(())
    }

    /// The election timeout, in milliseconds, drawn with `entropy`.
    pub fn election_timeout_with_entropy(&self, entropy: u64) -> (r: u64)
        requires
            self.election_timeout_min_ms <= self.election_timeout_max_ms,
        ensures
            r == timeout_for_entropy(*self, entropy),
    {
        let min = self.election_timeout_min_ms;
        let range = self.election_timeout_max_ms - min;
        let offset = if range > 0 {
            entropy % range
        } else {
            0
        };
        min + offset
    }

    /// A pseudo-random election timeout, in milliseconds, within the
    /// configured range; the system clock supplies the randomness.
    pub fn random_election_timeout(&self) -> (r: u64)
        requires
            self.election_timeout_min_ms <= self.election_timeout_max_ms,
        ensures
            exists|entropy: u64| r == timeout_for_entropy(*self, entropy),
            self.election_timeout_min_ms <= r,
            self.election_timeout_min_ms < self.election_timeout_max_ms ==> r
                < self.election_timeout_max_ms,
            self.election_timeout_min_ms == self.election_timeout_max_ms ==> r
                == self.election_timeout_min_ms,
    {
        let entropy = clock_nanos();
        self.election_timeout_with_entropy(entropy)
    }
}

} // verus!
