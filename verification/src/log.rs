//! A replicated log kept in memory, with its commit index.
//!
//! Positions are 1-based: position `i` holds the `i`-th entry appended, and
//! position 0 stands for the empty prefix (term 0).

use crate::node::{last_index_of, last_term_of};
use crate::raft::{keep_below, lemma_keep_below_bound, retain_below};
use crate::types::{Index, LogEntry, Term};
use vstd::prelude::*;

verus! {

/// The abstract state of a `ReplicatedLog`.
pub struct LogState {
    pub entries: Seq<LogEntry>,
    pub commit_index: Index,
}

/// The entry at 1-based position `index` of `entries` (the sentinel at 0).
/// The offset `index - 1` is taken as a machine word, as the lookup does.
pub open spec fn entry_at_position(entries: Seq<LogEntry>, index: Index) -> Option<LogEntry> {
    if index == 0 {
        Some(LogEntry::sentinel_spec())
    } else if (((index - 1) as usize) as int) < entries.len() {
        Some(entries[((index - 1) as usize) as int])
    } else {
        None
    }
}

/// The entries from 1-based position `start` on (all of them for 0 or an
/// empty log; none past the end).
pub open spec fn suffix_from(entries: Seq<LogEntry>, start: Index) -> Seq<LogEntry> {
    if start == 0 || entries.len() == 0 {
        entries
    } else if (((start - 1) as usize) as int) >= entries.len() {
        Seq::empty()
    } else {
        entries.subrange(((start - 1) as usize) as int, entries.len() as int)
    }
}

/// Whether `entries` agree with a leader's at `prev_index`, `prev_term`.
pub open spec fn positions_match(entries: Seq<LogEntry>, prev_index: Index, prev_term: Term) -> bool {
    prev_index == 0 || (entry_at_position(entries, prev_index) matches Some(e) && e.term
        == prev_term)
}

/// The log entries in memory, and how far they are committed.
#[derive(Debug)]
pub struct ReplicatedLog {
    entries: Vec<LogEntry>,
    commit_index: Index,
}

impl View for ReplicatedLog {
    type V = LogState;

    closed spec fn view(&self) -> LogState {
        LogState { entries: self.entries@, commit_index: self.commit_index }
    }
}

impl Default for ReplicatedLog {
    fn default() -> (r: Self)
        ensures
            r@.entries == Seq::<LogEntry>::empty(),
            r@.commit_index == 0,
    {
        ReplicatedLog::new()
    }
}

impl ReplicatedLog {
    /// An empty log, nothing committed.
    pub fn new() -> (r: Self)
        ensures
            r@.entries == Seq::<LogEntry>::empty(),
            r@.commit_index == 0,
    {
        ReplicatedLog { entries: Vec::new(), commit_index: 0 }
    }

    /// Adds `entry` at the end of the log.
    pub fn append(&mut self, entry: LogEntry)
        ensures
            final(self)@.entries == old(self)@.entries.push(entry),
            final(self)@.commit_index == old(self)@.commit_index,
    {
        self.entries.push(entry);
    }

    /// The entry at 1-based position `index` (the sentinel at 0).
    pub fn get(&self, index: Index) -> (r: Option<LogEntry>)
        ensures
            r == entry_at_position(self@.entries, index),
    {
        if index == 0 {
            return Some(LogEntry::sentinel());
        }
        let offset = (index - 1) as usize;
        if offset < self.entries.len() {
            Some(self.entries[offset].clone())
        } else {
            None
        }
    }

    /// The index carried by the last entry, 0 for an empty log.
    pub fn last_index(&self) -> (r: Index)
        ensures
            r == last_index_of(self@.entries),
    {
        if self.entries.len() == 0 {
            return 0;
        }
        self.entries[self.entries.len() - 1].index
    }

    /// The term of the last entry, 0 for an empty log.
    pub fn last_term(&self) -> (r: Term)
        ensures
            r == last_term_of(self@.entries),
    {
        if self.entries.len() == 0 {
            return 0;
        }
        self.entries[self.entries.len() - 1].term
    }

    /// Drops every entry whose index is above `index`.
    pub fn truncate_after(&mut self, index: Index)
        ensures
            final(self)@.entries == keep_below(old(self)@.entries, index + 1),
            final(self)@.commit_index == old(self)@.commit_index,
            last_index_of(final(self)@.entries) <= index,
    {
        retain_below(&mut self.entries, index, true);
        proof {
            lemma_keep_below_bound(old(self)@.entries, index + 1);
            if self.entries@.len() > 0 {
                assert(self.entries@.last() == self.entries@[self.entries@.len() - 1]);
            }
        }
    }

    /// The entries from 1-based position `start_index` on.
    pub fn entries_from(&self, start_index: Index) -> (r: Vec<LogEntry>)
        ensures
            r@ == suffix_from(self@.entries, start_index),
    {
        let n = self.entries.len();
        let start: usize = if start_index == 0 || n == 0 {
            0
        } else {
            let offset = (start_index - 1) as usize;
            if offset >= n {
                return Vec::new();
            }
            offset
        };
        let mut r: Vec<LogEntry> = Vec::new();
        let mut i: usize = start;
        while i < n
            invariant
                start <= i <= n == self.entries@.len(),
                r@ == self.entries@.subrange(start as int, i as int),
            decreases n - i,
        {
            r.push(self.entries[i].clone());
            i = i + 1;
            assert(r@ =~= self.entries@.subrange(start as int, i as int));
        }
        assert(start == 0 ==> self.entries@.subrange(0, n as int) =~= self.entries@);
        r
    }

    /// Whether the log agrees with a leader's at `prev_log_index`.
    pub fn match_log(&self, prev_log_index: Index, prev_log_term: Term) -> (r: bool)
        ensures
            r == positions_match(self@.entries, prev_log_index, prev_log_term),
    {
        if prev_log_index == 0 {
            return true;
        }
        match self.get(prev_log_index) {
            Some(entry) => entry.term == prev_log_term,
            None => false,
        }
    }

    /// Sets the commit index to `index`, capped at the last index.
    pub fn set_commit_index(&mut self, index: Index)
        ensures
            final(self)@.commit_index == if index > last_index_of(old(self)@.entries) {
                last_index_of(old(self)@.entries)
            } else {
                index
            },
            final(self)@.commit_index <= last_index_of(final(self)@.entries),
            final(self)@.entries == old(self)@.entries,
    {
        let last = self.last_index();
        if index > last {
            self.commit_index = last;
        } else {
            self.commit_index = index;
        }
    }

    pub fn commit_index(&self) -> (r: Index)
        ensures
            r == self@.commit_index,
    {
        self.commit_index
    }

    pub fn len(&self) -> (r: usize)
        ensures
            r == self@.entries.len(),
    {
        self.entries.len()
    }

    pub fn is_empty(&self) -> (r: bool)
        ensures
            r == (self@.entries.len() == 0),
    {
        self.entries.len() == 0
    }
}

/// The entries from a position within the log are that entry and all
/// after it: from position `start` (1 to the length) they number
/// `len - start + 1` and begin with the entry at `start`, so from the last
/// position they are the last entry alone; past the end there are none;
/// from 0 they are all.
pub proof fn lemma_suffix_from_positions(entries: Seq<LogEntry>, start: Index)
    requires
        entries.len() <= usize::MAX,
    ensures
        1 <= start <= entries.len() ==> suffix_from(entries, start).len() == entries.len() - start
            + 1,
        1 <= start <= entries.len() ==> suffix_from(entries, start)[0] == entries[start - 1],
        1 <= start <= entries.len() ==> forall|i: int|
            0 <= i < suffix_from(entries, start).len() ==> #[trigger] suffix_from(entries, start)[i]
                == entries[start - 1 + i],
        entries.len() >= 1 ==> suffix_from(entries, entries.len() as Index) == seq![entries.last()],
        start > entries.len() && start - 1 <= usize::MAX ==> suffix_from(
            entries,
            start,
        ).len() == 0,
        start == 0 ==> suffix_from(entries, start) == entries,
{
    if 1 <= start <= entries.len() {
        assert(((start - 1) as usize) as int == start - 1);
    }
    if entries.len() >= 1 {
        let n = entries.len() as Index;
        assert(((n - 1) as usize) as int == n - 1);
        assert(suffix_from(entries, n) =~= seq![entries.last()]);
    }
    if start > entries.len() && start - 1 <= usize::MAX {
        assert(((start - 1) as usize) as int == start - 1);
    }
}

/// An entry appended to a log is found at the position after the previous
/// last one, and becomes the last entry.
pub proof fn lemma_get_after_append(entries: Seq<LogEntry>, entry: LogEntry)
    requires
        entries.len() < usize::MAX,
    ensures
        entry_at_position(entries.push(entry), (entries.len() + 1) as Index) == Some(entry),
        last_index_of(entries.push(entry)) == entry.index,
        last_term_of(entries.push(entry)) == entry.term,
{
    let n = entries.len();
    assert(((((n + 1) as Index) - 1) as usize) as int == n);
}

} // verus!
