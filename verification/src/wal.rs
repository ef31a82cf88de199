//! The write-ahead log's on-disk format and bookkeeping.
//!
//! A segment file holds records one after another. A record is the
//! payload's length (4 bytes, big-endian), the payload's CRC-32 (4 bytes,
//! big-endian), then the payload. Reading a segment stops, without error,
//! at the first record that is zero-length, cut short, or fails its
//! checksum. Segment files are named `segment_` followed by the segment's
//! number in 20 zero-padded digits.

use crate::decimal::{format_decimal, lemma_digits_ascii, lemma_format_parse, parse_decimal,
    parse_u64_spec, zero_padded, decimal_digits};
use crate::error::RaftError;
use crate::types::LogEntry;
use crate::text::{ascii_text, ascii_to_string, bytes_at, has_bytes_at, is_ascii_bytes,
    lemma_ascii_utf8};
use crate::wire::{be32, be32_at, copy_range, lemma_be32_at_concat, lemma_be32_roundtrip,
    push_all, push_u32_be, read_u32_be};
use vstd::prelude::*;
use vstd::utf8::*;

verus! {

/// The CRC-32 checksum of `bytes`.
pub uninterp spec fn crc32_of(bytes: Seq<u8>) -> u32;

/// Calls `crc32fast::hash`: the CRC-32 (IEEE) checksum of `bytes`, which
/// depends on the bytes alone and is named `crc32_of`.
#[verifier::external_body]
fn crc32(bytes: &[u8]) -> (r: u32)
    ensures
        r == crc32_of(bytes@),
{
    crc32fast::hash(bytes)
}

/// The bytes of the record that holds `payload`.
pub open spec fn wal_record(payload: Seq<u8>) -> Seq<u8> {
    be32(payload.len() as u32) + be32(crc32_of(payload)) + payload
}

/// The payloads read from segment bytes `b`, starting at `off`.
pub open spec fn parse_records(b: Seq<u8>, off: int) -> Seq<Seq<u8>>
    decreases b.len() - off,
{
    if off < 0 || off + 4 > b.len() {
        Seq::empty()
    } else {
        let len = be32_at(b, off);
        if len == 0 || off + 8 > b.len() || off + 8 + len > b.len() {
            Seq::empty()
        } else {
            let payload = b.subrange(off + 8, off + 8 + len);
            if crc32_of(payload) != be32_at(b, off + 4) {
                Seq::empty()
            } else {
                seq![payload] + parse_records(b, off + 8 + len)
            }
        }
    }
}

/// The concatenated records of `payloads`, in order.
pub open spec fn records_of(payloads: Seq<Seq<u8>>) -> Seq<u8>
    decreases payloads.len(),
{
    if payloads.len() == 0 {
        Seq::empty()
    } else {
        wal_record(payloads[0]) + records_of(payloads.drop_first())
    }
}

/// The record that stores `payload`; a payload of 4 GiB or more is refused.
pub fn encode_record(payload: &[u8]) -> (r: Result<Vec<u8>, RaftError>)
    ensures
        payload@.len() <= u32::MAX ==> (r matches Ok(v) && v@ == wal_record(payload@)),
        payload@.len() > u32::MAX ==> (r matches Err(RaftError::Storage(m)) && m@
            == "Entry too large"@),
{
    if payload.len() > 0xFFFF_FFFF {
        return Err(RaftError::Storage("Entry too large".to_owned()));
    }
    let checksum = crc32(payload);
    let mut out: Vec<u8> = Vec::new();
    push_u32_be(&mut out, payload.len() as u32);
    push_u32_be(&mut out, checksum);
    push_all(&mut out, payload);
    Ok(out)
}

/// Reads the payloads stored in the bytes of a segment.
pub fn decode_records(b: &[u8]) -> (r: Vec<Vec<u8>>)
    ensures
        r@.len() == parse_records(b@, 0).len(),
        forall|i: int| 0 <= i < r@.len() ==> #[trigger] r@[i]@ == parse_records(b@, 0)[i],
{
    let n = b.len();
    let mut out: Vec<Vec<u8>> = Vec::new();
    let mut off: usize = 0;
    let ghost mut done: Seq<Seq<u8>> = Seq::empty();
    while n - off >= 4
        invariant
            off <= n == b@.len(),
            parse_records(b@, 0) == done + parse_records(b@, off as int),
            out@.len() == done.len(),
            forall|i: int| 0 <= i < out@.len() ==> #[trigger] out@[i]@ == done[i],
        ensures
            parse_records(b@, 0) == done,
            out@.len() == done.len(),
            forall|i: int| 0 <= i < out@.len() ==> #[trigger] out@[i]@ == done[i],
        decreases n - off,
    {
        let len = read_u32_be(b, off) as usize;
        if len == 0 || n - off < 8 || len > n - off - 8 {
            assert(parse_records(b@, off as int) == Seq::<Seq<u8>>::empty());
            assert(done + Seq::<Seq<u8>>::empty() =~= done);
            break;
        }
        let checksum = read_u32_be(b, off + 4);
        let payload = copy_range(b, off + 8, off + 8 + len);
        if crc32(payload.as_slice()) != checksum {
            assert(parse_records(b@, off as int) == Seq::<Seq<u8>>::empty());
            assert(done + Seq::<Seq<u8>>::empty() =~= done);
            break;
        }
        proof {
            let ghost p = payload@;
            assert(parse_records(b@, off as int) =~= seq![p] + parse_records(b@, off + 8 + len));
            assert(done + parse_records(b@, off as int) =~= done.push(p) + parse_records(
                b@,
                off + 8 + len,
            ));
            done = done.push(p);
        }
        out.push(payload);
        off = off + 8 + len;
    }
    out
}

/// Reading records placed after other bytes is reading them on their own.
pub proof fn lemma_parse_records_shift(a: Seq<u8>, b: Seq<u8>, o: int)
    requires
        0 <= o,
    ensures
        parse_records(a + b, a.len() + o) == parse_records(b, o),
    decreases b.len() - o,
{
    let s = a + b;
    let n = a.len() as int;
    if o + 4 <= b.len() {
        assert forall|j: int| 0 <= j < b.len() implies s[n + j] == b[j] by {}
        assert(be32_at(s, n + o) == be32_at(b, o));
        let len = be32_at(b, o);
        if len != 0 && o + 8 <= b.len() && o + 8 + len <= b.len() {
            assert(be32_at(s, n + o + 4) == be32_at(b, o + 4));
            assert(s.subrange(n + o + 8, n + o + 8 + len) =~= b.subrange(o + 8, o + 8 + len));
            lemma_parse_records_shift(a, b, o + 8 + len);
        }
    }
}

/// Every payload is non-empty and shorter than 4 GiB.
pub open spec fn payloads_storable(payloads: Seq<Seq<u8>>) -> bool {
    forall|i: int| 0 <= i < payloads.len() ==> 0 < (#[trigger] payloads[i]).len() <= u32::MAX
}

/// Reading a record followed by more data yields the record's payload,
/// then what the rest yields.
pub proof fn lemma_parse_one_record(p: Seq<u8>, er: Seq<u8>)
    requires
        0 < p.len() <= u32::MAX,
    ensures
        parse_records(wal_record(p) + er, 0) == seq![p] + parse_records(er, 0),
{
    let rec = wal_record(p);
    let s = rec + er;
    lemma_be32_roundtrip(p.len() as u32);
    lemma_be32_roundtrip(crc32_of(p));
    lemma_be32_at_concat(Seq::empty(), p.len() as u32, be32(crc32_of(p)) + p + er);
    assert(Seq::<u8>::empty() + be32(p.len() as u32) + (be32(crc32_of(p)) + p + er) =~= s);
    lemma_be32_at_concat(be32(p.len() as u32), crc32_of(p), p + er);
    assert(be32(p.len() as u32) + be32(crc32_of(p)) + (p + er) =~= s);
    assert(s.subrange(8, 8 + p.len() as int) =~= p);
    lemma_parse_records_shift(rec, er, 0);
}

/// What is written is what is read: the records of non-empty payloads
/// shorter than 4 GiB read back as those payloads, in order.
pub proof fn lemma_records_roundtrip(payloads: Seq<Seq<u8>>)
    requires
        payloads_storable(payloads),
    ensures
        parse_records(records_of(payloads), 0) == payloads,
    decreases payloads.len(),
{
    if payloads.len() == 0 {
        assert(parse_records(records_of(payloads), 0) =~= payloads);
    } else {
        let rest = payloads.drop_first();
        assert(payloads_storable(rest)) by {
            assert forall|i: int| 0 <= i < rest.len() implies 0 < (#[trigger] rest[i]).len()
                <= u32::MAX by {
                assert(rest[i] == payloads[i + 1]);
            }
        }
        assert(0 < payloads[0].len() <= u32::MAX);
        lemma_records_roundtrip(rest);
        lemma_parse_one_record(payloads[0], records_of(rest));
        assert(seq![payloads[0]] + rest =~= payloads);
    }
}

/// The bytes of the name prefix `segment_`.
pub open spec fn segment_prefix() -> Seq<u8> {
    seq![115u8, 101u8, 103u8, 109u8, 101u8, 110u8, 116u8, 95u8]
}

fn segment_prefix_vec() -> (r: Vec<u8>)
    ensures
        r@ == segment_prefix(),
{
    let r: Vec<u8> = vec![115u8, 101u8, 103u8, 109u8, 101u8, 110u8, 116u8, 95u8];
    assert(r@ =~= segment_prefix());
    r
}

/// The bytes of the name of segment `id`.
pub open spec fn segment_name_bytes(id: u64) -> Seq<u8> {
    segment_prefix() + zero_padded(decimal_digits(id as nat), 20)
}

/// The segment number named by a file name with UTF-8 bytes `b`: the
/// prefix `segment_`, then a number as `str::parse::<u64>` reads it.
pub open spec fn segment_id_of(b: Seq<u8>) -> Option<u64> {
    if bytes_at(b, 0, segment_prefix()) {
        parse_u64_spec(b.subrange(8, b.len() as int))
    } else {
        None
    }
}

/// The file name of segment `id`.
pub fn segment_file_name(id: u64) -> (r: String)
    ensures
        r@ == ascii_text(segment_name_bytes(id)),
{
    let mut bytes = segment_prefix_vec();
    let digits = format_decimal(id, 20);
    push_all(&mut bytes, digits.as_slice());
    proof {
        lemma_digits_ascii(digits@);
        assert(is_ascii_bytes(bytes@));
    }
    ascii_to_string(bytes)
}

/// The segment number of a file name, if it names a segment.
pub fn segment_id_from_name(name: &str) -> (r: Option<u64>)
    ensures
        r == segment_id_of(encode_utf8(name@)),
{
    let b = name.as_bytes();
    let prefix = segment_prefix_vec();
    if !has_bytes_at(b, 0, prefix.as_slice()) {
        return None;
    }
    parse_decimal(b, 8, b.len())
}

/// The name of a segment reads back as its number.
pub proof fn lemma_segment_name_roundtrip(id: u64)
    ensures
        segment_id_of(encode_utf8(ascii_text(segment_name_bytes(id)))) == Some(id),
{
    let d = zero_padded(decimal_digits(id as nat), 20);
    lemma_format_parse(id, 20);
    lemma_digits_ascii(d);
    let nb = segment_name_bytes(id);
    assert(is_ascii_bytes(nb)) by {
        assert forall|i: int| 0 <= i < nb.len() implies #[trigger] nb[i] < 128 by {
            if i >= 8 {
                assert(nb[i] == d[i - 8]);
            }
        }
    }
    lemma_ascii_utf8(nb);
    assert(nb.subrange(0, 8) =~= segment_prefix());
    assert(nb.subrange(8, nb.len() as int) =~= d);
}

/// `s` is in increasing order.
pub open spec fn sorted(s: Seq<u64>) -> bool {
    forall|i: int, j: int| 0 <= i < j < s.len() ==> s[i] <= s[j]
}

/// The segment numbers `ids` in increasing order.
pub fn sort_segment_ids(ids: &Vec<u64>) -> (r: Vec<u64>)
    ensures
        sorted(r@),
        r@.to_multiset() == ids@.to_multiset(),
{
    let mut r: Vec<u64> = Vec::new();
    let mut i: usize = 0;
    assert(ids@.take(0) =~= Seq::<u64>::empty());
    assert(r@ =~= Seq::<u64>::empty());
    while i < ids.len()
        invariant
            i <= ids@.len(),
            sorted(r@),
            r@.to_multiset() == ids@.take(i as int).to_multiset(),
        decreases ids@.len() - i,
    {
        let x = ids[i];
        let mut pos: usize = 0;
        while pos < r.len() && r[pos] <= x
            invariant
                pos <= r@.len(),
                forall|j: int| 0 <= j < pos ==> r@[j] <= x,
            decreases r@.len() - pos,
        {
            pos = pos + 1;
        }
        let ghost before = r@;
        r.insert(pos, x);
        proof {
            assert forall|a: int, b: int| 0 <= a < b < r@.len() implies r@[a] <= r@[b] by {
                if b < pos {
                } else if b == pos {
                    assert(r@[a] == before[a]);
                } else if a < pos {
                    assert(r@[b] == before[b - 1]);
                    assert(before[pos as int] > x);
                    assert(before[pos as int] <= before[b - 1]);
                } else if a == pos {
                    assert(before[pos as int] > x);
                    assert(before[pos as int] <= before[b - 1]);
                } else {
                    assert(r@[a] == before[a - 1]);
                    assert(r@[b] == before[b - 1]);
                }
            }
            assert(ids@.take(i as int + 1) =~= ids@.take(i as int).push(x));
            assert(r@ == before.insert(pos as int, x));
            vstd::seq_lib::to_multiset_insert(before, pos as int, x);
            vstd::seq_lib::to_multiset_build(ids@.take(i as int), x);
            assert(r@.to_multiset() == before.to_multiset().insert(x));
            assert(ids@.take(i as int + 1).to_multiset() == ids@.take(i as int).to_multiset().insert(
                x,
            ));
        }
        i = i + 1;
    }
    assert(ids@.take(i as int) =~= ids@);
    r
}

/// The sum of `s`.
pub open spec fn sum_of(s: Seq<u64>) -> nat
    decreases s.len(),
{
    if s.len() == 0 {
        0
    } else {
        sum_of(s.drop_last()) + s.last() as nat
    }
}

/// The counters that the write-ahead log keeps in memory: the segment being
/// written, how many entries all segments hold, and the size of the
/// segment being written.
#[derive(Debug, Clone, Copy, PartialEq, Eq, Structural)]
pub struct WalCounters {
    pub current_segment_id: u64,
    pub entries_count: u64,
    pub current_file_size: u64,
}

impl WalCounters {
    /// The counters of a log found on disk, given its segment numbers in
    /// increasing order and the number of entries read from each: writing
    /// resumes in the last segment (segment 0 when there is none), whose
    /// size is `current_file_size`.
    pub fn recovered(sorted_ids: &Vec<u64>, counts: &Vec<u64>, current_file_size: u64) -> (r:
        Self)
        requires
            counts@.len() == sorted_ids@.len(),
            sum_of(counts@) <= u64::MAX,
        ensures
            r.current_segment_id == if sorted_ids@.len() == 0 {
                0
            } else {
                sorted_ids@.last()
            },
            r.entries_count == sum_of(counts@),
            r.current_file_size == current_file_size,
    {
        let mut total: u64 = 0;
        let mut i: usize = 0;
        while i < counts.len()
            invariant
                i <= counts@.len(),
                sum_of(counts@) <= u64::MAX,
                total == sum_of(counts@.take(i as int)),
            decreases counts@.len() - i,
        {
            proof {
                assert(counts@.take(i as int + 1).drop_last() =~= counts@.take(i as int));
                lemma_sum_prefix(counts@, i as int + 1);
            }
            total = total + counts[i];
            i = i + 1;
        }
        assert(counts@.take(i as int) =~= counts@);
        let current = if sorted_ids.len() == 0 {
            0
        } else {
            sorted_ids[sorted_ids.len() - 1]
        };
        WalCounters { current_segment_id: current, entries_count: total, current_file_size }
    }

    /// Accounts for a record of `payload_len` bytes appended to the current
    /// segment, and returns the new number of entries.
    pub fn record_appended(&mut self, payload_len: u64) -> (r: u64)
        requires
            old(self).current_file_size + 8 + payload_len <= u64::MAX,
            old(self).entries_count < u64::MAX,
        ensures
            final(self).current_file_size == old(self).current_file_size + 8 + payload_len,
            final(self).entries_count == old(self).entries_count + 1,
            final(self).current_segment_id == old(self).current_segment_id,
            r == final(self).entries_count,
    {
        self.current_file_size = self.current_file_size + 8 + payload_len;
        self.entries_count = self.entries_count + 1;
        self.entries_count
    }

    /// Whether entry `index` (counted from 1 over all segments) exists.
    pub fn holds(&self, index: u64) -> (r: bool)
        ensures
            r == (index != 0 && index <= self.entries_count),
    {
        index != 0 && index <= self.entries_count
    }

    /// Checks that the log can be cut back to its first `index` entries.
    pub fn check_truncate(&self, index: u64) -> (r: Result<(), RaftError>)
        ensures
            index <= self.entries_count ==> r is Ok,
            index > self.entries_count ==> (r matches Err(RaftError::Storage(m)) && m@
                == "Index out of bounds"@),
    {
        if index > self.entries_count {
            return Err(RaftError::Storage("Index out of bounds".to_owned()));
        }
        Ok(())
    }

    /// The counters of an empty log that writes segment 0.
    pub fn empty() -> (r: Self)
        ensures
            r == (WalCounters { current_segment_id: 0, entries_count: 0, current_file_size: 0 }),
    {
        WalCounters { current_segment_id: 0, entries_count: 0, current_file_size: 0 }
    }
}

/// A prefix of a sequence of counts sums to no more than the whole.
pub proof fn lemma_sum_prefix(s: Seq<u64>, i: int)
    requires
        0 <= i <= s.len(),
    ensures
        sum_of(s.take(i)) <= sum_of(s),
    decreases s.len() - i,
{
    if i < s.len() {
        lemma_sum_prefix(s, i + 1);
        assert(s.take(i + 1).drop_last() =~= s.take(i));
    } else {
        assert(s.take(i) =~= s);
    }
}

/// Entry `index` (counted from 1 over all segments) when `seen` entries
/// come before `segment`: the entry of `segment` at that place, if it lies
/// in `segment`.
pub fn entry_in_segment(segment: &Vec<LogEntry>, index: u64, seen: u64) -> (r: Option<LogEntry>)
    ensures
        r == if seen < index && index - seen <= segment@.len() {
            Some(segment@[index - seen - 1])
        } else {
            None::<LogEntry>
        },
{
    if seen < index && index - seen <= segment.len() as u64 {
        let pos = (index - seen - 1) as usize;
        Some(segment[pos].clone())
    } else {
        None
    }
}

/// Moves entries of `segment`, in order, to the end of `kept` until `kept`
/// holds `limit` entries or `segment` is used up.
pub fn keep_up_to(kept: &mut Vec<LogEntry>, segment: Vec<LogEntry>, limit: u64)
    ensures
        final(kept)@ == old(kept)@ + segment@.take(
            if old(kept)@.len() >= limit {
                0
            } else if limit - old(kept)@.len() <= segment@.len() {
                limit - old(kept)@.len()
            } else {
                segment@.len() as int
            },
        ),
{
    let ghost n: int = if old(kept)@.len() >= limit {
        0
    } else if limit - old(kept)@.len() <= segment@.len() {
        limit - old(kept)@.len()
    } else {
        segment@.len() as int
    };
    let mut i: usize = 0;
    while i < segment.len() && (kept.len() as u64) < limit
        invariant
            i <= segment@.len(),
            kept@ == old(kept)@ + segment@.take(i as int),
            i <= n,
            n == (if old(kept)@.len() >= limit {
                0
            } else if limit - old(kept)@.len() <= segment@.len() {
                limit - old(kept)@.len()
            } else {
                segment@.len() as int
            }),
        decreases segment@.len() - i,
    {
        kept.push(segment[i].clone());
        i = i + 1;
        assert(kept@ =~= old(kept)@ + segment@.take(i as int));
    }
    assert(i == n);
}

} // verus!
