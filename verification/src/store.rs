//! The key-value state machine, and its snapshot format.
//!
//! A snapshot's data is a sequence of records, one per key, each made of the
//! key's length (4 bytes, big-endian), the key's UTF-8 bytes, the value's
//! length (4 bytes, big-endian) and the value's UTF-8 bytes.

use crate::error::RaftError;
use crate::message::Snapshot;
use crate::text::{join, lemma_utf8_roundtrip, string_bytes, string_from_utf8, utf8_error_text};
use crate::types::Command;
use crate::wire::{be32, be32_at, lemma_be32_at_concat, lemma_be32_roundtrip, copy_range,
    push_all, push_u32_be, read_u32_be};
use vstd::prelude::*;
use vstd::utf8::*;

verus! {

/// A key-value pair, as text.
pub type Pair = (Seq<char>, Seq<char>);

/// The map obtained by inserting the pairs of `p` one after another into an
/// empty map (a later pair overrides an earlier one with the same key).
pub open spec fn pairs_to_map(p: Seq<Pair>) -> Map<Seq<char>, Seq<char>>
    decreases p.len(),
{
    if p.len() == 0 {
        Map::empty()
    } else {
        pairs_to_map(p.drop_last()).insert(p.last().0, p.last().1)
    }
}

/// No key occurs twice in `p`.
pub open spec fn keys_distinct(p: Seq<Pair>) -> bool {
    forall|i: int, j: int| 0 <= i < j < p.len() ==> p[i].0 != p[j].0
}

/// With distinct keys, every pair of `p` stands in the map it builds.
pub proof fn lemma_map_has_pair(p: Seq<Pair>, i: int)
    requires
        keys_distinct(p),
        0 <= i < p.len(),
    ensures
        pairs_to_map(p).contains_key(p[i].0),
        pairs_to_map(p)[p[i].0] == p[i].1,
    decreases p.len(),
{
    if i < p.len() - 1 {
        let q = p.drop_last();
        assert(q[i] == p[i]);
        lemma_map_has_pair(q, i);
        assert(p.last().0 != p[i].0);
    }
}

/// A key that no pair of `p` carries is not in the map `p` builds.
pub proof fn lemma_map_missing(p: Seq<Pair>, k: Seq<char>)
    requires
        forall|i: int| 0 <= i < p.len() ==> p[i].0 != k,
    ensures
        !pairs_to_map(p).contains_key(k),
    decreases p.len(),
{
    if p.len() > 0 {
        let q = p.drop_last();
        assert forall|i: int| 0 <= i < q.len() implies q[i].0 != k by {
            assert(q[i] == p[i]);
        }
        lemma_map_missing(q, k);
    }
}

/// Each key of the map that `p` builds is carried by some pair of `p`.
pub proof fn lemma_map_key_from_pair(p: Seq<Pair>, k: Seq<char>)
    requires
        pairs_to_map(p).contains_key(k),
    ensures
        exists|i: int| 0 <= i < p.len() && p[i].0 == k,
{
    if forall|i: int| 0 <= i < p.len() ==> p[i].0 != k {
        lemma_map_missing(p, k);
    }
}

/// Replacing the value of a present key in a list with distinct keys
/// replaces it in the map.
pub proof fn lemma_map_update(p: Seq<Pair>, i: int, v: Seq<char>)
    requires
        keys_distinct(p),
        0 <= i < p.len(),
    ensures
        keys_distinct(p.update(i, (p[i].0, v))),
        pairs_to_map(p.update(i, (p[i].0, v))) == pairs_to_map(p).insert(p[i].0, v),
{
    let k = p[i].0;
    let q = p.update(i, (k, v));
    assert(keys_distinct(q)) by {
        assert forall|a: int, b: int| 0 <= a < b < q.len() implies q[a].0 != q[b].0 by {
            assert(q[a].0 == p[a].0);
            assert(q[b].0 == p[b].0);
        }
    }
    let m1 = pairs_to_map(q);
    let m2 = pairs_to_map(p).insert(k, v);
    assert forall|x: Seq<char>| m1.contains_key(x) <==> m2.contains_key(x) by {
        if m1.contains_key(x) {
            lemma_map_key_from_pair(q, x);
            let j = choose|j: int| 0 <= j < q.len() && q[j].0 == x;
            if j != i {
                lemma_map_has_pair(p, j);
            }
        }
        if m2.contains_key(x) && x != k {
            lemma_map_key_from_pair(p, x);
            let j = choose|j: int| 0 <= j < p.len() && p[j].0 == x;
            lemma_map_has_pair(q, j);
        }
        if x == k {
            lemma_map_has_pair(q, i);
        }
    }
    assert forall|x: Seq<char>| m1.contains_key(x) implies m1[x] == m2[x] by {
        lemma_map_key_from_pair(q, x);
        let j = choose|j: int| 0 <= j < q.len() && q[j].0 == x;
        lemma_map_has_pair(q, j);
        if j != i {
            lemma_map_has_pair(p, j);
        }
    }
    assert(m1 =~= m2);
}

/// Removing the pair of a key from a list with distinct keys removes the
/// key from the map.
pub proof fn lemma_map_remove(p: Seq<Pair>, i: int)
    requires
        keys_distinct(p),
        0 <= i < p.len(),
    ensures
        keys_distinct(p.remove(i)),
        pairs_to_map(p.remove(i)) == pairs_to_map(p).remove(p[i].0),
{
    let k = p[i].0;
    let q = p.remove(i);
    assert forall|a: int| 0 <= a < q.len() implies q[a] == (if a < i { p[a] } else { p[a + 1] }) by {}
    assert(keys_distinct(q)) by {
        assert forall|a: int, b: int| 0 <= a < b < q.len() implies q[a].0 != q[b].0 by {
            let pa = if a < i { a } else { a + 1 };
            let pb = if b < i { b } else { b + 1 };
            assert(q[a] == p[pa]);
            assert(q[b] == p[pb]);
        }
    }
    let m1 = pairs_to_map(q);
    let m2 = pairs_to_map(p).remove(k);
    assert forall|x: Seq<char>| m1.contains_key(x) <==> m2.contains_key(x) by {
        if m1.contains_key(x) {
            lemma_map_key_from_pair(q, x);
            let j = choose|j: int| 0 <= j < q.len() && q[j].0 == x;
            let pj = if j < i { j } else { j + 1 };
            assert(q[j] == p[pj]);
            lemma_map_has_pair(p, pj);
        }
        if m2.contains_key(x) {
            lemma_map_key_from_pair(p, x);
            let j = choose|j: int| 0 <= j < p.len() && p[j].0 == x;
            assert(j != i);
            let qj = if j < i { j } else { j - 1 };
            assert(q[qj] == p[j]);
            lemma_map_has_pair(q, qj);
        }
    }
    assert forall|x: Seq<char>| m1.contains_key(x) implies m1[x] == m2[x] by {
        lemma_map_key_from_pair(q, x);
        let j = choose|j: int| 0 <= j < q.len() && q[j].0 == x;
        let pj = if j < i { j } else { j + 1 };
        assert(q[j] == p[pj]);
        lemma_map_has_pair(q, j);
        lemma_map_has_pair(p, pj);
    }
    assert(m1 =~= m2);
}

/// The bytes of one snapshot record.
pub open spec fn snapshot_record(key: Seq<char>, value: Seq<char>) -> Seq<u8> {
    be32(encode_utf8(key).len() as u32) + encode_utf8(key) + be32(encode_utf8(value).len() as u32)
        + encode_utf8(value)
}

/// The snapshot data holding the records of `p`, in order.
pub open spec fn encode_pairs(p: Seq<Pair>) -> Seq<u8>
    decreases p.len(),
{
    if p.len() == 0 {
        Seq::empty()
    } else {
        snapshot_record(p[0].0, p[0].1) + encode_pairs(p.drop_first())
    }
}

/// Encoding a list with one more pair at its end appends that pair's record.
pub proof fn lemma_encode_push(p: Seq<Pair>, x: Pair)
    ensures
        encode_pairs(p.push(x)) == encode_pairs(p) + snapshot_record(x.0, x.1),
    decreases p.len(),
{
    if p.len() == 0 {
        assert(p.push(x).drop_first() =~= Seq::<Pair>::empty());
        assert(p.push(x)[0] == x);
        assert(encode_pairs(Seq::<Pair>::empty()) == Seq::<u8>::empty());
        assert(encode_pairs(p) == Seq::<u8>::empty());
        assert(encode_pairs(p.push(x)) =~= snapshot_record(x.0, x.1));
    } else {
        assert(p.push(x).drop_first() =~= p.drop_first().push(x));
        lemma_encode_push(p.drop_first(), x);
        assert(encode_pairs(p.push(x)) =~= encode_pairs(p) + snapshot_record(x.0, x.1));
    }
}

/// What goes wrong when snapshot data is malformed.
pub enum SnapshotFault {
    KeyLengthMismatch,
    KeyNotUtf8(Seq<u8>),
    ValueLengthMissing,
    ValueLengthMismatch,
    ValueNotUtf8(Seq<u8>),
}

/// The text of the error reported for a fault.
pub open spec fn fault_message(f: SnapshotFault) -> Seq<char> {
    match f {
        SnapshotFault::KeyLengthMismatch => "Invalid snapshot format: key length mismatch"@,
        SnapshotFault::KeyNotUtf8(b) => "Invalid UTF-8 in key: "@ + utf8_error_text(b),
        SnapshotFault::ValueLengthMissing => "Invalid snapshot format: value length missing"@,
        SnapshotFault::ValueLengthMismatch => "Invalid snapshot format: value length mismatch"@,
        SnapshotFault::ValueNotUtf8(b) => "Invalid UTF-8 in value: "@ + utf8_error_text(b),
    }
}

/// Reads snapshot data from byte `off` on: the pairs of the well-formed
/// records met before the first fault, and that fault if there is one.
/// Reading stops, with no fault, once fewer than 8 bytes remain.
pub open spec fn parse_pairs(b: Seq<u8>, off: int) -> (Seq<Pair>, Option<SnapshotFault>)
    decreases b.len() - off,
{
    if off < 0 || off + 8 > b.len() {
        (Seq::empty(), None)
    } else {
        let kl = be32_at(b, off);
        let ks = off + 4;
        if ks + kl > b.len() {
            (Seq::empty(), Some(SnapshotFault::KeyLengthMismatch))
        } else {
            let kb = b.subrange(ks, ks + kl);
            if !valid_utf8(kb) {
                (Seq::empty(), Some(SnapshotFault::KeyNotUtf8(kb)))
            } else {
                let vo = ks + kl;
                if vo + 4 > b.len() {
                    (Seq::empty(), Some(SnapshotFault::ValueLengthMissing))
                } else {
                    let vl = be32_at(b, vo);
                    let vs = vo + 4;
                    if vs + vl > b.len() {
                        (Seq::empty(), Some(SnapshotFault::ValueLengthMismatch))
                    } else {
                        let vb = b.subrange(vs, vs + vl);
                        if !valid_utf8(vb) {
                            (Seq::empty(), Some(SnapshotFault::ValueNotUtf8(vb)))
                        } else {
                            let rest = parse_pairs(b, vs + vl);
                            (seq![(decode_utf8(kb), decode_utf8(vb))] + rest.0, rest.1)
                        }
                    }
                }
            }
        }
    }
}


/// Reading snapshot data placed after other bytes is the same as reading it
/// on its own.
pub proof fn lemma_parse_shift(a: Seq<u8>, b: Seq<u8>, o: int)
    requires
        0 <= o,
    ensures
        parse_pairs(a + b, a.len() + o) == parse_pairs(b, o),
    decreases b.len() - o,
{
    let s = a + b;
    let n = a.len() as int;
    if o + 8 <= b.len() {
        assert forall|j: int| 0 <= j < b.len() implies s[n + j] == b[j] by {}
        assert(be32_at(s, n + o) == be32_at(b, o));
        let kl = be32_at(b, o);
        let ks = o + 4;
        if ks + kl <= b.len() {
            assert(s.subrange(n + ks, n + ks + kl) =~= b.subrange(ks, ks + kl));
            let vo = ks + kl;
            if vo + 4 <= b.len() {
                assert(be32_at(s, n + vo) == be32_at(b, vo));
                let vl = be32_at(b, vo);
                let vs = vo + 4;
                if vs + vl <= b.len() {
                    assert(s.subrange(n + vs, n + vs + vl) =~= b.subrange(vs, vs + vl));
                    lemma_parse_shift(a, b, vs + vl);
                }
            }
        }
    }
}

/// Every key and value of `p` has fewer than 2^32 bytes in UTF-8.
pub open spec fn pairs_fit_u32(p: Seq<Pair>) -> bool {
    forall|i: int|
        0 <= i < p.len() ==> encode_utf8(#[trigger] p[i].0).len() <= u32::MAX && encode_utf8(
            p[i].1,
        ).len() <= u32::MAX
}

/// Reading a record followed by more data yields the record's pair, then
/// whatever the rest yields.
pub proof fn lemma_parse_record(k: Seq<char>, v: Seq<char>, er: Seq<u8>)
    requires
        encode_utf8(k).len() <= u32::MAX,
        encode_utf8(v).len() <= u32::MAX,
    ensures
        parse_pairs(snapshot_record(k, v) + er, 0) == (seq![(k, v)] + parse_pairs(er, 0).0,
        parse_pairs(er, 0).1),
{
    let kb = encode_utf8(k);
    let vb = encode_utf8(v);
    lemma_utf8_roundtrip(k);
    lemma_utf8_roundtrip(v);
    lemma_be32_roundtrip(kb.len() as u32);
    lemma_be32_roundtrip(vb.len() as u32);
    let rec = snapshot_record(k, v);
    let s = rec + er;
    let kl = kb.len() as int;
    let vl = vb.len() as int;
    assert(rec.len() == 8 + kl + vl);
    lemma_be32_at_concat(Seq::empty(), kb.len() as u32, kb + be32(vb.len() as u32) + vb + er);
    assert(Seq::<u8>::empty() + be32(kb.len() as u32) + (kb + be32(vb.len() as u32) + vb + er)
        =~= s);
    assert(be32_at(s, 0) == kl);
    assert(s.subrange(4, 4 + kl) =~= kb);
    lemma_be32_at_concat(be32(kb.len() as u32) + kb, vb.len() as u32, vb + er);
    assert(be32(kb.len() as u32) + kb + be32(vb.len() as u32) + (vb + er) =~= s);
    assert(be32_at(s, 4 + kl) == vl);
    assert(s.subrange(8 + kl, 8 + kl + vl) =~= vb);
    lemma_parse_shift(rec, er, 0);
}

/// Snapshot data read back gives the pairs it was written from, in order,
/// with no fault, whenever each key and value is shorter than 4 GiB.
pub proof fn lemma_snapshot_roundtrip(p: Seq<Pair>)
    requires
        pairs_fit_u32(p),
    ensures
        parse_pairs(encode_pairs(p), 0) == (p, Option::<SnapshotFault>::None),
    decreases p.len(),
{
    if p.len() == 0 {
        assert(encode_pairs(p) == Seq::<u8>::empty());
        assert(parse_pairs(encode_pairs(p), 0).0 =~= p);
    } else {
        let rest = p.drop_first();
        assert(pairs_fit_u32(rest)) by {
            assert forall|i: int| 0 <= i < rest.len() implies encode_utf8(#[trigger] rest[i].0).len()
                <= u32::MAX && encode_utf8(rest[i].1).len() <= u32::MAX by {
                assert(rest[i] == p[i + 1]);
            }
        }
        assert(encode_utf8(p[0].0).len() <= u32::MAX);
        lemma_snapshot_roundtrip(rest);
        lemma_parse_record(p[0].0, p[0].1, encode_pairs(rest));
        assert(seq![(p[0].0, p[0].1)] + rest =~= p);
    }
}

/// The abstract state of a `KeyValueStore`.
pub struct KvState {
    pub data: Map<Seq<char>, Seq<char>>,
    pub last_applied_index: u64,
    pub last_applied_term: u64,
}

/// The text of an optional string.
pub open spec fn opt_text(o: Option<String>) -> Option<Seq<char>> {
    match o {
        Some(s) => Some(s@),
        None => None,
    }
}

/// The value that `data` holds for `key`, if any.
pub open spec fn lookup(data: Map<Seq<char>, Seq<char>>, key: Seq<char>) -> Option<Seq<char>> {
    if data.contains_key(key) {
        Some(data[key])
    } else {
        None
    }
}

/// The data after applying `command`, and the value that applying it
/// returns: the stored value for a put, the removed value for a delete,
/// nothing for a no-op.
pub open spec fn apply_spec(data: Map<Seq<char>, Seq<char>>, command: Command) -> (
    Map<Seq<char>, Seq<char>>,
    Option<Seq<char>>,
) {
    match command {
        Command::Noop => (data, None),
        Command::Put { key, value } => (data.insert(key@, value@), Some(value@)),
        Command::Delete { key } => (data.remove(key@), lookup(data, key@)),
    }
}

/// A put is read back: applying `Put { key, value }` returns `value`,
/// whatever the store held under `key` before; afterwards the value stored
/// under `key` is `value`, and every other key keeps its value.
pub proof fn lemma_put_then_get(
    data: Map<Seq<char>, Seq<char>>,
    key: String,
    value: String,
    other: Seq<char>,
)
    ensures
        apply_spec(data, Command::Put { key, value }).1 == Some(value@),
        lookup(apply_spec(data, Command::Put { key, value }).0, key@) == Some(value@),
        other != key@ ==> lookup(apply_spec(data, Command::Put { key, value }).0, other)
            == lookup(data, other),
{
}

/// A delete is read back: after applying `Delete { key }`, nothing is
/// stored under `key`, every other key keeps its value, and the apply
/// returned what was stored under `key` before.
pub proof fn lemma_delete_then_get(data: Map<Seq<char>, Seq<char>>, key: String, other: Seq<char>)
    ensures
        lookup(apply_spec(data, Command::Delete { key }).0, key@) is None,
        apply_spec(data, Command::Delete { key }).1 == lookup(data, key@),
        other != key@ ==> lookup(apply_spec(data, Command::Delete { key }).0, other) == lookup(
            data,
            other,
        ),
{
}

/// The key-value state machine that the replicated log drives.
pub struct KeyValueStore {
    data: Vec<(String, String)>,
    last_applied_index: u64,
    last_applied_term: u64,
}

impl View for KeyValueStore {
    type V = KvState;

    open spec fn view(&self) -> KvState {
        KvState {
            data: pairs_to_map(self.ordered_pairs()),
            last_applied_index: self.spec_last_applied_index(),
            last_applied_term: self.spec_last_applied_term(),
        }
    }
}

impl KeyValueStore {
    /// The stored pairs, in the order in which a snapshot lists them.
    pub closed spec fn ordered_pairs(&self) -> Seq<Pair> {
        self.data@.map_values(|p: (String, String)| (p.0@, p.1@))
    }

    pub closed spec fn spec_last_applied_index(&self) -> u64 {
        self.last_applied_index
    }

    pub closed spec fn spec_last_applied_term(&self) -> u64 {
        self.last_applied_term
    }

    #[verifier::type_invariant]
    closed spec fn keys_unique(&self) -> bool {
        keys_distinct(self.ordered_pairs())
    }

    /// An empty store that has applied nothing.
    pub fn new() -> (r: Self)
        ensures
            r@.data == Map::<Seq<char>, Seq<char>>::empty(),
            r@.last_applied_index == 0,
            r@.last_applied_term == 0,
            r.ordered_pairs() == Seq::<Pair>::empty(),
    {
        let r = KeyValueStore { data: Vec::new(), last_applied_index: 0, last_applied_term: 0 };
        assert(r.ordered_pairs() =~= Seq::<Pair>::empty());
        r
    }

    /// The position of `key` among the stored pairs.
    fn find(&self, key: &String) -> (r: Option<usize>)
        ensures
            match r {
                Some(i) => i < self.ordered_pairs().len() && self.ordered_pairs()[i as int].0
                    == key@,
                None => forall|i: int|
                    0 <= i < self.ordered_pairs().len() ==> self.ordered_pairs()[i].0 != key@,
            },
    {
        let mut i: usize = 0;
        while i < self.data.len()
            invariant
                i <= self.data@.len(),
                forall|j: int| 0 <= j < i ==> self.ordered_pairs()[j].0 != key@,
            decreases self.data@.len() - i,
        {
            if self.data[i].0 == *key {
                return Some(i);
            }
            i = i + 1;
        }
        None
    }

    /// Stores `value` under `key`, replacing any earlier value.
    fn put(&mut self, key: String, value: String)
        ensures
            final(self)@.data == old(self)@.data.insert(key@, value@),
            final(self)@.last_applied_index == old(self)@.last_applied_index,
            final(self)@.last_applied_term == old(self)@.last_applied_term,
    {
        proof {
            use_type_invariant(&*self);
        }
        let ghost p = self.ordered_pairs();
        let found = self.find(&key);
        let mut d: Vec<(String, String)> = Vec::new();
        std::mem::swap(&mut d, &mut self.data);
        match found {
            Some(i) => {
                proof {
                    lemma_map_update(p, i as int, value@);
                }
                d.set(i, (key, value));
                assert(d@.map_values(|p: (String, String)| (p.0@, p.1@)) =~= p.update(
                    i as int,
                    (p[i as int].0, value@),
                ));
            },
            None => {
                let ghost kv = (key@, value@);
                d.push((key, value));
                assert(d@.map_values(|p: (String, String)| (p.0@, p.1@)) =~= p.push(kv));
                assert(keys_distinct(p.push(kv)));
                assert(p.push(kv).drop_last() =~= p);
            },
        }
        self.data = d;
    }

    /// Removes `key`, handing back the value it held.
    fn take(&mut self, key: &String) -> (r: Option<String>)
        ensures
            final(self)@.data == old(self)@.data.remove(key@),
            opt_text(r) == lookup(old(self)@.data, key@),
            final(self)@.last_applied_index == old(self)@.last_applied_index,
            final(self)@.last_applied_term == old(self)@.last_applied_term,
    {
        proof {
            use_type_invariant(&*self);
        }
        let ghost p = self.ordered_pairs();
        match self.find(key) {
            Some(i) => {
                proof {
                    lemma_map_remove(p, i as int);
                    lemma_map_has_pair(p, i as int);
                }
                let mut d: Vec<(String, String)> = Vec::new();
                std::mem::swap(&mut d, &mut self.data);
                let (_, v) = d.remove(i);
                assert(d@.map_values(|p: (String, String)| (p.0@, p.1@)) =~= p.remove(i as int));
                self.data = d;
                Some(v)
            },
            None => {
                proof {
                    lemma_map_missing(p, key@);
                }
                assert(pairs_to_map(p).remove(key@) =~= pairs_to_map(p));
                None
            },
        }
    }

    /// Applies the command of the log entry at `index`, of term `term`, and
    /// records that entry as the last one applied.
    pub fn apply(&mut self, index: u64, term: u64, command: &Command) -> (r: Result<
        Option<String>,
        RaftError,
    >)
        ensures
            r is Ok,
            final(self)@.data == apply_spec(old(self)@.data, *command).0,
            opt_text(r->Ok_0) == apply_spec(old(self)@.data, *command).1,
            final(self)@.last_applied_index == index,
            final(self)@.last_applied_term == term,
    {
        let result = match command {
            Command::Noop => None,
            Command::Put { key, value } => {
                self.put(key.clone(), value.clone());
                Some(value.clone())
            },
            Command::Delete { key } => self.take(key),
        };
        proof {
            use_type_invariant(&*self);
        }
        self.last_applied_index = index;
        self.last_applied_term = term;
        Ok(result)
    }

    /// The value stored under `key`.
    pub fn get(&self, key: &str) -> (r: Result<Option<String>, RaftError>)
        ensures
            r is Ok,
            opt_text(r->Ok_0) == lookup(self@.data, key@),
    {
        proof {
            use_type_invariant(self);
        }
        let k = key.to_owned();
        match self.find(&k) {
            Some(i) => {
                proof {
                    lemma_map_has_pair(self.ordered_pairs(), i as int);
                }
                Ok(Some(self.data[i].1.clone()))
            },
            None => {
                proof {
                    lemma_map_missing(self.ordered_pairs(), k@);
                }
                Ok(None)
            },
        }
    }

    /// Whether a value is stored under `key`.
    pub fn contains_key(&self, key: &str) -> (r: Result<bool, RaftError>)
        ensures
            r == Ok::<bool, RaftError>(self@.data.contains_key(key@)),
    {
        proof {
            use_type_invariant(self);
        }
        let k = key.to_owned();
        match self.find(&k) {
            Some(i) => {
                proof {
                    lemma_map_has_pair(self.ordered_pairs(), i as int);
                }
                Ok(true)
            },
            None => {
                proof {
                    lemma_map_missing(self.ordered_pairs(), k@);
                }
                Ok(false)
            },
        }
    }

    /// The index of the last log entry applied.
    pub fn last_applied_index(&self) -> (r: Result<u64, RaftError>)
        ensures
            r == Ok::<u64, RaftError>(self@.last_applied_index),
    {
        Ok(self.last_applied_index)
    }

    /// The term of the last log entry applied.
    pub fn last_applied_term(&self) -> (r: Result<u64, RaftError>)
        ensures
            r == Ok::<u64, RaftError>(self@.last_applied_term),
    {
        Ok(self.last_applied_term)
    }

    /// A snapshot of the whole store: its pairs encoded as records, in the
    /// store's order, and the position of the last entry applied.
    pub fn create_snapshot(&self) -> (r: Result<Snapshot, RaftError>)
        ensures
            r is Ok,
            r->Ok_0.data@ == encode_pairs(self.ordered_pairs()),
            r->Ok_0.last_included_index == self@.last_applied_index,
            r->Ok_0.last_included_term == self@.last_applied_term,
            keys_distinct(self.ordered_pairs()),
    {
        proof {
            use_type_invariant(self);
        }
        let mut out: Vec<u8> = Vec::new();
        let mut i: usize = 0;
        while i < self.data.len()
            invariant
                i <= self.data@.len(),
                out@ == encode_pairs(self.ordered_pairs().take(i as int)),
            decreases self.data@.len() - i,
        {
            let kb = string_bytes(&self.data[i].0);
            let vb = string_bytes(&self.data[i].1);
            proof {
                let p = self.ordered_pairs();
                assert(p.take(i as int + 1) =~= p.take(i as int).push(p[i as int]));
                lemma_encode_push(p.take(i as int), p[i as int]);
            }
            push_u32_be(&mut out, kb.len() as u32);
            push_all(&mut out, kb);
            push_u32_be(&mut out, vb.len() as u32);
            push_all(&mut out, vb);
            i = i + 1;
        }
        assert(self.ordered_pairs().take(i as int) =~= self.ordered_pairs());
        Ok(
            Snapshot {
                last_included_index: self.last_applied_index,
                last_included_term: self.last_applied_term,
                data: out,
            },
        )
    }

    /// Replaces the store's contents with those of `snapshot`.
    ///
    /// The records are read in order and stored one after another. At the
    /// first malformed record reading stops with an error; the store then
    /// keeps the records read before it and its last applied position is
    /// left as it was. Otherwise the last applied position becomes the
    /// snapshot's.
    pub fn restore_from_snapshot(&mut self, snapshot: &Snapshot) -> (r: Result<(), RaftError>)
        ensures
            final(self)@.data == pairs_to_map(parse_pairs(snapshot.data@, 0).0),
            match r {
                Ok(()) => {
                    &&& parse_pairs(snapshot.data@, 0).1 is None
                    &&& final(self)@.last_applied_index == snapshot.last_included_index
                    &&& final(self)@.last_applied_term == snapshot.last_included_term
                },
                Err(e) => {
                    &&& parse_pairs(snapshot.data@, 0).1 is Some
                    &&& e matches RaftError::StateMachine(m) && m@ == fault_message(
                        parse_pairs(snapshot.data@, 0).1->0,
                    )
                    &&& final(self)@.last_applied_index == old(self)@.last_applied_index
                    &&& final(self)@.last_applied_term == old(self)@.last_applied_term
                },
            },
    {
        self.data = Vec::new();
        assert(self.ordered_pairs() =~= Seq::<Pair>::empty());
        let bytes = snapshot.data.as_slice();
        let ghost b = bytes@;
        let n = bytes.len();
        let mut offset: usize = 0;
        let ghost mut done: Seq<Pair> = Seq::empty();
        while n - offset >= 8
            invariant
                offset <= n == b.len(),
                b == snapshot.data@,
                bytes@ == b,
                parse_pairs(b, 0) == (done + parse_pairs(b, offset as int).0, parse_pairs(
                    b,
                    offset as int,
                ).1),
                self@.data == pairs_to_map(done),
                self@.last_applied_index == old(self)@.last_applied_index,
                self@.last_applied_term == old(self)@.last_applied_term,
            decreases n - offset,
        {
            let ghost off0 = offset as int;
            let key_len = read_u32_be(bytes, offset) as usize;
            offset = offset + 4;
            if key_len > n - offset {
                assert(done + Seq::<Pair>::empty() =~= done);
                return Err(
                    RaftError::StateMachine(
                        "Invalid snapshot format: key length mismatch".to_owned(),
                    ),
                );
            }
            let key_bytes = copy_range(bytes, offset, offset + key_len);
            let key = match string_from_utf8(key_bytes) {
                Ok(k) => k,
                Err(m) => {
                    assert(done + Seq::<Pair>::empty() =~= done);
                    return Err(RaftError::StateMachine(join("Invalid UTF-8 in key: ", m.as_str())));
                },
            };
            offset = offset + key_len;
            if n - offset < 4 {
                assert(done + Seq::<Pair>::empty() =~= done);
                return Err(
                    RaftError::StateMachine(
                        "Invalid snapshot format: value length missing".to_owned(),
                    ),
                );
            }
            let val_len = read_u32_be(bytes, offset) as usize;
            offset = offset + 4;
            if val_len > n - offset {
                assert(done + Seq::<Pair>::empty() =~= done);
                return Err(
                    RaftError::StateMachine(
                        "Invalid snapshot format: value length mismatch".to_owned(),
                    ),
                );
            }
            let val_bytes = copy_range(bytes, offset, offset + val_len);
            let value = match string_from_utf8(val_bytes) {
                Ok(v) => v,
                Err(m) => {
                    assert(done + Seq::<Pair>::empty() =~= done);
                    return Err(
                        RaftError::StateMachine(join("Invalid UTF-8 in value: ", m.as_str())),
                    );
                },
            };
            offset = offset + val_len;
            let ghost kv = (key@, value@);
            proof {
                assert(parse_pairs(b, off0).0 =~= seq![kv] + parse_pairs(b, offset as int).0);
                assert(done + parse_pairs(b, off0).0 =~= done.push(kv) + parse_pairs(
                    b,
                    offset as int,
                ).0);
                assert(done.push(kv).drop_last() =~= done);
                done = done.push(kv);
            }
            self.put(key, value);
        }
        assert(done + Seq::<Pair>::empty() =~= done);
        proof {
            use_type_invariant(&*self);
        }
        self.last_applied_index = snapshot.last_included_index;
        self.last_applied_term = snapshot.last_included_term;
        Ok(())
    }
}

} // verus!
