//! How snapshot files are named and chosen.
//!
//! A snapshot of the state up to index `i` of term `t` is stored in a file
//! named `snapshot_<i>_<t>.bin`, both numbers in decimal.

use crate::decimal::{decimal_digits, format_decimal, is_digit, lemma_digits_ascii,
    lemma_format_parse, parse_decimal, parse_u64_spec, zero_padded};
use crate::text::{ascii_text, ascii_to_string, bytes_at, has_bytes_at, is_ascii_bytes,
    lemma_ascii_utf8};
use crate::wire::push_all;
use vstd::prelude::*;
use vstd::string::StrSliceExecFns;
use vstd::utf8::*;

verus! {

/// The bytes of `snapshot_`.
pub open spec fn snapshot_prefix() -> Seq<u8> {
    seq![115u8, 110u8, 97u8, 112u8, 115u8, 104u8, 111u8, 116u8, 95u8]
}

/// The bytes of `.bin`.
pub open spec fn snapshot_suffix() -> Seq<u8> {
    seq![46u8, 98u8, 105u8, 110u8]
}

fn prefix_vec() -> (r: Vec<u8>)
    ensures
        r@ == snapshot_prefix(),
{
    let r: Vec<u8> = vec![115u8, 110u8, 97u8, 112u8, 115u8, 104u8, 111u8, 116u8, 95u8];
    assert(r@ =~= snapshot_prefix());
    r
}

fn suffix_vec() -> (r: Vec<u8>)
    ensures
        r@ == snapshot_suffix(),
{
    let r: Vec<u8> = vec![46u8, 98u8, 105u8, 110u8];
    assert(r@ =~= snapshot_suffix());
    r
}

/// The bytes of the name of the snapshot up to `index`, of term `term`.
pub open spec fn snapshot_name_bytes(index: u64, term: u64) -> Seq<u8> {
    snapshot_prefix() + decimal_digits(index as nat) + seq![95u8] + decimal_digits(term as nat)
        + snapshot_suffix()
}

/// The file name of the snapshot up to `index`, of term `term`.
pub fn snapshot_file_name(index: u64, term: u64) -> (r: String)
    ensures
        r@ == ascii_text(snapshot_name_bytes(index, term)),
{
    let mut b = prefix_vec();
    let di = format_decimal(index, 0);
    let dt = format_decimal(term, 0);
    push_all(&mut b, di.as_slice());
    b.push(95u8);
    push_all(&mut b, dt.as_slice());
    let suffix = suffix_vec();
    push_all(&mut b, suffix.as_slice());
    proof {
        lemma_digits_ascii(di@);
        lemma_digits_ascii(dt@);
        assert(di@ =~= decimal_digits(index as nat));
        assert(dt@ =~= decimal_digits(term as nat));
        assert(b@ =~= snapshot_name_bytes(index, term));
        assert(is_ascii_bytes(b@)) by {
            let p = snapshot_prefix();
            let n1 = p.len() + di@.len();
            let n2 = n1 + 1 + dt@.len();
            assert forall|i: int| 0 <= i < b@.len() implies #[trigger] b@[i] < 128 by {
                if i < p.len() {
                } else if i < n1 {
                    assert(b@[i] == di@[i - p.len()]);
                } else if i == n1 {
                } else if i < n2 {
                    assert(b@[i] == dt@[i - n1 - 1]);
                } else {
                }
            }
        }
    }
    ascii_to_string(b)
}

/// A file name with UTF-8 bytes `b` is that of a snapshot: it starts with
/// `snapshot_` and ends with `.bin`.
pub open spec fn is_snapshot_name(b: Seq<u8>) -> bool {
    bytes_at(b, 0, snapshot_prefix()) && b.len() >= 4 && bytes_at(
        b,
        b.len() - 4,
        snapshot_suffix(),
    )
}

/// Whether `name` is the name of a snapshot file.
pub fn is_snapshot_file_name(name: &str) -> (r: bool)
    ensures
        r == is_snapshot_name(encode_utf8(name@)),
{
    let b = name.as_bytes();
    let prefix = prefix_vec();
    let suffix = suffix_vec();
    if !has_bytes_at(b, 0, prefix.as_slice()) {
        return false;
    }
    if b.len() < 4 {
        return false;
    }
    has_bytes_at(b, b.len() - 4, suffix.as_slice())
}

/// `j` is the first position at or after `from` where `b` holds `x`.
pub open spec fn is_first_at(b: Seq<u8>, x: u8, from: int, j: int) -> bool {
    &&& from <= j < b.len()
    &&& b[j] == x
    &&& forall|k: int| from <= k < j ==> b[k] != x
}

/// The first position at or after `from` where `b` holds `x`, if any.
pub open spec fn first_at(b: Seq<u8>, x: u8, from: int) -> Option<int> {
    if exists|j: int| is_first_at(b, x, from, j) {
        Some(choose|j: int| is_first_at(b, x, from, j))
    } else {
        None
    }
}

/// Finds the first position at or after `from` where `b` holds `x`.
pub fn find_byte(b: &[u8], x: u8, from: usize) -> (r: Option<usize>)
    ensures
        match r {
            Some(j) => is_first_at(b@, x, from as int, j as int) && first_at(b@, x, from as int)
                == Some(j as int),
            None => first_at(b@, x, from as int) is None,
        },
{
    let mut i: usize = from;
    while i < b.len()
        invariant
            from <= i,
            forall|k: int| from <= k < i && k < b@.len() ==> b@[k] != x,
        decreases b@.len() - i,
    {
        if b[i] == x {
            assert(is_first_at(b@, x, from as int, i as int));
            proof {
                let c = choose|c: int| is_first_at(b@, x, from as int, c);
                assert(c == i) by {
                    if c > i {
                        assert(b@[i as int] != x);
                    }
                }
            }
            return Some(i);
        }
        i = i + 1;
    }
    assert(!exists|j: int| is_first_at(b@, x, from as int, j));
    None
}

/// The snapshot index named by a file name with UTF-8 bytes `b`: for a
/// snapshot name, the text between its first and second `_`, read as
/// `str::parse::<u64>` reads it.
pub open spec fn snapshot_index_of(b: Seq<u8>) -> Option<u64> {
    if !is_snapshot_name(b) {
        None
    } else {
        match first_at(b, 95, 0) {
            None => None,
            Some(f) => match first_at(b, 95, f + 1) {
                None => None,
                Some(g) => parse_u64_spec(b.subrange(f + 1, g)),
            },
        }
    }
}

/// The index that a snapshot file's name carries, if it is a snapshot
/// file whose name carries one.
pub fn snapshot_index_from_name(name: &str) -> (r: Option<u64>)
    ensures
        r == snapshot_index_of(encode_utf8(name@)),
{
    if !is_snapshot_file_name(name) {
        return None;
    }
    let b = name.as_bytes();
    match find_byte(b, 95, 0) {
        None => None,
        Some(f) => match find_byte(b, 95, f + 1) {
            None => None,
            Some(g) => parse_decimal(b, f + 1, g),
        },
    }
}

/// Whether the file `name` is a snapshot taken before `index`, which
/// cleaning up removes.
pub fn is_older_snapshot(name: &str, index: u64) -> (r: bool)
    ensures
        r == (snapshot_index_of(encode_utf8(name@)) matches Some(i) && i < index),
{
    match snapshot_index_from_name(name) {
        Some(i) => i < index,
        None => false,
    }
}

/// `i` is the first position holding the largest value of `s`.
pub open spec fn is_first_max(s: Seq<u64>, i: int) -> bool {
    &&& 0 <= i < s.len()
    &&& forall|j: int| 0 <= j < s.len() ==> s[j] <= s[i]
    &&& forall|j: int| 0 <= j < i ==> s[j] < s[i]
}

/// Among snapshots with indices `indices` (in the order they were found),
/// the one kept as the latest: the first with the largest index.
pub fn latest_snapshot_position(indices: &Vec<u64>) -> (r: Option<usize>)
    ensures
        indices@.len() == 0 <==> r is None,
        r matches Some(i) ==> is_first_max(indices@, i as int),
{
    if indices.len() == 0 {
        return None;
    }
    let mut best: usize = 0;
    let mut i: usize = 1;
    while i < indices.len()
        invariant
            1 <= i <= indices@.len(),
            best < i,
            forall|j: int| 0 <= j < i ==> indices@[j] <= indices@[best as int],
            forall|j: int| 0 <= j < best ==> indices@[j] < indices@[best as int],
        decreases indices@.len() - i,
    {
        if indices[i] > indices[best] {
            best = i;
        }
        i = i + 1;
    }
    Some(best)
}

/// The name of a snapshot is a snapshot name that reads back as its index.
pub proof fn lemma_snapshot_name_roundtrip(index: u64, term: u64)
    ensures
        is_snapshot_name(encode_utf8(ascii_text(snapshot_name_bytes(index, term)))),
        snapshot_index_of(encode_utf8(ascii_text(snapshot_name_bytes(index, term)))) == Some(
            index,
        ),
{
    let di = decimal_digits(index as nat);
    let dt = decimal_digits(term as nat);
    lemma_format_parse(index, 0);
    lemma_format_parse(term, 0);
    assert(zero_padded(di, 0) == di);
    assert(zero_padded(dt, 0) == dt);
    lemma_digits_ascii(di);
    lemma_digits_ascii(dt);
    let b = snapshot_name_bytes(index, term);
    let p = snapshot_prefix();
    let n1: int = (p.len() + di.len()) as int;
    let n2: int = n1 + 1 + dt.len();
    assert forall|i: int| p.len() <= i < n1 implies b[i] == di[i - p.len()] && b[i] != 95 by {
        assert(is_digit(di[i - p.len()]));
    }
    assert forall|i: int| n1 < i < n2 implies b[i] == dt[i - n1 - 1] by {}
    assert(is_ascii_bytes(b)) by {
        assert forall|i: int| 0 <= i < b.len() implies #[trigger] b[i] < 128 by {
            if i < p.len() {
            } else if i < n1 {
            } else if i == n1 {
            } else if i < n2 {
                assert(is_digit(dt[i - n1 - 1]));
            } else {
            }
        }
    }
    lemma_ascii_utf8(b);
    assert(b.subrange(0, 9) =~= p);
    assert(b.subrange(b.len() - 4, b.len() as int) =~= snapshot_suffix());
    assert(is_first_at(b, 95, 0, 8));
    assert(first_at(b, 95, 0) == Some(8int)) by {
        let c = choose|c: int| is_first_at(b, 95, 0, c);
        if c < 8 {
            assert(b[c] == p[c]);
        } else if c > 8 {
            assert(b[8] == 95);
        }
    }
    assert(is_first_at(b, 95, 9, n1));
    assert(first_at(b, 95, 9) == Some(n1)) by {
        let c = choose|c: int| is_first_at(b, 95, 9, c);
        if c < n1 {
        } else if c > n1 {
            assert(b[n1] == 95);
        }
    }
    assert(b.subrange(9, n1) =~= di);
}

/// The path of `name` inside the directory `dir`, as a path join forms it:
/// a separator `/` is put between them unless `dir` is empty or already
/// ends in `/`.
pub open spec fn path_joined(dir: Seq<char>, name: Seq<char>) -> Seq<char> {
    if dir.len() == 0 {
        name
    } else if dir.last() == '/' {
        dir + name
    } else {
        dir + "/"@ + name
    }
}

/// Keeps the snapshots of a node in one directory.
#[derive(Debug)]
pub struct SnapshotManager {
    pub dir: String,
}

impl SnapshotManager {
    /// A manager for the directory `dir`.
    pub fn new(dir: &str) -> (r: Self)
        ensures
            r.dir@ == dir@,
    {
        SnapshotManager { dir: dir.to_owned() }
    }

    /// The path of the file that stores the snapshot up to `index`, of
    /// term `term`: the snapshot's file name joined to the directory as a
    /// path, that is, the name alone for an empty directory, the directory
    /// and the name for a directory that ends in `/`, and the directory, a
    /// `/`, then the name otherwise.
    pub fn path_for(&self, index: u64, term: u64) -> (r: String)
        ensures
            r@ == path_joined(self.dir@, ascii_text(snapshot_name_bytes(index, term))),
    {
        let name = snapshot_file_name(index, term);
        let n = self.dir.as_str().unicode_len();
        if n == 0 {
            return name;
        }
        let mut p = self.dir.clone();
        if self.dir.as_str().get_char(n - 1) != '/' {
            p.append("/");
        }
        p.append(name.as_str());
        p
    }
}

} // verus!
