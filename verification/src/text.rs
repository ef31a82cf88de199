//! Text helpers: decoding UTF-8 through std, and the byte form of strings.

use vstd::prelude::*;
use vstd::utf8::*;

verus! {

/// The text of the error that std reports for bytes that are not UTF-8.
pub uninterp spec fn utf8_error_text(bytes: Seq<u8>) -> Seq<char>;

/// Calls `String::from_utf8`. As std documents, it returns the string whose
/// UTF-8 encoding is `bytes` when `bytes` is valid UTF-8, and an error
/// otherwise; the error is handed back as its display text, which depends
/// on the bytes alone and is named `utf8_error_text`.
#[verifier::external_body]
pub(crate) fn string_from_utf8(bytes: Vec<u8>) -> (r: Result<String, String>)
    ensures
        match r {
            Ok(s) => valid_utf8(bytes@) && s@ == decode_utf8(bytes@),
            Err(m) => !valid_utf8(bytes@) && m@ == utf8_error_text(bytes@),
        },
{
    match String::from_utf8(bytes) {
        Ok(s) => Ok(s),
        Err(e) => Err(e.to_string()),
    }
}

/// The UTF-8 bytes of a string.
pub fn string_bytes(s: &String) -> (r: &[u8])
    ensures
        r@ == encode_utf8(s@),
{
    s.as_str().as_bytes()
}

/// Decoding the UTF-8 encoding of a string gives the string back.
pub proof fn lemma_utf8_roundtrip(s: Seq<char>)
    ensures
        valid_utf8(encode_utf8(s)),
        decode_utf8(encode_utf8(s)) == s,
{
    encode_utf8_valid_utf8(s);
    encode_utf8_decode_utf8(s);
}

/// A string made of `prefix` followed by `tail`.
pub fn join(prefix: &str, tail: &str) -> (r: String)
    ensures
        r@ == prefix@ + tail@,
{
    let mut r = prefix.to_owned();
    r.append(tail);
    r
}

/// Every byte of `b` is an ASCII code.
pub open spec fn is_ascii_bytes(b: Seq<u8>) -> bool {
    forall|i: int| 0 <= i < b.len() ==> #[trigger] b[i] < 128
}

/// The characters whose codes are the bytes of `b`.
pub open spec fn ascii_text(b: Seq<u8>) -> Seq<char> {
    Seq::new(b.len(), |i: int| b[i] as char)
}

/// ASCII bytes are the UTF-8 encoding of the matching characters.
pub proof fn lemma_ascii_utf8(b: Seq<u8>)
    requires
        is_ascii_bytes(b),
    ensures
        encode_utf8(ascii_text(b)) == b,
        valid_utf8(b),
        decode_utf8(b) == ascii_text(b),
{
    let t = ascii_text(b);
    assert forall|i: int| 0 <= i < t.len() implies '\0' <= #[trigger] t[i] <= '\u{7f}' by {
        assert(b[i] < 128);
    }
    is_ascii_chars_encode_utf8(t);
    assert forall|i: int| 0 <= i < b.len() implies encode_utf8(t)[i] == b[i] by {
        assert(b[i] < 128);
        assert(t[i] == b[i] as char);
        assert((b[i] as char) as u8 == b[i]);
    }
    assert(encode_utf8(t) =~= b);
    encode_utf8_valid_utf8(t);
    encode_utf8_decode_utf8(t);
}

/// The text whose characters are the ASCII bytes `bytes`.
pub fn ascii_to_string(bytes: Vec<u8>) -> (r: String)
    requires
        is_ascii_bytes(bytes@),
    ensures
        r@ == ascii_text(bytes@),
{
    proof {
        lemma_ascii_utf8(bytes@);
    }
    match string_from_utf8(bytes) {
        Ok(s) => s,
        Err(_) => {
            assert(false);
            String::new()
        },
    }
}

/// The bytes `expected` stand in `b` from position `off` on.
pub open spec fn bytes_at(b: Seq<u8>, off: int, expected: Seq<u8>) -> bool {
    0 <= off && off + expected.len() <= b.len() && b.subrange(off, off + expected.len())
        == expected
}

/// Whether `expected` stands in `b` from position `off` on.
pub fn has_bytes_at(b: &[u8], off: usize, expected: &[u8]) -> (r: bool)
    ensures
        r == bytes_at(b@, off as int, expected@),
{
    if off > b.len() || expected.len() > b.len() - off {
        return false;
    }
    let mut i: usize = 0;
    while i < expected.len()
        invariant
            i <= expected@.len(),
            off + expected@.len() <= b@.len(),
            b@.len() == b.len(),
            forall|j: int| 0 <= j < i ==> b@[off + j] == expected@[j],
        decreases expected@.len() - i,
    {
        if b[off + i] != expected[i] {
            assert(b@.subrange(off as int, off + expected@.len())[i as int] != expected@[i as int]);
            return false;
        }
        i = i + 1;
    }
    assert(b@.subrange(off as int, off + expected@.len()) =~= expected@);
    true
}

} // verus!
