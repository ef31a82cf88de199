//! Byte-level building blocks shared by every format of the crate:
//! big-endian 32-bit integers and length-prefixed frames.

use vstd::prelude::*;

verus! {

/// The four big-endian bytes of `x`, most significant first.
pub open spec fn be32(x: u32) -> Seq<u8> {
    seq![
        (x / 0x100_0000) as u8,
        ((x / 0x1_0000) % 0x100) as u8,
        ((x / 0x100) % 0x100) as u8,
        (x % 0x100) as u8,
    ]
}

/// The number whose big-endian bytes are `b0 b1 b2 b3`.
pub open spec fn be32_value(b0: u8, b1: u8, b2: u8, b3: u8) -> int {
    b0 * 0x100_0000 + b1 * 0x1_0000 + b2 * 0x100 + b3
}

/// The number held by the four bytes of `s` starting at `off`.
pub open spec fn be32_at(s: Seq<u8>, off: int) -> int {
    be32_value(s[off], s[off + 1], s[off + 2], s[off + 3])
}

/// Reading back the bytes of `be32(x)` gives `x`.
pub proof fn lemma_be32_roundtrip(x: u32)
    ensures
        be32(x).len() == 4,
        be32_value(be32(x)[0], be32(x)[1], be32(x)[2], be32(x)[3]) == x,
{
    let b = be32(x);
    assert(b[0] == x / 0x100_0000);
    assert(b[1] == (x / 0x1_0000) % 0x100);
    assert(b[2] == (x / 0x100) % 0x100);
    assert(b[3] == x % 0x100);
}

/// `be32_at` reads the big-endian integer written at a position of a
/// concatenation.
pub proof fn lemma_be32_at_concat(prefix: Seq<u8>, x: u32, rest: Seq<u8>)
    ensures
        be32_at(prefix + be32(x) + rest, prefix.len() as int) == x,
{
    lemma_be32_roundtrip(x);
    let s = prefix + be32(x) + rest;
    let p = prefix.len() as int;
    assert(s[p] == be32(x)[0]);
    assert(s[p + 1] == be32(x)[1]);
    assert(s[p + 2] == be32(x)[2]);
    assert(s[p + 3] == be32(x)[3]);
}

/// Appends the big-endian bytes of `x` to `buf`.
pub fn push_u32_be(buf: &mut Vec<u8>, x: u32)
    ensures
        final(buf)@ == old(buf)@ + be32(x),
{
    buf.push((x / 0x100_0000) as u8);
    buf.push(((x / 0x1_0000) % 0x100) as u8);
    buf.push(((x / 0x100) % 0x100) as u8);
    buf.push((x % 0x100) as u8);
    assert(final(buf)@ =~= old(buf)@ + be32(x));
}

/// Reads the big-endian integer stored in `buf[off..off + 4]`.
pub fn read_u32_be(buf: &[u8], off: usize) -> (r: u32)
    requires
        off + 4 <= buf@.len(),
    ensures
        r == be32_at(buf@, off as int),
{
    let b0 = buf[off] as u32;
    let b1 = buf[off + 1] as u32;
    let b2 = buf[off + 2] as u32;
    let b3 = buf[off + 3] as u32;
    b0 * 0x100_0000 + b1 * 0x1_0000 + b2 * 0x100 + b3
}

/// Appends all of `src` to `dst`.
pub fn push_all(dst: &mut Vec<u8>, src: &[u8])
    ensures
        final(dst)@ == old(dst)@ + src@,
{
    let mut i: usize = 0;
    while i < src.len()
        invariant
            i <= src@.len(),
            dst@ == old(dst)@ + src@.subrange(0, i as int),
        decreases src@.len() - i,
    {
        dst.push(src[i]);
        i = i + 1;
        assert(dst@ =~= old(dst)@ + src@.subrange(0, i as int));
    }
    assert(src@.subrange(0, src@.len() as int) =~= src@);
}

/// Copies `src[from..to]` into a fresh vector.
pub fn copy_range(src: &[u8], from: usize, to: usize) -> (r: Vec<u8>)
    requires
        from <= to <= src@.len(),
    ensures
        r@ == src@.subrange(from as int, to as int),
{
    let mut r: Vec<u8> = Vec::new();
    let mut i: usize = from;
    while i < to
        invariant
            from <= i <= to <= src@.len(),
            r@ == src@.subrange(from as int, i as int),
        decreases to - i,
    {
        r.push(src[i]);
        i = i + 1;
        assert(r@ =~= src@.subrange(from as int, i as int));
    }
    r
}

/// A frame: the big-endian length of `payload` followed by `payload`.
/// The length field keeps the low 32 bits of the payload's length.
pub open spec fn length_prefixed(payload: Seq<u8>) -> Seq<u8> {
    be32(payload.len() as u32) + payload
}

/// Frames `payload` for the wire: its length as four big-endian bytes,
/// then the payload itself.
pub fn encode_length_prefixed(payload: &[u8]) -> (r: Vec<u8>)
    ensures
        r@ == length_prefixed(payload@),
{
    let mut r: Vec<u8> = Vec::new();
    push_u32_be(&mut r, payload.len() as u32);
    push_all(&mut r, payload);
    r
}

/// The length announced by the four header bytes of a wire frame.
pub fn frame_length(header: &[u8]) -> (r: u32)
    requires
        header@.len() == 4,
    ensures
        r == be32_at(header@, 0),
{
    read_u32_be(header, 0)
}

/// A frame's header reads back as the payload's length, for every payload
/// shorter than 4 GiB.
pub proof fn lemma_length_prefixed_roundtrip(payload: Seq<u8>, rest: Seq<u8>)
    requires
        payload.len() <= u32::MAX,
    ensures
        be32_at(length_prefixed(payload) + rest, 0) == payload.len(),
        (length_prefixed(payload) + rest).subrange(4, 4 + payload.len() as int) == payload,
{
    lemma_be32_roundtrip(payload.len() as u32);
    lemma_be32_at_concat(Seq::empty(), payload.len() as u32, payload + rest);
    assert(Seq::<u8>::empty() + be32(payload.len() as u32) + (payload + rest)
        =~= length_prefixed(payload) + rest);
    assert((length_prefixed(payload) + rest).subrange(4, 4 + payload.len() as int) =~= payload);
}

} // verus!
