//! Big-endian integers as they stand in DNS messages, and the small byte
//! buffer operations that the encoders share.
use vstd::prelude::*;

verus! {

/// The 16-bit big-endian value of the two bytes at `i`.
pub open spec fn be16(p: Seq<u8>, i: int) -> u16 {
    (p[i] as int * 256 + p[i + 1] as int) as u16
}

/// The 32-bit big-endian value of the four bytes at `i`.
pub open spec fn be32(p: Seq<u8>, i: int) -> u32 {
    (((p[i] as int * 256 + p[i + 1] as int) * 256 + p[i + 2] as int) * 256 + p[i + 3] as int) as u32
}

/// The two big-endian bytes of `v`.
pub open spec fn be16_bytes(v: u16) -> Seq<u8> {
    seq![(v / 256) as u8, (v % 256) as u8]
}

/// The four big-endian bytes of `v`.
pub open spec fn be32_bytes(v: u32) -> Seq<u8> {
    seq![
        (v / 16777216) as u8,
        ((v / 65536) % 256) as u8,
        ((v / 256) % 256) as u8,
        (v % 256) as u8,
    ]
}

/// Reads the big-endian 16-bit value at `i`.
pub fn read_u16(p: &[u8], i: usize) -> (r: u16)
    requires
        i + 2 <= p@.len(),
    ensures
        r == be16(p@, i as int),
{
    (p[i] as u16) * 256 + (p[i + 1] as u16)
}

/// Reads the big-endian 32-bit value at `i`.
pub fn read_u32(p: &[u8], i: usize) -> (r: u32)
    requires
        i + 4 <= p@.len(),
    ensures
        r == be32(p@, i as int),
{
    let a = p[i] as u32;
    let b = p[i + 1] as u32;
    let c = p[i + 2] as u32;
    let d = p[i + 3] as u32;
    ((a * 256 + b) * 256 + c) * 256 + d
}

/// Appends every byte of `src` to `out`.
pub fn append_bytes(out: &mut Vec<u8>, src: &[u8])
    ensures
        final(out)@ == old(out)@ + src@,
{
    let mut i: usize = 0;
    while i < src.len()
        invariant
            i <= src@.len(),
            out@ == old(out)@ + src@.take(i as int),
        decreases src@.len() - i,
    {
        out.push(src[i]);
        i = i + 1;
        assert(out@ =~= old(out)@ + src@.take(i as int));
    }
    assert(src@.take(i as int) =~= src@);
}

/// A fresh vector holding the bytes of `p` from `start` up to `end`.
pub fn copy_range(p: &[u8], start: usize, end: usize) -> (r: Vec<u8>)
    requires
        start <= end <= p@.len(),
    ensures
        r@ == p@.subrange(start as int, end as int),
{
    let mut r: Vec<u8> = Vec::new();
    append_bytes(&mut r, &p[start..end]);
    assert(r@ =~= p@.subrange(start as int, end as int));
    r
}

/// Appends the big-endian bytes of `v` to `out`.
pub fn push_u16(out: &mut Vec<u8>, v: u16)
    ensures
        final(out)@ == old(out)@ + be16_bytes(v),
{
    out.push((v / 256) as u8);
    out.push((v % 256) as u8);
    assert(out@ =~= old(out)@ + be16_bytes(v));
}

/// Appends the big-endian bytes of `v` to `out`.
pub fn push_u32(out: &mut Vec<u8>, v: u32)
    ensures
        final(out)@ == old(out)@ + be32_bytes(v),
{
    out.push((v / 16777216) as u8);
    out.push(((v / 65536) % 256) as u8);
    out.push(((v / 256) % 256) as u8);
    out.push((v % 256) as u8);
    assert(out@ =~= old(out)@ + be32_bytes(v));
}

/// Reading back the bytes that `be16_bytes` writes gives the value written.
pub proof fn lemma_be16_roundtrip(p: Seq<u8>, i: int, v: u16)
    requires
        0 <= i,
        i + 2 <= p.len(),
        p.subrange(i, i + 2) == be16_bytes(v),
    ensures
        be16(p, i) == v,
{
    assert(p[i] == p.subrange(i, i + 2)[0]);
    assert(p[i + 1] == p.subrange(i, i + 2)[1]);
}

/// Reading back the bytes that `be32_bytes` writes gives the value written.
pub proof fn lemma_be32_roundtrip(p: Seq<u8>, i: int, v: u32)
    requires
        0 <= i,
        i + 4 <= p.len(),
        p.subrange(i, i + 4) == be32_bytes(v),
    ensures
        be32(p, i) == v,
{
    let s = p.subrange(i, i + 4);
    assert(p[i] == s[0]);
    assert(p[i + 1] == s[1]);
    assert(p[i + 2] == s[2]);
    assert(p[i + 3] == s[3]);
}

} // verus!
