//! Little-endian numbers and byte strings on the wire.

use vstd::prelude::*;

verus! {

/// The little-endian 32-bit number at position `i`.
pub open spec fn le32(s: Seq<u8>, i: int) -> nat {
    (s[i] + 0x100 * s[i + 1] + 0x1_0000 * s[i + 2] + 0x100_0000 * s[i + 3]) as nat
}

/// The low 32 bits of `v`, little-endian.
pub open spec fn le32_bytes(v: nat) -> Seq<u8> {
    seq![
        (v % 0x100) as u8,
        (v / 0x100 % 0x100) as u8,
        (v / 0x1_0000 % 0x100) as u8,
        (v / 0x100_0000 % 0x100) as u8,
    ]
}

/// Writing a number and reading it back keeps it.
pub proof fn lemma_le32_round_trip(v: nat, head: Seq<u8>, tail: Seq<u8>)
    requires
        v < 0x1_0000_0000,
    ensures
        le32(head + le32_bytes(v) + tail, head.len() as int) == v,
{
    let s = head + le32_bytes(v) + tail;
    let n = head.len() as int;
    assert(s[n] == le32_bytes(v)[0]);
    assert(s[n + 1] == le32_bytes(v)[1]);
    assert(s[n + 2] == le32_bytes(v)[2]);
    assert(s[n + 3] == le32_bytes(v)[3]);
}

/// Read the little-endian 32-bit number at position `i`.
pub fn read_le32(s: &[u8], i: usize) -> (r: u32)
    requires
        i + 4 <= s@.len(),
    ensures
        r == le32(s@, i as int),
{
    s[i] as u32 + 0x100 * (s[i + 1] as u32) + 0x1_0000 * (s[i + 2] as u32) + 0x100_0000 * (s[i
        + 3] as u32)
}

/// Append the low 32 bits of `v`, little-endian.
pub fn push_le32(out: &mut Vec<u8>, v: usize)
    ensures
        final(out)@ == old(out)@ + le32_bytes(v as nat),
{
    out.push((v % 0x100) as u8);
    out.push((v / 0x100 % 0x100) as u8);
    out.push((v / 0x1_0000 % 0x100) as u8);
    out.push((v / 0x100_0000 % 0x100) as u8);
    assert(out@ =~= old(out)@ + le32_bytes(v as nat));
}

/// Append a byte string.
pub fn push_all(out: &mut Vec<u8>, s: &[u8])
    ensures
        final(out)@ == old(out)@ + s@,
{
    out.extend_from_slice(s);
    assert(out@ =~= old(out)@ + s@);
}

/// The part of `s` from `start` on.
pub fn tail_from(s: &[u8], start: usize) -> (r: &[u8])
    requires
        start <= s@.len(),
    ensures
        r@ == s@.skip(start as int),
{
    let r = vstd::slice::slice_subrange(s, start, s.len());
    assert(r@ =~= s@.skip(start as int));
    r
}

/// A copy of the bytes from `start` up to `end`.
pub fn copy_range(s: &[u8], start: usize, end: usize) -> (r: Vec<u8>)
    requires
        start <= end <= s@.len(),
    ensures
        r@ == s@.subrange(start as int, end as int),
{
    let mut r: Vec<u8> = Vec::with_capacity(end - start);
    push_all(&mut r, vstd::slice::slice_subrange(s, start, end));
    assert(r@ =~= s@.subrange(start as int, end as int));
    r
}

/// `n` copies of `b`.
pub fn filled(b: u8, n: usize) -> (r: Vec<u8>)
    ensures
        r@ == crate::digits::repeat(b, n as nat),
{
    let mut r: Vec<u8> = Vec::with_capacity(n);
    r.resize(n, b);
    assert(r@ =~= crate::digits::repeat(b, n as nat));
    r
}

} // verus!
