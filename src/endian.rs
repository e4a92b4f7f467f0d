//! Big-endian integers on the wire.

use vstd::prelude::*;

verus! {

/// The four bytes of `v`, most significant first.
pub open spec fn be32_bytes(v: u32) -> Seq<u8> {
    seq![
        (v / 0x100_0000) as u8,
        (v / 0x1_0000 % 0x100) as u8,
        (v / 0x100 % 0x100) as u8,
        (v % 0x100) as u8,
    ]
}

/// The value of the four bytes of `b` from `at`, most significant first.
pub open spec fn be32_value(b: Seq<u8>, at: int) -> u32 {
    (b[at] * 0x100_0000 + b[at + 1] * 0x1_0000 + b[at + 2] * 0x100 + b[at + 3]) as u32
}

/// The two bytes of `v`, most significant first.
pub open spec fn be16_bytes(v: u16) -> Seq<u8> {
    seq![(v / 0x100) as u8, (v % 0x100) as u8]
}

/// The value of the two bytes of `b` from `at`, most significant first.
pub open spec fn be16_value(b: Seq<u8>, at: int) -> u16 {
    (b[at] * 0x100 + b[at + 1]) as u16
}

/// The eight bytes of `v`, most significant first.
pub open spec fn be64_bytes(v: u64) -> Seq<u8> {
    be32_bytes((v / 0x1_0000_0000) as u32) + be32_bytes((v % 0x1_0000_0000) as u32)
}

/// The value of the eight bytes of `b` from `at`, most significant first.
pub open spec fn be64_value(b: Seq<u8>, at: int) -> u64 {
    (be32_value(b, at) * 0x1_0000_0000 + be32_value(b, at + 4)) as u64
}

/// Reading back the four bytes of `v` gives `v`.
pub proof fn lemma_be32_round_trip(v: u32, b: Seq<u8>, at: int)
    requires
        0 <= at,
        at + 4 <= b.len(),
        b.subrange(at, at + 4) == be32_bytes(v),
    ensures
        be32_value(b, at) == v,
{
    assert(b[at] == be32_bytes(v)[0]);
    assert(b[at + 1] == be32_bytes(v)[1]);
    assert(b[at + 2] == be32_bytes(v)[2]);
    assert(b[at + 3] == be32_bytes(v)[3]);
}

/// Appends the big-endian bytes of `v`.
pub fn push_u32(buf: &mut Vec<u8>, v: u32)
    ensures
        final(buf)@ == old(buf)@ + be32_bytes(v),
{
    buf.push((v / 0x100_0000) as u8);
    buf.push((v / 0x1_0000 % 0x100) as u8);
    buf.push((v / 0x100 % 0x100) as u8);
    buf.push((v % 0x100) as u8);
    assert(final(buf)@ =~= old(buf)@ + be32_bytes(v));
}

/// Appends the big-endian bytes of `v`.
pub fn push_u16(buf: &mut Vec<u8>, v: u16)
    ensures
        final(buf)@ == old(buf)@ + be16_bytes(v),
{
    buf.push((v / 0x100) as u8);
    buf.push((v % 0x100) as u8);
    assert(final(buf)@ =~= old(buf)@ + be16_bytes(v));
}

/// Appends the big-endian bytes of `v`.
pub fn push_u64(buf: &mut Vec<u8>, v: u64)
    ensures
        final(buf)@ == old(buf)@ + be64_bytes(v),
{
    push_u32(buf, (v / 0x1_0000_0000) as u32);
    push_u32(buf, (v % 0x1_0000_0000) as u32);
    assert(final(buf)@ =~= old(buf)@ + be64_bytes(v));
}

/// Reads four big-endian bytes at `at`.
pub fn read_u32(b: &[u8], at: usize) -> (r: u32)
    requires
        at + 4 <= b@.len(),
    ensures
        r == be32_value(b@, at as int),
{
    let r: u32 = b[at] as u32 * 0x100_0000 + b[at + 1] as u32 * 0x1_0000 + b[at + 2] as u32 * 0x100
        + b[at + 3] as u32;
    r
}

/// Reads two big-endian bytes at `at`.
pub fn read_u16(b: &[u8], at: usize) -> (r: u16)
    requires
        at + 2 <= b@.len(),
    ensures
        r == be16_value(b@, at as int),
{
    let r: u16 = b[at] as u16 * 0x100 + b[at + 1] as u16;
    r
}

/// Reads eight big-endian bytes at `at`.
pub fn read_u64(b: &[u8], at: usize) -> (r: u64)
    requires
        at + 8 <= b@.len(),
    ensures
        r == be64_value(b@, at as int),
{
    let _n = b.len();
    let hi = read_u32(b, at);
    let lo = read_u32(b, at + 4);
    let r: u64 = hi as u64 * 0x1_0000_0000 + lo as u64;
    r
}

} // verus!
