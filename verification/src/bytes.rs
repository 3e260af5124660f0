//! Big-endian integers, as every packet of the protocol carries them.

use vstd::prelude::*;

verus! {

/// `x` in network byte order.
pub open spec fn be16(x: u16) -> Seq<u8> {
    seq![(x / 0x100) as u8, (x % 0x100) as u8]
}

/// `x` in network byte order.
pub open spec fn be32(x: u32) -> Seq<u8> {
    seq![
        (x / 0x100_0000) as u8,
        (x / 0x1_0000 % 0x100) as u8,
        (x / 0x100 % 0x100) as u8,
        (x % 0x100) as u8,
    ]
}

/// The 16-bit number in network byte order at `buf[at..]`.
pub open spec fn be16_at(buf: Seq<u8>, at: int) -> u16 {
    (buf[at] * 0x100 + buf[at + 1]) as u16
}

/// The 32-bit number in network byte order at `buf[at..]`.
pub open spec fn be32_at(buf: Seq<u8>, at: int) -> int {
    buf[at] * 16_777_216 + buf[at + 1] * 65_536 + buf[at + 2] * 256 + buf[at + 3]
}

/// Append `x` in network byte order.
pub fn push_be16(out: &mut Vec<u8>, x: u16)
    ensures
        final(out)@ == old(out)@ + be16(x),
{
    out.push((x / 0x100) as u8);
    out.push((x % 0x100) as u8);
    assert(out@ =~= old(out)@ + be16(x));
}

/// Append `x` in network byte order.
pub fn push_be32(out: &mut Vec<u8>, x: u32)
    ensures
        final(out)@ == old(out)@ + be32(x),
{
    out.push((x / 0x100_0000) as u8);
    out.push((x / 0x1_0000 % 0x100) as u8);
    out.push((x / 0x100 % 0x100) as u8);
    out.push((x % 0x100) as u8);
    assert(out@ =~= old(out)@ + be32(x));
}

/// Read the 16-bit number in network byte order at `buf[at..]`.
pub fn read_be16(buf: &[u8], at: usize) -> (x: u16)
    requires
        at + 2 <= buf@.len(),
    ensures
        x == be16_at(buf@, at as int),
{
    buf[at] as u16 * 0x100 + buf[at + 1] as u16
}

/// Append a copy of `bytes`.
pub fn push_bytes(out: &mut Vec<u8>, bytes: &[u8])
    ensures
        final(out)@ == old(out)@ + bytes@,
{
    out.extend_from_slice(bytes);
    assert(out@ =~= old(out)@ + bytes@);
}

/// Reading a number gives back the one that was written.
pub proof fn lemma_be16_round_trip(x: u16)
    ensures
        be16_at(be16(x), 0) == x,
{
}

/// A 16-bit number goes out high byte first, and is read so.
pub proof fn lemma_be16_bytes(x: u16, buf: Seq<u8>, at: int)
    ensures
        be16(x).len() == 2,
        be16(x)[0] * 256 + be16(x)[1] == x,
        be16_at(buf, at) == buf[at] * 256 + buf[at + 1],
{
}

/// A 32-bit number goes out high byte first.
pub proof fn lemma_be32_bytes(x: u32)
    ensures
        be32(x).len() == 4,
        be32(x)[0] * 16_777_216 + be32(x)[1] * 65_536 + be32(x)[2] * 256 + be32(x)[3] == x,
{
}

} // verus!
