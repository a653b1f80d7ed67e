//! Big-endian integer encoding shared by the MoldUDP64 codec and the replay renderer.

use vstd::prelude::*;

verus! {

/// The 16-bit big-endian value of two bytes.
pub open spec fn be_u16(hi: u8, lo: u8) -> u16 {
    (((hi as u16) << 8u16) | (lo as u16)) as u16
}

/// The 64-bit big-endian value of the first eight bytes of `b`.
pub open spec fn be_u64(b: Seq<u8>) -> u64 {
    ((b[0] as u64) << 56u64) | ((b[1] as u64) << 48u64) | ((b[2] as u64) << 40u64) | ((b[3] as u64)
        << 32u64) | ((b[4] as u64) << 24u64) | ((b[5] as u64) << 16u64) | ((b[6] as u64) << 8u64)
        | (b[7] as u64)
}

/// The eight big-endian bytes of `x`.
pub open spec fn u64_be_bytes(x: u64) -> Seq<u8> {
    seq![
        ((x >> 56u64) & 0xffu64) as u8,
        ((x >> 48u64) & 0xffu64) as u8,
        ((x >> 40u64) & 0xffu64) as u8,
        ((x >> 32u64) & 0xffu64) as u8,
        ((x >> 24u64) & 0xffu64) as u8,
        ((x >> 16u64) & 0xffu64) as u8,
        ((x >> 8u64) & 0xffu64) as u8,
        (x & 0xffu64) as u8,
    ]
}

/// The two big-endian bytes of `x`.
pub open spec fn u16_be_bytes(x: u16) -> Seq<u8> {
    seq![((x >> 8u16) & 0xffu16) as u8, (x & 0xffu16) as u8]
}

/// The two little-endian bytes of `x`.
pub open spec fn u16_le_bytes(x: u16) -> Seq<u8> {
    seq![(x & 0xffu16) as u8, ((x >> 8u16) & 0xffu16) as u8]
}

/// Reads the big-endian `u16` at `buf[pos..pos + 2]`.
pub fn read_be_u16(buf: &[u8], pos: usize) -> (r: u16)
    requires
        pos + 2 <= buf@.len(),
    ensures
        r == be_u16(buf@[pos as int], buf@[pos + 1]),
{
    ((buf[pos] as u16) << 8u16) | (buf[pos + 1] as u16)
}

/// Reads the big-endian `u64` at `buf[pos..pos + 8]`.
pub fn read_be_u64(buf: &[u8], pos: usize) -> (r: u64)
    requires
        pos + 8 <= buf@.len(),
    ensures
        r == be_u64(buf@.subrange(pos as int, pos + 8)),
{
    ((buf[pos] as u64) << 56u64) | ((buf[pos + 1] as u64) << 48u64) | ((buf[pos + 2] as u64)
        << 40u64) | ((buf[pos + 3] as u64) << 32u64) | ((buf[pos + 4] as u64) << 24u64) | ((buf[pos
        + 5] as u64) << 16u64) | ((buf[pos + 6] as u64) << 8u64) | (buf[pos + 7] as u64)
}

/// Decoding the big-endian bytes of a value gives the value back.
pub proof fn lemma_be_u64_roundtrip(x: u64)
    ensures
        be_u64(u64_be_bytes(x)) == x,
{
    let b = u64_be_bytes(x);
    let b0 = ((x >> 56u64) & 0xffu64) as u8;
    let b1 = ((x >> 48u64) & 0xffu64) as u8;
    let b2 = ((x >> 40u64) & 0xffu64) as u8;
    let b3 = ((x >> 32u64) & 0xffu64) as u8;
    let b4 = ((x >> 24u64) & 0xffu64) as u8;
    let b5 = ((x >> 16u64) & 0xffu64) as u8;
    let b6 = ((x >> 8u64) & 0xffu64) as u8;
    let b7 = (x & 0xffu64) as u8;
    assert(b[0] == b0 && b[1] == b1 && b[2] == b2 && b[3] == b3 && b[4] == b4 && b[5] == b5
        && b[6] == b6 && b[7] == b7);
    assert(((b0 as u64) << 56u64) | ((b1 as u64) << 48u64) | ((b2 as u64) << 40u64) | ((b3 as u64)
        << 32u64) | ((b4 as u64) << 24u64) | ((b5 as u64) << 16u64) | ((b6 as u64) << 8u64) | (
    b7 as u64) == x) by (bit_vector)
        requires
            b0 == ((x >> 56u64) & 0xffu64) as u8,
            b1 == ((x >> 48u64) & 0xffu64) as u8,
            b2 == ((x >> 40u64) & 0xffu64) as u8,
            b3 == ((x >> 32u64) & 0xffu64) as u8,
            b4 == ((x >> 24u64) & 0xffu64) as u8,
            b5 == ((x >> 16u64) & 0xffu64) as u8,
            b6 == ((x >> 8u64) & 0xffu64) as u8,
            b7 == (x & 0xffu64) as u8,
    ;
}

/// Decoding the big-endian bytes of a `u16` gives the value back.
pub proof fn lemma_be_u16_roundtrip(x: u16)
    ensures
        be_u16(u16_be_bytes(x)[0], u16_be_bytes(x)[1]) == x,
{
    let hi = ((x >> 8u16) & 0xffu16) as u8;
    let lo = (x & 0xffu16) as u8;
    assert((((hi as u16) << 8u16) | (lo as u16)) as u16 == x) by (bit_vector)
        requires
            hi == ((x >> 8u16) & 0xffu16) as u8,
            lo == (x & 0xffu16) as u8,
    ;
}

/// The little-endian bytes of `x`.
pub fn u16_to_le(x: u16) -> (r: [u8; 2])
    ensures
        r@ == u16_le_bytes(x),
{
    let r = [(x & 0xffu16) as u8, ((x >> 8u16) & 0xffu16) as u8];
    assert(r@ =~= u16_le_bytes(x));
    r
}

/// Writes the big-endian bytes of `x` at `out[pos..pos + 8]`.
pub fn write_be_u64(out: &mut [u8], pos: usize, x: u64)
    requires
        pos + 8 <= old(out)@.len(),
    ensures
        final(out)@.len() == old(out)@.len(),
        final(out)@ == old(out)@.subrange(0, pos as int) + u64_be_bytes(x) + old(out)@.subrange(
            pos + 8,
            old(out)@.len() as int,
        ),
{
    out[pos] = ((x >> 56u64) & 0xffu64) as u8;
    out[pos + 1] = ((x >> 48u64) & 0xffu64) as u8;
    out[pos + 2] = ((x >> 40u64) & 0xffu64) as u8;
    out[pos + 3] = ((x >> 32u64) & 0xffu64) as u8;
    out[pos + 4] = ((x >> 24u64) & 0xffu64) as u8;
    out[pos + 5] = ((x >> 16u64) & 0xffu64) as u8;
    out[pos + 6] = ((x >> 8u64) & 0xffu64) as u8;
    out[pos + 7] = (x & 0xffu64) as u8;
    assert(out@ =~= old(out)@.subrange(0, pos as int) + u64_be_bytes(x) + old(out)@.subrange(
        pos + 8,
        old(out)@.len() as int,
    ));
}

/// Writes the big-endian bytes of `x` at `out[pos..pos + 2]`.
pub fn write_be_u16(out: &mut [u8], pos: usize, x: u16)
    requires
        pos + 2 <= old(out)@.len(),
    ensures
        final(out)@.len() == old(out)@.len(),
        final(out)@ == old(out)@.subrange(0, pos as int) + u16_be_bytes(x) + old(out)@.subrange(
            pos + 2,
            old(out)@.len() as int,
        ),
{
    out[pos] = ((x >> 8u16) & 0xffu16) as u8;
    out[pos + 1] = (x & 0xffu16) as u8;
    assert(out@ =~= old(out)@.subrange(0, pos as int) + u16_be_bytes(x) + old(out)@.subrange(
        pos + 2,
        old(out)@.len() as int,
    ));
}

} // verus!
