use byteorder::ByteOrder;
use vstd::prelude::*;

verus! {

/// The `u32` whose little endian bytes are `b[0..4]`.
pub open spec fn le_u32(b0: u8, b1: u8, b2: u8, b3: u8) -> u32 {
    (b0 as u32) | ((b1 as u32) << 8u32) | ((b2 as u32) << 16u32) | ((b3 as u32) << 24u32)
}

/// The `u32` read from the four bytes of `s` that start at `at`.
pub open spec fn le_u32_at(s: Seq<u8>, at: int) -> u32 {
    le_u32(s[at], s[at + 1], s[at + 2], s[at + 3])
}

/// The four little endian bytes of `n`.
pub open spec fn le_bytes(n: u32) -> Seq<u8> {
    seq![(n & 0xffu32) as u8, ((n >> 8u32) & 0xffu32) as u8, ((n >> 16u32) & 0xffu32) as u8, ((n >> 24u32) & 0xffu32) as u8]
}

/// Reading back the bytes written for `n` gives `n`.
pub proof fn lemma_le_round_trip(n: u32)
    ensures
        le_u32_at(le_bytes(n), 0) == n,
{
    let b = le_bytes(n);
    let b0 = (n & 0xffu32) as u8;
    let b1 = ((n >> 8u32) & 0xffu32) as u8;
    let b2 = ((n >> 16u32) & 0xffu32) as u8;
    let b3 = ((n >> 24u32) & 0xffu32) as u8;
    assert(b[0] == b0 && b[1] == b1 && b[2] == b2 && b[3] == b3);
    assert(le_u32(b0, b1, b2, b3) == n) by (bit_vector)
        requires
            b0 == (n & 0xffu32) as u8,
            b1 == ((n >> 8u32) & 0xffu32) as u8,
            b2 == ((n >> 16u32) & 0xffu32) as u8,
            b3 == ((n >> 24u32) & 0xffu32) as u8,
    ;
}

/// `byteorder::LittleEndian::read_u32`: the `u32` whose little endian bytes are the first
/// four bytes of `buf` (it panics on fewer than four bytes, which `requires` leaves out).
#[verifier::external_body]
pub(crate) fn read_u32_le(buf: &[u8]) -> (r: u32)
    requires
        buf@.len() >= 4,
    ensures
        r == le_u32_at(buf@, 0),
{
    byteorder::LittleEndian::read_u32(buf)
}

/// `byteorder::LittleEndian::write_u32` into a buffer of four bytes: the little endian
/// bytes of `n`.
#[verifier::external_body]
pub(crate) fn write_u32_le(n: u32) -> (r: [u8; 4])
    ensures
        r@ == le_bytes(n),
{
    let mut buf = [0u8; 4];
    byteorder::LittleEndian::write_u32(&mut buf, n);
    buf
}

} // verus!
