//! Little-endian byte codec primitives.
//!
//! The spec functions `le16`, `le32` and `le64` give the integer value of a
//! little-endian field inside a byte sequence; the executable readers and
//! writers are proved to match them exactly.

use vstd::prelude::*;

verus! {

/// The value of the two little-endian bytes at `p`.
pub open spec fn le16(s: Seq<u8>, p: int) -> int {
    s[p] + 0x100 * s[p + 1]
}

/// The value of the four little-endian bytes at `p`.
pub open spec fn le32(s: Seq<u8>, p: int) -> int {
    s[p] + 0x100 * s[p + 1] + 0x10000 * s[p + 2] + 0x1000000 * s[p + 3]
}

/// The value of the eight little-endian bytes at `p`.
pub open spec fn le64(s: Seq<u8>, p: int) -> int {
    le32(s, p) + 0x1_0000_0000 * le32(s, p + 4)
}

proof fn lemma_or_shift_32(b0: u32, b1: u32, b2: u32, b3: u32)
    requires
        b0 < 0x100,
        b1 < 0x100,
        b2 < 0x100,
        b3 < 0x100,
    ensures
        (b0 | (b1 << 8) | (b2 << 16) | (b3 << 24)) == b0 + 0x100 * b1 + 0x10000 * b2
            + 0x1000000 * b3,
{
    assert((b0 | (b1 << 8) | (b2 << 16) | (b3 << 24)) == b0 + 0x100 * b1 + 0x10000 * b2
        + 0x1000000 * b3) by (bit_vector)
        requires
            b0 < 0x100,
            b1 < 0x100,
            b2 < 0x100,
            b3 < 0x100,
    ;
}

/// Reads a little-endian `u32` from a byte slice.
pub fn read_u32_le(data: &[u8], pos: usize) -> (r: u32)
    requires
        pos + 4 <= data.len(),
    ensures
        r == le32(data@, pos as int),
{
    let b0 = data[pos] as u32;
    let b1 = data[pos + 1] as u32;
    let b2 = data[pos + 2] as u32;
    let b3 = data[pos + 3] as u32;
    proof {
        lemma_or_shift_32(b0, b1, b2, b3);
    }
    b0 | (b1 << 8) | (b2 << 16) | (b3 << 24)
}

/// Reads a little-endian `u32` from a byte vector.
pub fn read_vec_u32_le(data: &Vec<u8>, pos: usize) -> (r: u32)
    requires
        pos + 4 <= data.len(),
    ensures
        r == le32(data@, pos as int),
{
    let b0 = data[pos] as u32;
    let b1 = data[pos + 1] as u32;
    let b2 = data[pos + 2] as u32;
    let b3 = data[pos + 3] as u32;
    proof {
        lemma_or_shift_32(b0, b1, b2, b3);
    }
    b0 | (b1 << 8) | (b2 << 16) | (b3 << 24)
}

/// Writes a little-endian `u32` into a byte vector.
pub fn write_vec_u32_le(data: &mut Vec<u8>, pos: usize, x: u32)
    requires
        pos + 4 <= old(data).len(),
    ensures
        final(data)@.len() == old(data)@.len(),
        forall|i: int| 0 <= i < old(data)@.len() && !(pos <= i < pos + 4) ==> final(data)@[i]
            == old(data)@[i],
        le32(final(data)@, pos as int) == x,
{
    let b0: u8 = #[verifier::truncate] (x as u8);
    let b1: u8 = #[verifier::truncate] ((x >> 8) as u8);
    let b2: u8 = #[verifier::truncate] ((x >> 16) as u8);
    let b3: u8 = #[verifier::truncate] ((x >> 24) as u8);
    proof {
        assert(#[verifier::truncate] (x as u8) + 0x100 * (#[verifier::truncate] ((x >> 8) as u8))
            + 0x10000 * (#[verifier::truncate] ((x >> 16) as u8)) + 0x1000000
            * (#[verifier::truncate] ((x >> 24) as u8)) == x) by (bit_vector);
    }
    data[pos] = b0;
    data[pos + 1] = b1;
    data[pos + 2] = b2;
    data[pos + 3] = b3;
}

/// Reads a little-endian `u64` from a byte vector.
pub fn read_u64_le(data: &Vec<u8>, pos: usize) -> (r: u64)
    requires
        pos + 8 <= data.len(),
    ensures
        r == le64(data@, pos as int),
{
    let lo = read_vec_u32_le(data, pos);
    let hi = read_vec_u32_le(data, pos + 4);
    proof {
        assert(((lo as u64) | ((hi as u64) << 32)) == lo + 0x1_0000_0000 * (hi as u64))
            by (bit_vector);
    }
    (lo as u64) | ((hi as u64) << 32)
}

} // verus!
