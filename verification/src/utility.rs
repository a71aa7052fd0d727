//! Small helpers shared across the library: little-endian integer
//! decoding from byte slices and scanline-padding arithmetic.

use vstd::prelude::*;

verus! {

/// The value `n` rounded up to the next multiple of four.
pub open spec fn spec_round4(n: int) -> int {
    ((n + 3) / 4) * 4
}

/// A 16-bit value read from two little-endian bytes.
pub open spec fn spec_u16_le(b0: u8, b1: u8) -> u16 {
    (b0 + b1 * 0x100) as u16
}

/// A 32-bit value read from four little-endian bytes.
pub open spec fn spec_u32_le(b0: u8, b1: u8, b2: u8, b3: u8) -> u32 {
    (b0 + b1 * 0x100 + b2 * 0x1_0000 + b3 * 0x100_0000) as u32
}

/// A signed 32-bit value read from four little-endian bytes.
pub open spec fn spec_i32_le(b0: u8, b1: u8, b2: u8, b3: u8) -> i32 {
    spec_u32_le(b0, b1, b2, b3) as i32
}

/// Round a byte count up to the next multiple of four, as bitmap
/// scanlines are padded on disk.
pub fn round_to_next_multiple_of_4(value: i32) -> (r: usize)
    requires
        0 <= value <= i32::MAX - 3,
    ensures
        r == spec_round4(value as int),
{
    (((value + 3) / 4) * 4) as usize
}

/// Integer types that can be reassembled from little-endian bytes.
pub trait FromBitSlice: Sized {
    fn reduce_bit_slice(slice: &[u8]) -> Self;
}

impl FromBitSlice for u16 {
    fn reduce_bit_slice(slice: &[u8]) -> (r: u16)
        ensures
            slice@.len() >= 2 ==> r == spec_u16_le(slice@[0], slice@[1]),
    {
        if slice.len() >= 2 {
            u16_le(slice[0], slice[1])
        } else if slice.len() == 1 {
            slice[0] as u16
        } else {
            0
        }
    }
}

impl FromBitSlice for u32 {
    fn reduce_bit_slice(slice: &[u8]) -> (r: u32)
        ensures
            slice@.len() >= 4 ==> r == spec_u32_le(slice@[0], slice@[1], slice@[2], slice@[3]),
    {
        let b0: u8 = if slice.len() > 0 { slice[0] } else { 0 };
        let b1: u8 = if slice.len() > 1 { slice[1] } else { 0 };
        let b2: u8 = if slice.len() > 2 { slice[2] } else { 0 };
        let b3: u8 = if slice.len() > 3 { slice[3] } else { 0 };
        u32_le(b0, b1, b2, b3)
    }
}

impl FromBitSlice for i32 {
    fn reduce_bit_slice(slice: &[u8]) -> (r: i32)
        ensures
            slice@.len() >= 4 ==> r == spec_i32_le(slice@[0], slice@[1], slice@[2], slice@[3]),
    {
        let u = u32::reduce_bit_slice(slice);
        #[verifier::truncate] (u as i32)
    }
}

/// The 16-bit little-endian combination of two bytes.
pub fn u16_le(b0: u8, b1: u8) -> (r: u16)
    ensures
        r == spec_u16_le(b0, b1),
{
    b0 as u16 + (b1 as u16) * 0x100
}

/// The 32-bit little-endian combination of four bytes.
pub fn u32_le(b0: u8, b1: u8, b2: u8, b3: u8) -> (r: u32)
    ensures
        r == spec_u32_le(b0, b1, b2, b3),
{
    b0 as u32 + (b1 as u32) * 0x100 + (b2 as u32) * 0x1_0000 + (b3 as u32) * 0x100_0000
}

/// The signed 32-bit little-endian combination of four bytes.
pub fn i32_le(b0: u8, b1: u8, b2: u8, b3: u8) -> (r: i32)
    ensures
        r == spec_i32_le(b0, b1, b2, b3),
{
    let u = u32_le(b0, b1, b2, b3);
    #[verifier::truncate] (u as i32)
}

} // verus!
