//! Little-endian integers in byte slices.

use vstd::prelude::*;

verus! {

/// The `u16` stored little-endian at `at`.
pub open spec fn le16(b: Seq<u8>, at: int) -> u16 {
    (b[at] + 0x100 * b[at + 1]) as u16
}

/// The signed value of the two's complement `v`.
pub open spec fn signed16(v: u16) -> i16 {
    if v < 0x8000 {
        v as i16
    } else {
        (v - 0x1_0000) as i16
    }
}

/// The signed value of the two's complement `v`.
pub fn to_signed16(v: u16) -> (r: i16)
    ensures
        r == signed16(v),
{
    if v < 0x8000 {
        v as i16
    } else {
        (v as i32 - 0x1_0000) as i16
    }
}

/// The `u32` stored little-endian at `at`.
pub open spec fn le32(b: Seq<u8>, at: int) -> u32 {
    (b[at] + 0x100 * b[at + 1] + 0x1_0000 * b[at + 2] + 0x100_0000 * b[at + 3]) as u32
}

/// The `u64` stored little-endian at `at`.
pub open spec fn le64(b: Seq<u8>, at: int) -> u64 {
    (le32(b, at) + 0x1_0000_0000 * le32(b, at + 4)) as u64
}

/// Reads the little-endian `u16` at `at`.
pub fn get_le16(b: &[u8], at: usize) -> (r: u16)
    requires
        at + 2 <= b@.len(),
    ensures
        r == le16(b@, at as int),
{
    b[at] as u16 + 0x100 * (b[at + 1] as u16)
}

/// Reads the little-endian `u32` at `at`.
pub fn get_le32(b: &[u8], at: usize) -> (r: u32)
    requires
        at + 4 <= b@.len(),
    ensures
        r == le32(b@, at as int),
{
    b[at] as u32 + 0x100 * (b[at + 1] as u32) + 0x1_0000 * (b[at + 2] as u32) + 0x100_0000 * (b[at
        + 3] as u32)
}

/// Reads the little-endian `u64` at `at`.
pub fn get_le64(b: &[u8], at: usize) -> (r: u64)
    requires
        at + 8 <= b@.len(),
    ensures
        r == le64(b@, at as int),
{
    let rest: &[u8] = &b[at..b.len()];
    let lo: u32 = get_le32(rest, 0);
    let hi: u32 = get_le32(rest, 4);
    lo as u64 + 0x1_0000_0000 * (hi as u64)
}

} // verus!
