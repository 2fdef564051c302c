//! Little-endian integer fields at a byte offset.

use vstd::prelude::*;

verus! {

/// The 16-bit little-endian value whose first byte is `d[o]`.
pub open spec fn le16(d: Seq<u8>, o: int) -> int {
    d[o] as int + 0x100 * (d[o + 1] as int)
}

/// The 32-bit little-endian value whose first byte is `d[o]`.
pub open spec fn le32(d: Seq<u8>, o: int) -> int {
    le16(d, o) + 0x1_0000 * le16(d, o + 2)
}

/// The 64-bit little-endian value whose first byte is `d[o]`.
pub open spec fn le64(d: Seq<u8>, o: int) -> int {
    le32(d, o) + 0x1_0000_0000 * le32(d, o + 4)
}

/// The three readings stay inside their widths, whatever `d` holds at `o`.
pub proof fn lemma_le_bounds(d: Seq<u8>, o: int)
    ensures
        0 <= le16(d, o) <= u16::MAX,
        0 <= le32(d, o) <= u32::MAX,
        0 <= le64(d, o) <= u64::MAX,
{
}

/// Reads a 16-bit little-endian field.
pub fn r16(d: &[u8], o: usize) -> (v: u16)
    requires
        o + 2 <= d@.len(),
    ensures
        v as int == le16(d@, o as int),
{
    let lo: u16 = d[o] as u16;
    let hi: u16 = d[o + 1] as u16;
    lo + hi * 0x100
}

/// Reads a 32-bit little-endian field.
pub fn r32(d: &[u8], o: usize) -> (v: u32)
    requires
        o + 4 <= d@.len(),
    ensures
        v as int == le32(d@, o as int),
{
    let _len = d.len();
    let lo: u32 = r16(d, o) as u32;
    let hi: u32 = r16(d, o + 2) as u32;
    lo + hi * 0x1_0000
}

/// Reads a 64-bit little-endian field.
pub fn r64(d: &[u8], o: usize) -> (v: u64)
    requires
        o + 8 <= d@.len(),
    ensures
        v as int == le64(d@, o as int),
{
    let _len = d.len();
    let lo: u64 = r32(d, o) as u64;
    let hi: u64 = r32(d, o + 4) as u64;
    lo + hi * 0x1_0000_0000
}

} // verus!
