//! Fixed-width little-endian integers on the wire.
use vstd::prelude::*;

verus! {

/// The little-endian 32-bit value stored at `pos`.
pub open spec fn le32_at(data: Seq<u8>, pos: int) -> u32 {
    (data[pos] as u32) | (data[pos + 1] as u32) << 8 | (data[pos + 2] as u32) << 16 | (data[pos
        + 3] as u32) << 24
}

/// Read the little-endian 32-bit value stored at `pos`.
pub(crate) fn read_le32(data: &[u8], pos: usize) -> (r: u32)
    requires
        pos + 4 <= data@.len(),
    ensures
        r == le32_at(data@, pos as int),
{
    let b0 = data[pos];
    let b1 = data[pos + 1];
    let b2 = data[pos + 2];
    let b3 = data[pos + 3];
    (b0 as u32) | (b1 as u32) << 8 | (b2 as u32) << 16 | (b3 as u32) << 24
}

} // verus!
