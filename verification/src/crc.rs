//! Checksums used by the wire framing: CRC-8/CCITT over section headers and
//! CRC-32C (Castagnoli) over section payloads.
use vstd::prelude::*;

verus! {

/// The CRC-8/CCITT checksum (polynomial 0x07, initial 0x00) of `data`.
pub uninterp spec fn crc8_of(data: Seq<u8>) -> u8;

/// The CRC-32C (Castagnoli) checksum of `data`.
pub uninterp spec fn crc32c_of(data: Seq<u8>) -> u32;

/// Relies on crc_any::CRCu8: `crc8()` selects CRC-8/CCITT (polynomial 0x07,
/// initial 0x00) and `digest` + `get_crc` compute the checksum of the bytes
/// alone.
#[verifier::external_body]
pub(crate) fn crc8(data: &[u8]) -> (r: u8)
    ensures
        r == crc8_of(data@),
{
    let mut c = crc_any::CRCu8::crc8();
    c.digest(data);
    c.get_crc()
}

/// Relies on crc_any::CRCu32: `crc32c()` selects CRC-32C (Castagnoli) and
/// `digest` + `get_crc` compute the checksum of the bytes alone.
#[verifier::external_body]
pub(crate) fn crc32c(data: &[u8]) -> (r: u32)
    ensures
        r == crc32c_of(data@),
{
    let mut c = crc_any::CRCu32::crc32c();
    c.digest(data);
    c.get_crc()
}

} // verus!
