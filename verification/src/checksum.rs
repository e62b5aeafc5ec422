//! The checksum that guards each record of the log.

use vstd::prelude::*;

verus! {

/// CRC-32 with the IEEE polynomial of a run of bytes.
pub uninterp spec fn crc32_ieee(bytes: Seq<u8>) -> u32;

/// `crc32::checksum_ieee` of the crc crate: the CRC-32 (IEEE) of the slice.
#[verifier::external_body]
pub(crate) fn checksum_ieee(bytes: &[u8]) -> (sum: u32)
    ensures
        sum == crc32_ieee(bytes@),
{
    crc::crc32::checksum_ieee(bytes)
}

} // verus!
