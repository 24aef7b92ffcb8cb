//! The checksum that guards every row.

use vstd::prelude::*;

verus! {

/// The CRC-32/CKSUM checksum of a byte sequence, as the `crc` crate computes
/// it.
pub uninterp spec fn crc32_cksum(bytes: Seq<u8>) -> u32;

/// `crc::Crc::<u32>::checksum` with the algorithm `CRC_32_CKSUM`. The result
/// is a function of the bytes alone: the crate folds them, first to last, over
/// a table that it derives from the algorithm's constants.
#[verifier::external_body]
pub(crate) fn checksum(bytes: &[u8]) -> (sum: u32)
    ensures
        sum == crc32_cksum(bytes@),
{
    crc::Crc::<u32>::new(&crc::CRC_32_CKSUM).checksum(bytes)
}

} // verus!
