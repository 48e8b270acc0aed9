use vstd::prelude::*;

verus! {

/// The CRC-32/CKSUM checksum of a byte string.
pub uninterp spec fn crc32_cksum(data: Seq<u8>) -> u32;

/// Relies on `crc::Crc::<u32>::checksum` with the `CRC_32_CKSUM` algorithm:
/// the result is a function of the bytes alone. Feeding the same bytes to a
/// `Digest` in several `update` calls gives the same value.
#[verifier::external_body]
pub(crate) fn checksum(data: &[u8]) -> (r: u32)
    ensures
        r == crc32_cksum(data@),
{
    crc::Crc::<u32>::new(&crc::CRC_32_CKSUM).checksum(data)
}

} // verus!
