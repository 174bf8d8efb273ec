//! Per-chunk CRC-32 (CKSUM variant) over canonical bytes.
use vstd::prelude::*;

use crate::ErrorKind;

verus! {

/// The CRC-32/CKSUM of a byte sequence.
pub uninterp spec fn crc32_cksum(data: Seq<u8>) -> u32;

/// Relies on crc_fast::checksum with CrcAlgorithm::Crc32Cksum: the 32-bit
/// CRC of the bytes, which depends on the bytes alone.
#[verifier::external_body]
pub fn chunk_checksum(data: &[u8]) -> (r: u32)
    ensures
        r == crc32_cksum(data@),
{
    crc_fast::checksum(crc_fast::CrcAlgorithm::Crc32Cksum, data) as u32
}

/// Accepts `chunk` exactly when its checksum is `checksum`.
pub fn validate_chunk_checksum(chunk: &[u8], checksum: u32) -> (r: Result<(), ErrorKind>)
    ensures
        r is Ok <==> crc32_cksum(chunk@) == checksum,
        r is Err ==> r == Err::<(), ErrorKind>(ErrorKind::Checksum),
{
    if chunk_checksum(chunk) != checksum {
        return Err(ErrorKind::Checksum);
    }
    Ok(())
}

} // verus!
