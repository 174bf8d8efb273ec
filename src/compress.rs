//! zstd frames for diff payloads and recompressed chunks.
use vstd::prelude::*;

use crate::ErrorKind;

verus! {

/// Compression level of diff payloads.
pub const DIFF_DATA_ZSTD_COMPRESSION_LEVEL: i32 = 7;

/// Compression level of the chunks a multi-diff restore keeps in memory.
pub const STORE_ZSTD_COMPRESSION_LEVEL: i32 = 1;

/// The zstd frame the encoder produces for `data` at compression `level`,
/// or `None` when it reports an error.
pub uninterp spec fn zstd_encoded(data: Seq<u8>, level: i32) -> Option<Seq<u8>>;

/// The bytes a zstd decoder yields for `data` read to its end, or `None`
/// when it reports an error.
pub uninterp spec fn zstd_decoded(data: Seq<u8>) -> Option<Seq<u8>>;

/// Relies on zstd::stream::encode_all: the frame it writes, or its error,
/// depends on the input bytes and the level alone.
#[verifier::external_body]
pub(crate) fn zstd_compress(data: &[u8], level: i32) -> (r: Result<Vec<u8>, ErrorKind>)
    ensures
        match r {
            Ok(v) => zstd_encoded(data@, level) == Some(v@),
            Err(e) => zstd_encoded(data@, level) is None && e == ErrorKind::Compress,
        },
{
    zstd::stream::encode_all(data, level).map_err(|_| ErrorKind::Compress)
}

/// Relies on zstd::stream::decode_all: the decoded bytes of every frame of
/// the input, or an error when a frame is corrupt.
#[verifier::external_body]
pub fn zstd_decompress(data: &[u8]) -> (r: Result<Vec<u8>, ErrorKind>)
    ensures
        match r {
            Ok(v) => zstd_decoded(data@) == Some(v@),
            Err(e) => zstd_decoded(data@) is None && e == ErrorKind::Compress,
        },
{
    zstd::stream::decode_all(data).map_err(|_| ErrorKind::Compress)
}

} // verus!
