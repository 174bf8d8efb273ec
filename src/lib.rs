//! Differential archiver for palette-indexed canvas snapshots: canonical chunk
//! buffers, per-pixel diff masks, the versioned diff container, and the
//! restore engine that replays diffs over a base snapshot.
use vstd::prelude::*;

pub mod bytes;
pub mod canvas;
pub mod checksum;
pub mod chunk_spec;
pub mod compress;
pub mod diff_file;
pub mod fetch;
pub mod indexed_png;
pub mod order;
pub mod palette;
pub mod pixel_diff;
pub mod restore;
pub mod snapshot;

verus! {

/// Width and height of a chunk in pixels.
pub const CHUNK_WIDTH: usize = 1000;

/// Number of pixels (and bytes of a canonical buffer) in one chunk.
pub const CHUNK_LENGTH: usize = 1000000;

/// Bit of a mask byte that marks a changed pixel.
pub const MUTATION_MASK: u8 = 0x40;

/// Bits of a mask byte (or canonical byte) that hold a palette index.
pub const PALETTE_INDEX_MASK: u8 = 0x3f;

/// What went wrong while reading, writing or replaying snapshots and diffs.
#[derive(PartialEq, Eq, Structural, Clone, Copy, Debug)]
pub enum ErrorKind {
    /// A PNG could not be decoded, is not indexed, has a bad bit depth or
    /// size, or holds a color outside the global palette.
    Decode,
    /// A PNG could not be encoded.
    Encode,
    /// Compressing or decompressing a diff payload failed.
    Compress,
    /// The diff file does not start with the expected magic bytes.
    Magic,
    /// The diff file has a version other than the one this library reads.
    UnsupportedVersion,
    /// The diff file ends inside its header or metadata.
    Truncated,
    /// The index region does not hold exactly `entry_count` entries.
    TruncatedIndex,
    /// The metadata is not valid JSON.
    Metadata,
    /// A payload range lies outside the payload region.
    PayloadRange,
    /// A decompressed diff mask does not have the length of a chunk.
    DiffLength,
    /// A restored chunk does not have the recorded checksum.
    Checksum,
    /// An entry says a chunk is unchanged but the base lacks it.
    AbsentChunk,
    /// A chunk specification or range string is malformed.
    Spec,
}

/// An error together with the chunk, and the diff if any, it arose on.
pub struct ChunkProcessError {
    pub inner: ErrorKind,
    pub chunk_number: ChunkNumber,
    pub diff_file: Option<String>,
}

/// A chunk number `(x, y)`.
pub type ChunkNumber = (u16, u16);

/// Every byte is a canonical palette index in `[0, 63]`.
pub open spec fn is_canonical(s: Seq<u8>) -> bool {
    forall|i: int| 0 <= i < s.len() ==> #[trigger] s[i] <= 63
}

/// The bytes of an optional buffer.
pub open spec fn slice_opt_view(b: Option<&[u8]>) -> Option<Seq<u8>> {
    match b {
        Some(s) => Some(s@),
        None => None,
    }
}

} // verus!
