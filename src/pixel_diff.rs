//! Pixel-level diff masks: derive a mask from two canonical buffers and apply
//! a mask over a base buffer.
use vstd::prelude::*;

use crate::checksum::{chunk_checksum, crc32_cksum};
use crate::compress::{zstd_compress, zstd_encoded, DIFF_DATA_ZSTD_COMPRESSION_LEVEL};
use crate::{is_canonical, slice_opt_view, ErrorKind, MUTATION_MASK, PALETTE_INDEX_MASK};

verus! {

/// The mask byte for one pixel: zero when the palette indices agree, else the
/// mutation flag together with the new index.
pub open spec fn mask_byte(b: u8, n: u8) -> u8 {
    if (b & 0x3f) == (n & 0x3f) {
        0
    } else {
        (n & 0x3f) | 0x40
    }
}

/// The diff mask from `base` to `new`, byte by byte.
pub open spec fn mask_of(base: Seq<u8>, new: Seq<u8>) -> Seq<u8> {
    Seq::new(new.len(), |i: int| mask_byte(base[i], new[i]))
}

/// One pixel of `base` after a mask byte is applied.
pub open spec fn apply_byte(b: u8, m: u8) -> u8 {
    if m & 0x40 == 0x40 {
        m & 0x3f
    } else {
        b
    }
}

/// `base` after `mask` is applied over it.
pub open spec fn applied(base: Seq<u8>, mask: Seq<u8>) -> Seq<u8> {
    Seq::new(base.len(), |i: int| apply_byte(base[i], mask[i]))
}

/// No byte of the mask carries the mutation flag.
pub open spec fn mask_is_unmutated(mask: Seq<u8>) -> bool {
    forall|i: int| 0 <= i < mask.len() ==> #[trigger] mask[i] & 0x40 == 0
}

/// `base` with the masks applied one after another, first to last.
pub open spec fn applied_all(base: Seq<u8>, masks: Seq<Seq<u8>>) -> Seq<u8>
    decreases masks.len(),
{
    if masks.len() == 0 {
        base
    } else {
        applied(applied_all(base, masks.drop_last()), masks.last())
    }
}

proof fn lemma_mask_byte_round_trip(b: u8, n: u8)
    requires
        b <= 63,
        n <= 63,
    ensures
        apply_byte(b, mask_byte(b, n)) == n,
{
    assert(b <= 63 ==> b & 0x3f == b) by (bit_vector);
    assert(n <= 63 ==> n & 0x3f == n) by (bit_vector);
    assert(((n & 0x3f) | 0x40) & 0x40 == 0x40) by (bit_vector);
    assert(n <= 63 ==> ((n & 0x3f) | 0x40) & 0x3f == n) by (bit_vector);
    assert((0u8) & 0x40 == 0) by (bit_vector);
}

/// Applying the mask derived from `base` to `new` over `base` gives `new`,
/// for canonical buffers of equal length.
pub proof fn lemma_diff_round_trip(base: Seq<u8>, new: Seq<u8>)
    requires
        base.len() == new.len(),
        is_canonical(base),
        is_canonical(new),
    ensures
        applied(base, mask_of(base, new)) == new,
{
    assert forall|i: int| 0 <= i < new.len() implies #[trigger] applied(base, mask_of(base, new))[i]
        == new[i] by {
        lemma_mask_byte_round_trip(base[i], new[i]);
    }
    assert(applied(base, mask_of(base, new)) =~= new);
}

/// A mask whose bytes all lack the mutation flag leaves the base unchanged.
pub proof fn lemma_apply_unmutated_identity(base: Seq<u8>, mask: Seq<u8>)
    requires
        base.len() == mask.len(),
        mask_is_unmutated(mask),
    ensures
        applied(base, mask) == base,
{
    assert(applied(base, mask) =~= base);
}

/// The mask of a buffer against itself has no mutation flag.
pub proof fn lemma_identity_mask_unmutated(b: Seq<u8>)
    ensures
        mask_is_unmutated(mask_of(b, b)),
        mask_of(b, b) =~= Seq::new(b.len(), |i: int| 0u8),
{
    assert forall|i: int| 0 <= i < b.len() implies #[trigger] mask_of(b, b)[i] & 0x40 == 0 by {
        assert((0u8) & 0x40 == 0) by (bit_vector);
    }
}

/// Replaying the masks of consecutive canonical snapshots `s[0] .. s[k]` over
/// `s[0]` yields `s[k]`.
pub proof fn lemma_restore_equivalence(s: Seq<Seq<u8>>)
    requires
        s.len() >= 1,
        forall|i: int| 0 <= i < s.len() ==> #[trigger] is_canonical(s[i]),
        forall|i: int| 0 <= i < s.len() ==> (#[trigger] s[i]).len() == s[0].len(),
    ensures
        applied_all(s[0], Seq::new((s.len() - 1) as nat, |i: int| mask_of(s[i], s[i + 1])))
            == s.last(),
    decreases s.len(),
{
    let masks = Seq::new((s.len() - 1) as nat, |i: int| mask_of(s[i], s[i + 1]));
    if s.len() > 1 {
        let t = s.drop_last();
        lemma_restore_equivalence(t);
        let tm = Seq::new((t.len() - 1) as nat, |i: int| mask_of(t[i], t[i + 1]));
        assert(masks.drop_last() =~= tm);
        lemma_diff_round_trip(s[s.len() - 2], s[s.len() - 1]);
    }
}

/// Derives the diff mask of `new` against `base`. Both inputs are masked with
/// the palette-index bits first, so stray high bits are tolerated.
pub fn diff_mask(base: &[u8], new: &[u8]) -> (r: Vec<u8>)
    requires
        base@.len() == new@.len(),
    ensures
        r@ == mask_of(base@, new@),
{
    let mut r: Vec<u8> = Vec::with_capacity(new.len());
    let mut i: usize = 0;
    while i < new.len()
        invariant
            base@.len() == new@.len(),
            i <= new@.len(),
            r@ =~= mask_of(base@, new@).take(i as int),
        decreases new@.len() - i,
    {
        let i1 = base[i] & PALETTE_INDEX_MASK;
        let i2 = new[i] & PALETTE_INDEX_MASK;
        if i1 == i2 {
            r.push(0);
        } else {
            r.push(i2 | MUTATION_MASK);
        }
        i += 1;
    }
    r
}

/// Applies a diff mask over `base` in place: each pixel whose mask byte has
/// the mutation flag takes the index in the mask's low six bits.
pub fn apply_chunk(base: &mut Vec<u8>, diff_data: &[u8])
    requires
        old(base)@.len() == diff_data@.len(),
    ensures
        final(base)@ == applied(old(base)@, diff_data@),
{
    let ghost b0 = base@;
    let mut i: usize = 0;
    while i < base.len()
        invariant
            b0.len() == diff_data@.len(),
            base@.len() == b0.len(),
            i <= base@.len(),
            forall|j: int| 0 <= j < i ==> #[trigger] base@[j] == apply_byte(b0[j], diff_data@[j]),
            forall|j: int| i <= j < base@.len() ==> #[trigger] base@[j] == b0[j],
        decreases base@.len() - i,
    {
        let d = diff_data[i];
        if d & MUTATION_MASK == MUTATION_MASK {
            base.set(i, d & PALETTE_INDEX_MASK);
        }
        i += 1;
    }
    assert(base@ =~= applied(b0, diff_data@));
}

/// Byte-wise equality of two buffers.
pub fn bytes_equal(a: &[u8], b: &[u8]) -> (r: bool)
    ensures
        r == (a@ == b@),
{
    if a.len() != b.len() {
        return false;
    }
    let mut i: usize = 0;
    while i < a.len()
        invariant
            a@.len() == b@.len(),
            i <= a@.len(),
            forall|j: int| 0 <= j < i ==> a@[j] == b@[j],
        decreases a@.len() - i,
    {
        if a[i] != b[i] {
            return false;
        }
        i += 1;
    }
    assert(a@ =~= b@);
    true
}

/// The compressed diff payload from `base` to `new`: the mask as a zstd
/// frame at the payload level.
pub fn diff_png_compressed(base: &[u8], new: &[u8]) -> (r: Result<Vec<u8>, ErrorKind>)
    requires
        base@.len() == new@.len(),
    ensures
        match zstd_encoded(mask_of(base@, new@), DIFF_DATA_ZSTD_COMPRESSION_LEVEL) {
            Some(c) => r matches Ok(v) && v@ == c,
            None => r == Err::<Vec<u8>, ErrorKind>(ErrorKind::Compress),
        },
{
    let mask = diff_mask(base, new);
    zstd_compress(mask.as_slice(), DIFF_DATA_ZSTD_COMPRESSION_LEVEL)
}

/// The base side of a chunk: its bytes when present, all zero when absent.
pub open spec fn base_or_zero(base: Option<Seq<u8>>, len: nat) -> Seq<u8> {
    match base {
        Some(b) => b,
        None => Seq::new(len, |i: int| 0u8),
    }
}

/// The outcome of diffing one chunk: the compressed payload, or `None` when
/// the chunk is present in the base and identical to it, together with the
/// checksum of the new chunk.
pub struct ChunkDiff {
    pub data: Option<Vec<u8>>,
    pub checksum: u32,
}

/// One step of the diff pipeline for a chunk: checksums `new` and, unless
/// the base holds the same bytes, derives the compressed diff against the
/// base (zero-filled when absent).
pub fn diff_chunk(base: Option<&[u8]>, new: &[u8]) -> (r: Result<ChunkDiff, ErrorKind>)
    requires
        base matches Some(b) ==> b@.len() == new@.len(),
    ensures
        match r {
            Ok(d) => {
                &&& d.checksum == crc32_cksum(new@)
                &&& (d.data is None <==> (base matches Some(b) && b@ == new@))
                &&& (d.data matches Some(v) ==> zstd_encoded(
                    mask_of(base_or_zero(slice_opt_view(base), new@.len()), new@),
                    DIFF_DATA_ZSTD_COMPRESSION_LEVEL,
                ) == Some(v@))
            },
            Err(e) => {
                &&& e == ErrorKind::Compress
                &&& !(base matches Some(b) && b@ == new@)
                &&& zstd_encoded(
                    mask_of(base_or_zero(slice_opt_view(base), new@.len()), new@),
                    DIFF_DATA_ZSTD_COMPRESSION_LEVEL,
                ) is None
            },
        },
{
    let checksum = chunk_checksum(new);
    match base {
        Some(b) => {
            if bytes_equal(b, new) {
                Ok(ChunkDiff { data: None, checksum })
            } else {
                let d = diff_png_compressed(b, new)?;
                Ok(ChunkDiff { data: Some(d), checksum })
            }
        },
        None => {
            let zero = vec![0u8; new.len()];
            assert(zero@ =~= base_or_zero(None, new@.len()));
            let d = diff_png_compressed(zero.as_slice(), new)?;
            Ok(ChunkDiff { data: Some(d), checksum })
        },
    }
}

} // verus!
