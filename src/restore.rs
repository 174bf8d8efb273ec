//! Applying diffs: one entry over one chunk, step by step over a sequence
//! of diffs, and the in-memory store of recompressed intermediate chunks.
use vstd::prelude::*;

use crate::checksum::{chunk_checksum, crc32_cksum};
use crate::compress::{
    zstd_compress, zstd_decoded, zstd_decompress, zstd_encoded, STORE_ZSTD_COMPRESSION_LEVEL,
};
use crate::diff_file::IndexEntry;
use crate::pixel_diff::{apply_chunk, applied, lemma_diff_round_trip, mask_of};
use crate::is_canonical;
use crate::{ChunkNumber, ErrorKind, CHUNK_LENGTH};

verus! {

/// A chunk of all-transparent pixels.
pub open spec fn zero_chunk() -> Seq<u8> {
    Seq::new(CHUNK_LENGTH as nat, |i: int| 0u8)
}

/// The chunk after applying a changed entry's payload over `base`: the
/// payload must decode to a full-size mask, and when `check` is set the
/// result must carry the entry's checksum.
pub open spec fn apply_payload_spec(base: Seq<u8>, e: IndexEntry, payload: Seq<u8>, check: bool) -> Result<Seq<u8>, ErrorKind> {
    match zstd_decoded(payload) {
        None => Err(ErrorKind::Compress),
        Some(mask) => if mask.len() != CHUNK_LENGTH {
            Err(ErrorKind::DiffLength)
        } else if check && crc32_cksum(applied(base, mask)) != e.checksum {
            Err(ErrorKind::Checksum)
        } else {
            Ok(applied(base, mask))
        },
    }
}

/// Checks a restored chunk against an entry's checksum when `check` is set.
pub fn check_chunk(chunk: &[u8], e: &IndexEntry, check: bool) -> (r: Result<(), ErrorKind>)
    ensures
        r is Ok <==> (!check || crc32_cksum(chunk@) == e.checksum),
        r is Err ==> r == Err::<(), ErrorKind>(ErrorKind::Checksum),
{
    if check && chunk_checksum(chunk) != e.checksum {
        return Err(ErrorKind::Checksum);
    }
    Ok(())
}

/// Applies a changed entry's compressed payload over `base` in place.
pub fn apply_payload(base: &mut Vec<u8>, e: &IndexEntry, payload: &[u8], check: bool) -> (r: Result<(), ErrorKind>)
    requires
        old(base)@.len() == CHUNK_LENGTH,
    ensures
        match apply_payload_spec(old(base)@, *e, payload@, check) {
            Ok(s) => r is Ok && final(base)@ == s,
            Err(k) => r == Err::<(), ErrorKind>(k),
        },
{
    let mask = zstd_decompress(payload)?;
    if mask.len() != CHUNK_LENGTH {
        return Err(ErrorKind::DiffLength);
    }
    apply_chunk(base, mask.as_slice());
    check_chunk(base.as_slice(), e, check)
}

/// The chunk that a diff entry yields over a base chunk (`None` when the
/// base lacks it): an unchanged entry keeps the base, which must exist; a
/// changed one applies its payload over the base or over zeros.
pub open spec fn apply_entry_spec(base: Option<Seq<u8>>, e: IndexEntry, payload: Seq<u8>, check: bool) -> Result<Seq<u8>, ErrorKind> {
    if e.pos == 0 && e.len == 0 {
        match base {
            Some(b) => Ok(b),
            None => Err(ErrorKind::AbsentChunk),
        }
    } else {
        apply_payload_spec(
            match base {
                Some(b) => b,
                None => zero_chunk(),
            },
            e,
            payload,
            check,
        )
    }
}

/// Applies one diff entry to a base chunk, as the single-diff apply engine
/// does; `payload` is the entry's byte range of the diff file and is not
/// read for an unchanged entry.
pub fn apply_entry(base: Option<Vec<u8>>, e: &IndexEntry, payload: &[u8], check: bool) -> (r: Result<Vec<u8>, ErrorKind>)
    requires
        base matches Some(b) ==> b@.len() == CHUNK_LENGTH,
    ensures
        match apply_entry_spec(
            match base {
                Some(b) => Some(b@),
                None => None,
            },
            *e,
            payload@,
            check,
        ) {
            Ok(s) => r matches Ok(v) && v@ == s,
            Err(k) => r == Err::<Vec<u8>, ErrorKind>(k),
        },
{
    if !e.is_changed() {
        return match base {
            Some(b) => Ok(b),
            None => Err(ErrorKind::AbsentChunk),
        };
    }
    let mut buf = match base {
        Some(b) => b,
        None => {
            let z = vec![0u8; CHUNK_LENGTH];
            assert(z@ =~= zero_chunk());
            z
        },
    };
    apply_payload(&mut buf, e, payload, check)?;
    Ok(buf)
}

/// The chunk after one step of a restore: a diff that does not list the
/// chunk, or lists it unchanged, keeps it; a changed entry applies its
/// payload.
pub open spec fn restore_step_spec(current: Seq<u8>, e: Option<IndexEntry>, payload: Seq<u8>, check: bool) -> Result<Seq<u8>, ErrorKind> {
    match e {
        None => Ok(current),
        Some(e) => if e.pos == 0 && e.len == 0 {
            Ok(current)
        } else {
            apply_payload_spec(current, e, payload, check)
        },
    }
}

/// One step of a multi-diff restore for one chunk, in place: `entry` is
/// what the diff's index holds for the chunk, `payload` its byte range.
pub fn restore_step(current: &mut Vec<u8>, entry: Option<IndexEntry>, payload: &[u8], check: bool) -> (r: Result<(), ErrorKind>)
    requires
        old(current)@.len() == CHUNK_LENGTH,
    ensures
        match restore_step_spec(old(current)@, entry, payload@, check) {
            Ok(s) => r is Ok && final(current)@ == s,
            Err(k) => r == Err::<(), ErrorKind>(k),
        },
{
    match entry {
        None => Ok(()),
        Some(e) => if !e.is_changed() {
            Ok(())
        } else {
            apply_payload(current, &e, payload, check)
        },
    }
}

/// Number of chunk coordinates along each axis.
pub const CHUNK_AXIS: usize = 2048;

/// The store slot of chunk `n`.
pub open spec fn slot_of(n: ChunkNumber) -> int {
    n.0 as int * 2048 + n.1 as int
}

/// Intermediate chunks of a multi-diff restore, each kept as a zstd frame in the
/// slot `x * 2048 + y`.
pub struct ChunkStore {
    slots: Vec<Option<Vec<u8>>>,
}

impl ChunkStore {
    /// The compressed bytes held for each slot.
    pub closed spec fn view(&self) -> Seq<Option<Seq<u8>>> {
        self.slots@.map_values(|s: Option<Vec<u8>>| match s {
            Some(v) => Some(v@),
            None => None,
        })
    }

    /// An empty store covering every chunk number below `(2048, 2048)`.
    pub fn new() -> (r: Self)
        ensures
            r@.len() == CHUNK_AXIS * CHUNK_AXIS,
            forall|i: int| 0 <= i < r@.len() ==> #[trigger] r@[i] is None,
    {
        let mut slots: Vec<Option<Vec<u8>>> = Vec::new();
        let mut i: usize = 0;
        while i < CHUNK_AXIS * CHUNK_AXIS
            invariant
                i <= CHUNK_AXIS * CHUNK_AXIS,
                slots@.len() == i,
                forall|j: int| 0 <= j < i ==> #[trigger] slots@[j] is None,
            decreases CHUNK_AXIS * CHUNK_AXIS - i,
        {
            slots.push(None);
            i += 1;
        }
        let r = ChunkStore { slots };
        assert forall|i: int| 0 <= i < r@.len() implies #[trigger] r@[i] is None by {
            assert(r.slots@[i] is None);
        }
        r
    }

    /// Stores chunk `n` compressed.
    pub fn put(&mut self, n: ChunkNumber, chunk: &[u8]) -> (r: Result<(), ErrorKind>)
        requires
            old(self)@.len() == CHUNK_AXIS * CHUNK_AXIS,
            n.0 < 2048 && n.1 < 2048,
        ensures
            final(self)@.len() == CHUNK_AXIS * CHUNK_AXIS,
            match zstd_encoded(chunk@, STORE_ZSTD_COMPRESSION_LEVEL) {
                Some(c) => r is Ok && final(self)@ == old(self)@.update(slot_of(n), Some(c)),
                None => r == Err::<(), ErrorKind>(ErrorKind::Compress) && final(self)@ == old(self)@,
            },
    {
        let compressed = zstd_compress(chunk, STORE_ZSTD_COMPRESSION_LEVEL)?;
        let i = n.0 as usize * CHUNK_AXIS + n.1 as usize;
        let ghost c = compressed@;
        self.slots.set(i, Some(compressed));
        assert(self@ =~= old(self)@.update(slot_of(n), Some(c)));
        Ok(())
    }

    /// The chunk held for `n`, decompressed, or `None` when the slot is empty.
    pub fn get(&self, n: ChunkNumber) -> (r: Result<Option<Vec<u8>>, ErrorKind>)
        requires
            self@.len() == CHUNK_AXIS * CHUNK_AXIS,
            n.0 < 2048 && n.1 < 2048,
        ensures
            match self@[slot_of(n)] {
                None => r matches Ok(None),
                Some(c) => match zstd_decoded(c) {
                    Some(d) => r matches Ok(Some(v)) && v@ == d,
                    None => r == Err::<Option<Vec<u8>>, ErrorKind>(ErrorKind::Compress),
                },
            },
    {
        let i = n.0 as usize * CHUNK_AXIS + n.1 as usize;
        match &self.slots[i] {
            None => Ok(None),
            Some(c) => {
                let d = zstd_decompress(c.as_slice())?;
                Ok(Some(d))
            },
        }
    }
}

/// One restore step reproduces the next snapshot of a chunk: from a changed
/// entry whose payload decodes to the mask between the two canonical
/// buffers and whose checksum is the next buffer's, or from an unchanged
/// entry (or none) when the buffers are equal.
pub proof fn lemma_restore_step_round_trip(
    cur: Seq<u8>,
    next: Seq<u8>,
    e: Option<IndexEntry>,
    payload: Seq<u8>,
    check: bool,
)
    requires
        cur.len() == CHUNK_LENGTH,
        next.len() == CHUNK_LENGTH,
        is_canonical(cur),
        is_canonical(next),
        match e {
            Some(e) => if e.pos == 0 && e.len == 0 {
                cur == next
            } else {
                zstd_decoded(payload) == Some(mask_of(cur, next)) && e.checksum == crc32_cksum(next)
            },
            None => cur == next,
        },
    ensures
        restore_step_spec(cur, e, payload, check) == Ok::<Seq<u8>, ErrorKind>(next),
{
    lemma_diff_round_trip(cur, next);
}

/// The chunk after replaying steps `0 .. entries.len()` over `base`.
pub open spec fn restore_all(base: Seq<u8>, entries: Seq<Option<IndexEntry>>, payloads: Seq<Seq<u8>>, check: bool) -> Result<Seq<u8>, ErrorKind>
    decreases entries.len(),
{
    if entries.len() == 0 {
        Ok(base)
    } else {
        match restore_all(base, entries.drop_last(), payloads, check) {
            Ok(c) => restore_step_spec(c, entries.last(), payloads[entries.len() - 1], check),
            Err(k) => Err(k),
        }
    }
}

/// Replaying the diffs of consecutive canonical snapshots `s[0] .. s[k]`
/// of a chunk over `s[0]`, step by step, yields `s[k]` whenever each step's
/// entry and payload describe the change from `s[i]` to `s[i + 1]`.
pub proof fn lemma_restore_chain(
    s: Seq<Seq<u8>>,
    entries: Seq<Option<IndexEntry>>,
    payloads: Seq<Seq<u8>>,
    check: bool,
)
    requires
        s.len() == entries.len() + 1,
        payloads.len() == entries.len(),
        forall|i: int| 0 <= i < s.len() ==> (#[trigger] s[i]).len() == CHUNK_LENGTH && is_canonical(s[i]),
        forall|i: int|
            0 <= i < entries.len() ==> match #[trigger] entries[i] {
                Some(e) => if e.pos == 0 && e.len == 0 {
                    s[i] == s[i + 1]
                } else {
                    zstd_decoded(payloads[i]) == Some(mask_of(s[i], s[i + 1])) && e.checksum == crc32_cksum(
                        s[i + 1],
                    )
                },
                None => s[i] == s[i + 1],
            },
    ensures
        restore_all(s[0], entries, payloads, check) == Ok::<Seq<u8>, ErrorKind>(s.last()),
    decreases entries.len(),
{
    if entries.len() > 0 {
        let k = entries.len() - 1;
        lemma_restore_chain(s.drop_last(), entries.drop_last(), payloads.drop_last(), check);
        assert(s.drop_last()[0] == s[0]);
        assert(entries[k] == entries.last());
        lemma_restore_payload_prefix(s[0], entries.drop_last(), payloads, payloads.drop_last(), check);
        lemma_restore_step_round_trip(s[k], s[k + 1], entries[k], payloads[k], check);
    }
}

proof fn lemma_restore_payload_prefix(
    base: Seq<u8>,
    entries: Seq<Option<IndexEntry>>,
    payload_a: Seq<Seq<u8>>,
    payload_b: Seq<Seq<u8>>,
    check: bool,
)
    requires
        entries.len() <= payload_a.len(),
        entries.len() <= payload_b.len(),
        forall|i: int| 0 <= i < entries.len() ==> #[trigger] payload_a[i] == payload_b[i],
    ensures
        restore_all(base, entries, payload_a, check) == restore_all(base, entries, payload_b, check),
    decreases entries.len(),
{
    if entries.len() > 0 {
        lemma_restore_payload_prefix(base, entries.drop_last(), payload_a, payload_b, check);
    }
}

/// The entries of `es` that carry a payload, in order.
pub open spec fn changed_entries(es: Seq<IndexEntry>) -> Seq<IndexEntry>
    decreases es.len(),
{
    if es.len() == 0 {
        es
    } else if es.last().pos != 0 || es.last().len != 0 {
        changed_entries(es.drop_last()).push(es.last())
    } else {
        changed_entries(es.drop_last())
    }
}

/// The entries of `es` that record an unchanged chunk, in order.
pub open spec fn unchanged_entries(es: Seq<IndexEntry>) -> Seq<IndexEntry>
    decreases es.len(),
{
    if es.len() == 0 {
        es
    } else if es.last().pos != 0 || es.last().len != 0 {
        unchanged_entries(es.drop_last())
    } else {
        unchanged_entries(es.drop_last()).push(es.last())
    }
}

/// Splits an index into the entries to apply and those to copy from the
/// base unchanged.
pub fn partition_entries(es: &[IndexEntry]) -> (r: (Vec<IndexEntry>, Vec<IndexEntry>))
    ensures
        r.0@ == changed_entries(es@),
        r.1@ == unchanged_entries(es@),
{
    let mut changed: Vec<IndexEntry> = Vec::new();
    let mut unchanged: Vec<IndexEntry> = Vec::new();
    let mut i: usize = 0;
    while i < es.len()
        invariant
            i <= es@.len(),
            changed@ == changed_entries(es@.take(i as int)),
            unchanged@ == unchanged_entries(es@.take(i as int)),
        decreases es@.len() - i,
    {
        assert(es@.take(i + 1).drop_last() =~= es@.take(i as int));
        let e = es[i];
        if e.is_changed() {
            changed.push(e);
        } else {
            unchanged.push(e);
        }
        i += 1;
    }
    assert(es@.take(i as int) =~= es@);
    (changed, unchanged)
}

} // verus!
