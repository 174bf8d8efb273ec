//! The versioned diff container.
//!
//! Layout (all integers little-endian):
//! magic `wplace-diff` (11 bytes) | version (u16) | index position (u64) |
//! entry count (u32) | metadata length (u32) | metadata JSON | payloads |
//! index entries (24 bytes each, ascending by chunk number).
use vstd::prelude::*;

use crate::bytes::{
    get_le16, get_le32, get_le64, le16, le32, le64, lemma_le16_round_trip, lemma_le32_round_trip,
    lemma_le64_round_trip, push_le16, push_le32, push_le64, read_le16, read_le32, read_le64,
};
use crate::order::{is_permutation, is_permutation_by, sort_by_first, sorted_by_first};
use crate::{ChunkNumber, ErrorKind};

verus! {

/// The magic bytes that open every diff file: `wplace-diff`.
pub const MAGIC: [u8; 11] = [0x77, 0x70, 0x6c, 0x61, 0x63, 0x65, 0x2d, 0x64, 0x69, 0x66, 0x66];

/// The container version this library writes and reads.
pub const VERSION: u16 = 3;

/// Size of one index entry in bytes.
pub const INDEX_ENTRY_SIZE: u64 = 24;

/// Length of the header up to and including the metadata length field.
pub const FIXED_HEADER_LEN: usize = 29;

/// The magic bytes as a sequence.
pub open spec fn magic_seq() -> Seq<u8> {
    seq![0x77u8, 0x70u8, 0x6cu8, 0x61u8, 0x63u8, 0x65u8, 0x2du8, 0x64u8, 0x69u8, 0x66u8, 0x66u8]
}

/// The order of chunk numbers: by `x`, then by `y`.
pub open spec fn key_of(n: ChunkNumber) -> int {
    n.0 as int * 65536 + n.1 as int
}

/// The order key of a chunk number as a `u32`.
pub fn chunk_key(n: ChunkNumber) -> (r: u32)
    ensures
        r as int == key_of(n),
{
    (n.0 as u32) * 65536 + (n.1 as u32)
}

/// Where a chunk's payload lies in the file, if it changed.
#[derive(PartialEq, Eq, Structural, Clone, Copy, Debug)]
pub enum DiffDataRange {
    Unchanged,
    Changed { pos: u64, len: u64 },
}

impl DiffDataRange {
    /// True for a chunk whose payload is stored.
    pub fn is_changed(&self) -> (r: bool)
        ensures
            r == (self is Changed),
    {
        match self {
            DiffDataRange::Unchanged => false,
            DiffDataRange::Changed { .. } => true,
        }
    }
}

/// A fixed-size index entry: chunk number, checksum of the chunk in the new
/// snapshot, and the payload's byte range (`(0, 0)` when unchanged).
#[derive(PartialEq, Eq, Structural, Clone, Copy, Debug)]
pub struct IndexEntry {
    pub x: u16,
    pub y: u16,
    pub checksum: u32,
    pub pos: u64,
    pub len: u64,
}

impl IndexEntry {
    /// The entry's position in the index order.
    pub open spec fn key(self) -> int {
        key_of((self.x, self.y))
    }

    /// True unless the entry records an unchanged chunk.
    pub fn is_changed(&self) -> (r: bool)
        ensures
            r == (self.pos != 0 || self.len != 0),
    {
        self.pos != 0 || self.len != 0
    }

    /// The entry's payload range.
    pub fn range(&self) -> (r: DiffDataRange)
        ensures
            r == (if self.pos != 0 || self.len != 0 {
                DiffDataRange::Changed { pos: self.pos, len: self.len }
            } else {
                DiffDataRange::Unchanged
            }),
    {
        if self.is_changed() {
            DiffDataRange::Changed { pos: self.pos, len: self.len }
        } else {
            DiffDataRange::Unchanged
        }
    }

    /// The entry's chunk number.
    pub fn chunk_number(&self) -> (r: ChunkNumber)
        ensures
            r == (self.x, self.y),
    {
        (self.x, self.y)
    }
}

/// The 24 bytes of an index entry.
pub open spec fn entry_bytes(e: IndexEntry) -> Seq<u8> {
    le16(e.x) + le16(e.y) + le32(e.checksum) + le64(e.pos) + le64(e.len)
}

/// The entry stored at slot `i` of an index region.
pub open spec fn entry_at(s: Seq<u8>, i: int) -> IndexEntry {
    IndexEntry {
        x: get_le16(s, i * 24),
        y: get_le16(s, i * 24 + 2),
        checksum: get_le32(s, i * 24 + 4),
        pos: get_le64(s, i * 24 + 8),
        len: get_le64(s, i * 24 + 16),
    }
}

/// The entries of an index region, one per whole 24-byte slot.
pub open spec fn entries_of(s: Seq<u8>) -> Seq<IndexEntry> {
    Seq::new(s.len() / 24, |i: int| entry_at(s, i))
}

/// The index region that holds `es` in order.
pub open spec fn index_bytes(es: Seq<IndexEntry>) -> Seq<u8>
    decreases es.len(),
{
    if es.len() == 0 {
        Seq::empty()
    } else {
        index_bytes(es.drop_last()) + entry_bytes(es.last())
    }
}

/// Keys ascend strictly.
pub open spec fn strictly_sorted(es: Seq<IndexEntry>) -> bool {
    forall|i: int, j: int| 0 <= i < j < es.len() ==> (#[trigger] es[i]).key() < (#[trigger] es[j]).key()
}

/// The entry with key `k`, if any.
pub open spec fn find_entry(es: Seq<IndexEntry>, k: int) -> Option<IndexEntry> {
    if exists|i: int| 0 <= i < es.len() && (#[trigger] es[i]).key() == k {
        Some(es[choose|i: int| 0 <= i < es.len() && (#[trigger] es[i]).key() == k])
    } else {
        None
    }
}

proof fn lemma_entry_decode(e: IndexEntry, s: Seq<u8>, i: int)
    requires
        0 <= i,
        (i + 1) * 24 <= s.len(),
        s.subrange(i * 24, i * 24 + 24) == entry_bytes(e),
    ensures
        entry_at(s, i) == e,
{
    let b = i * 24;
    let eb = entry_bytes(e);
    assert(s.subrange(b, b + 2) =~= eb.subrange(0, 2));
    assert(eb.subrange(0, 2) =~= le16(e.x));
    lemma_le16_round_trip(e.x, s, b);
    assert(s.subrange(b + 2, b + 4) =~= eb.subrange(2, 4));
    assert(eb.subrange(2, 4) =~= le16(e.y));
    lemma_le16_round_trip(e.y, s, b + 2);
    assert(s.subrange(b + 4, b + 8) =~= eb.subrange(4, 8));
    assert(eb.subrange(4, 8) =~= le32(e.checksum));
    lemma_le32_round_trip(e.checksum, s, b + 4);
    assert(s.subrange(b + 8, b + 16) =~= eb.subrange(8, 16));
    assert(eb.subrange(8, 16) =~= le64(e.pos));
    lemma_le64_round_trip(e.pos, s, b + 8);
    assert(s.subrange(b + 16, b + 24) =~= eb.subrange(16, 24));
    assert(eb.subrange(16, 24) =~= le64(e.len));
    lemma_le64_round_trip(e.len, s, b + 16);
}

/// The index region of `es` has 24 bytes per entry and decodes back to `es`.
pub proof fn lemma_index_bytes_decode(es: Seq<IndexEntry>)
    ensures
        index_bytes(es).len() == 24 * es.len(),
        entries_of(index_bytes(es)) == es,
    decreases es.len(),
{
    if es.len() > 0 {
        let p = es.drop_last();
        lemma_index_bytes_decode(p);
        let s = index_bytes(es);
        let ps = index_bytes(p);
        assert(s == ps + entry_bytes(es.last()));
        assert forall|i: int| 0 <= i < es.len() implies #[trigger] entry_at(s, i) == es[i] by {
            if i < es.len() - 1 {
                assert(entry_at(ps, i) == p[i]);
                assert(entry_at(s, i) == entry_at(ps, i));
            } else {
                assert(s.subrange(i * 24, i * 24 + 24) =~= entry_bytes(es.last()));
                lemma_entry_decode(es.last(), s, i);
            }
        }
        assert(entries_of(s) =~= es);
    }
}

/// Reads the entry at slot `i` of an index region.
pub fn read_entry(index: &[u8], i: usize) -> (r: IndexEntry)
    requires
        (i + 1) * 24 <= index@.len(),
    ensures
        r == entry_at(index@, i as int),
{
    let _n = index.len();
    let b = i * 24;
    IndexEntry {
        x: read_le16(index, b),
        y: read_le16(index, b + 2),
        checksum: read_le32(index, b + 4),
        pos: read_le64(index, b + 8),
        len: read_le64(index, b + 16),
    }
}

/// Appends the 24 bytes of an index entry.
pub fn push_entry(buf: &mut Vec<u8>, e: &IndexEntry)
    ensures
        final(buf)@ == old(buf)@ + entry_bytes(*e),
{
    push_le16(buf, e.x);
    push_le16(buf, e.y);
    push_le32(buf, e.checksum);
    push_le64(buf, e.pos);
    push_le64(buf, e.len);
    assert(buf@ =~= old(buf)@ + entry_bytes(*e));
}

/// The header with the given index position, entry count and metadata.
pub open spec fn header_bytes(index_pos: u64, count: u32, meta: Seq<u8>) -> Seq<u8> {
    magic_seq() + le16(3) + le64(index_pos) + le32(count) + le32(meta.len() as u32) + meta
}

/// The index entry that `add_entry` records for chunk `n`, whose payload
/// (if any) starts at offset `at`.
pub open spec fn new_entry(n: ChunkNumber, checksum: u32, data: Option<Seq<u8>>, at: int) -> IndexEntry {
    match data {
        Some(d) => IndexEntry { x: n.0, y: n.1, checksum, pos: at as u64, len: d.len() as u64 },
        None => IndexEntry { x: n.0, y: n.1, checksum, pos: 0, len: 0 },
    }
}

/// Keys ascend, not necessarily strictly.
pub open spec fn sorted_keys(es: Seq<IndexEntry>) -> bool {
    forall|i: int, j: int| 0 <= i < j < es.len() ==> (#[trigger] es[i]).key() <= (#[trigger] es[j]).key()
}

/// No two entries share a chunk number.
pub open spec fn distinct_keys(es: Seq<IndexEntry>) -> bool {
    forall|i: int, j: int| 0 <= i < j < es.len() ==> (#[trigger] es[i]).key() != (#[trigger] es[j]).key()
}

/// The complete file for metadata `meta`, payload region `payload` and the
/// index entries `sorted` in index order.
pub open spec fn file_bytes(meta: Seq<u8>, payload: Seq<u8>, sorted: Seq<IndexEntry>) -> Seq<u8> {
    header_bytes((29 + meta.len() + payload.len()) as u64, sorted.len() as u32, meta) + payload
        + index_bytes(sorted)
}

/// `file` is what `finalize` produces from these metadata, payload and
/// entries: the entries reordered by ascending chunk number.
pub open spec fn is_finalized(
    meta: Seq<u8>,
    payload: Seq<u8>,
    entries: Seq<IndexEntry>,
    file: Seq<u8>,
) -> bool {
    exists|sorted: Seq<IndexEntry>|
        is_permutation(entries, sorted) && sorted_keys(sorted) && file == file_bytes(
            meta,
            payload,
            sorted,
        )
}

/// Encodes a header with the given index position, entry count and
/// metadata.
pub fn encode_header(index_pos: u64, count: u32, metadata: &[u8]) -> (r: Vec<u8>)
    requires
        metadata@.len() <= u32::MAX,
    ensures
        r@ == header_bytes(index_pos, count, metadata@),
{
    let mut buf: Vec<u8> = Vec::new();
    let magic = MAGIC;
    assert(magic@ =~= magic_seq());
    buf.extend_from_slice(&magic);
    push_le16(&mut buf, VERSION);
    push_le64(&mut buf, index_pos);
    push_le32(&mut buf, count);
    push_le32(&mut buf, metadata.len() as u32);
    buf.extend_from_slice(metadata);
    assert(buf@ =~= header_bytes(index_pos, count, metadata@));
    buf
}

/// What `finalize` hands back: the index region to append after the last
/// payload, and the completed header to write over the placeholder at
/// offset 0 (both headers have the same length).
pub struct FinalizedIndex {
    pub header: Vec<u8>,
    pub index: Vec<u8>,
}

/// Streams a diff file: the caller writes `header()` first, then each
/// payload right after recording it with `add_entry`, and at the end the
/// parts that `finalize` returns.
pub struct DiffFileWriter {
    metadata: Vec<u8>,
    pos: u64,
    entries: Vec<IndexEntry>,
    payload: Ghost<Seq<u8>>,
}

impl DiffFileWriter {
    /// The metadata written in the header.
    pub closed spec fn metadata(&self) -> Seq<u8> {
        self.metadata@
    }

    /// The payload bytes recorded so far.
    pub closed spec fn payload(&self) -> Seq<u8> {
        self.payload@
    }

    /// The entries recorded so far, in arrival order.
    pub closed spec fn entries(&self) -> Seq<IndexEntry> {
        self.entries@
    }

    /// Offset of the first payload byte.
    pub open spec fn payload_start(&self) -> int {
        29 + self.metadata().len() as int
    }

    /// The write position is the end of the payloads recorded so far.
    pub closed spec fn wf(&self) -> bool {
        &&& self.metadata@.len() <= u32::MAX
        &&& self.pos as int == 29 + self.metadata@.len() + self.payload@.len()
    }

    /// Starts a diff file with the given metadata JSON.
    pub fn create(metadata: &[u8]) -> (r: Self)
        requires
            metadata@.len() <= u32::MAX,
        ensures
            r.wf(),
            r.metadata() == metadata@,
            r.payload() == Seq::<u8>::empty(),
            r.entries() == Seq::<IndexEntry>::empty(),
    {
        let mut meta: Vec<u8> = Vec::new();
        meta.extend_from_slice(metadata);
        let pos = FIXED_HEADER_LEN as u64 + metadata.len() as u64;
        DiffFileWriter { metadata: meta, pos, entries: Vec::new(), payload: Ghost(Seq::empty()) }
    }

    /// The header to write first: magic, version, zero placeholders for the
    /// index position and entry count, and the metadata.
    pub fn header(&self) -> (r: Vec<u8>)
        requires
            self.wf(),
        ensures
            r@ == header_bytes(0, 0, self.metadata()),
            r@.len() == self.payload_start(),
    {
        encode_header(0, 0, self.metadata.as_slice())
    }

    /// Records chunk `n`: its compressed diff, if any, is the next part of
    /// the payload region, written by the caller right after this call; the
    /// index entry gets its byte range, or `(0, 0)` for an unchanged chunk.
    pub fn add_entry(&mut self, n: ChunkNumber, compressed_diff_data: Option<&[u8]>, chunk_checksum: u32)
        requires
            old(self).wf(),
            compressed_diff_data matches Some(d) ==> old(self).payload_start() + old(self).payload().len()
                + d@.len() <= u64::MAX,
        ensures
            final(self).wf(),
            final(self).metadata() == old(self).metadata(),
            final(self).payload() == match compressed_diff_data {
                Some(d) => old(self).payload() + d@,
                None => old(self).payload(),
            },
            final(self).entries() == old(self).entries().push(
                new_entry(
                    n,
                    chunk_checksum,
                    match compressed_diff_data {
                        Some(d) => Some(d@),
                        None => None,
                    },
                    old(self).payload_start() + old(self).payload().len(),
                ),
            ),
    {
        let entry = match compressed_diff_data {
            Some(data) => {
                let start = self.pos;
                self.pos = self.pos + data.len() as u64;
                self.payload = Ghost(self.payload@ + data@);
                IndexEntry { x: n.0, y: n.1, checksum: chunk_checksum, pos: start, len: data.len() as u64 }
            },
            None => IndexEntry { x: n.0, y: n.1, checksum: chunk_checksum, pos: 0, len: 0 },
        };
        self.entries.push(entry);
    }

    /// Completes the file: sorts the entries by chunk number into the index
    /// region, and fills in the index position and entry count of the
    /// header. The finished file is `header`, the payloads, then `index`.
    #[verifier::rlimit(40)]
    pub fn finalize(self) -> (r: FinalizedIndex)
        requires
            self.wf(),
            self.entries().len() <= u32::MAX,
            self.payload_start() + self.payload().len() + 24 * self.entries().len() <= u64::MAX,
        ensures
            r.header@.len() == self.payload_start(),
            is_finalized(self.metadata(), self.payload(), self.entries(), r.header@ + self.payload() + r.index@),
    {
        let ghost meta = self.metadata@;
        let ghost payload = self.payload@;
        let DiffFileWriter { metadata, pos, entries, payload: _ } = self;
        let count = entries.len() as u32;
        let mut keyed: Vec<(u32, IndexEntry)> = Vec::new();
        let mut i: usize = 0;
        while i < entries.len()
            invariant
                i <= entries@.len(),
                keyed@.len() == i,
                forall|j: int| 0 <= j < i ==> (#[trigger] keyed@[j]).1 == entries@[j] && keyed@[j].0 as int
                    == entries@[j].key(),
            decreases entries@.len() - i,
        {
            let e = entries[i];
            keyed.push((chunk_key((e.x, e.y)), e));
            i += 1;
        }
        let ghost unsorted = keyed@;
        sort_by_first(&mut keyed);
        let ghost sorted = keyed@.map_values(|k: (u32, IndexEntry)| k.1);
        proof {
            let p = choose|p: Seq<int>| is_permutation_by(unsorted, keyed@, p);
            assert(is_permutation_by(entries@, sorted, p));
            assert(sorted_keys(sorted)) by {
                assert forall|a: int, b: int| 0 <= a < b < sorted.len() implies (#[trigger] sorted[a]).key()
                    <= (#[trigger] sorted[b]).key() by {
                    assert(keyed@[a].0 <= keyed@[b].0);
                    assert(keyed@[a] == unsorted[p[a]]);
                    assert(keyed@[b] == unsorted[p[b]]);
                }
            }
        }
        let mut index: Vec<u8> = Vec::new();
        let mut k: usize = 0;
        while k < keyed.len()
            invariant
                k <= keyed@.len(),
                sorted.len() == keyed@.len(),
                sorted == keyed@.map_values(|k: (u32, IndexEntry)| k.1),
                index@ == index_bytes(sorted.take(k as int)),
            decreases keyed@.len() - k,
        {
            push_entry(&mut index, &keyed[k].1);
            proof {
                assert(sorted.take(k + 1).drop_last() =~= sorted.take(k as int));
            }
            k += 1;
        }
        assert(sorted.take(k as int) =~= sorted);
        let header = encode_header(pos, count, metadata.as_slice());
        let r = FinalizedIndex { header, index };
        assert(r.header@ + payload + r.index@ =~= file_bytes(meta, payload, sorted));
        r
    }
}

/// In a file finalized from entries with distinct chunk numbers, the header
/// records the index position and entry count, the index region holds the
/// same entries in strictly ascending chunk order, and looking a chunk number
/// up in it finds exactly the entry that was added for it, or nothing when
/// none was.
pub proof fn lemma_finalized_index(
    meta: Seq<u8>,
    payload: Seq<u8>,
    entries: Seq<IndexEntry>,
    file: Seq<u8>,
)
    requires
        is_finalized(meta, payload, entries, file),
        distinct_keys(entries),
        29 + meta.len() + payload.len() + 24 * entries.len() <= u64::MAX,
        entries.len() <= u32::MAX,
    ensures
        get_le64(file, 13) == 29 + meta.len() + payload.len(),
        get_le32(file, 21) == entries.len(),
        file.len() == 29 + meta.len() + payload.len() + 24 * entries.len(),
        is_permutation(entries, entries_of(file.subrange(29 + meta.len() + payload.len() as int, file.len() as int))),
        strictly_sorted(entries_of(file.subrange(29 + meta.len() + payload.len() as int, file.len() as int))),
        forall|i: int|
            0 <= i < entries.len() ==> find_entry(
                entries_of(file.subrange(29 + meta.len() + payload.len() as int, file.len() as int)),
                (#[trigger] entries[i]).key(),
            ) == Some(entries[i]),
        forall|k: int|
            (forall|i: int| 0 <= i < entries.len() ==> (#[trigger] entries[i]).key() != k)
                ==> #[trigger] find_entry(
                entries_of(file.subrange(29 + meta.len() + payload.len() as int, file.len() as int)),
                k,
            ) is None,
{
    let sorted = choose|sorted: Seq<IndexEntry>|
        is_permutation(entries, sorted) && sorted_keys(sorted) && file == file_bytes(meta, payload, sorted);
    let p = choose|p: Seq<int>| is_permutation_by(entries, sorted, p);
    let ip = 29 + meta.len() + payload.len();
    let h = header_bytes(ip as u64, sorted.len() as u32, meta);
    lemma_index_bytes_decode(sorted);
    assert(file.subrange(13, 21) =~= le64(ip as u64));
    lemma_le64_round_trip(ip as u64, file, 13);
    assert(file.subrange(21, 25) =~= le32(sorted.len() as u32));
    lemma_le32_round_trip(sorted.len() as u32, file, 21);
    let idx = file.subrange(ip as int, file.len() as int);
    assert(idx =~= index_bytes(sorted));
    assert(strictly_sorted(sorted)) by {
        assert forall|a: int, b: int| 0 <= a < b < sorted.len() implies (#[trigger] sorted[a]).key()
            < (#[trigger] sorted[b]).key() by {
            assert(p[a] != p[b]);
            if p[a] < p[b] {
                assert(entries[p[a]].key() != entries[p[b]].key());
            } else {
                assert(entries[p[b]].key() != entries[p[a]].key());
            }
        }
    }
    assert forall|i: int| 0 <= i < entries.len() implies find_entry(sorted, (#[trigger] entries[i]).key())
        == Some(entries[i]) by {
        assert(p.contains(i));
        let j = choose|j: int| 0 <= j < p.len() && #[trigger] p[j] == i;
        assert(sorted[j] == entries[i]);
        let c = choose|c: int| 0 <= c < sorted.len() && (#[trigger] sorted[c]).key() == entries[i].key();
        if c < j {
            assert(sorted[c].key() < sorted[j].key());
        } else if c > j {
            assert(sorted[j].key() < sorted[c].key());
        }
    }
    assert forall|k: int|
        (forall|i: int| 0 <= i < entries.len() ==> (#[trigger] entries[i]).key() != k) implies find_entry(
        sorted,
        k,
    ) is None by {
        if exists|j: int| 0 <= j < sorted.len() && (#[trigger] sorted[j]).key() == k {
            let j = choose|j: int| 0 <= j < sorted.len() && (#[trigger] sorted[j]).key() == k;
            assert(sorted[j] == entries[p[j]]);
        }
    }
}

/// Whether the bytes parse as one JSON value, as serde_json reads them.
pub uninterp spec fn json_valid(b: Seq<u8>) -> bool;

/// Relies on serde_json::from_slice into serde_json::Value: whether the
/// bytes parse as one JSON value.
#[verifier::external_body]
fn metadata_is_json(b: &[u8]) -> (r: bool)
    ensures
        r == json_valid(b@),
{
    serde_json::from_slice::<serde_json::Value>(b).is_ok()
}

/// The index position, entry count and metadata that a file's header holds,
/// or the error that reading it meets first.
pub open spec fn parse_header(s: Seq<u8>) -> Result<(u64, u32, Seq<u8>), ErrorKind> {
    if s.len() < 11 {
        Err(ErrorKind::Truncated)
    } else if s.subrange(0, 11) != magic_seq() {
        Err(ErrorKind::Magic)
    } else if s.len() < 13 {
        Err(ErrorKind::Truncated)
    } else if get_le16(s, 11) != 3 {
        Err(ErrorKind::UnsupportedVersion)
    } else if s.len() < 29 {
        Err(ErrorKind::Truncated)
    } else if s.len() < 29 + get_le32(s, 25) {
        Err(ErrorKind::Truncated)
    } else if !json_valid(s.subrange(29, 29 + get_le32(s, 25))) {
        Err(ErrorKind::Metadata)
    } else {
        Ok((get_le64(s, 13), get_le32(s, 21), s.subrange(29, 29 + get_le32(s, 25))))
    }
}

/// An opened diff file: what its header says.
pub struct DiffFile {
    /// Offset of the index region.
    pub index_pos: u64,
    pub entry_count: u32,
    /// The metadata JSON.
    pub metadata: Vec<u8>,
    /// Offset of the first payload byte.
    pub payload_start: u64,
}

/// A binary search over an index in progress: slots `lo .. hi` remain.
#[derive(PartialEq, Eq, Structural, Clone, Copy, Debug)]
pub struct IndexSearch {
    pub lo: u64,
    pub hi: u64,
}

/// The outcome of one probe of an index slot.
#[derive(PartialEq, Eq, Structural, Clone, Copy, Debug)]
pub enum Probe {
    /// The slot holds the chunk.
    Found(IndexEntry),
    /// The search goes on over these slots (over none: the chunk is absent).
    Next(IndexSearch),
}

/// What a search state knows of the index `es` when looking for key `t`:
/// the slots left are in range and, in a sorted index, every slot before
/// them has a smaller key and every slot after them a larger one.
pub open spec fn search_inv(es: Seq<IndexEntry>, st: IndexSearch, t: int) -> bool {
    &&& st.lo <= st.hi <= es.len()
    &&& sorted_keys(es) ==> forall|i: int| 0 <= i < st.lo ==> (#[trigger] es[i]).key() < t
    &&& sorted_keys(es) ==> forall|i: int| st.hi <= i < es.len() ==> (#[trigger] es[i]).key() > t
}

/// The slot that the search reads next: the middle one.
pub open spec fn mid_slot(st: IndexSearch) -> int {
    st.lo + (st.hi - st.lo) / 2
}

/// The slot to read next, or `None` when no slot is left.
pub fn search_slot(st: IndexSearch) -> (r: Option<u64>)
    ensures
        match r {
            Some(m) => st.lo < st.hi && m == mid_slot(st),
            None => st.lo >= st.hi,
        },
{
    if st.lo >= st.hi {
        None
    } else {
        Some(st.lo + (st.hi - st.lo) / 2)
    }
}

/// One probe: given the 24 bytes of the middle slot, either the chunk is
/// found there or the search narrows to the half that can still hold it.
pub fn search_step(st: IndexSearch, slot: &[u8], target: ChunkNumber) -> (r: Result<Probe, ErrorKind>)
    requires
        st.lo < st.hi,
    ensures
        slot@.len() != 24 ==> r == Err::<Probe, ErrorKind>(ErrorKind::TruncatedIndex),
        slot@.len() == 24 ==> r == Ok::<Probe, ErrorKind>(
            if entry_at(slot@, 0).key() == key_of(target) {
                Probe::Found(entry_at(slot@, 0))
            } else if entry_at(slot@, 0).key() < key_of(target) {
                Probe::Next(IndexSearch { lo: (mid_slot(st) + 1) as u64, hi: st.hi })
            } else {
                Probe::Next(IndexSearch { lo: st.lo, hi: mid_slot(st) as u64 })
            },
        ),
{
    if slot.len() != 24 {
        return Err(ErrorKind::TruncatedIndex);
    }
    let m = st.lo + (st.hi - st.lo) / 2;
    let e = read_entry(slot, 0);
    let k = chunk_key((e.x, e.y));
    let t = chunk_key(target);
    if k == t {
        Ok(Probe::Found(e))
    } else if k < t {
        Ok(Probe::Next(IndexSearch { lo: m + 1, hi: st.hi }))
    } else {
        Ok(Probe::Next(IndexSearch { lo: st.lo, hi: m }))
    }
}

proof fn lemma_slot_entry(index: Seq<u8>, slot: Seq<u8>, m: int)
    requires
        0 <= m,
        (m + 1) * 24 <= index.len(),
        slot == index.subrange(m * 24, m * 24 + 24),
    ensures
        entry_at(slot, 0) == entry_at(index, m),
{
}

/// A probe keeps the search state's knowledge: a found entry is in the
/// index with the key sought (the one entry with it, in a strictly sorted
/// index), and a narrowed search keeps the invariant.
pub proof fn lemma_search_step(es: Seq<IndexEntry>, st: IndexSearch, t: ChunkNumber, r: Probe)
    requires
        search_inv(es, st, key_of(t)),
        st.lo < st.hi,
        r == (if es[mid_slot(st)].key() == key_of(t) {
            Probe::Found(es[mid_slot(st)])
        } else if es[mid_slot(st)].key() < key_of(t) {
            Probe::Next(IndexSearch { lo: (mid_slot(st) + 1) as u64, hi: st.hi })
        } else {
            Probe::Next(IndexSearch { lo: st.lo, hi: mid_slot(st) as u64 })
        }),
    ensures
        r matches Probe::Found(e) ==> es.contains(e) && e.key() == key_of(t),
        strictly_sorted(es) ==> (r matches Probe::Found(e) ==> find_entry(es, key_of(t)) == Some(e)),
        r matches Probe::Next(n) ==> search_inv(es, n, key_of(t)) && n.hi - n.lo < st.hi - st.lo,
{
    let m = mid_slot(st);
    if let Probe::Found(e) = r {
        assert(es[m] == e);
        if strictly_sorted(es) {
            let c = choose|c: int| 0 <= c < es.len() && (#[trigger] es[c]).key() == key_of(t);
            if c < m {
                assert(es[c].key() < es[m].key());
            } else if c > m {
                assert(es[m].key() < es[c].key());
            }
        }
    }
}

proof fn lemma_search_found(es: Seq<IndexEntry>, st: IndexSearch, t: int, e: IndexEntry)
    requires
        search_inv(es, st, t),
        st.lo < st.hi,
        es[mid_slot(st)] == e,
        e.key() == t,
    ensures
        es.contains(e),
        strictly_sorted(es) ==> find_entry(es, t) == Some(e),
{
    let m = mid_slot(st);
    assert(es[m] == e);
    if strictly_sorted(es) {
        let c = choose|c: int| 0 <= c < es.len() && (#[trigger] es[c]).key() == t;
        if c < m {
            assert(es[c].key() < es[m].key());
        } else if c > m {
            assert(es[m].key() < es[c].key());
        }
    }
}

/// A search with no slot left over a sorted index means the key is absent.
pub proof fn lemma_search_done(es: Seq<IndexEntry>, st: IndexSearch, t: int)
    requires
        search_inv(es, st, t),
        st.lo >= st.hi,
        sorted_keys(es),
    ensures
        forall|i: int| 0 <= i < es.len() ==> (#[trigger] es[i]).key() != t,
{
}

/// The length of a file's header including its metadata, read from the
/// fixed part of the header; `None` when fewer than 29 bytes are given.
pub fn header_len(fixed: &[u8]) -> (r: Option<u64>)
    ensures
        match r {
            Some(n) => fixed@.len() >= 29 && n == 29 + get_le32(fixed@, 25),
            None => fixed@.len() < 29,
        },
{
    if fixed.len() < FIXED_HEADER_LEN {
        return None;
    }
    Some(FIXED_HEADER_LEN as u64 + read_le32(fixed, 25) as u64)
}

impl DiffFile {
    /// Reads the header from the start of a diff file: checks the magic and
    /// the version, and reads the index position, entry count and metadata.
    pub fn open(data: &[u8]) -> (r: Result<DiffFile, ErrorKind>)
        ensures
            match parse_header(data@) {
                Ok((ip, c, m)) => r matches Ok(f) && f.index_pos == ip && f.entry_count == c
                    && f.metadata@ == m && f.payload_start == 29 + m.len(),
                Err(e) => r == Err::<DiffFile, ErrorKind>(e),
            },
    {
        if data.len() < 11 {
            return Err(ErrorKind::Truncated);
        }
        let magic = MAGIC;
        let mut i: usize = 0;
        while i < 11
            invariant
                data@.len() >= 11,
                magic@ == magic_seq(),
                i <= 11,
                forall|j: int| 0 <= j < i ==> data@[j] == magic_seq()[j],
            decreases 11 - i,
        {
            if data[i] != magic[i] {
                assert(data@.subrange(0, 11)[i as int] != magic_seq()[i as int]);
                return Err(ErrorKind::Magic);
            }
            i += 1;
        }
        assert(data@.subrange(0, 11) =~= magic_seq());
        if data.len() < 13 {
            return Err(ErrorKind::Truncated);
        }
        if read_le16(data, 11) != VERSION {
            return Err(ErrorKind::UnsupportedVersion);
        }
        if data.len() < FIXED_HEADER_LEN {
            return Err(ErrorKind::Truncated);
        }
        let index_pos = read_le64(data, 13);
        let entry_count = read_le32(data, 21);
        let meta_len = read_le32(data, 25) as usize;
        if data.len() - FIXED_HEADER_LEN < meta_len {
            return Err(ErrorKind::Truncated);
        }
        let _n = data.len();
        let mut metadata: Vec<u8> = Vec::with_capacity(meta_len);
        let mut k: usize = 0;
        while k < meta_len
            invariant
                k <= meta_len,
                29 + meta_len <= data@.len(),
                data@.len() <= usize::MAX,
                metadata@ =~= data@.subrange(29, 29 + k),
            decreases meta_len - k,
        {
            metadata.push(data[FIXED_HEADER_LEN + k]);
            k += 1;
        }
        if !metadata_is_json(metadata.as_slice()) {
            return Err(ErrorKind::Metadata);
        }
        Ok(DiffFile { index_pos, entry_count, metadata, payload_start: (FIXED_HEADER_LEN + meta_len) as u64 })
    }

    /// Length in bytes of the index region.
    pub fn index_len(&self) -> (r: u64)
        ensures
            r == 24 * self.entry_count,
    {
        self.entry_count as u64 * INDEX_ENTRY_SIZE
    }

    /// The search over the whole index.
    pub fn search_start(&self) -> (r: IndexSearch)
        ensures
            r.lo == 0 && r.hi == self.entry_count,
    {
        IndexSearch { lo: 0, hi: self.entry_count as u64 }
    }

    /// The file offset of index slot `slot`.
    pub fn slot_offset(&self, slot: u64) -> (r: Option<u64>)
        ensures
            match r {
                Some(o) => o == self.index_pos + 24 * slot,
                None => self.index_pos + 24 * slot > u64::MAX,
            },
    {
        if slot > (u64::MAX - self.index_pos) / 24 {
            return None;
        }
        Some(self.index_pos + slot * 24)
    }

    /// Looks a chunk up in the index region by binary search, reading only
    /// the slots it visits.
    pub fn query_chunk(&self, index: &[u8], target: ChunkNumber) -> (r: Result<Option<IndexEntry>, ErrorKind>)
        ensures
            index@.len() != 24 * self.entry_count ==> r == Err::<Option<IndexEntry>, ErrorKind>(
                ErrorKind::TruncatedIndex,
            ),
            index@.len() == 24 * self.entry_count ==> r is Ok,
            r matches Ok(Some(e)) ==> entries_of(index@).contains(e) && e.key() == key_of(target),
            r matches Ok(None) && sorted_keys(entries_of(index@)) ==> forall|i: int|
                0 <= i < entries_of(index@).len() ==> (#[trigger] entries_of(index@)[i]).key() != key_of(
                    target,
                ),
            r is Ok && strictly_sorted(entries_of(index@)) ==> r == Ok::<Option<IndexEntry>, ErrorKind>(
                find_entry(entries_of(index@), key_of(target)),
            ),
    {
        if index.len() as u64 != self.index_len() {
            return Err(ErrorKind::TruncatedIndex);
        }
        let ghost es = entries_of(index@);
        let _len = index.len();
        let mut st = self.search_start();
        loop
            invariant
                es == entries_of(index@),
                es.len() == self.entry_count,
                index@.len() == 24 * self.entry_count,
                index@.len() <= usize::MAX,
                search_inv(es, st, key_of(target)),
            decreases st.hi - st.lo,
        {
            let m = match search_slot(st) {
                Some(m) => m,
                None => {
                    return Ok(None);
                },
            };
            assert(m < self.entry_count);
            let _n = index.len();
            let start = m as usize * 24;
            let slot = &index[start..start + 24];
            proof {
                lemma_slot_entry(index@, slot@, m as int);
            }
            match search_step(st, slot, target) {
                Ok(Probe::Found(e)) => {
                    proof {
                        lemma_search_found(es, st, key_of(target), e);
                    }
                    return Ok(Some(e));
                },
                Ok(Probe::Next(next)) => {
                    proof {
                        assert(es[m as int] == entry_at(slot@, 0));
                        lemma_search_step(es, st, target, Probe::Next(next));
                    }
                    st = next;
                },
                Err(_) => {
                    return Err(ErrorKind::TruncatedIndex);
                },
            }
        }
    }

    /// Reads every entry of the index region, in index order.
    pub fn collect_index(&self, index: &[u8]) -> (r: Result<Vec<IndexEntry>, ErrorKind>)
        ensures
            match r {
                Ok(v) => index@.len() == 24 * self.entry_count && v@ == entries_of(index@),
                Err(e) => index@.len() != 24 * self.entry_count && e == ErrorKind::TruncatedIndex,
            },
    {
        if index.len() as u64 != self.index_len() {
            return Err(ErrorKind::TruncatedIndex);
        }
        let n = self.entry_count as usize;
        let mut v: Vec<IndexEntry> = Vec::with_capacity(n);
        let mut i: usize = 0;
        while i < n
            invariant
                n == self.entry_count,
                index@.len() == 24 * n,
                i <= n,
                v@ =~= entries_of(index@).take(i as int),
            decreases n - i,
        {
            v.push(read_entry(index, i));
            i += 1;
        }
        assert(v@ =~= entries_of(index@));
        Ok(v)
    }

    /// The byte range of an entry's payload, checked to lie inside the
    /// payload region.
    pub fn open_chunk(&self, entry: &IndexEntry) -> (r: Result<(u64, u64), ErrorKind>)
        ensures
            match r {
                Ok((pos, len)) => pos == entry.pos && len == entry.len && self.payload_start <= entry.pos
                    && entry.pos + entry.len <= self.index_pos,
                Err(e) => e == ErrorKind::PayloadRange && !(self.payload_start <= entry.pos && entry.pos
                    + entry.len <= self.index_pos),
            },
    {
        if entry.pos < self.payload_start || entry.pos > self.index_pos || entry.len > self.index_pos
            - entry.pos {
            return Err(ErrorKind::PayloadRange);
        }
        Ok((entry.pos, entry.len))
    }
}

/// A chunk recorded without a payload gets the unchanged entry `(0, 0)`;
/// recording it leaves the payload region as it was (see `add_entry`).
pub proof fn lemma_unchanged_entry(n: ChunkNumber, checksum: u32, at: int)
    ensures
        new_entry(n, checksum, None, at).pos == 0,
        new_entry(n, checksum, None, at).len == 0,
        new_entry(n, checksum, None, at).key() == key_of(n),
        new_entry(n, checksum, None, at).checksum == checksum,
{
}

/// What an index entry records apart from where its payload lies: chunk
/// number, checksum, payload length, and whether a payload exists.
pub open spec fn record_of(e: IndexEntry) -> (u16, u16, u32, u64, bool) {
    (e.x, e.y, e.checksum, e.len, e.pos == 0 && e.len == 0)
}

/// `b` holds the records of `a` in another order.
pub open spec fn same_records(a: Seq<IndexEntry>, b: Seq<IndexEntry>) -> bool {
    is_permutation(a.map_values(|e: IndexEntry| record_of(e)), b.map_values(|e: IndexEntry| record_of(e)))
}

/// Some entry of `t` has key `k`.
pub open spec fn has_key(t: Seq<IndexEntry>, k: int) -> bool {
    exists|b: int| 0 <= b < t.len() && (#[trigger] t[b]).key() == k
}

/// Every key of `s` occurs in `t`.
pub open spec fn keys_covered(s: Seq<IndexEntry>, t: Seq<IndexEntry>) -> bool {
    forall|a: int| 0 <= a < s.len() ==> has_key(t, (#[trigger] s[a]).key())
}

proof fn lemma_sorted_keys_agree(s: Seq<IndexEntry>, t: Seq<IndexEntry>, i: int)
    requires
        s.len() == t.len(),
        strictly_sorted(s),
        strictly_sorted(t),
        keys_covered(s, t),
        keys_covered(t, s),
        0 <= i < s.len(),
    ensures
        forall|j: int| 0 <= j <= i ==> (#[trigger] s[j]).key() == t[j].key(),
    decreases i,
{
    if i > 0 {
        lemma_sorted_keys_agree(s, t, i - 1);
    }
    assert(has_key(t, s[i].key()));
    let m = choose|b: int| 0 <= b < t.len() && (#[trigger] t[b]).key() == s[i].key();
    assert(has_key(s, t[i].key()));
    let m2 = choose|a: int| 0 <= a < s.len() && (#[trigger] s[a]).key() == t[i].key();
    if m < i {
        assert(s[m].key() == t[m].key());
        assert(s[m].key() < s[i].key());
    }
    if m2 < i {
        assert(s[m2].key() == t[m2].key());
        assert(t[m2].key() < t[i].key());
    }
    if m > i {
        assert(t[i].key() < t[m].key());
    }
    if m2 > i {
        assert(s[i].key() < s[m2].key());
    }
}

proof fn lemma_records_distinct(e1: Seq<IndexEntry>, e2: Seq<IndexEntry>, q: Seq<int>)
    requires
        distinct_keys(e1),
        is_permutation_by(
            e1.map_values(|e: IndexEntry| record_of(e)),
            e2.map_values(|e: IndexEntry| record_of(e)),
            q,
        ),
    ensures
        distinct_keys(e2),
        forall|i: int| 0 <= i < e2.len() ==> record_of(#[trigger] e2[i]) == record_of(e1[q[i]]),
{
    let r1 = e1.map_values(|e: IndexEntry| record_of(e));
    let r2 = e2.map_values(|e: IndexEntry| record_of(e));
    assert forall|i: int| 0 <= i < e2.len() implies record_of(#[trigger] e2[i]) == record_of(e1[q[i]]) by {
        assert(r2[i] == r1[q[i]]);
    }
    assert forall|i: int, j: int| 0 <= i < j < e2.len() implies (#[trigger] e2[i]).key() != (#[trigger] e2[j]).key() by {
        assert(record_of(e2[i]) == record_of(e1[q[i]]));
        assert(record_of(e2[j]) == record_of(e1[q[j]]));
        assert(q[i] != q[j]);
        if q[i] < q[j] {
            assert(e1[q[i]].key() != e1[q[j]].key());
        } else {
            assert(e1[q[j]].key() != e1[q[i]].key());
        }
    }
}

/// The sorted index does not depend on the order in which entries arrive:
/// two files finalized from the same records (chunks with distinct numbers,
/// checksums and payload lengths) added in different orders hold, slot by
/// slot, the same records; only payload positions may differ.
pub proof fn lemma_index_independent_of_arrival(
    meta: Seq<u8>,
    payload_a: Seq<u8>,
    e1: Seq<IndexEntry>,
    f1: Seq<u8>,
    payload_b: Seq<u8>,
    e2: Seq<IndexEntry>,
    f2: Seq<u8>,
)
    requires
        is_finalized(meta, payload_a, e1, f1),
        is_finalized(meta, payload_b, e2, f2),
        distinct_keys(e1),
        same_records(e1, e2),
        29 + meta.len() + payload_a.len() + 24 * e1.len() <= u64::MAX,
        29 + meta.len() + payload_b.len() + 24 * e2.len() <= u64::MAX,
        e1.len() <= u32::MAX,
    ensures
        entries_of(f1.subrange(29 + meta.len() + payload_a.len() as int, f1.len() as int)).len() == e1.len(),
        entries_of(f2.subrange(29 + meta.len() + payload_b.len() as int, f2.len() as int)).len() == e1.len(),
        forall|i: int|
            0 <= i < e1.len() ==> record_of(
                #[trigger] entries_of(f1.subrange(29 + meta.len() + payload_a.len() as int, f1.len() as int))[i],
            ) == record_of(entries_of(f2.subrange(29 + meta.len() + payload_b.len() as int, f2.len() as int))[i]),
{
    let r1 = e1.map_values(|e: IndexEntry| record_of(e));
    let r2 = e2.map_values(|e: IndexEntry| record_of(e));
    let q = choose|q: Seq<int>| is_permutation_by(r1, r2, q);
    lemma_records_distinct(e1, e2, q);
    lemma_finalized_index(meta, payload_a, e1, f1);
    lemma_finalized_index(meta, payload_b, e2, f2);
    let s1 = entries_of(f1.subrange(29 + meta.len() + payload_a.len() as int, f1.len() as int));
    let s2 = entries_of(f2.subrange(29 + meta.len() + payload_b.len() as int, f2.len() as int));
    let a1 = choose|p: Seq<int>| is_permutation_by(e1, s1, p);
    let a2 = choose|p: Seq<int>| is_permutation_by(e2, s2, p);
    lemma_arrival_cover(e1, e2, s1, s2, q, a1, a2);
    if e1.len() > 0 {
        lemma_sorted_keys_agree(s1, s2, e1.len() - 1);
    }
    assert forall|i: int| 0 <= i < e1.len() implies record_of(#[trigger] s1[i]) == record_of(s2[i]) by {
        let jj = a2[i];
        let t = q[jj];
        assert(s2[i] == e2[jj]);
        assert(record_of(e2[jj]) == record_of(e1[t]));
        assert(s1[i] == e1[a1[i]]);
        assert(e1[t].key() == s2[i].key());
        if t != a1[i] {
            if t < a1[i] {
                assert(e1[t].key() != e1[a1[i]].key());
            } else {
                assert(e1[a1[i]].key() != e1[t].key());
            }
        }
    }
}

proof fn lemma_arrival_cover(
    e1: Seq<IndexEntry>,
    e2: Seq<IndexEntry>,
    s1: Seq<IndexEntry>,
    s2: Seq<IndexEntry>,
    q: Seq<int>,
    a1: Seq<int>,
    a2: Seq<int>,
)
    requires
        is_permutation_by(
            e1.map_values(|e: IndexEntry| record_of(e)),
            e2.map_values(|e: IndexEntry| record_of(e)),
            q,
        ),
        forall|i: int| 0 <= i < e2.len() ==> record_of(#[trigger] e2[i]) == record_of(e1[q[i]]),
        is_permutation_by(e1, s1, a1),
        is_permutation_by(e2, s2, a2),
    ensures
        keys_covered(s1, s2),
        keys_covered(s2, s1),
{
    assert forall|a: int| 0 <= a < s1.len() implies has_key(s2, (#[trigger] s1[a]).key()) by {
        assert(q.contains(a1[a]));
        let jj = choose|jj: int| 0 <= jj < q.len() && q[jj] == a1[a];
        assert(record_of(e2[jj]) == record_of(e1[q[jj]]));
        assert(a2.contains(jj));
        let b = choose|b: int| 0 <= b < a2.len() && a2[b] == jj;
        assert(s2[b] == e2[jj]);
        assert(s2[b].key() == s1[a].key());
    }
    assert forall|b: int| 0 <= b < s2.len() implies has_key(s1, (#[trigger] s2[b]).key()) by {
        let jj = a2[b];
        let t = q[jj];
        assert(record_of(e2[jj]) == record_of(e1[t]));
        assert(a1.contains(t));
        let a = choose|a: int| 0 <= a < a1.len() && a1[a] == t;
        assert(s1[a] == e1[t]);
        assert(s1[a].key() == s2[b].key());
    }
}

/// Opening a finalized file reads back what the writer put in its header:
/// the index position (just past the payloads), the entry count, and the
/// metadata, provided the metadata is well-formed JSON.
#[verifier::rlimit(40)]
pub proof fn lemma_finalized_header(
    meta: Seq<u8>,
    payload: Seq<u8>,
    entries: Seq<IndexEntry>,
    file: Seq<u8>,
)
    requires
        is_finalized(meta, payload, entries, file),
        json_valid(meta),
        meta.len() <= u32::MAX,
        entries.len() <= u32::MAX,
        29 + meta.len() + payload.len() + 24 * entries.len() <= u64::MAX,
    ensures
        parse_header(file) == Ok::<(u64, u32, Seq<u8>), ErrorKind>(
            ((29 + meta.len() + payload.len()) as u64, entries.len() as u32, meta),
        ),
{
    let sorted = choose|sorted: Seq<IndexEntry>|
        is_permutation(entries, sorted) && sorted_keys(sorted) && file == file_bytes(meta, payload, sorted);
    let p = choose|p: Seq<int>| is_permutation_by(entries, sorted, p);
    assert(sorted.len() == entries.len());
    let ip = (29 + meta.len() + payload.len()) as u64;
    let n = sorted.len() as u32;
    assert(file.subrange(0, 11) =~= magic_seq());
    assert(file.subrange(11, 13) =~= le16(3));
    lemma_le16_round_trip(3, file, 11);
    assert(file.subrange(13, 21) =~= le64(ip));
    lemma_le64_round_trip(ip, file, 13);
    assert(file.subrange(21, 25) =~= le32(n));
    lemma_le32_round_trip(n, file, 21);
    assert(file.subrange(25, 29) =~= le32(meta.len() as u32));
    lemma_le32_round_trip(meta.len() as u32, file, 25);
    assert(file.subrange(29, 29 + meta.len() as int) =~= meta);
}

} // verus!
