//! Chunk sources: chunk numbers from `<x>/<y>.png` paths, the byte ranges of
//! chunk PNGs inside a tar archive, and directory listings.
use vstd::prelude::*;

use crate::chunk_spec::{parse_number, parse_u16, TilesRange};
use crate::diff_file::{chunk_key, key_of};
use crate::order::{
    find_key, is_permutation, is_permutation_by, is_stable_permutation_by, sort_by_first, sorted_by_first,
};
use vstd::string::StringSliceAdditionalSpecFns;

use crate::ChunkNumber;

verus! {

/// The last index below `end` where byte `b` occurs, or -1.
pub open spec fn rfind_byte(s: Seq<u8>, b: u8, end: int) -> int
    decreases end,
{
    if end <= 0 || end > s.len() {
        -1
    } else if s[end - 1] == b {
        end - 1
    } else {
        rfind_byte(s, b, end - 1)
    }
}

proof fn lemma_rfind_bounds(s: Seq<u8>, b: u8, end: int)
    requires
        0 <= end <= s.len(),
    ensures
        -1 <= rfind_byte(s, b, end) < end,
    decreases end,
{
    if end > 0 && s[end - 1] != b {
        lemma_rfind_bounds(s, b, end - 1);
    }
}

fn rfind(s: &[u8], b: u8, end: usize) -> (r: Option<usize>)
    requires
        end <= s@.len(),
    ensures
        match r {
            Some(i) => i as int == rfind_byte(s@, b, end as int),
            None => rfind_byte(s@, b, end as int) == -1,
        },
{
    let mut e = end;
    while e > 0
        invariant
            e <= end <= s@.len(),
            rfind_byte(s@, b, end as int) == rfind_byte(s@, b, e as int),
        decreases e,
    {
        if s[e - 1] == b {
            return Some(e - 1);
        }
        e -= 1;
    }
    None
}

/// The bytes `.png`.
pub open spec fn png_suffix() -> Seq<u8> {
    seq![0x2eu8, 0x70u8, 0x6eu8, 0x67u8]
}

/// The chunk number of a path whose last two components are `<x>/<y>.png`
/// with `x` and `y` decimal numbers.
pub open spec fn chunk_of_path(p: Seq<u8>) -> Option<ChunkNumber> {
    let n = p.len() as int;
    if n < 4 || p.subrange(n - 4, n) != png_suffix() {
        None
    } else {
        let s1 = rfind_byte(p, 0x2f, n - 4);
        if s1 < 0 {
            None
        } else {
            let s0 = rfind_byte(p, 0x2f, s1);
            match (parse_number(p.subrange(s0 + 1, s1)), parse_number(p.subrange(s1 + 1, n - 4))) {
                (Some(x), Some(y)) => Some((x, y)),
                _ => None,
            }
        }
    }
}

/// Reads the chunk number from a path ending in `<x>/<y>.png`.
pub fn chunk_number_of_path(p: &[u8]) -> (r: Option<ChunkNumber>)
    ensures
        r == chunk_of_path(p@),
{
    let n = p.len();
    if n < 4 {
        return None;
    }
    if !(p[n - 4] == 0x2e && p[n - 3] == 0x70 && p[n - 2] == 0x6e && p[n - 1] == 0x67) {
        assert(p@.subrange(n - 4, n as int)[0] == p[n - 4]);
        assert(p@.subrange(n - 4, n as int)[1] == p[n - 3]);
        assert(p@.subrange(n - 4, n as int)[2] == p[n - 2]);
        assert(p@.subrange(n - 4, n as int)[3] == p[n - 1]);
        return None;
    }
    assert(p@.subrange(n - 4, n as int) =~= png_suffix());
    proof {
        lemma_rfind_bounds(p@, 0x2f, n - 4);
    }
    let s1 = match rfind(p, 0x2f, n - 4) {
        Some(i) => i,
        None => return None,
    };
    proof {
        lemma_rfind_bounds(p@, 0x2f, s1 as int);
    }
    let x_start = match rfind(p, 0x2f, s1) {
        Some(i) => i + 1,
        None => 0,
    };
    match (parse_u16(p, x_start, s1), parse_u16(p, s1 + 1, n - 4)) {
        (Some(x), Some(y)) => Some((x, y)),
        _ => None,
    }
}

/// The chunk number of a path relative to a snapshot root that is exactly
/// `<x>/<y>.png`, with `x` and `y` decimal numbers.
pub open spec fn chunk_of_rel_path(p: Seq<u8>) -> Option<ChunkNumber> {
    let n = p.len() as int;
    if n < 4 || p.subrange(n - 4, n) != png_suffix() {
        None
    } else {
        let s1 = rfind_byte(p, 0x2f, n - 4);
        if s1 < 0 || rfind_byte(p, 0x2f, s1) != -1 {
            None
        } else {
            match (parse_number(p.subrange(0, s1)), parse_number(p.subrange(s1 + 1, n - 4))) {
                (Some(x), Some(y)) => Some((x, y)),
                _ => None,
            }
        }
    }
}

/// Reads the chunk number from a relative path `<x>/<y>.png`.
pub fn chunk_number_of_rel_path(p: &[u8]) -> (r: Option<ChunkNumber>)
    ensures
        r == chunk_of_rel_path(p@),
{
    let n = p.len();
    if n < 4 {
        return None;
    }
    if !(p[n - 4] == 0x2e && p[n - 3] == 0x70 && p[n - 2] == 0x6e && p[n - 1] == 0x67) {
        assert(p@.subrange(n - 4, n as int)[0] == p[n - 4]);
        assert(p@.subrange(n - 4, n as int)[1] == p[n - 3]);
        assert(p@.subrange(n - 4, n as int)[2] == p[n - 2]);
        assert(p@.subrange(n - 4, n as int)[3] == p[n - 1]);
        return None;
    }
    assert(p@.subrange(n - 4, n as int) =~= png_suffix());
    proof {
        lemma_rfind_bounds(p@, 0x2f, n - 4);
    }
    let s1 = match rfind(p, 0x2f, n - 4) {
        Some(i) => i,
        None => return None,
    };
    if rfind(p, 0x2f, s1).is_some() {
        return None;
    }
    match (parse_u16(p, 0, s1), parse_u16(p, s1 + 1, n - 4)) {
        (Some(x), Some(y)) => Some((x, y)),
        _ => None,
    }
}

/// A byte range of an archive file.
#[derive(PartialEq, Eq, Structural, Clone, Copy, Debug)]
pub struct Range {
    pub start: u64,
    pub size: u64,
}

/// The chunk PNGs among an archive's members `(path, start, size)`, keyed
/// by chunk order, in member order.
pub open spec fn tar_chunks(members: Seq<(Seq<u8>, u64, u64)>) -> Seq<(u32, Range)>
    decreases members.len(),
{
    if members.len() == 0 {
        Seq::empty()
    } else {
        let m = members.last();
        match chunk_of_path(m.0) {
            Some(n) => tar_chunks(members.drop_last()).push(
                (key_of(n) as u32, Range { start: m.1, size: m.2 }),
            ),
            None => tar_chunks(members.drop_last()),
        }
    }
}

/// The first components ascend strictly.
pub open spec fn strictly_by_first<T>(s: Seq<(u32, T)>) -> bool {
    forall|a: int, b: int| 0 <= a < b < s.len() ==> (#[trigger] s[a]).0 < (#[trigger] s[b]).0
}

/// Some item has first component `k`.
pub open spec fn has_first<T>(s: Seq<(u32, T)>, k: u32) -> bool {
    exists|a: int| 0 <= a < s.len() && (#[trigger] s[a]).0 == k
}

/// Item `j` is the last of its run of equal first components.
pub open spec fn last_of_run<T>(s: Seq<(u32, T)>, j: int) -> bool {
    j + 1 == s.len() || s[j + 1].0 != s[j].0
}

/// `e` occurs in `s` and no later item has its first component.
pub open spec fn is_last_with_key<T>(s: Seq<(u32, T)>, e: (u32, T)) -> bool {
    exists|i: int|
        0 <= i < s.len() && #[trigger] s[i] == e && forall|m: int| i < m < s.len() ==> (#[trigger] s[m]).0 != e.0
}

proof fn lemma_run_end(s: Seq<(u32, Range)>, j0: int) -> (j: int)
    requires
        0 <= j0 < s.len(),
    ensures
        j0 <= j < s.len(),
        last_of_run(s, j),
        s[j].0 == s[j0].0,
    decreases s.len() - j0,
{
    if !last_of_run(s, j0) {
        lemma_run_end(s, j0 + 1)
    } else {
        j0
    }
}

proof fn lemma_dedup_keys(
    l: Seq<(u32, Range)>,
    sorted: Seq<(u32, Range)>,
    p: Seq<int>,
    out: Seq<(u32, Range)>,
)
    requires
        is_permutation_by(l, sorted, p),
        run_ends_of(sorted, out, sorted.len() as int),
    ensures
        forall|kk: u32| has_first(out, kk) <==> has_first(l, kk),
{
    assert forall|kk: u32| has_first(out, kk) implies has_first(l, kk) by {
        let a = choose|a: int| 0 <= a < out.len() && (#[trigger] out[a]).0 == kk;
        let j = choose|j: int| 0 <= j < sorted.len() && #[trigger] out[a] == sorted[j] && last_of_run(sorted, j);
        assert(sorted[j] == l[p[j]]);
        assert(l[p[j]].0 == kk);
    }
    assert forall|kk: u32| has_first(l, kk) implies has_first(out, kk) by {
        let i = choose|i: int| 0 <= i < l.len() && (#[trigger] l[i]).0 == kk;
        assert(p.contains(i));
        let j0 = choose|j: int| 0 <= j < p.len() && p[j] == i;
        assert(sorted[j0] == l[i]);
        let j = lemma_run_end(sorted, j0);
        assert(has_first(out, sorted[j].0));
    }
}

proof fn lemma_dedup_last(
    l: Seq<(u32, Range)>,
    sorted: Seq<(u32, Range)>,
    p: Seq<int>,
    out: Seq<(u32, Range)>,
)
    requires
        is_stable_permutation_by(l, sorted, p),
        sorted_by_first(sorted),
        run_ends_of(sorted, out, sorted.len() as int),
    ensures
        forall|a: int| 0 <= a < out.len() ==> is_last_with_key(l, #[trigger] out[a]),
{
    assert forall|a: int| 0 <= a < out.len() implies is_last_with_key(l, #[trigger] out[a]) by {
        let j = choose|j: int| 0 <= j < sorted.len() && #[trigger] out[a] == sorted[j] && last_of_run(sorted, j);
        lemma_last_member(l, sorted, p, j);
    }
}

proof fn lemma_last_member(l: Seq<(u32, Range)>, sorted: Seq<(u32, Range)>, p: Seq<int>, j: int)
    requires
        is_stable_permutation_by(l, sorted, p),
        sorted_by_first(sorted),
        0 <= j < sorted.len(),
        last_of_run(sorted, j),
    ensures
        is_last_with_key(l, sorted[j]),
{
    let i = p[j];
    assert(l[i] == sorted[j]);
    assert forall|m: int| i < m < l.len() implies (#[trigger] l[m]).0 != sorted[j].0 by {
        if l[m].0 == sorted[j].0 {
            assert(p.contains(m));
            let jm = choose|jm: int| 0 <= jm < p.len() && p[jm] == m;
            assert(sorted[jm] == l[m]);
            if jm > j {
                assert(sorted[j + 1].0 <= sorted[jm].0);
            } else if jm < j {
                assert(p[jm] < p[j]);
            }
        }
    }
}

/// Each item lies in `sorted` at the end of its run, and every run end of
/// `sorted` has its key in the result.
pub open spec fn run_ends_of(sorted: Seq<(u32, Range)>, out: Seq<(u32, Range)>, k: int) -> bool {
    &&& forall|a: int| 0 <= a < out.len() ==> exists|j: int| 0 <= j < k && #[trigger] out[a] == sorted[j] && last_of_run(sorted, j)
    &&& forall|j: int| 0 <= j < k && last_of_run(sorted, j) ==> has_first(out, (#[trigger] sorted[j]).0)
}

proof fn lemma_push_run_end(sorted: Seq<(u32, Range)>, before: Seq<(u32, Range)>, k: int)
    requires
        sorted_by_first(sorted),
        0 <= k < sorted.len(),
        last_of_run(sorted, k),
        strictly_by_first(before),
        run_ends_of(sorted, before, k),
        before.len() > 0 ==> exists|j: int| 0 <= j < k && before.last() == sorted[j] && last_of_run(sorted, j),
    ensures
        strictly_by_first(before.push(sorted[k])),
        run_ends_of(sorted, before.push(sorted[k]), k + 1),
{
    let out = before.push(sorted[k]);
    if before.len() > 0 {
        let j = choose|j: int| 0 <= j < k && before.last() == sorted[j] && last_of_run(sorted, j);
        assert(sorted[j + 1].0 <= sorted[k].0);
        assert forall|a: int, b: int| 0 <= a < b < out.len() implies (#[trigger] out[a]).0 < (#[trigger] out[b]).0 by {
            if b == out.len() - 1 && a < before.len() - 1 {
                assert(before[a].0 < before.last().0);
            }
        }
    }
    assert forall|a: int| 0 <= a < out.len() implies exists|j: int| 0 <= j < k + 1 && #[trigger] out[a] == sorted[j] && last_of_run(sorted, j) by {
        if a < before.len() {
            assert(out[a] == before[a]);
        } else {
            assert(out[a] == sorted[k]);
        }
    }
    assert forall|j: int| 0 <= j < k + 1 && last_of_run(sorted, j) implies has_first(out, (#[trigger] sorted[j]).0) by {
        if j < k {
            let a = choose|a: int| 0 <= a < before.len() && (#[trigger] before[a]).0 == sorted[j].0;
            assert(out[a] == before[a]);
        } else {
            assert(out[out.len() - 1] == sorted[j]);
        }
    }
}

/// Keeps the last item of each run of equal keys of a sorted sequence.
fn keep_last_of_runs(map: &Vec<(u32, Range)>) -> (out: Vec<(u32, Range)>)
    requires
        sorted_by_first(map@),
    ensures
        strictly_by_first(out@),
        run_ends_of(map@, out@, map@.len() as int),
{
    let ghost sorted = map@;
    let mut out: Vec<(u32, Range)> = Vec::new();
    let mut k: usize = 0;
    while k < map.len()
        invariant
            map@ == sorted,
            sorted_by_first(sorted),
            k <= sorted.len(),
            strictly_by_first(out@),
            run_ends_of(sorted, out@, k as int),
            out@.len() > 0 ==> exists|j: int| 0 <= j < k && out@.last() == sorted[j] && last_of_run(sorted, j),
        decreases sorted.len() - k,
    {
        let e = map[k];
        if k + 1 == map.len() || map[k + 1].0 != e.0 {
            proof {
                lemma_push_run_end(sorted, out@, k as int);
            }
            out.push(e);
            assert(out@.last() == sorted[k as int]);
        }
        k += 1;
    }
    out
}

/// The chunk members of a tar archive, one per chunk number (the last
/// member wins), sorted for lookup by chunk number.
pub struct ChunksTarReader {
    pub map: Vec<(u32, Range)>,
    pub root_name: String,
}

/// The members of an archive as plain values.
pub open spec fn members_view(members: Seq<(String, u64, u64)>) -> Seq<(Seq<u8>, u64, u64)> {
    members.map_values(|m: (String, u64, u64)| (vstd::utf8::encode_utf8(m.0@), m.1, m.2))
}

impl ChunksTarReader {
    /// The indexed chunks: key and byte range, ascending by key.
    pub open spec fn entries(&self) -> Seq<(u32, Range)> {
        self.map@
    }

    /// Indexes an archive from its regular-file members, each given as path,
    /// offset of its data and size; members whose path does not end in
    /// `<x>/<y>.png` are ignored.
    #[verifier::rlimit(60)]
    pub fn open_with_index(root_name: String, members: &[(String, u64, u64)]) -> (r: Self)
        ensures
            strictly_by_first(r.entries()),
            forall|k: u32| has_first(r.entries(), k) <==> has_first(tar_chunks(members_view(members@)), k),
            forall|a: int|
                0 <= a < r.entries().len() ==> is_last_with_key(
                    tar_chunks(members_view(members@)),
                    #[trigger] r.entries()[a],
                ),
            r.root_name == root_name,
    {
        let mut map: Vec<(u32, Range)> = Vec::new();
        let mut i: usize = 0;
        while i < members.len()
            invariant
                i <= members@.len(),
                map@ == tar_chunks(members_view(members@).take(i as int)),
            decreases members@.len() - i,
        {
            let m = &members[i];
            let path = m.0.as_str().as_bytes();
            assert(members_view(members@).take(i + 1).drop_last() =~= members_view(members@).take(i as int));
            match chunk_number_of_path(path) {
                Some(n) => {
                    map.push((chunk_key(n), Range { start: m.1, size: m.2 }));
                },
                None => {},
            }
            i += 1;
        }
        assert(members_view(members@).take(i as int) =~= members_view(members@));
        let ghost listed = map@;
        sort_by_first(&mut map);
        let ghost sorted = map@;
        let ghost p = choose|p: Seq<int>| is_stable_permutation_by(listed, sorted, p);
        let out = keep_last_of_runs(&map);
        proof {
            assert(listed == tar_chunks(members_view(members@)));
            lemma_dedup_keys(tar_chunks(members_view(members@)), sorted, p, out@);
            lemma_dedup_last(tar_chunks(members_view(members@)), sorted, p, out@);
        }
        ChunksTarReader { map: out, root_name }
    }

    /// The byte range of chunk `n`, if the archive holds it.
    pub fn open_chunk(&self, n: ChunkNumber) -> (r: Option<Range>)
        requires
            sorted_by_first(self.entries()),
        ensures
            match r {
                Some(rg) => self.entries().contains((key_of(n) as u32, rg)),
                None => forall|i: int| 0 <= i < self.entries().len() ==> (#[trigger] self.entries()[i]).0 != key_of(n),
            },
    {
        match find_key(&self.map, chunk_key(n)) {
            Some(i) => {
                assert(self.entries()[i as int] == (key_of(n) as u32, self.map@[i as int].1));
                Some(self.map[i].1)
            },
            None => None,
        }
    }

    /// Number of indexed chunks.
    pub fn chunks_len(&self) -> (r: usize)
        ensures
            r == self.entries().len(),
    {
        self.map.len()
    }

    /// The indexed chunk numbers, ascending.
    pub fn chunks(&self) -> (r: Vec<ChunkNumber>)
        ensures
            r@.len() == self.entries().len(),
            forall|i: int| 0 <= i < r@.len() ==> key_of(#[trigger] r@[i]) == self.entries()[i].0,
    {
        let mut r: Vec<ChunkNumber> = Vec::new();
        let mut i: usize = 0;
        while i < self.map.len()
            invariant
                i <= self.map@.len(),
                r@.len() == i,
                forall|j: int| 0 <= j < i ==> key_of(#[trigger] r@[j]) == self.map@[j].0,
            decreases self.map@.len() - i,
        {
            let k = self.map[i].0;
            r.push(((k / 65536) as u16, (k % 65536) as u16));
            i += 1;
        }
        r
    }
}

/// Reads chunks from a tar archive.
pub struct TarChunkFetcher {
    pub reader: ChunksTarReader,
}

impl TarChunkFetcher {
    pub fn new(reader: ChunksTarReader) -> (r: Self)
        ensures
            r.reader == reader,
    {
        TarChunkFetcher { reader }
    }
}

/// The chunk numbers of listed paths that lie in `range` (all of them when
/// it is `None`), in listing order.
pub open spec fn listed_chunks(paths: Seq<Seq<u8>>, range: Option<TilesRange>) -> Seq<(u32, ChunkNumber)>
    decreases paths.len(),
{
    if paths.len() == 0 {
        Seq::empty()
    } else {
        let rest = listed_chunks(paths.drop_last(), range);
        match chunk_of_rel_path(paths.last()) {
            Some(n) => if match range {
                Some(t) => t.x_min <= n.0 <= t.x_max && t.y_min <= n.1 <= t.y_max,
                None => true,
            } {
                rest.push((key_of(n) as u32, n))
            } else {
                rest
            },
            None => rest,
        }
    }
}

/// The file paths of a listing as plain values.
pub open spec fn paths_view(paths: Seq<String>) -> Seq<Seq<u8>> {
    paths.map_values(|p: String| vstd::utf8::encode_utf8(p@))
}

proof fn lemma_listed_keys(paths: Seq<Seq<u8>>, range: Option<TilesRange>)
    ensures
        forall|i: int|
            0 <= i < listed_chunks(paths, range).len() ==> (#[trigger] listed_chunks(paths, range)[i]).0 as int
                == key_of(listed_chunks(paths, range)[i].1),
    decreases paths.len(),
{
    if paths.len() > 0 {
        lemma_listed_keys(paths.drop_last(), range);
        let rest = listed_chunks(paths.drop_last(), range);
        let l = listed_chunks(paths, range);
        assert forall|i: int| 0 <= i < l.len() implies (#[trigger] l[i]).0 as int == key_of(l[i].1) by {
            if i < rest.len() {
                assert(l[i] == rest[i]);
            } else {
                let n = l[i].1;
                assert(0 <= key_of(n) < 0x1_0000_0000);
            }
        }
    }
}

proof fn lemma_key_injective(a: ChunkNumber, b: ChunkNumber)
    requires
        key_of(a) == key_of(b),
    ensures
        a == b,
{
    if a.0 < b.0 {
        assert(a.0 as int * 65536 + 65536 <= b.0 as int * 65536);
    } else if a.0 > b.0 {
        assert(b.0 as int * 65536 + 65536 <= a.0 as int * 65536);
    }
}

/// Chunk `n` is listed: some path names it and it lies in `range`.
pub open spec fn is_listed(paths: Seq<Seq<u8>>, range: Option<TilesRange>, n: ChunkNumber) -> bool {
    exists|i: int| 0 <= i < listed_chunks(paths, range).len() && (#[trigger] listed_chunks(paths, range)[i]).1 == n
}

/// Collects the chunk numbers of a snapshot directory from the paths of its
/// files relative to the root, each exactly `<x>/<y>.png`, keeping those in
/// `tiles_range`: every listed chunk once, ascending.
pub fn collect_chunks(paths: &[String], tiles_range: Option<TilesRange>) -> (r: Vec<ChunkNumber>)
    ensures
        forall|a: int, b: int| 0 <= a < b < r@.len() ==> key_of(#[trigger] r@[a]) < key_of(#[trigger] r@[b]),
        forall|n: ChunkNumber| r@.contains(n) <==> is_listed(paths_view(paths@), tiles_range, n),
{
    let mut keyed: Vec<(u32, ChunkNumber)> = Vec::new();
    let mut i: usize = 0;
    while i < paths.len()
        invariant
            i <= paths@.len(),
            keyed@ == listed_chunks(paths_view(paths@).take(i as int), tiles_range),
        decreases paths@.len() - i,
    {
        assert(paths_view(paths@).take(i + 1).drop_last() =~= paths_view(paths@).take(i as int));
        match chunk_number_of_rel_path(paths[i].as_str().as_bytes()) {
            Some(n) => {
                let keep = match tiles_range {
                    Some(t) => t.contains(n),
                    None => true,
                };
                if keep {
                    keyed.push((chunk_key(n), n));
                }
            },
            None => {},
        }
        i += 1;
    }
    assert(paths_view(paths@).take(i as int) =~= paths_view(paths@));
    let ghost listed = keyed@;
    proof {
        lemma_listed_keys(paths_view(paths@), tiles_range);
    }
    sort_by_first(&mut keyed);
    let ghost sorted = keyed@;
    let ghost p = choose|p: Seq<int>| is_permutation_by(listed, sorted, p);
    assert forall|j: int| 0 <= j < sorted.len() implies (#[trigger] sorted[j]).0 as int == key_of(sorted[j].1) by {
        assert(sorted[j] == listed[p[j]]);
    }
    let mut r: Vec<ChunkNumber> = Vec::new();
    let mut k: usize = 0;
    while k < keyed.len()
        invariant
            keyed@ == sorted,
            sorted_by_first(sorted),
            k <= sorted.len(),
            forall|j: int| 0 <= j < sorted.len() ==> (#[trigger] sorted[j]).0 as int == key_of(sorted[j].1),
            forall|a: int, b: int| 0 <= a < b < r@.len() ==> key_of(#[trigger] r@[a]) < key_of(#[trigger] r@[b]),
            k > 0 ==> r@.len() > 0 && key_of(r@.last()) == sorted[k - 1].0,
            k == 0 ==> r@.len() == 0,
            forall|a: int| 0 <= a < r@.len() ==> key_of(#[trigger] r@[a]) <= key_of(r@.last()),
            forall|n: ChunkNumber| r@.contains(n) <==> exists|j: int| 0 <= j < k && (#[trigger] sorted[j]).1 == n,
        decreases sorted.len() - k,
    {
        let e = keyed[k];
        let ghost before = r@;
        if r.len() == 0 || chunk_key(r[r.len() - 1]) < e.0 {
            r.push(e.1);
            proof {
                assert forall|n: ChunkNumber| r@.contains(n) <==> exists|j: int| 0 <= j < k + 1 && (#[trigger] sorted[j]).1 == n by {
                    if r@.contains(n) {
                        let a = choose|a: int| 0 <= a < r@.len() && r@[a] == n;
                        if a < before.len() {
                            assert(before.contains(n));
                        } else {
                            assert(sorted[k as int].1 == n);
                        }
                    }
                    if exists|j: int| 0 <= j < k + 1 && (#[trigger] sorted[j]).1 == n {
                        let j = choose|j: int| 0 <= j < k + 1 && (#[trigger] sorted[j]).1 == n;
                        if j < k {
                            assert(before.contains(n));
                            let a = choose|a: int| 0 <= a < before.len() && before[a] == n;
                            assert(r@[a] == n);
                        } else {
                            assert(r@[r@.len() - 1] == n);
                        }
                    }
                }
            }
        } else {
            proof {
                assert(sorted[k - 1].0 <= sorted[k as int].0);
                lemma_key_injective(r@.last(), e.1);
                assert forall|n: ChunkNumber| r@.contains(n) <==> exists|j: int| 0 <= j < k + 1 && (#[trigger] sorted[j]).1 == n by {
                    if exists|j: int| 0 <= j < k + 1 && (#[trigger] sorted[j]).1 == n {
                        let j = choose|j: int| 0 <= j < k + 1 && (#[trigger] sorted[j]).1 == n;
                        if j == k {
                            assert(r@[r@.len() - 1] == n);
                        }
                    }
                }
            }
        }
        k += 1;
    }
    proof {
        assert forall|n: ChunkNumber| r@.contains(n) <==> is_listed(paths_view(paths@), tiles_range, n) by {
            if r@.contains(n) {
                let j = choose|j: int| 0 <= j < k && (#[trigger] sorted[j]).1 == n;
                assert(sorted[j] == listed[p[j]]);
            }
            if is_listed(paths_view(paths@), tiles_range, n) {
                let i = choose|i: int| 0 <= i < listed.len() && (#[trigger] listed[i]).1 == n;
                assert(p.contains(i));
                let j = choose|j: int| 0 <= j < p.len() && p[j] == i;
                assert(sorted[j].1 == n);
            }
        }
    }
    r
}

/// Reads chunks from a snapshot directory `<root>/<x>/<y>.png`, optionally
/// with the list of its chunks.
pub struct DirChunkFetcher {
    pub root: String,
    pub chunks: Option<Vec<ChunkNumber>>,
}

impl DirChunkFetcher {
    pub fn new(root: String, chunks: Option<Vec<ChunkNumber>>) -> (r: Self)
        ensures
            r.root == root,
            r.chunks == chunks,
    {
        DirChunkFetcher { root, chunks }
    }

    /// Number of listed chunks; zero when the directory was not listed.
    pub fn chunks_len(&self) -> (r: usize)
        ensures
            r == match self.chunks {
                Some(c) => c@.len(),
                None => 0,
            },
    {
        match &self.chunks {
            Some(c) => c.len(),
            None => 0,
        }
    }
}

} // verus!
