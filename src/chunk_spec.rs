//! Parsing of chunk specifications (`X-Y` and `X1-Y1..X2-Y2`, separated by
//! commas), tile ranges (`x_min,x_max,y_min,y_max`), and snapshot names.
use vstd::prelude::*;

use vstd::string::StringSliceAdditionalSpecFns;

use crate::{ChunkNumber, ErrorKind};

verus! {

/// An ASCII decimal digit.
pub open spec fn is_digit(b: u8) -> bool {
    0x30 <= b <= 0x39
}

/// The value of a string of decimal digits.
pub open spec fn digits_value(t: Seq<u8>) -> int
    decreases t.len(),
{
    if t.len() == 0 {
        0
    } else {
        digits_value(t.drop_last()) * 10 + (t.last() - 0x30)
    }
}

/// The `u16` that a non-empty string of decimal digits denotes, if it fits.
pub open spec fn parse_number(t: Seq<u8>) -> Option<u16> {
    if t.len() > 0 && (forall|i: int| 0 <= i < t.len() ==> is_digit(#[trigger] t[i])) && digits_value(t)
        <= 65535 {
        Some(digits_value(t) as u16)
    } else {
        None
    }
}

proof fn lemma_digits_monotone(t: Seq<u8>, i: int)
    requires
        0 <= i <= t.len(),
        forall|k: int| 0 <= k < t.len() ==> is_digit(#[trigger] t[k]),
    ensures
        digits_value(t.take(i)) <= digits_value(t),
        digits_value(t) >= 0,
    decreases t.len(),
{
    if t.len() > 0 {
        if i == t.len() {
            assert(t.take(i) =~= t);
            lemma_digits_monotone(t.drop_last(), i - 1);
        } else {
            lemma_digits_monotone(t.drop_last(), i);
            assert(t.drop_last().take(i) =~= t.take(i));
        }
    }
}

/// Parses `s[lo..hi]` as a `u16` of decimal digits.
pub fn parse_u16(s: &[u8], lo: usize, hi: usize) -> (r: Option<u16>)
    requires
        lo <= hi <= s@.len(),
    ensures
        r == parse_number(s@.subrange(lo as int, hi as int)),
{
    let ghost t = s@.subrange(lo as int, hi as int);
    if lo == hi {
        return None;
    }
    let mut acc: u32 = 0;
    let mut i: usize = lo;
    while i < hi
        invariant
            lo <= i <= hi <= s@.len(),
            t == s@.subrange(lo as int, hi as int),
            forall|k: int| 0 <= k < i - lo ==> is_digit(#[trigger] t[k]),
            acc as int == digits_value(t.take(i - lo)),
            acc <= 65535,
        decreases hi - i,
    {
        let b = s[i];
        if b < 0x30 || b > 0x39 {
            assert(!is_digit(t[i - lo]));
            return None;
        }
        assert(t.take(i - lo + 1).drop_last() =~= t.take(i - lo));
        acc = acc * 10 + (b - 0x30) as u32;
        if acc > 65535 {
            proof {
                if forall|k: int| 0 <= k < t.len() ==> is_digit(#[trigger] t[k]) {
                    lemma_digits_monotone(t, i - lo + 1);
                }
            }
            return None;
        }
        i += 1;
    }
    assert(t.take(hi - lo) =~= t);
    Some(acc as u16)
}

/// The first index at or after `from` where byte `b` occurs, or `s.len()`.
pub open spec fn find_byte(s: Seq<u8>, b: u8, from: int) -> int
    decreases s.len() - from,
{
    if from < 0 || from >= s.len() {
        s.len() as int
    } else if s[from] == b {
        from
    } else {
        find_byte(s, b, from + 1)
    }
}

proof fn lemma_find_byte_bounds(s: Seq<u8>, b: u8, from: int)
    requires
        0 <= from <= s.len(),
    ensures
        from <= find_byte(s, b, from) <= s.len(),
        find_byte(s, b, from) < s.len() ==> s[find_byte(s, b, from)] == b,
    decreases s.len() - from,
{
    if from < s.len() && s[from] != b {
        lemma_find_byte_bounds(s, b, from + 1);
    }
}

/// Finds byte `b` in `s` at or after `from`; `s.len()` when absent.
fn find_from(s: &[u8], b: u8, from: usize) -> (r: usize)
    requires
        from <= s@.len(),
    ensures
        r as int == find_byte(s@, b, from as int),
{
    let mut i = from;
    while i < s.len()
        invariant
            from <= i <= s@.len(),
            find_byte(s@, b, from as int) == find_byte(s@, b, i as int),
        decreases s@.len() - i,
    {
        if s[i] == b {
            return i;
        }
        i += 1;
    }
    i
}

/// The first index at or after `from` that starts `..`, or `s.len()`.
pub open spec fn find_dots(s: Seq<u8>, from: int) -> int
    decreases s.len() - from,
{
    if from < 0 || from + 1 >= s.len() {
        s.len() as int
    } else if s[from] == 0x2e && s[from + 1] == 0x2e {
        from
    } else {
        find_dots(s, from + 1)
    }
}

/// A chunk number written `X-Y`.
pub open spec fn parse_pair(t: Seq<u8>) -> Option<ChunkNumber> {
    let k = find_byte(t, 0x2d, 0);
    if k >= t.len() {
        None
    } else {
        match (parse_number(t.subrange(0, k)), parse_number(t.subrange(k + 1, t.len() as int))) {
            (Some(x), Some(y)) => Some((x, y)),
            _ => None,
        }
    }
}

/// The row of chunks `(x, lo) .. (x, hi)`.
pub open spec fn chunk_row(x: u16, lo: u16, hi: u16) -> Seq<ChunkNumber> {
    Seq::new((hi - lo + 1) as nat, |j: int| (x, (lo + j) as u16))
}

/// Rows `x0 .. x` (exclusive) of the rectangle with columns `y0 ..= y1`.
pub open spec fn chunk_rows(x0: int, x: int, y0: u16, y1: u16) -> Seq<ChunkNumber>
    decreases x - x0,
{
    if x <= x0 {
        Seq::empty()
    } else {
        chunk_rows(x0, x - 1, y0, y1) + chunk_row((x - 1) as u16, y0, y1)
    }
}

/// Every chunk of the rectangle with diagonal corners `a` and `b`, ordered
/// by `x`, then by `y`.
pub open spec fn rectangle(a: ChunkNumber, b: ChunkNumber) -> Seq<ChunkNumber> {
    let (x0, x1) = if a.0 < b.0 { (a.0, b.0) } else { (b.0, a.0) };
    let (y0, y1) = if a.1 < b.1 { (a.1, b.1) } else { (b.1, a.1) };
    chunk_rows(x0 as int, x1 as int + 1, y0, y1)
}

/// Lists every chunk of the rectangle whose diagonal corners are `start` and
/// `end`, ordered by `x`, then by `y`.
pub fn expand_chunks_range(start: ChunkNumber, end: ChunkNumber) -> (r: Vec<ChunkNumber>)
    ensures
        r@ == rectangle(start, end),
{
    let (x0, x1) = if start.0 < end.0 { (start.0, end.0) } else { (end.0, start.0) };
    let (y0, y1) = if start.1 < end.1 { (start.1, end.1) } else { (end.1, start.1) };
    let mut out: Vec<ChunkNumber> = Vec::new();
    let mut x: u32 = x0 as u32;
    while x <= x1 as u32
        invariant
            x0 <= x <= x1 as u32 + 1,
            y0 <= y1,
            out@ == chunk_rows(x0 as int, x as int, y0, y1),
        decreases x1 as u32 + 1 - x,
    {
        let ghost before = out@;
        let mut y: u32 = y0 as u32;
        while y <= y1 as u32
            invariant
                x <= x1 as u32,
                y0 <= y <= y1 as u32 + 1,
                out@ == before + chunk_row(x as u16, y0, y1).take(y - y0),
            decreases y1 as u32 + 1 - y,
        {
            out.push((x as u16, y as u16));
            assert(chunk_row(x as u16, y0, y1).take(y - y0 + 1) =~= chunk_row(x as u16, y0, y1).take(y - y0).push(
                (x as u16, y as u16),
            ));
            y += 1;
        }
        assert(chunk_row(x as u16, y0, y1).take(y1 - y0 + 1) =~= chunk_row(x as u16, y0, y1));
        x += 1;
    }
    out
}

/// The chunks one item of a chunk specification names.
pub open spec fn parse_item(t: Seq<u8>) -> Option<Seq<ChunkNumber>> {
    let k = find_dots(t, 0);
    if k >= t.len() {
        match parse_pair(t) {
            Some(n) => Some(seq![n]),
            None => None,
        }
    } else {
        match (parse_pair(t.subrange(0, k)), parse_pair(t.subrange(k + 2, t.len() as int))) {
            (Some(a), Some(b)) => Some(rectangle(a, b)),
            _ => None,
        }
    }
}

/// The items of `s` from offset `from` on, separated by commas.
pub open spec fn split_commas(s: Seq<u8>, from: int) -> Seq<Seq<u8>>
    decreases s.len() - from,
{
    let k = find_byte(s, 0x2c, from);
    if from < 0 || from > s.len() || k >= s.len() || k < from {
        seq![s.subrange(from, s.len() as int)]
    } else {
        seq![s.subrange(from, k)] + split_commas(s, k + 1)
    }
}

/// The chunks all items name, in order, or `None` if one is malformed.
pub open spec fn parse_items(items: Seq<Seq<u8>>) -> Option<Seq<ChunkNumber>>
    decreases items.len(),
{
    if items.len() == 0 {
        Some(Seq::empty())
    } else {
        match (parse_items(items.drop_last()), parse_item(items.last())) {
            (Some(a), Some(b)) => Some(a + b),
            _ => None,
        }
    }
}

/// ASCII whitespace.
pub open spec fn is_space(b: u8) -> bool {
    b == 0x20 || b == 0x09 || b == 0x0a || b == 0x0b || b == 0x0c || b == 0x0d
}

/// The length of the UTF-8 encoded whitespace character (in Unicode's
/// White_Space set) that starts at offset `i`, or 0 when none does.
pub open spec fn space_len(s: Seq<u8>, i: int) -> int {
    if 0 <= i < s.len() && is_space(s[i]) {
        1
    } else if 0 <= i && i + 1 < s.len() && s[i] == 0xc2 && (s[i + 1] == 0x85 || s[i + 1] == 0xa0) {
        2
    } else if 0 <= i && i + 2 < s.len() && ((s[i] == 0xe1 && s[i + 1] == 0x9a && s[i + 2] == 0x80) || (
    s[i] == 0xe2 && s[i + 1] == 0x80 && ((0x80 <= s[i + 2] <= 0x8a) || s[i + 2] == 0xa8 || s[i + 2]
        == 0xa9 || s[i + 2] == 0xaf)) || (s[i] == 0xe2 && s[i + 1] == 0x81 && s[i + 2] == 0x9f) || (s[i]
        == 0xe3 && s[i + 1] == 0x80 && s[i + 2] == 0x80)) {
        3
    } else {
        0
    }
}

/// `s` from offset `i` on, without its whitespace characters.
pub open spec fn strip_from(s: Seq<u8>, i: int) -> Seq<u8>
    decreases s.len() - i,
{
    if i < 0 || i >= s.len() {
        Seq::empty()
    } else if space_len(s, i) > 0 {
        strip_from(s, i + space_len(s, i))
    } else {
        seq![s[i]] + strip_from(s, i + 1)
    }
}

/// `s` without its whitespace characters.
pub open spec fn strip_spaces(s: Seq<u8>) -> Seq<u8> {
    strip_from(s, 0)
}

/// The chunks a chunk specification names, or `None` if it is malformed.
pub open spec fn parse_chunk_spec(s: Seq<u8>) -> Option<Seq<ChunkNumber>> {
    parse_items(split_commas(strip_spaces(s), 0))
}

proof fn lemma_find_dots_bounds(s: Seq<u8>, from: int)
    requires
        0 <= from <= s.len(),
    ensures
        from <= find_dots(s, from) <= s.len(),
        find_dots(s, from) < s.len() ==> find_dots(s, from) + 2 <= s.len(),
    decreases s.len() - from,
{
    if from + 1 < s.len() && !(s[from] == 0x2e && s[from + 1] == 0x2e) {
        lemma_find_dots_bounds(s, from + 1);
    }
}

/// Finds the first `..` in `s` at or after `from`; `s.len()` when absent.
fn find_dots_from(s: &[u8], from: usize) -> (r: usize)
    requires
        from <= s@.len(),
    ensures
        r as int == find_dots(s@, from as int),
{
    let mut i = from;
    while i < s.len() && i + 1 < s.len()
        invariant
            from <= i <= s@.len(),
            find_dots(s@, from as int) == find_dots(s@, i as int),
        decreases s@.len() - i,
    {
        if s[i] == 0x2e && s[i + 1] == 0x2e {
            return i;
        }
        i += 1;
    }
    s.len()
}

/// Copies `s[lo..hi]`.
fn copy_range(s: &[u8], lo: usize, hi: usize) -> (r: Vec<u8>)
    requires
        lo <= hi <= s@.len(),
    ensures
        r@ == s@.subrange(lo as int, hi as int),
{
    let mut r: Vec<u8> = Vec::with_capacity(hi - lo);
    let mut i = lo;
    while i < hi
        invariant
            lo <= i <= hi <= s@.len(),
            r@ =~= s@.subrange(lo as int, i as int),
        decreases hi - i,
    {
        r.push(s[i]);
        i += 1;
    }
    r
}

/// Parses a chunk number written `X-Y`.
pub fn parse_chunk_pair(t: &[u8]) -> (r: Option<ChunkNumber>)
    ensures
        r == parse_pair(t@),
{
    let k = find_from(t, 0x2d, 0);
    proof {
        lemma_find_byte_bounds(t@, 0x2d, 0);
    }
    if k >= t.len() {
        return None;
    }
    let x = parse_u16(t, 0, k);
    let y = parse_u16(t, k + 1, t.len());
    match (x, y) {
        (Some(x), Some(y)) => Some((x, y)),
        _ => None,
    }
}

/// Parses one item of a chunk specification: `X-Y` or `X1-Y1..X2-Y2`.
pub fn parse_chunk_item(t: &[u8]) -> (r: Option<Vec<ChunkNumber>>)
    ensures
        match parse_item(t@) {
            Some(v) => r matches Some(w) && w@ == v,
            None => r is None,
        },
{
    let k = find_dots_from(t, 0);
    proof {
        lemma_find_dots_bounds(t@, 0);
    }
    if k >= t.len() {
        return match parse_chunk_pair(t) {
            Some(n) => {
                let v = vec![n];
                assert(v@ =~= seq![n]);
                Some(v)
            },
            None => None,
        };
    }
    let left = copy_range(t, 0, k);
    let right = copy_range(t, k + 2, t.len());
    match (parse_chunk_pair(left.as_slice()), parse_chunk_pair(right.as_slice())) {
        (Some(a), Some(b)) => Some(expand_chunks_range(a, b)),
        _ => None,
    }
}

/// The length of the whitespace character at offset `i`, or 0.
fn space_len_at(s: &[u8], i: usize) -> (r: usize)
    requires
        i < s@.len(),
    ensures
        r as int == space_len(s@, i as int),
        i + r <= s@.len(),
{
    let n = s.len();
    let b = s[i];
    if b == 0x20 || b == 0x09 || b == 0x0a || b == 0x0b || b == 0x0c || b == 0x0d {
        1
    } else if n - i > 1 && b == 0xc2 && (s[i + 1] == 0x85 || s[i + 1] == 0xa0) {
        2
    } else if n - i > 2 && ((b == 0xe1 && s[i + 1] == 0x9a && s[i + 2] == 0x80) || (b == 0xe2 && s[i
        + 1] == 0x80 && ((0x80 <= s[i + 2] && s[i + 2] <= 0x8a) || s[i + 2] == 0xa8 || s[i + 2] == 0xa9
        || s[i + 2] == 0xaf)) || (b == 0xe2 && s[i + 1] == 0x81 && s[i + 2] == 0x9f) || (b == 0xe3 && s[i
        + 1] == 0x80 && s[i + 2] == 0x80)) {
        3
    } else {
        0
    }
}

/// Removes whitespace characters.
fn strip_whitespace(s: &[u8]) -> (r: Vec<u8>)
    ensures
        r@ == strip_spaces(s@),
{
    let _n = s.len();
    let mut r: Vec<u8> = Vec::new();
    let mut i: usize = 0;
    while i < s.len()
        invariant
            i <= s@.len(),
            s@.len() <= usize::MAX,
            strip_spaces(s@) == r@ + strip_from(s@, i as int),
        decreases s@.len() - i,
    {
        let l = space_len_at(s, i);
        if l > 0 {
            i += l;
        } else {
            assert(r@.push(s[i as int]) + strip_from(s@, i + 1) =~= r@ + strip_from(s@, i as int));
            r.push(s[i]);
            i += 1;
        }
    }
    assert(r@ + strip_from(s@, i as int) =~= r@);
    r
}

proof fn lemma_parse_items_none(a: Seq<Seq<u8>>, b: Seq<Seq<u8>>)
    requires
        parse_items(a) is None,
    ensures
        parse_items(a + b) is None,
    decreases b.len(),
{
    if b.len() == 0 {
        assert(a + b =~= a);
    } else {
        lemma_parse_items_none(a, b.drop_last());
        assert((a + b).drop_last() =~= a + b.drop_last());
    }
}

proof fn lemma_split_step(s: Seq<u8>, from: int)
    requires
        0 <= from <= s.len(),
    ensures
        find_byte(s, 0x2c, from) >= s.len() ==> split_commas(s, from) == seq![s.subrange(from, s.len() as int)],
        find_byte(s, 0x2c, from) < s.len() ==> split_commas(s, from) == seq![s.subrange(from, find_byte(s, 0x2c, from))]
            + split_commas(s, find_byte(s, 0x2c, from) + 1),
{
    lemma_find_byte_bounds(s, 0x2c, from);
}

/// Parses a chunk specification: comma-separated items `X-Y` or
/// `X1-Y1..X2-Y2` (every chunk of the rectangle with those diagonal
/// corners), with whitespace ignored.
pub fn parse_chunk_string(s: &str) -> (r: Result<Vec<ChunkNumber>, ErrorKind>)
    ensures
        match parse_chunk_spec(s.spec_bytes()) {
            Some(v) => r matches Ok(w) && w@ == v,
            None => r == Err::<Vec<ChunkNumber>, ErrorKind>(ErrorKind::Spec),
        },
{
    let t = strip_whitespace(s.as_bytes());
    let mut out: Vec<ChunkNumber> = Vec::new();
    let mut pos: usize = 0;
    let ghost mut done: Seq<Seq<u8>> = Seq::empty();
    loop
        invariant
            pos <= t@.len(),
            t@ == strip_spaces(s.spec_bytes()),
            split_commas(t@, 0) == done + split_commas(t@, pos as int),
            parse_items(done) == Some(out@),
        decreases t@.len() - pos,
    {
        let k = find_from(t.as_slice(), 0x2c, pos);
        proof {
            lemma_split_step(t@, pos as int);
            lemma_find_byte_bounds(t@, 0x2c, pos as int);
        }
        let item = copy_range(t.as_slice(), pos, k);
        let ghost next = done.push(item@);
        assert(next.drop_last() =~= done);
        match parse_chunk_item(item.as_slice()) {
            None => {
                proof {
                    if k >= t@.len() {
                        assert(split_commas(t@, 0) =~= next);
                    } else {
                        assert(split_commas(t@, 0) =~= next + split_commas(t@, k + 1));
                        lemma_parse_items_none(next, split_commas(t@, k + 1));
                    }
                }
                return Err(ErrorKind::Spec);
            },
            Some(v) => {
                let mut v = v;
                out.append(&mut v);
            },
        }
        proof {
            done = next;
        }
        if k >= t.len() {
            assert(split_commas(t@, 0) =~= done);
            return Ok(out);
        }
        assert(split_commas(t@, 0) =~= done + split_commas(t@, k + 1));
        pos = k + 1;
    }
}

/// A `u16` as `str::parse` reads it: decimal digits after an optional `+`.
pub open spec fn parse_std_u16(t: Seq<u8>) -> Option<u16> {
    if t.len() > 0 && t[0] == 0x2b {
        parse_number(t.subrange(1, t.len() as int))
    } else {
        parse_number(t)
    }
}

/// Parses `s[lo..hi]` as `str::parse::<u16>` does.
fn parse_std_u16_at(s: &[u8], lo: usize, hi: usize) -> (r: Option<u16>)
    requires
        lo <= hi <= s@.len(),
    ensures
        r == parse_std_u16(s@.subrange(lo as int, hi as int)),
{
    if lo < hi && s[lo] == 0x2b {
        assert(s@.subrange(lo as int, hi as int).subrange(1, hi - lo) =~= s@.subrange(lo + 1, hi as int));
        parse_u16(s, lo + 1, hi)
    } else {
        parse_u16(s, lo, hi)
    }
}

/// An inclusive rectangle of chunk numbers.
#[derive(PartialEq, Eq, Structural, Clone, Copy, Debug)]
pub struct TilesRange {
    pub x_min: u16,
    pub x_max: u16,
    pub y_min: u16,
    pub y_max: u16,
}

/// The tile range `x_min,x_max,y_min,y_max` that `s` denotes.
pub open spec fn parse_tiles_range(s: Seq<u8>) -> Option<TilesRange> {
    let items = split_commas(s, 0);
    if items.len() != 4 {
        None
    } else {
        match (parse_std_u16(items[0]), parse_std_u16(items[1]), parse_std_u16(items[2]), parse_std_u16(items[3])) {
            (Some(a), Some(b), Some(c), Some(d)) => Some(TilesRange { x_min: a, x_max: b, y_min: c, y_max: d }),
            _ => None,
        }
    }
}

impl TilesRange {
    /// Parses `x_min,x_max,y_min,y_max`.
    pub fn parse_str(s: &str) -> (r: Option<TilesRange>)
        ensures
            r == parse_tiles_range(s.spec_bytes()),
    {
        let t = s.as_bytes();
        let ghost all = split_commas(t@, 0);
        let mut bounds: Vec<u16> = Vec::new();
        let mut pos: usize = 0;
        let ghost mut done: Seq<Seq<u8>> = Seq::empty();
        loop
            invariant
                pos <= t@.len(),
                t@ == s.spec_bytes(),
                all == split_commas(t@, 0),
                all == done + split_commas(t@, pos as int),
                done.len() == bounds@.len(),
                bounds@.len() <= 4,
                forall|i: int| 0 <= i < done.len() ==> parse_std_u16(#[trigger] done[i]) == Some(bounds@[i]),
            decreases t@.len() - pos,
        {
            let k = find_from(t, 0x2c, pos);
            proof {
                lemma_split_step(t@, pos as int);
                lemma_find_byte_bounds(t@, 0x2c, pos as int);
            }
            let ghost item = t@.subrange(pos as int, k as int);
            let v = parse_std_u16_at(t, pos, k);
            let ghost next = done.push(item);
            if k >= t.len() {
                assert(all =~= next);
            } else {
                assert(all =~= next + split_commas(t@, k + 1));
            }
            match v {
                None => {
                    assert(all[done.len() as int] == item);
                    proof {
                        if all.len() == 4 {
                            let j = done.len() as int;
                            assert(parse_std_u16(all[j]) is None);
                            if j == 0 {
                                assert(parse_std_u16(all[0]) is None);
                            } else if j == 1 {
                                assert(parse_std_u16(all[1]) is None);
                            } else if j == 2 {
                                assert(parse_std_u16(all[2]) is None);
                            } else {
                                assert(parse_std_u16(all[3]) is None);
                            }
                        }
                    }
                    assert(t@ == s.spec_bytes());
                    return None;
                },
                Some(n) => {
                    if bounds.len() == 4 {
                        assert(all.len() > 4);
                        assert(t@ == s.spec_bytes());
                        return None;
                    }
                    bounds.push(n);
                },
            }
            proof {
                done = next;
            }
            if k >= t.len() {
                if bounds.len() != 4 {
                    return None;
                }
                return Some(TilesRange { x_min: bounds[0], x_max: bounds[1], y_min: bounds[2], y_max: bounds[3] });
            }
            pos = k + 1;
        }
    }

    /// Whether `n` lies in the range.
    pub fn contains(&self, n: ChunkNumber) -> (r: bool)
        ensures
            r == (self.x_min <= n.0 <= self.x_max && self.y_min <= n.1 <= self.y_max),
    {
        self.x_min <= n.0 && n.0 <= self.x_max && self.y_min <= n.1 && n.1 <= self.y_max
    }
}

} // verus!
