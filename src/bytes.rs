//! Little-endian integers in byte sequences.
use vstd::prelude::*;

verus! {

/// The two little-endian bytes of `v`.
pub open spec fn le16(v: u16) -> Seq<u8> {
    seq![(v & 0xff) as u8, ((v >> 8) & 0xff) as u8]
}

/// The four little-endian bytes of `v`.
pub open spec fn le32(v: u32) -> Seq<u8> {
    seq![
        (v & 0xff) as u8,
        ((v >> 8) & 0xff) as u8,
        ((v >> 16) & 0xff) as u8,
        ((v >> 24) & 0xff) as u8,
    ]
}

/// The eight little-endian bytes of `v`.
pub open spec fn le64(v: u64) -> Seq<u8> {
    seq![
        (v & 0xff) as u8,
        ((v >> 8) & 0xff) as u8,
        ((v >> 16) & 0xff) as u8,
        ((v >> 24) & 0xff) as u8,
        ((v >> 32) & 0xff) as u8,
        ((v >> 40) & 0xff) as u8,
        ((v >> 48) & 0xff) as u8,
        ((v >> 56) & 0xff) as u8,
    ]
}

/// The `u16` stored little-endian at `at`.
pub open spec fn get_le16(s: Seq<u8>, at: int) -> u16 {
    (s[at] as u16) | ((s[at + 1] as u16) << 8)
}

/// The `u32` stored little-endian at `at`.
pub open spec fn get_le32(s: Seq<u8>, at: int) -> u32 {
    (s[at] as u32) | ((s[at + 1] as u32) << 8) | ((s[at + 2] as u32) << 16) | ((s[at + 3] as u32)
        << 24)
}

/// The `u64` stored little-endian at `at`.
pub open spec fn get_le64(s: Seq<u8>, at: int) -> u64 {
    (s[at] as u64) | ((s[at + 1] as u64) << 8) | ((s[at + 2] as u64) << 16) | ((s[at + 3] as u64)
        << 24) | ((s[at + 4] as u64) << 32) | ((s[at + 5] as u64) << 40) | ((s[at + 6] as u64)
        << 48) | ((s[at + 7] as u64) << 56)
}

pub proof fn lemma_le16_round_trip(v: u16, s: Seq<u8>, at: int)
    requires
        0 <= at,
        at + 2 <= s.len(),
        s.subrange(at, at + 2) == le16(v),
    ensures
        get_le16(s, at) == v,
{
    assert(s[at] == le16(v)[0] && s[at + 1] == le16(v)[1]);
    let (b0, b1) = ((v & 0xff) as u8, ((v >> 8) & 0xff) as u8);
    assert(((b0 as u16) | ((b1 as u16) << 8)) == v) by (bit_vector)
        requires
            b0 == (v & 0xff) as u8,
            b1 == ((v >> 8) & 0xff) as u8,
    ;
}

pub proof fn lemma_le32_round_trip(v: u32, s: Seq<u8>, at: int)
    requires
        0 <= at,
        at + 4 <= s.len(),
        s.subrange(at, at + 4) == le32(v),
    ensures
        get_le32(s, at) == v,
{
    assert(s[at] == le32(v)[0] && s[at + 1] == le32(v)[1] && s[at + 2] == le32(v)[2] && s[at + 3]
        == le32(v)[3]);
    let (b0, b1, b2, b3) = (
        (v & 0xff) as u8,
        ((v >> 8) & 0xff) as u8,
        ((v >> 16) & 0xff) as u8,
        ((v >> 24) & 0xff) as u8,
    );
    assert(((b0 as u32) | ((b1 as u32) << 8) | ((b2 as u32) << 16) | ((b3 as u32) << 24)) == v)
        by (bit_vector)
        requires
            b0 == (v & 0xff) as u8,
            b1 == ((v >> 8) & 0xff) as u8,
            b2 == ((v >> 16) & 0xff) as u8,
            b3 == ((v >> 24) & 0xff) as u8,
    ;
}

pub proof fn lemma_le64_round_trip(v: u64, s: Seq<u8>, at: int)
    requires
        0 <= at,
        at + 8 <= s.len(),
        s.subrange(at, at + 8) == le64(v),
    ensures
        get_le64(s, at) == v,
{
    let l = le64(v);
    assert(s[at] == l[0] && s[at + 1] == l[1] && s[at + 2] == l[2] && s[at + 3] == l[3]);
    assert(s[at + 4] == l[4] && s[at + 5] == l[5] && s[at + 6] == l[6] && s[at + 7] == l[7]);
    let (b0, b1, b2, b3, b4, b5, b6, b7) = (l[0], l[1], l[2], l[3], l[4], l[5], l[6], l[7]);
    assert(((b0 as u64) | ((b1 as u64) << 8) | ((b2 as u64) << 16) | ((b3 as u64) << 24) | ((
    b4 as u64) << 32) | ((b5 as u64) << 40) | ((b6 as u64) << 48) | ((b7 as u64) << 56)) == v)
        by (bit_vector)
        requires
            b0 == (v & 0xff) as u8,
            b1 == ((v >> 8) & 0xff) as u8,
            b2 == ((v >> 16) & 0xff) as u8,
            b3 == ((v >> 24) & 0xff) as u8,
            b4 == ((v >> 32) & 0xff) as u8,
            b5 == ((v >> 40) & 0xff) as u8,
            b6 == ((v >> 48) & 0xff) as u8,
            b7 == ((v >> 56) & 0xff) as u8,
    ;
}

/// Appends the little-endian bytes of `v`.
pub fn push_le16(buf: &mut Vec<u8>, v: u16)
    ensures
        final(buf)@ == old(buf)@ + le16(v),
{
    buf.push((v & 0xff) as u8);
    buf.push(((v >> 8) & 0xff) as u8);
    assert(buf@ =~= old(buf)@ + le16(v));
}

/// Appends the little-endian bytes of `v`.
pub fn push_le32(buf: &mut Vec<u8>, v: u32)
    ensures
        final(buf)@ == old(buf)@ + le32(v),
{
    buf.push((v & 0xff) as u8);
    buf.push(((v >> 8) & 0xff) as u8);
    buf.push(((v >> 16) & 0xff) as u8);
    buf.push(((v >> 24) & 0xff) as u8);
    assert(buf@ =~= old(buf)@ + le32(v));
}

/// Appends the little-endian bytes of `v`.
pub fn push_le64(buf: &mut Vec<u8>, v: u64)
    ensures
        final(buf)@ == old(buf)@ + le64(v),
{
    buf.push((v & 0xff) as u8);
    buf.push(((v >> 8) & 0xff) as u8);
    buf.push(((v >> 16) & 0xff) as u8);
    buf.push(((v >> 24) & 0xff) as u8);
    buf.push(((v >> 32) & 0xff) as u8);
    buf.push(((v >> 40) & 0xff) as u8);
    buf.push(((v >> 48) & 0xff) as u8);
    buf.push(((v >> 56) & 0xff) as u8);
    assert(buf@ =~= old(buf)@ + le64(v));
}

/// Reads the `u16` stored little-endian at `at`.
pub fn read_le16(s: &[u8], at: usize) -> (r: u16)
    requires
        at + 2 <= s@.len(),
    ensures
        r == get_le16(s@, at as int),
{
    (s[at] as u16) | ((s[at + 1] as u16) << 8)
}

/// Reads the `u32` stored little-endian at `at`.
pub fn read_le32(s: &[u8], at: usize) -> (r: u32)
    requires
        at + 4 <= s@.len(),
    ensures
        r == get_le32(s@, at as int),
{
    (s[at] as u32) | ((s[at + 1] as u32) << 8) | ((s[at + 2] as u32) << 16) | ((s[at + 3] as u32)
        << 24)
}

/// Reads the `u64` stored little-endian at `at`.
pub fn read_le64(s: &[u8], at: usize) -> (r: u64)
    requires
        at + 8 <= s@.len(),
    ensures
        r == get_le64(s@, at as int),
{
    (s[at] as u64) | ((s[at + 1] as u64) << 8) | ((s[at + 2] as u64) << 16) | ((s[at + 3] as u64)
        << 24) | ((s[at + 4] as u64) << 32) | ((s[at + 5] as u64) << 40) | ((s[at + 6] as u64)
        << 48) | ((s[at + 7] as u64) << 56)
}

} // verus!
