//! The global palette, the RGB lookup table, and the per-image map from a
//! PNG's local palette indices to canonical indices.
use vstd::prelude::*;

verus! {

/// The global 64-color palette: the packed `0xRRGGBB` color of canonical
/// index `i`. Index 0 is transparent and index 1 is opaque black; both carry
/// RGB `(0, 0, 0)`, told apart by the PNG transparency chunk.
pub open spec fn global_rgb(i: int) -> u32 {
    if i == 0 {
        0x000000
    } else if i == 1 {
        0x000000
    } else if i == 2 {
        0x3c3c3c
    } else if i == 3 {
        0x787878
    } else if i == 4 {
        0xaaaaaa
    } else if i == 5 {
        0xd2d2d2
    } else if i == 6 {
        0xffffff
    } else if i == 7 {
        0x600018
    } else if i == 8 {
        0xa50e1e
    } else if i == 9 {
        0xed1c24
    } else if i == 10 {
        0xfa8072
    } else if i == 11 {
        0xe45c1a
    } else if i == 12 {
        0xff7f27
    } else if i == 13 {
        0xf6aa09
    } else if i == 14 {
        0xf9dd3b
    } else if i == 15 {
        0xfffabc
    } else if i == 16 {
        0x9c8431
    } else if i == 17 {
        0xc5ad31
    } else if i == 18 {
        0xe8d45f
    } else if i == 19 {
        0x4a6b3a
    } else if i == 20 {
        0x5a944a
    } else if i == 21 {
        0x84c573
    } else if i == 22 {
        0x0eb968
    } else if i == 23 {
        0x13e67b
    } else if i == 24 {
        0x87ff5e
    } else if i == 25 {
        0x0c816e
    } else if i == 26 {
        0x10aea6
    } else if i == 27 {
        0x13e1be
    } else if i == 28 {
        0x0f799f
    } else if i == 29 {
        0x60f7f2
    } else if i == 30 {
        0xbbfaf2
    } else if i == 31 {
        0x28509e
    } else if i == 32 {
        0x4093e4
    } else if i == 33 {
        0x7dc7ff
    } else if i == 34 {
        0x4d31b8
    } else if i == 35 {
        0x6b50f6
    } else if i == 36 {
        0x99b1fb
    } else if i == 37 {
        0x4a4284
    } else if i == 38 {
        0x7a71c4
    } else if i == 39 {
        0xb5aef1
    } else if i == 40 {
        0x780c99
    } else if i == 41 {
        0xaa38b9
    } else if i == 42 {
        0xe09ff9
    } else if i == 43 {
        0xcb007a
    } else if i == 44 {
        0xec1f80
    } else if i == 45 {
        0xf38da9
    } else if i == 46 {
        0x9b5249
    } else if i == 47 {
        0xd18078
    } else if i == 48 {
        0xfab6a4
    } else if i == 49 {
        0x684634
    } else if i == 50 {
        0x95682a
    } else if i == 51 {
        0xdba463
    } else if i == 52 {
        0x7b6352
    } else if i == 53 {
        0x9c846b
    } else if i == 54 {
        0xd6b594
    } else if i == 55 {
        0xd18051
    } else if i == 56 {
        0xf8b277
    } else if i == 57 {
        0xffc5a5
    } else if i == 58 {
        0x6d643f
    } else if i == 59 {
        0x948c6b
    } else if i == 60 {
        0xcdc59e
    } else if i == 61 {
        0x333941
    } else if i == 62 {
        0x6d758d
    } else if i == 63 {
        0xb3b9d1
    } else {
        0
    }
}

/// The packed color of global palette index `i`.
pub fn global_color(i: usize) -> (r: u32)
    requires
        i < 64,
    ensures
        r == global_rgb(i as int),
        r < 0x1000000,
{
    if i == 0 {
        0x000000
    } else if i == 1 {
        0x000000
    } else if i == 2 {
        0x3c3c3c
    } else if i == 3 {
        0x787878
    } else if i == 4 {
        0xaaaaaa
    } else if i == 5 {
        0xd2d2d2
    } else if i == 6 {
        0xffffff
    } else if i == 7 {
        0x600018
    } else if i == 8 {
        0xa50e1e
    } else if i == 9 {
        0xed1c24
    } else if i == 10 {
        0xfa8072
    } else if i == 11 {
        0xe45c1a
    } else if i == 12 {
        0xff7f27
    } else if i == 13 {
        0xf6aa09
    } else if i == 14 {
        0xf9dd3b
    } else if i == 15 {
        0xfffabc
    } else if i == 16 {
        0x9c8431
    } else if i == 17 {
        0xc5ad31
    } else if i == 18 {
        0xe8d45f
    } else if i == 19 {
        0x4a6b3a
    } else if i == 20 {
        0x5a944a
    } else if i == 21 {
        0x84c573
    } else if i == 22 {
        0x0eb968
    } else if i == 23 {
        0x13e67b
    } else if i == 24 {
        0x87ff5e
    } else if i == 25 {
        0x0c816e
    } else if i == 26 {
        0x10aea6
    } else if i == 27 {
        0x13e1be
    } else if i == 28 {
        0x0f799f
    } else if i == 29 {
        0x60f7f2
    } else if i == 30 {
        0xbbfaf2
    } else if i == 31 {
        0x28509e
    } else if i == 32 {
        0x4093e4
    } else if i == 33 {
        0x7dc7ff
    } else if i == 34 {
        0x4d31b8
    } else if i == 35 {
        0x6b50f6
    } else if i == 36 {
        0x99b1fb
    } else if i == 37 {
        0x4a4284
    } else if i == 38 {
        0x7a71c4
    } else if i == 39 {
        0xb5aef1
    } else if i == 40 {
        0x780c99
    } else if i == 41 {
        0xaa38b9
    } else if i == 42 {
        0xe09ff9
    } else if i == 43 {
        0xcb007a
    } else if i == 44 {
        0xec1f80
    } else if i == 45 {
        0xf38da9
    } else if i == 46 {
        0x9b5249
    } else if i == 47 {
        0xd18078
    } else if i == 48 {
        0xfab6a4
    } else if i == 49 {
        0x684634
    } else if i == 50 {
        0x95682a
    } else if i == 51 {
        0xdba463
    } else if i == 52 {
        0x7b6352
    } else if i == 53 {
        0x9c846b
    } else if i == 54 {
        0xd6b594
    } else if i == 55 {
        0xd18051
    } else if i == 56 {
        0xf8b277
    } else if i == 57 {
        0xffc5a5
    } else if i == 58 {
        0x6d643f
    } else if i == 59 {
        0x948c6b
    } else if i == 60 {
        0xcdc59e
    } else if i == 61 {
        0x333941
    } else if i == 62 {
        0x6d758d
    } else {
        0xb3b9d1
    }
}

/// Number of entries of the RGB lookup table: one per 24-bit color.
pub const LOOKUP_TABLE_LEN: usize = 0x1000000;

/// Marks a color or local index with no canonical index.
pub const UNMAPPED: u8 = 255;

/// The packed `0xRRGGBB` value of a color.
pub open spec fn spec_pack_rgb(r: u8, g: u8, b: u8) -> u32 {
    ((r as u32) << 16) | ((g as u32) << 8) | (b as u32)
}

/// Packs a color as `0xRRGGBB`.
pub fn pack_rgb(r: u8, g: u8, b: u8) -> (v: u32)
    ensures
        v == spec_pack_rgb(r, g, b),
        v < 0x1000000,
{
    assert((((r as u32) << 16) | ((g as u32) << 8) | (b as u32)) < 0x1000000) by (bit_vector);
    ((r as u32) << 16) | ((g as u32) << 8) | (b as u32)
}

/// The canonical index of packed color `k` among global indices `1..n`:
/// the highest such index with that color, or `UNMAPPED`.
pub open spec fn lut_value(k: u32, n: nat) -> u8
    decreases n,
{
    if n <= 1 {
        255
    } else if global_rgb(n - 1) == k {
        (n - 1) as u8
    } else {
        lut_value(k, (n - 1) as nat)
    }
}

/// The canonical index of a packed color: its global index (never 0, which
/// is reserved for transparency), or `UNMAPPED`.
pub open spec fn global_index_of(k: u32) -> u8 {
    lut_value(k, 64)
}

/// Builds the table that maps every packed 24-bit color to its canonical
/// index, or to `UNMAPPED` for a color outside the global palette.
pub fn create_palette_lookup_table() -> (lut: Vec<u8>)
    ensures
        lut@.len() == LOOKUP_TABLE_LEN,
        forall|k: int| 0 <= k < LOOKUP_TABLE_LEN ==> #[trigger] lut@[k] == global_index_of(k as u32),
{
    let mut lut = vec![UNMAPPED; LOOKUP_TABLE_LEN];
    let mut j: usize = 1;
    while j < 64
        invariant
            1 <= j <= 64,
            lut@.len() == LOOKUP_TABLE_LEN,
            forall|k: int| 0 <= k < LOOKUP_TABLE_LEN ==> #[trigger] lut@[k] == lut_value(k as u32, j as nat),
        decreases 64 - j,
    {
        let c = global_color(j);
        lut.set(c as usize, j as u8);
        j += 1;
    }
    lut
}

/// A table maps every packed color to its canonical index.
pub open spec fn is_lookup_table(t: Seq<u8>) -> bool {
    &&& t.len() == LOOKUP_TABLE_LEN
    &&& forall|k: int| 0 <= k < LOOKUP_TABLE_LEN ==> #[trigger] t[k] == global_index_of(k as u32)
}

spec fn index_of_rgb(k: u32) -> int {
    if k == 0x000000 {
        1
    } else if k == 0x3c3c3c {
        2
    } else if k == 0x787878 {
        3
    } else if k == 0xaaaaaa {
        4
    } else if k == 0xd2d2d2 {
        5
    } else if k == 0xffffff {
        6
    } else if k == 0x600018 {
        7
    } else if k == 0xa50e1e {
        8
    } else if k == 0xed1c24 {
        9
    } else if k == 0xfa8072 {
        10
    } else if k == 0xe45c1a {
        11
    } else if k == 0xff7f27 {
        12
    } else if k == 0xf6aa09 {
        13
    } else if k == 0xf9dd3b {
        14
    } else if k == 0xfffabc {
        15
    } else if k == 0x9c8431 {
        16
    } else if k == 0xc5ad31 {
        17
    } else if k == 0xe8d45f {
        18
    } else if k == 0x4a6b3a {
        19
    } else if k == 0x5a944a {
        20
    } else if k == 0x84c573 {
        21
    } else if k == 0x0eb968 {
        22
    } else if k == 0x13e67b {
        23
    } else if k == 0x87ff5e {
        24
    } else if k == 0x0c816e {
        25
    } else if k == 0x10aea6 {
        26
    } else if k == 0x13e1be {
        27
    } else if k == 0x0f799f {
        28
    } else if k == 0x60f7f2 {
        29
    } else if k == 0xbbfaf2 {
        30
    } else if k == 0x28509e {
        31
    } else if k == 0x4093e4 {
        32
    } else if k == 0x7dc7ff {
        33
    } else if k == 0x4d31b8 {
        34
    } else if k == 0x6b50f6 {
        35
    } else if k == 0x99b1fb {
        36
    } else if k == 0x4a4284 {
        37
    } else if k == 0x7a71c4 {
        38
    } else if k == 0xb5aef1 {
        39
    } else if k == 0x780c99 {
        40
    } else if k == 0xaa38b9 {
        41
    } else if k == 0xe09ff9 {
        42
    } else if k == 0xcb007a {
        43
    } else if k == 0xec1f80 {
        44
    } else if k == 0xf38da9 {
        45
    } else if k == 0x9b5249 {
        46
    } else if k == 0xd18078 {
        47
    } else if k == 0xfab6a4 {
        48
    } else if k == 0x684634 {
        49
    } else if k == 0x95682a {
        50
    } else if k == 0xdba463 {
        51
    } else if k == 0x7b6352 {
        52
    } else if k == 0x9c846b {
        53
    } else if k == 0xd6b594 {
        54
    } else if k == 0xd18051 {
        55
    } else if k == 0xf8b277 {
        56
    } else if k == 0xffc5a5 {
        57
    } else if k == 0x6d643f {
        58
    } else if k == 0x948c6b {
        59
    } else if k == 0xcdc59e {
        60
    } else if k == 0x333941 {
        61
    } else if k == 0x6d758d {
        62
    } else if k == 0xb3b9d1 {
        63
    } else {
        0
    }
}

proof fn lemma_colors_distinct()
    ensures
        forall|i: int, j: int| 1 <= i < j < 64 ==> global_rgb(i) != global_rgb(j),
{
    assert forall|i: int| 1 <= i < 64 implies index_of_rgb(#[trigger] global_rgb(i)) == i by {}
}

proof fn lemma_lut_hit(i: int, n: nat)
    requires
        1 <= i < n <= 64,
        forall|j: int| i < j < n ==> global_rgb(j) != global_rgb(i),
    ensures
        lut_value(global_rgb(i), n) == i as u8,
    decreases n,
{
    if n - 1 != i {
        lemma_lut_hit(i, (n - 1) as nat);
    }
}

/// Every global index but 0 is what its own color maps back to: the colors
/// of indices 1 to 63 are pairwise distinct.
pub proof fn lemma_global_index_inverse()
    ensures
        forall|i: int| 1 <= i < 64 ==> global_index_of(#[trigger] global_rgb(i)) == i as u8,
{
    lemma_colors_distinct();
    assert forall|i: int| 1 <= i < 64 implies global_index_of(#[trigger] global_rgb(i)) == i as u8 by {
        lemma_lut_hit(i, 64);
    }
}

} // verus!
