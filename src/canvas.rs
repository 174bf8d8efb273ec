//! A wide canvas that stitches chunks side by side.
use vstd::prelude::*;

use crate::indexed_png::{palette_bytes_seq, png_encoded, trns_seq, write_png};
use crate::{ChunkNumber, ErrorKind, CHUNK_LENGTH, CHUNK_WIDTH};

verus! {

/// A canvas for stitching chunks: `dimension` is its width and height in
/// pixels, `buf` its canonical pixels row by row, and `min_chunk` the chunk
/// number drawn at its top-left corner.
pub struct Canvas {
    pub buf: Vec<u8>,
    pub min_chunk: ChunkNumber,
    pub dimension: (usize, usize),
}

/// Offset in a canvas of width `w` of pixel `(cx, cy)` of the chunk whose
/// top-left corner is at `(rx, ry)`.
pub open spec fn block_index(w: int, rx: int, ry: int, cx: int, cy: int) -> int {
    (ry + cy) * w + rx + cx
}

/// Offset `p` of a canvas of width `w` lies in the 1000x1000 block at
/// `(rx, ry)`.
pub open spec fn in_block(w: int, rx: int, ry: int, p: int) -> bool {
    exists|cx: int, cy: int|
        0 <= cx < 1000 && 0 <= cy < 1000 && p == #[trigger] block_index(w, rx, ry, cx, cy)
}

proof fn lemma_block_index_injective(w: int, rx: int, ry: int, cx: int, cy: int, dx: int, dy: int)
    requires
        0 <= rx,
        0 <= ry,
        rx + 1000 <= w,
        0 <= cx < 1000,
        0 <= cy < 1000,
        0 <= dx < 1000,
        0 <= dy < 1000,
        block_index(w, rx, ry, cx, cy) == block_index(w, rx, ry, dx, dy),
    ensures
        cx == dx && cy == dy,
{
    if cy < dy {
        assert((ry + cy) * w + w <= (ry + dy) * w) by (nonlinear_arith)
            requires
                cy < dy,
                0 <= w,
        ;
    } else if dy < cy {
        assert((ry + dy) * w + w <= (ry + cy) * w) by (nonlinear_arith)
            requires
                dy < cy,
                0 <= w,
        ;
    }
}

impl Canvas {
    /// A transparent canvas `chunk_num_x` chunks wide and `chunk_num_y`
    /// chunks tall, whose top-left chunk is `min_chunk`.
    pub fn new(chunk_num_x: u16, chunk_num_y: u16, min_chunk: ChunkNumber) -> (r: Self)
        requires
            chunk_num_x as int * 1000 * (chunk_num_y as int * 1000) <= usize::MAX,
        ensures
            r.dimension.0 == chunk_num_x as int * 1000,
            r.dimension.1 == chunk_num_y as int * 1000,
            r.min_chunk == min_chunk,
            r.buf@ == Seq::new((chunk_num_x as int * 1000 * (chunk_num_y as int * 1000)) as nat, |i: int| 0u8),
    {
        assert(chunk_num_x as int * 1000 <= usize::MAX && chunk_num_y as int * 1000 <= usize::MAX) by (nonlinear_arith)
            requires
                chunk_num_x as int * 1000 * (chunk_num_y as int * 1000) <= usize::MAX,
                chunk_num_x <= 65535,
                chunk_num_y <= 65535,
        ;
        let dimension = (chunk_num_x as usize * CHUNK_WIDTH, chunk_num_y as usize * CHUNK_WIDTH);
        let buf = vec![0u8; dimension.0 * dimension.1];
        assert(buf@ =~= Seq::new((chunk_num_x as int * 1000 * (chunk_num_y as int * 1000)) as nat, |i: int| 0u8));
        Canvas { buf, min_chunk, dimension }
    }

    /// A transparent canvas covering the bounding rectangle of `chunks`.
    pub fn from_chunk_list(chunks: &[ChunkNumber]) -> (r: Self)
        requires
            chunks@.len() > 0,
            forall|i: int| 0 <= i < chunks@.len() ==> (#[trigger] chunks@[i]).0 < 0xffff && chunks@[i].1 < 0xffff,
            forall|a: int, b: int, c: int, d: int|
                0 <= a < chunks@.len() && 0 <= b < chunks@.len() && 0 <= c < chunks@.len() && 0 <= d < chunks@.len()
                    ==> ((#[trigger] chunks@[a]).0 as int - (#[trigger] chunks@[b]).0 as int + 1) * 1000 * (((#[trigger] chunks@[c]).1 as int
                    - (#[trigger] chunks@[d]).1 as int + 1) * 1000) <= usize::MAX,
        ensures
            forall|i: int| 0 <= i < chunks@.len() ==> r.min_chunk.0 <= #[trigger] chunks@[i].0 && r.min_chunk.1 <= chunks@[i].1,
            exists|i: int| 0 <= i < chunks@.len() && #[trigger] chunks@[i].0 == r.min_chunk.0,
            exists|i: int| 0 <= i < chunks@.len() && #[trigger] chunks@[i].1 == r.min_chunk.1,
            forall|i: int| 0 <= i < chunks@.len() ==> (#[trigger] chunks@[i].0 as int) < r.min_chunk.0 as int + r.dimension.0 as int / 1000
                && (chunks@[i].1 as int) < r.min_chunk.1 as int + r.dimension.1 as int / 1000,
            exists|i: int| 0 <= i < chunks@.len() && (#[trigger] chunks@[i].0 as int) == r.min_chunk.0 as int + r.dimension.0 as int / 1000 - 1,
            exists|i: int| 0 <= i < chunks@.len() && (#[trigger] chunks@[i].1 as int) == r.min_chunk.1 as int + r.dimension.1 as int / 1000 - 1,
            r.dimension.0 as int % 1000 == 0,
            r.dimension.1 as int % 1000 == 0,
            forall|i: int| 0 <= i < r.buf@.len() ==> r.buf@[i] == 0,
            r.buf@.len() == r.dimension.0 * r.dimension.1,
    {
        let mut min_x = chunks[0].0;
        let mut max_x = chunks[0].0;
        let mut min_y = chunks[0].1;
        let mut max_y = chunks[0].1;
        let ghost (mut ix0, mut ix1, mut iy0, mut iy1) = (0int, 0int, 0int, 0int);
        let mut i: usize = 1;
        while i < chunks.len()
            invariant
                1 <= i <= chunks@.len(),
                0 <= ix0 < i && chunks@[ix0].0 == min_x,
                0 <= ix1 < i && chunks@[ix1].0 == max_x,
                0 <= iy0 < i && chunks@[iy0].1 == min_y,
                0 <= iy1 < i && chunks@[iy1].1 == max_y,
                forall|j: int| 0 <= j < i ==> min_x <= #[trigger] chunks@[j].0 <= max_x && min_y <= chunks@[j].1 <= max_y,
            decreases chunks@.len() - i,
        {
            let (x, y) = chunks[i];
            if x < min_x {
                min_x = x;
                proof { ix0 = i as int; }
            }
            if x > max_x {
                max_x = x;
                proof { ix1 = i as int; }
            }
            if y < min_y {
                min_y = y;
                proof { iy0 = i as int; }
            }
            if y > max_y {
                max_y = y;
                proof { iy1 = i as int; }
            }
            i += 1;
        }
        assert(chunks@[ix1].0 < 0xffff && chunks@[iy1].1 < 0xffff);
        assert((chunks@[ix1].0 as int - chunks@[ix0].0 as int + 1) * 1000 * ((chunks@[iy1].1 as int
            - chunks@[iy0].1 as int + 1) * 1000) <= usize::MAX);
        let r = Self::new(max_x - min_x + 1, max_y - min_y + 1, (min_x, min_y));
        assert(r.dimension.0 as int / 1000 == max_x - min_x + 1);
        assert(r.dimension.1 as int / 1000 == max_y - min_y + 1);
        r
    }

    /// Draws a 1000x1000 chunk into its place on the canvas.
    pub fn copy(&mut self, n: ChunkNumber, buf: &[u8])
        requires
            buf@.len() == CHUNK_LENGTH,
            old(self).buf@.len() == old(self).dimension.0 * old(self).dimension.1,
            old(self).min_chunk.0 <= n.0,
            old(self).min_chunk.1 <= n.1,
            (n.0 - old(self).min_chunk.0 + 1) * 1000 <= old(self).dimension.0,
            (n.1 - old(self).min_chunk.1 + 1) * 1000 <= old(self).dimension.1,
        ensures
            final(self).dimension == old(self).dimension,
            final(self).min_chunk == old(self).min_chunk,
            final(self).buf@.len() == old(self).buf@.len(),
            forall|cx: int, cy: int|
                0 <= cx < 1000 && 0 <= cy < 1000 ==> final(self).buf@[#[trigger] block_index(
                    old(self).dimension.0 as int,
                    (n.0 - old(self).min_chunk.0) * 1000,
                    (n.1 - old(self).min_chunk.1) * 1000,
                    cx,
                    cy,
                )] == buf@[cy * 1000 + cx],
            forall|p: int|
                0 <= p < old(self).buf@.len() && !in_block(
                    old(self).dimension.0 as int,
                    (n.0 - old(self).min_chunk.0) * 1000,
                    (n.1 - old(self).min_chunk.1) * 1000,
                    p,
                ) ==> #[trigger] final(self).buf@[p] == old(self).buf@[p],
    {
        let w = self.dimension.0;
        let h = self.dimension.1;
        let rel_x = (n.0 - self.min_chunk.0) as usize * CHUNK_WIDTH;
        let rel_y = (n.1 - self.min_chunk.1) as usize * CHUNK_WIDTH;
        let ghost old_buf = self.buf@;
        let mut y: usize = 0;
        while y < CHUNK_WIDTH
            invariant
                y <= 1000,
                w == self.dimension.0,
                h == self.dimension.1,
                self.dimension == old(self).dimension,
                self.min_chunk == old(self).min_chunk,
                self.buf@.len() == w * h,
                old_buf.len() == w * h,
                rel_x == (n.0 - old(self).min_chunk.0) * 1000,
                rel_y == (n.1 - old(self).min_chunk.1) * 1000,
                rel_x + 1000 <= w,
                rel_y + 1000 <= h,
                buf@.len() == CHUNK_LENGTH,
                forall|cx: int, cy: int|
                    0 <= cx < 1000 && 0 <= cy < y ==> self.buf@[#[trigger] block_index(w as int, rel_x as int, rel_y as int, cx, cy)]
                        == buf@[cy * 1000 + cx],
                forall|p: int|
                    0 <= p < old_buf.len() && !in_block(w as int, rel_x as int, rel_y as int, p)
                        ==> #[trigger] self.buf@[p] == old_buf[p],
            decreases 1000 - y,
        {
            let mut x: usize = 0;
            while x < CHUNK_WIDTH
                invariant
                    y < 1000,
                    x <= 1000,
                    w == self.dimension.0,
                    h == self.dimension.1,
                    self.dimension == old(self).dimension,
                    self.min_chunk == old(self).min_chunk,
                    self.buf@.len() == w * h,
                    old_buf.len() == w * h,
                    rel_x + 1000 <= w,
                    rel_y + 1000 <= h,
                    buf@.len() == CHUNK_LENGTH,
                    forall|cx: int, cy: int|
                        0 <= cx < 1000 && 0 <= cy < 1000 && (cy < y || (cy == y && cx < x)) ==> self.buf@[#[trigger] block_index(w as int, rel_x as int, rel_y as int, cx, cy)]
                            == buf@[cy * 1000 + cx],
                    forall|p: int|
                        0 <= p < old_buf.len() && !in_block(w as int, rel_x as int, rel_y as int, p)
                            ==> #[trigger] self.buf@[p] == old_buf[p],
                decreases 1000 - x,
            {
                assert((rel_y + y) * w + rel_x + x < w * h) by (nonlinear_arith)
                    requires
                        rel_y + y < h,
                        rel_x + x < w,
                ;
                assert(y * 1000 + x < 1000000) by (nonlinear_arith)
                    requires
                        y < 1000,
                        x < 1000,
                ;
                let _len = self.buf.len();
                let p = (rel_y + y) * w + rel_x + x;
                self.buf.set(p, buf[y * CHUNK_WIDTH + x]);
                proof {
                    assert(p == block_index(w as int, rel_x as int, rel_y as int, x as int, y as int));
                    assert forall|cx: int, cy: int|
                        0 <= cx < 1000 && 0 <= cy < 1000 && (cy < y || (cy == y && cx <= x)) implies self.buf@[#[trigger] block_index(w as int, rel_x as int, rel_y as int, cx, cy)]
                            == buf@[cy * 1000 + cx] by {
                        assert((rel_y + cy) * w + rel_x + cx < w * h) by (nonlinear_arith)
                            requires
                                rel_y + cy < h,
                                rel_x + cx < w,
                        ;
                        if cx != x || cy != y {
                            if block_index(w as int, rel_x as int, rel_y as int, cx, cy) == p {
                                lemma_block_index_injective(w as int, rel_x as int, rel_y as int, cx, cy, x as int, y as int);
                            }
                        }
                    }
                    assert forall|q: int|
                        0 <= q < old_buf.len() && !in_block(w as int, rel_x as int, rel_y as int, q)
                            implies #[trigger] self.buf@[q] == old_buf[q] by {
                        if q == p {
                            assert(in_block(w as int, rel_x as int, rel_y as int, q));
                        }
                    }
                }
                x += 1;
            }
            y += 1;
        }
    }

    /// Encodes the canvas as one indexed PNG.
    pub fn save(&self) -> (r: Result<Vec<u8>, ErrorKind>)
        requires
            self.dimension.0 <= u32::MAX && self.dimension.1 <= u32::MAX,
        ensures
            match r {
                Ok(v) => png_encoded(self.dimension.0 as u32, self.dimension.1 as u32, palette_bytes_seq(), trns_seq(), self.buf@) == Some(v@),
                Err(e) => e == ErrorKind::Encode && png_encoded(
                    self.dimension.0 as u32,
                    self.dimension.1 as u32,
                    palette_bytes_seq(),
                    trns_seq(),
                    self.buf@,
                ) is None,
            },
    {
        write_png((self.dimension.0 as u32, self.dimension.1 as u32), self.buf.as_slice())
    }
}

} // verus!
