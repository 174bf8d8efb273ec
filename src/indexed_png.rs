//! Indexed PNGs to and from canonical buffers: local palettes and bit depths
//! are mapped onto the global palette when reading; writing always uses
//! 8-bit samples, the global palette, and index 0 as the transparent entry.
use vstd::prelude::*;

use crate::palette::{
    global_color, global_index_of, global_rgb, is_lookup_table, lemma_global_index_inverse, pack_rgb,
    spec_pack_rgb, UNMAPPED,
};
use crate::{is_canonical, slice_opt_view, ErrorKind, CHUNK_WIDTH};

verus! {

/// What a PNG file holds, as read without transformations.
pub struct PngView {
    pub width: u32,
    pub height: u32,
    pub bit_depth: u8,
    pub indexed: bool,
    pub palette: Option<Seq<u8>>,
    pub trns: Option<Seq<u8>>,
    /// The first frame's samples, packed as stored.
    pub data: Seq<u8>,
}

/// A decoded PNG: header fields, palette and transparency chunks, and the
/// first frame's samples, packed as stored.
pub struct DecodedPng {
    pub width: u32,
    pub height: u32,
    pub bit_depth: u8,
    pub indexed: bool,
    pub palette: Option<Vec<u8>>,
    pub trns: Option<Vec<u8>>,
    pub data: Vec<u8>,
}

impl DecodedPng {
    pub open spec fn view(&self) -> PngView {
        PngView {
            width: self.width,
            height: self.height,
            bit_depth: self.bit_depth,
            indexed: self.indexed,
            palette: match self.palette {
                Some(p) => Some(p@),
                None => None,
            },
            trns: match self.trns {
                Some(t) => Some(t@),
                None => None,
            },
            data: self.data@,
        }
    }
}

/// What the PNG decoder reads from a file's bytes, or `None` if it fails.
pub uninterp spec fn png_decoded(bytes: Seq<u8>) -> Option<PngView>;

/// Relies on png::Decoder with no transformations: the header, the palette
/// and transparency chunks, and the first frame's samples packed as stored;
/// an error when the bytes are not a PNG it can read.
#[verifier::external_body]
pub(crate) fn png_decode(bytes: &[u8]) -> (r: Result<DecodedPng, ErrorKind>)
    ensures
        match r {
            Ok(p) => png_decoded(bytes@) == Some(p.view()),
            Err(e) => png_decoded(bytes@) is None && e == ErrorKind::Decode,
        },
{
    let mut reader = png::Decoder::new(std::io::Cursor::new(bytes)).read_info().map_err(|_| ErrorKind::Decode)?;
    let mut data = vec![0u8; reader.output_buffer_size().ok_or(ErrorKind::Decode)?];
    reader.next_frame(&mut data).map_err(|_| ErrorKind::Decode)?;
    let info = reader.info();
    Ok(DecodedPng {
        width: info.width,
        height: info.height,
        bit_depth: info.bit_depth as u8,
        indexed: info.color_type == png::ColorType::Indexed,
        palette: info.palette.as_ref().map(|p| p.to_vec()),
        trns: info.trns.as_ref().map(|t| t.to_vec()),
        data,
    })
}

/// The PNG file the encoder writes for an 8-bit indexed image with the given
/// size, palette, transparency and samples, or `None` if it refuses them.
pub uninterp spec fn png_encoded(width: u32, height: u32, palette: Seq<u8>, trns: Seq<u8>, data: Seq<u8>) -> Option<Seq<u8>>;

/// Relies on png::Encoder for an 8-bit indexed image carrying the given
/// palette and transparency chunks: the file it writes, or an error when the
/// samples do not fit the size.
#[verifier::external_body]
fn png_encode_indexed(width: u32, height: u32, palette: &[u8], trns: &[u8], data: &[u8]) -> (r: Result<Vec<u8>, ErrorKind>)
    ensures
        match r {
            Ok(v) => png_encoded(width, height, palette@, trns@, data@) == Some(v@),
            Err(e) => png_encoded(width, height, palette@, trns@, data@) is None && e == ErrorKind::Encode,
        },
{
    let mut info = png::Info::with_size(width, height);
    info.bit_depth = png::BitDepth::Eight;
    info.color_type = png::ColorType::Indexed;
    info.palette = Some(std::borrow::Cow::Borrowed(palette));
    info.trns = Some(std::borrow::Cow::Borrowed(trns));
    let mut out = Vec::new();
    let encoder = png::Encoder::with_info(&mut out, info).map_err(|_| ErrorKind::Encode)?;
    let mut writer = encoder.write_header().map_err(|_| ErrorKind::Encode)?;
    writer.write_image_data(data).map_err(|_| ErrorKind::Encode)?;
    writer.finish().map_err(|_| ErrorKind::Encode)?;
    Ok(out)
}

/// Bit depths of indexed PNGs.
pub open spec fn depth_ok(d: u8) -> bool {
    d == 1 || d == 2 || d == 4 || d == 8
}

/// How many samples of depth `d` one byte holds.
pub open spec fn pixels_per_byte(d: u8) -> int {
    if d == 1 {
        8
    } else if d == 2 {
        4
    } else if d == 4 {
        2
    } else {
        1
    }
}

/// Rows of `width` samples of depth `d` fill whole bytes, so the samples
/// form one continuous stream with no row padding.
pub open spec fn rows_aligned(width: u32, d: u8) -> bool {
    d == 8 || (d == 4 && width % 2 == 0) || (d == 2 && width % 4 == 0) || (d == 1 && width % 8 == 0)
}

/// Sample `i` of packed data of depth `d`; within a byte the highest bits
/// come first.
pub open spec fn sample(data: Seq<u8>, d: u8, i: int) -> u8 {
    if d == 8 {
        data[i]
    } else if d == 4 {
        if i % 2 == 0 {
            data[i / 2] >> 4u8
        } else {
            data[i / 2] & 0x0f
        }
    } else if d == 2 {
        (data[i / 4] >> ((6 - 2 * (i % 4)) as u8)) & 3
    } else {
        (data[i / 8] >> ((7 - i % 8) as u8)) & 1
    }
}

/// The alpha of local index `i`: from the transparency chunk, opaque where
/// the chunk is absent or too short.
pub open spec fn trns_at(trns: Option<Seq<u8>>, i: int) -> u8 {
    match trns {
        Some(t) => if i < t.len() {
            t[i]
        } else {
            255
        },
        None => 255,
    }
}

/// The canonical index of local index `i`: 0 when fully transparent, the
/// global index of its color otherwise, `UNMAPPED` past the palette's end.
pub open spec fn mapped_index(palette: Seq<u8>, trns: Option<Seq<u8>>, i: int) -> u8 {
    if i >= palette.len() / 3 {
        UNMAPPED
    } else if trns_at(trns, i) == 0 {
        0
    } else {
        global_index_of(spec_pack_rgb(palette[3 * i], palette[3 * i + 1], palette[3 * i + 2]))
    }
}

/// The canonical buffer of a decoded PNG, or `Decode` when it is not an
/// indexed image of a supported depth with a palette, has rows that do not
/// fill whole bytes, lacks samples, or holds a pixel with no canonical index.
pub open spec fn canonical_image(p: PngView) -> Result<Seq<u8>, ErrorKind> {
    let n = p.width as int * p.height as int;
    match p.palette {
        None => Err(ErrorKind::Decode),
        Some(pal) => if !p.indexed || !depth_ok(p.bit_depth) || !rows_aligned(p.width, p.bit_depth)
            || pal.len() % 3 != 0 || p.data.len()
            * pixels_per_byte(p.bit_depth) < n {
            Err(ErrorKind::Decode)
        } else {
            let out = Seq::new(
                n as nat,
                |i: int| mapped_index(pal, p.trns, sample(p.data, p.bit_depth, i) as int),
            );
            if exists|i: int| 0 <= i < n && #[trigger] out[i] == UNMAPPED {
                Err(ErrorKind::Decode)
            } else {
                Ok(out)
            }
        },
    }
}

/// The canonical buffer of a chunk PNG: as `canonical_image`, for
/// 1000x1000 images only.
pub open spec fn chunk_image(p: PngView) -> Result<Seq<u8>, ErrorKind> {
    if p.width != 1000 || p.height != 1000 {
        Err(ErrorKind::Decode)
    } else {
        canonical_image(p)
    }
}

/// Maps the local palette indices of one PNG to canonical indices.
pub struct PixelMapper {
    table: Vec<u8>,
}

impl PixelMapper {
    /// The canonical index of each of the 256 local indices.
    pub closed spec fn mapping(&self) -> Seq<u8> {
        self.table@
    }

    /// Builds the map for a PNG's palette and transparency chunk.
    pub fn new(palette: &[u8], trns: Option<&[u8]>, lut: &Vec<u8>) -> (r: Self)
        requires
            is_lookup_table(lut@),
        ensures
            r.mapping().len() == 256,
            forall|i: int| 0 <= i < 256 ==> #[trigger] r.mapping()[i] == mapped_index(palette@, slice_opt_view(trns), i),
    {
        let count = palette.len() / 3;
        let mut table: Vec<u8> = Vec::with_capacity(256);
        let mut i: usize = 0;
        while i < 256
            invariant
                i <= 256,
                count == palette@.len() / 3,
                is_lookup_table(lut@),
                table@.len() == i,
                forall|j: int| 0 <= j < i ==> #[trigger] table@[j] == mapped_index(palette@, slice_opt_view(trns), j),
            decreases 256 - i,
        {
            let v = if i < count {
                let alpha = match trns {
                    Some(t) => if i < t.len() {
                        t[i]
                    } else {
                        255
                    },
                    None => 255,
                };
                if alpha == 0 {
                    0
                } else {
                    lut[pack_rgb(palette[3 * i], palette[3 * i + 1], palette[3 * i + 2]) as usize]
                }
            } else {
                UNMAPPED
            };
            table.push(v);
            i += 1;
        }
        PixelMapper { table }
    }

    /// The canonical index of a local index.
    pub fn map(&self, index: u8) -> (r: u8)
        requires
            self.mapping().len() == 256,
        ensures
            r == self.mapping()[index as int],
    {
        self.table[index as usize]
    }
}

/// Reads sample `i` of packed data of depth `d`.
fn sample_at(data: &[u8], d: u8, i: u64) -> (r: u8)
    requires
        depth_ok(d),
        (i as int) < data@.len() * pixels_per_byte(d),
    ensures
        r == sample(data@, d, i as int),
{
    if d == 8 {
        data[i as usize]
    } else if d == 4 {
        let b = data[(i / 2) as usize];
        if i % 2 == 0 {
            b >> 4u8
        } else {
            b & 0x0f
        }
    } else if d == 2 {
        let b = data[(i / 4) as usize];
        (b >> ((6 - 2 * (i % 4)) as u8)) & 3
    } else {
        let b = data[(i / 8) as usize];
        (b >> ((7 - i % 8) as u8)) & 1
    }
}

/// Maps a decoded PNG onto canonical indices: unpacks samples of depth 1, 2
/// or 4, and maps each through the image's pixel mapper.
pub fn decode_png_image(img: &DecodedPng, lut: &Vec<u8>) -> (r: Result<Vec<u8>, ErrorKind>)
    requires
        is_lookup_table(lut@),
    ensures
        match canonical_image(img.view()) {
            Ok(s) => r matches Ok(v) && v@ == s,
            Err(e) => r == Err::<Vec<u8>, ErrorKind>(e),
        },
{
    let palette = match &img.palette {
        Some(p) => p,
        None => return Err(ErrorKind::Decode),
    };
    let d = img.bit_depth;
    let w = img.width;
    if !img.indexed || !(d == 1 || d == 2 || d == 4 || d == 8) || palette.len() % 3 != 0 || !(d == 8 || (d
        == 4 && w % 2 == 0) || (d == 2 && w % 4 == 0) || (d == 1 && w % 8 == 0)) {
        return Err(ErrorKind::Decode);
    }
    assert(img.width as int * img.height as int <= u64::MAX) by (nonlinear_arith);
    let n: u64 = img.width as u64 * img.height as u64;
    let pb: u64 = if d == 1 {
        8
    } else if d == 2 {
        4
    } else if d == 4 {
        2
    } else {
        1
    };
    let len = img.data.len() as u128;
    assert(len <= 0xffff_ffff_ffff_ffffu128);
    assert(len * (pb as u128) <= u128::MAX) by (nonlinear_arith)
        requires
            len <= 0xffff_ffff_ffff_ffffu128,
            pb <= 8,
    ;
    if len * (pb as u128) < (n as u128) {
        return Err(ErrorKind::Decode);
    }
    let trns = match &img.trns {
        Some(t) => Some(t.as_slice()),
        None => None,
    };
    let mapper = PixelMapper::new(palette.as_slice(), trns, lut);
    let ghost pal = palette@;
    let ghost out_spec = Seq::new(
        n as nat,
        |i: int| mapped_index(pal, img.view().trns, sample(img.data@, d, i) as int),
    );
    let mut out: Vec<u8> = Vec::new();
    let mut i: u64 = 0;
    while i < n
        invariant
            i <= n,
            n == img.width as int * img.height as int,
            depth_ok(d),
            d == img.bit_depth,
            pb == pixels_per_byte(d),
            img.data@.len() * pb >= n,
            mapper.mapping().len() == 256,
            slice_opt_view(trns) == img.view().trns,
            img.view().palette == Some(pal),
            img.view().indexed,
            pal.len() % 3 == 0,
            forall|j: int| 0 <= j < 256 ==> #[trigger] mapper.mapping()[j] == mapped_index(pal, img.view().trns, j),
            out_spec == Seq::new(
                n as nat,
                |i: int| mapped_index(pal, img.view().trns, sample(img.data@, d, i) as int),
            ),
            out@ =~= out_spec.take(i as int),
            forall|j: int| 0 <= j < i ==> #[trigger] out_spec[j] != UNMAPPED,
        decreases n - i,
    {
        let smp = sample_at(img.data.as_slice(), d, i);
        let v = mapper.map(smp);
        assert(v == out_spec[i as int]) by {
            assert(smp == sample(img.data@, d, i as int));
            assert(mapper.mapping()[smp as int] == mapped_index(pal, img.view().trns, smp as int));
        }
        if v == UNMAPPED {
            assert(img.view().palette == Some(pal));
            assert(0 <= i < n && out_spec[i as int] == UNMAPPED);
            assert(exists|j: int| 0 <= j < n && #[trigger] out_spec[j] == UNMAPPED);
            return Err(ErrorKind::Decode);
        }
        out.push(v);
        i += 1;
    }
    assert(out@ =~= out_spec);
    Ok(out)
}

/// Decodes a PNG file to its canonical buffer.
pub fn read_png(bytes: &[u8], lut: &Vec<u8>) -> (r: Result<Vec<u8>, ErrorKind>)
    requires
        is_lookup_table(lut@),
    ensures
        match png_decoded(bytes@) {
            None => r == Err::<Vec<u8>, ErrorKind>(ErrorKind::Decode),
            Some(p) => match canonical_image(p) {
                Ok(s) => r matches Ok(v) && v@ == s,
                Err(e) => r == Err::<Vec<u8>, ErrorKind>(e),
            },
        },
{
    let img = png_decode(bytes)?;
    decode_png_image(&img, lut)
}

/// Decodes a chunk PNG, which must be 1000x1000, to its canonical buffer.
pub fn read_chunk_png(bytes: &[u8], lut: &Vec<u8>) -> (r: Result<Vec<u8>, ErrorKind>)
    requires
        is_lookup_table(lut@),
    ensures
        match png_decoded(bytes@) {
            None => r == Err::<Vec<u8>, ErrorKind>(ErrorKind::Decode),
            Some(p) => match chunk_image(p) {
                Ok(s) => r matches Ok(v) && v@ == s,
                Err(e) => r == Err::<Vec<u8>, ErrorKind>(e),
            },
        },
{
    let img = png_decode(bytes)?;
    if img.width != CHUNK_WIDTH as u32 || img.height != CHUNK_WIDTH as u32 {
        return Err(ErrorKind::Decode);
    }
    decode_png_image(&img, lut)
}

/// Byte `c` (0 red, 1 green, 2 blue) of a packed color.
pub open spec fn channel(color: u32, c: int) -> u8 {
    if c == 0 {
        ((color >> 16u32) & 0xff) as u8
    } else if c == 1 {
        ((color >> 8u32) & 0xff) as u8
    } else {
        (color & 0xff) as u8
    }
}

/// The global palette as the RGB triples of a PNG palette chunk.
pub open spec fn palette_bytes_seq() -> Seq<u8> {
    Seq::new(192, |k: int| channel(global_rgb(k / 3), k % 3))
}

/// The transparency chunk written with every image: index 0 transparent.
pub open spec fn trns_seq() -> Seq<u8> {
    seq![0u8]
}

/// The global palette as the RGB triples of a PNG palette chunk.
pub fn palette_bytes() -> (r: Vec<u8>)
    ensures
        r@ == palette_bytes_seq(),
{
    let mut r: Vec<u8> = Vec::with_capacity(192);
    let mut i: usize = 0;
    while i < 64
        invariant
            i <= 64,
            r@ =~= palette_bytes_seq().take(3 * i as int),
        decreases 64 - i,
    {
        let c = global_color(i);
        r.push(((c >> 16u32) & 0xff) as u8);
        r.push(((c >> 8u32) & 0xff) as u8);
        r.push((c & 0xff) as u8);
        i += 1;
    }
    r
}

/// Encodes a canonical buffer of the given size as an 8-bit indexed PNG with
/// the global palette, index 0 transparent.
pub fn write_png(dimension: (u32, u32), index_data: &[u8]) -> (r: Result<Vec<u8>, ErrorKind>)
    ensures
        match r {
            Ok(v) => png_encoded(dimension.0, dimension.1, palette_bytes_seq(), trns_seq(), index_data@)
                == Some(v@),
            Err(e) => e == ErrorKind::Encode && png_encoded(
                dimension.0,
                dimension.1,
                palette_bytes_seq(),
                trns_seq(),
                index_data@,
            ) is None,
        },
{
    let palette = palette_bytes();
    let trns: Vec<u8> = vec![0u8];
    assert(trns@ =~= trns_seq());
    png_encode_indexed(dimension.0, dimension.1, palette.as_slice(), trns.as_slice(), index_data)
}

/// Encodes a 1000x1000 canonical chunk buffer as a PNG.
pub fn write_chunk_png(buf: &[u8]) -> (r: Result<Vec<u8>, ErrorKind>)
    ensures
        match r {
            Ok(v) => png_encoded(1000, 1000, palette_bytes_seq(), trns_seq(), buf@) == Some(v@),
            Err(e) => e == ErrorKind::Encode && png_encoded(1000, 1000, palette_bytes_seq(), trns_seq(), buf@) is None,
        },
{
    write_png((CHUNK_WIDTH as u32, CHUNK_WIDTH as u32), buf)
}

/// What a reader finds in the PNG that `write_png` makes of `b`: an 8-bit
/// indexed image with the global palette, index 0 transparent, and `b` as
/// its samples.
pub open spec fn written_view(width: u32, height: u32, b: Seq<u8>) -> PngView {
    PngView {
        width,
        height,
        bit_depth: 8,
        indexed: true,
        palette: Some(palette_bytes_seq()),
        trns: Some(trns_seq()),
        data: b,
    }
}

/// A canonical buffer written with the global palette and read back through
/// the palette mapping is unchanged: every index maps to itself.
pub proof fn lemma_palette_round_trip(b: Seq<u8>, width: u32, height: u32)
    requires
        is_canonical(b),
        b.len() == width as int * height as int,
    ensures
        canonical_image(written_view(width, height, b)) == Ok::<Seq<u8>, ErrorKind>(b),
{
    lemma_global_index_inverse();
    let p = written_view(width, height, b);
    let pal = palette_bytes_seq();
    let n = width as int * height as int;
    let out = Seq::new(n as nat, |i: int| mapped_index(pal, p.trns, sample(p.data, 8, i) as int));
    assert forall|i: int| 0 <= i < n implies #[trigger] out[i] == b[i] by {
        let v = b[i] as int;
        assert(v <= 63);
        if v >= 1 {
            let c = global_rgb(v);
            assert(c < 0x1000000);
            assert(pal[3 * v] == channel(c, 0));
            assert(pal[3 * v + 1] == channel(c, 1));
            assert(pal[3 * v + 2] == channel(c, 2));
            assert(spec_pack_rgb(channel(c, 0), channel(c, 1), channel(c, 2)) == c) by {
                assert(c < 0x1000000 ==> ((((c >> 16u32) & 0xff) as u8 as u32) << 16u32) | ((((c >> 8u32)
                    & 0xff) as u8 as u32) << 8u32) | (((c & 0xff) as u8) as u32) == c) by (bit_vector);
            }
        }
    }
    assert(out =~= b);
}

/// A PNG file that the decoder reads as the image `write_png` was given for
/// a canonical buffer `b` (8-bit samples `b`, the global palette, index 0
/// transparent) is read back by `read_png` as `b` itself.
pub proof fn lemma_read_written_png(bytes: Seq<u8>, b: Seq<u8>, width: u32, height: u32)
    requires
        is_canonical(b),
        b.len() == width as int * height as int,
        png_decoded(bytes) == Some(written_view(width, height, b)),
    ensures
        match png_decoded(bytes) {
            None => false,
            Some(p) => canonical_image(p) == Ok::<Seq<u8>, ErrorKind>(b),
        },
{
    lemma_palette_round_trip(b, width, height);
}

} // verus!
