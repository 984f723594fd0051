//! Reading a PNG: chunk framing, `IHDR`, `PLTE`/`tRNS`, and turning
//! reconstructed pixels into a [`Bitmap`].
//!
//! Covered: 8-bit greyscale, RGB, palette, grey+alpha and RGBA, interlaced
//! or not, with `tRNS` transparency. Other bit depths are refused as
//! unsupported. Every chunk's CRC is checked, every length is checked
//! against what is left of the input, and every lookup that depends on the
//! file's own claims is checked, so any input comes back as a value, never
//! a panic.

use vstd::prelude::*;
use crate::digits::{decimal_text, push_decimal};
use crate::raster::bitmap::{argb, argb_spec, Bitmap};
use crate::raster::color::{from_rgb, from_rgb_spec};
use crate::raster::png::checksum::{crc32, crc32_spec};
use crate::raster::png::encode::signature;
use crate::raster::png::inflate::{zlib_decompress, zlib_result};
use crate::raster::png::filter::{adam7_passes, adam7_spec, filters_known, pass_dims, pass_extent, recon, unfilter, Adam7Pass};

verus! {

/// The largest width or height the decoder acts on, checked from `IHDR`
/// before anything is allocated.
pub const MAX_DIMENSION: u32 = 16_384;

/// Why [`decode`] could not read a PNG.
#[derive(Debug, Clone, Copy, PartialEq, Eq, Structural)]
pub enum DecodeError {
    /// Missing the eight-byte PNG signature.
    NotAPng,
    /// A chunk's declared length, or the file itself, ends before it should.
    Truncated,
    /// A chunk's CRC does not match its bytes.
    Corrupt,
    /// `IHDR` is missing, is not the file's first chunk, or is the wrong size.
    BadHeader,
    /// A bit depth or colour type this decoder does not read.
    Unsupported { bit_depth: u8, color_type: u8 },
    /// `IHDR` declares a width or height past [`MAX_DIMENSION`].
    ImageTooLarge { width: u32, height: u32 },
    /// `PLTE` or `tRNS` is the wrong size for what `IHDR` declared.
    BadChunk,
    /// A palette-colour pixel references an entry `PLTE` never defined.
    BadPaletteIndex,
    /// The `IDAT` stream is malformed, too short, or expands past what
    /// `IHDR` says the image needs.
    BadCompression,
}

impl DecodeError {
    /// A sentence describing the error.
    pub fn message(&self) -> (result: String)
        ensures
            result@ == decode_error_text(*self),
    {
        match self {
            DecodeError::NotAPng => "not a PNG file".to_owned(),
            DecodeError::Truncated => "truncated PNG".to_owned(),
            DecodeError::Corrupt => "chunk CRC mismatch".to_owned(),
            DecodeError::BadHeader => "missing or malformed IHDR".to_owned(),
            DecodeError::Unsupported { bit_depth, color_type } => {
                let mut text = "unsupported bit depth ".to_owned();
                push_decimal(&mut text, *bit_depth as u64);
                text.append(" / colour type ");
                push_decimal(&mut text, *color_type as u64);
                text
            },
            DecodeError::ImageTooLarge { width, height } => {
                let mut text = String::new();
                push_decimal(&mut text, *width as u64);
                text.append("x");
                push_decimal(&mut text, *height as u64);
                text.append(" exceeds the 16384x16384 limit");
                text
            },
            DecodeError::BadChunk => "malformed PLTE or tRNS chunk".to_owned(),
            DecodeError::BadPaletteIndex => "palette index with no PLTE entry".to_owned(),
            DecodeError::BadCompression => "malformed IDAT stream".to_owned(),
        }
    }
}

/// The sentence describing a decoding error.
pub open spec fn decode_error_text(error: DecodeError) -> Seq<char> {
    match error {
        DecodeError::NotAPng => "not a PNG file"@,
        DecodeError::Truncated => "truncated PNG"@,
        DecodeError::Corrupt => "chunk CRC mismatch"@,
        DecodeError::BadHeader => "missing or malformed IHDR"@,
        DecodeError::Unsupported { bit_depth, color_type } =>
            "unsupported bit depth "@ + decimal_text(bit_depth as nat) + " / colour type "@ + decimal_text(color_type as nat),
        DecodeError::ImageTooLarge { width, height } =>
            Seq::<char>::empty() + decimal_text(width as nat) + "x"@ + decimal_text(height as nat) + " exceeds the 16384x16384 limit"@,
        DecodeError::BadChunk => "malformed PLTE or tRNS chunk"@,
        DecodeError::BadPaletteIndex => "palette index with no PLTE entry"@,
        DecodeError::BadCompression => "malformed IDAT stream"@,
    }
}

/// What `IHDR` declares, once checked.
#[derive(Debug, Clone, Copy, PartialEq, Eq, Structural)]
pub struct Header {
    pub width: u32,
    pub height: u32,
    pub color_type: u8,
    pub interlace: u8,
}

/// Bytes (and channels) per pixel of a colour type the decoder reads.
pub open spec fn channels_spec(color_type: u8) -> Option<usize> {
    match color_type {
        0 => Some(1usize),
        2 => Some(3usize),
        3 => Some(1usize),
        4 => Some(2usize),
        6 => Some(4usize),
        _ => None,
    }
}

/// Channels per pixel for a colour type this decoder reads: grey, RGB,
/// palette index, grey + alpha, RGBA.
pub fn channels(color_type: u8) -> (result: Option<usize>)
    ensures
        result == channels_spec(color_type),
{
    match color_type {
        0 => Some(1),
        2 => Some(3),
        3 => Some(1),
        4 => Some(2),
        6 => Some(4),
        _ => None,
    }
}

/// The big-endian number in bytes `at..at + 4`.
pub open spec fn be32_of(data: Seq<u8>, at: int) -> u32 {
    (data[at] * 0x0100_0000 + data[at + 1] * 0x1_0000 + data[at + 2] * 256 + data[at + 3]) as u32
}

/// What [`parse_header`] makes of an `IHDR` body.
pub open spec fn header_result(data: Seq<u8>) -> Result<Header, DecodeError> {
    if data.len() != 13 {
        Err(DecodeError::BadHeader)
    } else {
        let width = be32_of(data, 0);
        let height = be32_of(data, 4);
        let bit_depth = data[8];
        let color_type = data[9];
        if width == 0 || height == 0 || data[10] != 0 || data[11] != 0 || data[12] > 1 {
            Err(DecodeError::BadHeader)
        } else if width > MAX_DIMENSION || height > MAX_DIMENSION {
            Err(DecodeError::ImageTooLarge { width, height })
        } else if bit_depth != 8 || channels_spec(color_type) is None {
            Err(DecodeError::Unsupported { bit_depth, color_type })
        } else {
            Ok(Header { width, height, color_type, interlace: data[12] })
        }
    }
}

fn read_be32(data: &[u8], at: usize) -> (result: u32)
    requires
        at + 4 <= data@.len(),
    ensures
        result == be32_of(data@, at as int),
{
    let b0 = data[at] as u32;
    let b1 = data[at + 1] as u32;
    let b2 = data[at + 2] as u32;
    let b3 = data[at + 3] as u32;
    let r = (b0 << 24) | (b1 << 16) | (b2 << 8) | b3;
    assert(r == (b0 * 0x0100_0000 + b1 * 0x1_0000 + b2 * 256 + b3) as u32) by (bit_vector)
        requires b0 < 256, b1 < 256, b2 < 256, b3 < 256, r == (b0 << 24) | (b1 << 16) | (b2 << 8) | b3;
    r
}

/// Check an `IHDR` body: 13 bytes, a non-zero size within
/// [`MAX_DIMENSION`], compression and filter method 0, interlace 0 or 1,
/// bit depth 8 and a colour type [`channels`] knows.
pub fn parse_header(data: &[u8]) -> (result: Result<Header, DecodeError>)
    ensures
        result == header_result(data@),
{
    if data.len() != 13 {
        return Err(DecodeError::BadHeader);
    }
    let width = read_be32(data, 0);
    let height = read_be32(data, 4);
    let bit_depth = data[8];
    let color_type = data[9];
    let compression = data[10];
    let filter_method = data[11];
    let interlace = data[12];
    if width == 0 || height == 0 || compression != 0 || filter_method != 0 || interlace > 1 {
        return Err(DecodeError::BadHeader);
    }
    if width > MAX_DIMENSION || height > MAX_DIMENSION {
        return Err(DecodeError::ImageTooLarge { width, height });
    }
    if bit_depth != 8 || channels(color_type).is_none() {
        return Err(DecodeError::Unsupported { bit_depth, color_type });
    }
    Ok(Header { width, height, color_type, interlace })
}

/// The palette entries laid out flat, three bytes each.
pub open spec fn flat_palette(entries: Seq<[u8; 3]>) -> Seq<u8> {
    Seq::new(entries.len() * 3, |j: int| entries[j / 3]@[j % 3])
}

/// Split a `PLTE` body into RGB entries; refused unless it is a non-empty
/// whole number of entries.
pub fn parse_palette(data: &[u8]) -> (result: Result<Vec<[u8; 3]>, DecodeError>)
    ensures
        result is Ok <==> (data@.len() > 0 && data@.len() % 3 == 0),
        result is Err ==> result == Err::<Vec<[u8; 3]>, DecodeError>(DecodeError::BadChunk),
        result matches Ok(entries) ==> flat_palette(entries@) == data@,
{
    if data.len() == 0 || data.len() % 3 != 0 {
        return Err(DecodeError::BadChunk);
    }
    let mut entries: Vec<[u8; 3]> = Vec::new();
    let mut i: usize = 0;
    while i < data.len() / 3
        invariant
            data@.len() % 3 == 0,
            i <= data@.len() / 3,
            entries@.len() == i,
            forall|j: int| 0 <= j < 3 * i ==> #[trigger] flat_palette(entries@)[j] == data@[j],
        decreases data@.len() / 3 - i,
    {
        let entry = [data[3 * i], data[3 * i + 1], data[3 * i + 2]];
        assert(entry@[0] == data@[3 * i] && entry@[1] == data@[3 * i + 1] && entry@[2] == data@[3 * i + 2]);
        let ghost before = entries@;
        entries.push(entry);
        i = i + 1;
        proof {
            assert forall|j: int| 0 <= j < 3 * i implies #[trigger] flat_palette(entries@)[j] == data@[j] by {
                assert(0 <= j / 3 < i && 0 <= j % 3 < 3 && j == 3 * (j / 3) + j % 3) by (nonlinear_arith)
                    requires 0 <= j < 3 * i;
                if j / 3 < i - 1 {
                    assert(flat_palette(before)[j] == data@[j]);
                    assert(entries@[j / 3] == before[j / 3]);
                } else {
                    assert(entries@[j / 3] == entry);
                }
            }
        }
    }
    assert(flat_palette(entries@) =~= data@);
    Ok(entries)
}

/// The sample value (or triple) `tRNS` marks fully transparent for the
/// colour types without an alpha channel, or one alpha byte per palette
/// entry.
pub enum Transparency {
    Grey(u8),
    Rgb(u8, u8, u8),
    Palette(Vec<u8>),
}

/// A [`Transparency`] as spec values.
pub enum TransparencyView {
    Grey(u8),
    Rgb(u8, u8, u8),
    Palette(Seq<u8>),
}

impl View for Transparency {
    type V = TransparencyView;

    open spec fn view(&self) -> TransparencyView {
        match self {
            Transparency::Grey(g) => TransparencyView::Grey(*g),
            Transparency::Rgb(r, g, b) => TransparencyView::Rgb(*r, *g, *b),
            Transparency::Palette(a) => TransparencyView::Palette(a@),
        }
    }
}

/// What [`parse_trns`] makes of a `tRNS` body for a colour type: the grey
/// key from a two-byte sample, the RGB key from three two-byte samples (only
/// the low byte of each matters at 8 bits), or the palette alphas.
pub open spec fn trns_result(data: Seq<u8>, color_type: u8) -> Result<TransparencyView, DecodeError> {
    if color_type == 0 && data.len() == 2 {
        Ok(TransparencyView::Grey(data[1]))
    } else if color_type == 2 && data.len() == 6 {
        Ok(TransparencyView::Rgb(data[1], data[3], data[5]))
    } else if color_type == 3 {
        Ok(TransparencyView::Palette(data))
    } else {
        Err(DecodeError::BadChunk)
    }
}

/// Read a `tRNS` body for the image's colour type.
pub fn parse_trns(data: &[u8], color_type: u8) -> (result: Result<Transparency, DecodeError>)
    ensures
        match trns_result(data@, color_type) {
            Ok(v) => result matches Ok(t) && t@ == v,
            Err(e) => result matches Err(x) && x == e,
        },
{
    if color_type == 0 && data.len() == 2 {
        Ok(Transparency::Grey(data[1]))
    } else if color_type == 2 && data.len() == 6 {
        Ok(Transparency::Rgb(data[1], data[3], data[5]))
    } else if color_type == 3 {
        let mut alphas: Vec<u8> = Vec::new();
        crate::raster::png::bytes::push_all(&mut alphas, data);
        assert(alphas@ =~= data@);
        Ok(Transparency::Palette(alphas))
    } else {
        Err(DecodeError::BadChunk)
    }
}

/// The bitmap word for one pixel's sample bytes: colour from the sample (or
/// the palette entry it indexes), alpha from its own channel, from `tRNS`,
/// or opaque. A palette index with no entry is an error.
pub open spec fn pixel_value(
    sample: Seq<u8>,
    color_type: u8,
    palette: Option<Seq<u8>>,
    trns: Option<TransparencyView>,
) -> Result<u32, DecodeError> {
    if color_type == 0 {
        let g = sample[0];
        let alpha: u8 = match trns {
            Some(TransparencyView::Grey(v)) => if v == g { 0 } else { 255 },
            _ => 255,
        };
        Ok(argb_spec(alpha, from_rgb_spec(g, g, g)))
    } else if color_type == 2 {
        let alpha: u8 = match trns {
            Some(TransparencyView::Rgb(r, g, b)) => if r == sample[0] && g == sample[1] && b == sample[2] { 0 } else { 255 },
            _ => 255,
        };
        Ok(argb_spec(alpha, from_rgb_spec(sample[0], sample[1], sample[2])))
    } else if color_type == 3 {
        let index = sample[0] as int;
        match palette {
            None => Err(DecodeError::BadPaletteIndex),
            Some(p) => if 3 * index + 3 > p.len() {
                Err(DecodeError::BadPaletteIndex)
            } else {
                let alpha: u8 = match trns {
                    Some(TransparencyView::Palette(a)) => if index < a.len() { a[index] } else { 255 },
                    _ => 255,
                };
                Ok(argb_spec(alpha, from_rgb_spec(p[3 * index], p[3 * index + 1], p[3 * index + 2])))
            },
        }
    } else if color_type == 4 {
        Ok(argb_spec(sample[1], from_rgb_spec(sample[0], sample[0], sample[0])))
    } else {
        Ok(argb_spec(sample[3], from_rgb_spec(sample[0], sample[1], sample[2])))
    }
}

/// The palette as flat bytes, if there is one.
pub open spec fn palette_view(palette: Option<&[[u8; 3]]>) -> Option<Seq<u8>> {
    match palette {
        Some(p) => Some(flat_palette(p@)),
        None => None,
    }
}

/// The transparency as spec values, if there is one.
pub open spec fn trns_view(trns: Option<&Transparency>) -> Option<TransparencyView> {
    match trns {
        Some(t) => Some(t@),
        None => None,
    }
}

/// Decode one pixel's sample bytes; see [`pixel_value`].
fn decode_pixel(
    sample: &[u8],
    color_type: u8,
    palette: Option<&[[u8; 3]]>,
    trns: Option<&Transparency>,
) -> (result: Result<u32, DecodeError>)
    requires
        channels_spec(color_type) matches Some(n) && sample@.len() >= n,
    ensures
        result == pixel_value(sample@, color_type, palette_view(palette), trns_view(trns)),
{
    if color_type == 0 {
        let g = sample[0];
        let alpha: u8 = match trns {
            Some(Transparency::Grey(v)) => if *v == g { 0 } else { 255 },
            _ => 255,
        };
        Ok(argb(alpha, from_rgb(g, g, g)))
    } else if color_type == 2 {
        let (r, g, b) = (sample[0], sample[1], sample[2]);
        let alpha: u8 = match trns {
            Some(Transparency::Rgb(tr, tg, tb)) => if *tr == r && *tg == g && *tb == b { 0 } else { 255 },
            _ => 255,
        };
        Ok(argb(alpha, from_rgb(r, g, b)))
    } else if color_type == 3 {
        let index = sample[0] as usize;
        let entries = match palette {
            Some(p) => p,
            None => return Err(DecodeError::BadPaletteIndex),
        };
        if index >= entries.len() {
            return Err(DecodeError::BadPaletteIndex);
        }
        let entry = entries[index];
        proof {
            let flat = flat_palette(entries@);
            assert(flat[3 * index as int] == entry@[0]) by {
                assert((3 * index as int) / 3 == index && (3 * index as int) % 3 == 0) by (nonlinear_arith);
            }
            assert(flat[3 * index + 1] == entry@[1]) by {
                assert((3 * index + 1) / 3 == index as int && (3 * index + 1) % 3 == 1) by (nonlinear_arith);
            }
            assert(flat[3 * index + 2] == entry@[2]) by {
                assert((3 * index + 2) / 3 == index as int && (3 * index + 2) % 3 == 2) by (nonlinear_arith);
            }
        }
        let alpha: u8 = match trns {
            Some(Transparency::Palette(alphas)) => if index < alphas.len() { alphas[index] } else { 255 },
            _ => 255,
        };
        Ok(argb(alpha, from_rgb(entry[0], entry[1], entry[2])))
    } else if color_type == 4 {
        Ok(argb(sample[1], from_rgb(sample[0], sample[0], sample[0])))
    } else {
        Ok(argb(sample[3], from_rgb(sample[0], sample[1], sample[2])))
    }
}

/// Where a pass's pixels come from: the unfiltered sample bytes, how many
/// bytes a pixel takes, and how to turn a sample into a word.
pub struct PassSource {
    pub bytes: Seq<u8>,
    pub bpp: int,
    pub color_type: u8,
    pub palette: Option<Seq<u8>>,
    pub trns: Option<TransparencyView>,
}

/// The word for pixel `(row, col)` of a pass `pw` pixels wide.
pub open spec fn pass_pixel(src: PassSource, pw: int, row: int, col: int) -> Result<u32, DecodeError> {
    let at = (row * pw + col) * src.bpp;
    pixel_value(src.bytes.subrange(at, at + src.bpp), src.color_type, src.palette, src.trns)
}

/// Every pixel of a `pw × ph` pass decodes.
pub open spec fn pass_decodes(src: PassSource, pw: int, ph: int) -> bool {
    forall|row: int, col: int| 0 <= row < ph && 0 <= col < pw ==> #[trigger] pass_pixel(src, pw, row, col) is Ok
}

/// Whether word `j` of a `width`-wide image lies on the `pw × ph` grid of
/// `pass`.
pub open spec fn on_grid(j: int, width: int, pass: Adam7Pass, pw: int, ph: int) -> bool {
    let x = j % width;
    let y = j / width;
    &&& x >= pass.x0 && (x - pass.x0) % (pass.dx as int) == 0 && (x - pass.x0) / (pass.dx as int) < pw
    &&& y >= pass.y0 && (y - pass.y0) % (pass.dy as int) == 0 && (y - pass.y0) / (pass.dy as int) < ph
}

/// The pass row and column of a word on its grid.
pub open spec fn grid_row(j: int, width: int, pass: Adam7Pass) -> int {
    (j / width - pass.y0) / (pass.dy as int)
}

/// The pass column of a word on its grid.
pub open spec fn grid_col(j: int, width: int, pass: Adam7Pass) -> int {
    (j % width - pass.x0) / (pass.dx as int)
}

/// The words after the first `k` pixels (row-major) of a decoded pass are
/// written onto `before`.
pub open spec fn write_pass_upto(before: Seq<u32>, width: int, pass: Adam7Pass, pw: int, ph: int, src: PassSource, k: int) -> Seq<u32> {
    Seq::new(before.len(), |j: int|
        if on_grid(j, width, pass, pw, ph) && grid_row(j, width, pass) * pw + grid_col(j, width, pass) < k {
            match pass_pixel(src, pw, grid_row(j, width, pass), grid_col(j, width, pass)) {
                Ok(v) => v,
                Err(_) => 0u32,
            }
        } else {
            before[j]
        })
}

/// The words after a whole decoded pass is written onto `before`.
pub open spec fn write_pass(before: Seq<u32>, width: int, pass: Adam7Pass, pw: int, ph: int, src: PassSource) -> Seq<u32> {
    write_pass_upto(before, width, pass, pw, ph, src, pw * ph)
}

/// The word index of grid point `(row, col)`, and the grid coordinates it
/// maps back to.
proof fn lemma_grid_point(width: int, pass: Adam7Pass, pw: int, ph: int, row: int, col: int)
    requires
        width > 0,
        pass.dx > 0,
        pass.dy > 0,
        0 <= row < ph,
        0 <= col < pw,
        pass.x0 + col * pass.dx < width,
    ensures
        ({
            let j = (pass.y0 + row * pass.dy) * width + pass.x0 + col * pass.dx;
            &&& on_grid(j, width, pass, pw, ph)
            &&& grid_row(j, width, pass) == row
            &&& grid_col(j, width, pass) == col
        }),
{
    let x = pass.x0 + col * pass.dx;
    let y = pass.y0 + row * pass.dy;
    assert(0 <= row * pass.dy && 0 <= col * pass.dx) by (nonlinear_arith) requires row >= 0, col >= 0, pass.dx > 0, pass.dy > 0;
    vstd::arithmetic::div_mod::lemma_fundamental_div_mod_converse(y * width + x, width, y, x);
    assert(y * width == width * y) by (nonlinear_arith);
    vstd::arithmetic::div_mod::lemma_fundamental_div_mod_converse(col * pass.dx, pass.dx as int, col, 0);
    assert(col * pass.dx == pass.dx * col) by (nonlinear_arith);
    vstd::arithmetic::div_mod::lemma_fundamental_div_mod_converse(row * pass.dy, pass.dy as int, row, 0);
    assert(row * pass.dy == pass.dy * row) by (nonlinear_arith);
}

/// A word on the grid is the grid point its coordinates name.
pub(crate) proof fn lemma_grid_inverse(j: int, width: int, pass: Adam7Pass, pw: int, ph: int)
    requires
        width > 0,
        pass.dx > 0,
        pass.dy > 0,
        j >= 0,
        on_grid(j, width, pass, pw, ph),
    ensures
        j == (pass.y0 + grid_row(j, width, pass) * pass.dy) * width + pass.x0 + grid_col(j, width, pass) * pass.dx,
        0 <= grid_row(j, width, pass) < ph,
        0 <= grid_col(j, width, pass) < pw,
{
    let x = j % width;
    let y = j / width;
    vstd::arithmetic::div_mod::lemma_fundamental_div_mod(j, width);
    vstd::arithmetic::div_mod::lemma_fundamental_div_mod(x - pass.x0, pass.dx as int);
    vstd::arithmetic::div_mod::lemma_fundamental_div_mod(y - pass.y0, pass.dy as int);
    assert(width * y == y * width) by (nonlinear_arith);
    let r = grid_row(j, width, pass);
    let c = grid_col(j, width, pass);
    assert(pass.dx * c == c * pass.dx) by (nonlinear_arith);
    assert(pass.dy * r == r * pass.dy) by (nonlinear_arith);
    assert(0 <= x - pass.x0 && 0 <= y - pass.y0);
    assert(0 <= r && 0 <= c) by (nonlinear_arith)
        requires r == (y - pass.y0) / (pass.dy as int), c == (x - pass.x0) / (pass.dx as int), 0 <= x - pass.x0, 0 <= y - pass.y0, pass.dx > 0, pass.dy > 0;
}

/// Two pixels of a pass with different grid coordinates have different
/// row-major order.
proof fn lemma_order_unique(pw: int, r1: int, c1: int, r2: int, c2: int)
    requires
        0 <= c1 < pw,
        0 <= c2 < pw,
        0 <= r1,
        0 <= r2,
        r1 * pw + c1 == r2 * pw + c2,
    ensures
        r1 == r2,
        c1 == c2,
{
    if r1 < r2 {
        assert(r1 * pw + pw <= r2 * pw) by (nonlinear_arith) requires r1 < r2, pw > 0;
    } else if r2 < r1 {
        assert(r2 * pw + pw <= r1 * pw) by (nonlinear_arith) requires r2 < r1, pw > 0;
    }
}

/// Decode a pass's pixels and write them at their places in `bitmap`.
#[verifier::rlimit(30)]
fn scatter_pass(
    bitmap: &mut Bitmap,
    pass: &Adam7Pass,
    pw: u32,
    ph: u32,
    pixels: &[u8],
    color_type: u8,
    bpp: usize,
    palette: Option<&[[u8; 3]]>,
    trns: Option<&Transparency>,
) -> (result: Result<(), DecodeError>)
    requires
        old(bitmap).wf(),
        old(bitmap).width > 0,
        old(bitmap).width <= MAX_DIMENSION,
        old(bitmap).height <= MAX_DIMENSION,
        pass.dx > 0,
        pass.dy > 0,
        pw > 0 ==> pass.x0 + (pw - 1) * pass.dx < old(bitmap).width,
        ph > 0 ==> pass.y0 + (ph - 1) * pass.dy < old(bitmap).height,
        channels_spec(color_type) == Some(bpp),
        pw * ph * bpp <= pixels@.len(),
    ensures
        final(bitmap).wf(),
        final(bitmap).width == old(bitmap).width,
        final(bitmap).height == old(bitmap).height,
        ({
            let src = PassSource {
                bytes: pixels@,
                bpp: bpp as int,
                color_type,
                palette: palette_view(palette),
                trns: trns_view(trns),
            };
            &&& result is Ok <==> pass_decodes(src, pw as int, ph as int)
            &&& result is Err ==> result == Err::<(), DecodeError>(DecodeError::BadPaletteIndex)
            &&& result is Ok ==> final(bitmap).pixels@ == write_pass(old(bitmap).pixels@, old(bitmap).width as int, *pass, pw as int, ph as int, src)
        }),
{
    let ghost src = PassSource {
        bytes: pixels@,
        bpp: bpp as int,
        color_type,
        palette: palette_view(palette),
        trns: trns_view(trns),
    };
    let ghost before = bitmap.pixels@;
    let width = bitmap.width;
    let mut row: u32 = 0;
    while row < ph
        invariant
            bitmap.wf(),
            bitmap.width == width,
            width == old(bitmap).width,
            bitmap.height == old(bitmap).height,
            width > 0,
            width <= MAX_DIMENSION,
            bitmap.height <= MAX_DIMENSION,
            before == old(bitmap).pixels@,
            src == (PassSource { bytes: pixels@, bpp: bpp as int, color_type, palette: palette_view(palette), trns: trns_view(trns) }),
            pass.dx > 0,
            pass.dy > 0,
            pw > 0 ==> pass.x0 + (pw - 1) * pass.dx < width,
            ph > 0 ==> pass.y0 + (ph - 1) * pass.dy < bitmap.height,
            channels_spec(color_type) == Some(bpp),
            pw * ph * bpp <= pixels@.len(),
            row <= ph,
            forall|r: int, c: int| 0 <= r < row && 0 <= c < pw ==> #[trigger] pass_pixel(src, pw as int, r, c) is Ok,
            bitmap.pixels@ == write_pass_upto(before, width as int, *pass, pw as int, ph as int, src, row * pw),
        decreases ph - row,
    {
        let mut col: u32 = 0;
        while col < pw
            invariant
                bitmap.wf(),
                bitmap.width == width,
                width == old(bitmap).width,
                bitmap.height == old(bitmap).height,
                width > 0,
                width <= MAX_DIMENSION,
                bitmap.height <= MAX_DIMENSION,
                before == old(bitmap).pixels@,
                src == (PassSource { bytes: pixels@, bpp: bpp as int, color_type, palette: palette_view(palette), trns: trns_view(trns) }),
                pass.dx > 0,
                pass.dy > 0,
                pw > 0 ==> pass.x0 + (pw - 1) * pass.dx < width,
                ph > 0 ==> pass.y0 + (ph - 1) * pass.dy < bitmap.height,
                channels_spec(color_type) == Some(bpp),
                pw * ph * bpp <= pixels@.len(),
                row < ph,
                col <= pw,
                forall|r: int, c: int| (0 <= r < row && 0 <= c < pw) || (r == row && 0 <= c < col) ==> #[trigger] pass_pixel(src, pw as int, r, c) is Ok,
                bitmap.pixels@ == write_pass_upto(before, width as int, *pass, pw as int, ph as int, src, row * pw + col),
            decreases pw - col,
        {
            let _len = pixels.len();
            proof {
                assert((row * pw + col) * bpp + bpp <= pw * ph * bpp) by (nonlinear_arith)
                    requires row < ph, col < pw;
                assert(row * pw + col <= (row * pw + col) * bpp) by (nonlinear_arith)
                    requires bpp >= 1, row >= 0, col >= 0, pw >= 0;
                assert(pass.x0 + col * pass.dx < width) by (nonlinear_arith)
                    requires col < pw, pw > 0 ==> pass.x0 + (pw - 1) * pass.dx < width, pass.dx > 0;
                assert(pass.y0 + row * pass.dy < bitmap.height) by (nonlinear_arith)
                    requires row < ph, ph > 0 ==> pass.y0 + (ph - 1) * pass.dy < bitmap.height, pass.dy > 0;
                assert((pass.y0 + row * pass.dy) * width + pass.x0 + col * pass.dx < width * bitmap.height) by (nonlinear_arith)
                    requires pass.x0 + col * pass.dx < width, pass.y0 + row * pass.dy < bitmap.height;
                assert(width * bitmap.height <= MAX_DIMENSION * MAX_DIMENSION) by (nonlinear_arith)
                    requires width <= MAX_DIMENSION, bitmap.height <= MAX_DIMENSION;
            }
            let offset = ((row as usize) * (pw as usize) + col as usize) * bpp;
            let sample = &pixels[offset..offset + bpp];
            assert(sample@ == pixels@.subrange(offset as int, offset + bpp));
            assert(offset == (row * pw + col) * bpp);
            let pixel = match decode_pixel(sample, color_type, palette, trns) {
                Ok(p) => p,
                Err(e) => {
                    proof {
                        assert(pass_pixel(src, pw as int, row as int, col as int) is Err);
                    }
                    return Err(e);
                },
            };
            let x = pass.x0 + col * pass.dx;
            let y = pass.y0 + row * pass.dy;
            let index = (y * width + x) as usize;
            let ghost k = row * pw + col;
            let ghost now = bitmap.pixels@;
            bitmap.pixels.set(index, pixel);
            proof {
                lemma_grid_point(width as int, *pass, pw as int, ph as int, row as int, col as int);
                assert forall|j: int| 0 <= j < before.len() implies #[trigger] bitmap.pixels@[j]
                    == write_pass_upto(before, width as int, *pass, pw as int, ph as int, src, k + 1)[j] by {
                    if j != index {
                        if on_grid(j, width as int, *pass, pw as int, ph as int) {
                            lemma_grid_inverse(j, width as int, *pass, pw as int, ph as int);
                            if grid_row(j, width as int, *pass) * pw + grid_col(j, width as int, *pass) == k {
                                lemma_order_unique(pw as int, grid_row(j, width as int, *pass), grid_col(j, width as int, *pass), row as int, col as int);
                            }
                        }
                        assert(now[j] == write_pass_upto(before, width as int, *pass, pw as int, ph as int, src, k)[j]);
                    }
                }
                assert(bitmap.pixels@ =~= write_pass_upto(before, width as int, *pass, pw as int, ph as int, src, k + 1));
            }
            col = col + 1;
        }
        assert(row * pw + pw == (row + 1) * pw) by (nonlinear_arith);
        row = row + 1;
    }
    proof {
        assert(row * pw == pw * ph) by (nonlinear_arith) requires row == ph;
        assert forall|r: int, c: int| 0 <= r < ph && 0 <= c < pw implies #[trigger] pass_pixel(src, pw as int, r, c) is Ok by {
        }
    }
    Ok(())
}

/// Bytes per pixel of a colour type (0 for one the decoder does not read).
pub open spec fn bpp_of(color_type: u8) -> int {
    match channels_spec(color_type) {
        Some(n) => n as int,
        None => 0,
    }
}

/// The unfiltered bytes of a `pw × ph` pass held, filtered, in `data`.
pub open spec fn unfiltered(data: Seq<u8>, pw: int, ph: int, bpp: int) -> Seq<u8> {
    Seq::new((pw * bpp * ph) as nat, |j: int| recon(data, pw * bpp, bpp, j))
}

/// Whether `data` holds a whole filtered `pw × ph` pass with known filters.
pub open spec fn pass_readable(data: Seq<u8>, pw: int, ph: int, bpp: int) -> bool {
    (pw * bpp + 1) * ph <= data.len() && filters_known(data, pw * bpp, ph)
}

/// A header the decoder accepted.
pub open spec fn header_ok(h: Header) -> bool {
    &&& 0 < h.width <= MAX_DIMENSION
    &&& 0 < h.height <= MAX_DIMENSION
    &&& channels_spec(h.color_type) is Some
    &&& h.interlace <= 1
}

/// The whole-image pass of a non-interlaced image.
pub open spec fn whole_image() -> Adam7Pass {
    Adam7Pass { x0: 0, y0: 0, dx: 1, dy: 1 }
}

/// The Adam7 passes from `i` on, read from `raw` at `cursor` and written
/// onto `pixels`. A pass with no pixels takes no bytes.
pub open spec fn passes_result(
    h: Header,
    raw: Seq<u8>,
    palette: Option<Seq<u8>>,
    trns: Option<TransparencyView>,
    i: int,
    cursor: int,
    pixels: Seq<u32>,
) -> Result<Seq<u32>, DecodeError>
    decreases 7 - i,
{
    if i >= 7 {
        Ok(pixels)
    } else {
        let pass = adam7_spec(i);
        let bpp = bpp_of(h.color_type);
        let pw = pass_extent(h.width as int, pass.x0 as int, pass.dx as int);
        let ph = pass_extent(h.height as int, pass.y0 as int, pass.dy as int);
        if pw == 0 || ph == 0 {
            passes_result(h, raw, palette, trns, i + 1, cursor, pixels)
        } else {
            let size = (pw * bpp + 1) * ph;
            if cursor + size > raw.len() {
                Err(DecodeError::Truncated)
            } else {
                let seg = raw.subrange(cursor, cursor + size);
                if !filters_known(seg, pw * bpp, ph) {
                    Err(DecodeError::Truncated)
                } else {
                    let src = PassSource { bytes: unfiltered(seg, pw, ph, bpp), bpp, color_type: h.color_type, palette, trns };
                    if !pass_decodes(src, pw, ph) {
                        Err(DecodeError::BadPaletteIndex)
                    } else {
                        passes_result(h, raw, palette, trns, i + 1, cursor + size, write_pass(pixels, h.width as int, pass, pw, ph, src))
                    }
                }
            }
        }
    }
}

/// The bitmap words a reconstructed image holds, or why it cannot be read:
/// a non-interlaced image is one pass over the whole image, an interlaced
/// one the seven Adam7 passes in turn; both start from a transparent image.
pub open spec fn reconstruct_result(
    h: Header,
    raw: Seq<u8>,
    palette: Option<Seq<u8>>,
    trns: Option<TransparencyView>,
) -> Result<Seq<u32>, DecodeError> {
    let blank = Seq::new((h.width * h.height) as nat, |j: int| 0u32);
    let bpp = bpp_of(h.color_type);
    if h.interlace == 0 {
        let w = h.width as int;
        let hh = h.height as int;
        if !pass_readable(raw, w, hh, bpp) {
            Err(DecodeError::Truncated)
        } else {
            let src = PassSource { bytes: unfiltered(raw, w, hh, bpp), bpp, color_type: h.color_type, palette, trns };
            if !pass_decodes(src, w, hh) {
                Err(DecodeError::BadPaletteIndex)
            } else {
                Ok(write_pass(blank, w, whole_image(), w, hh, src))
            }
        }
    } else {
        passes_result(h, raw, palette, trns, 0, 0, blank)
    }
}

proof fn lemma_pass_sizes(w: int, h: int, bpp: int, pw: int, ph: int)
    requires
        0 <= pw <= w <= MAX_DIMENSION,
        0 <= ph <= h <= MAX_DIMENSION,
        1 <= bpp <= 4,
    ensures
        pw * bpp + 1 <= 4 * MAX_DIMENSION + 1,
        (pw * bpp + 1) * ph <= (4 * MAX_DIMENSION + 1) * MAX_DIMENSION,
        pw * bpp * ph <= (pw * bpp + 1) * ph,
        pw * ph * bpp == pw * bpp * ph,
{
    assert(pw * bpp <= 4 * MAX_DIMENSION) by (nonlinear_arith) requires 0 <= pw <= MAX_DIMENSION, 1 <= bpp <= 4;
    assert((pw * bpp + 1) * ph <= (4 * MAX_DIMENSION + 1) * MAX_DIMENSION) by (nonlinear_arith)
        requires pw * bpp + 1 <= 4 * MAX_DIMENSION + 1, 0 <= ph <= MAX_DIMENSION, pw * bpp >= 0;
    assert(pw * bpp * ph <= (pw * bpp + 1) * ph) by (nonlinear_arith) requires ph >= 0;
    assert(pw * ph * bpp == pw * bpp * ph) by (nonlinear_arith);
}

/// Unfilter one pass of `data` and write its pixels into `bitmap`.
fn read_pass(
    bitmap: &mut Bitmap,
    pass: &Adam7Pass,
    pw: u32,
    ph: u32,
    data: &[u8],
    color_type: u8,
    bpp: usize,
    palette: Option<&[[u8; 3]]>,
    trns: Option<&Transparency>,
) -> (result: Result<(), DecodeError>)
    requires
        old(bitmap).wf(),
        0 < old(bitmap).width <= MAX_DIMENSION,
        0 < old(bitmap).height <= MAX_DIMENSION,
        pass.dx > 0,
        pass.dy > 0,
        0 < pw <= old(bitmap).width,
        0 < ph <= old(bitmap).height,
        pass.x0 + (pw - 1) * pass.dx < old(bitmap).width,
        pass.y0 + (ph - 1) * pass.dy < old(bitmap).height,
        channels_spec(color_type) == Some(bpp),
    ensures
        final(bitmap).wf(),
        final(bitmap).width == old(bitmap).width,
        final(bitmap).height == old(bitmap).height,
        ({
            let src = PassSource {
                bytes: unfiltered(data@, pw as int, ph as int, bpp as int),
                bpp: bpp as int,
                color_type,
                palette: palette_view(palette),
                trns: trns_view(trns),
            };
            if !pass_readable(data@, pw as int, ph as int, bpp as int) {
                result == Err::<(), DecodeError>(DecodeError::Truncated)
            } else if !pass_decodes(src, pw as int, ph as int) {
                result == Err::<(), DecodeError>(DecodeError::BadPaletteIndex)
            } else {
                result is Ok && final(bitmap).pixels@ == write_pass(old(bitmap).pixels@, old(bitmap).width as int, *pass, pw as int, ph as int, src)
            }
        }),
{
    proof {
        lemma_pass_sizes(bitmap.width as int, bitmap.height as int, bpp as int, pw as int, ph as int);
    }
    let pixels = match unfilter(data, pw as usize, ph as usize, bpp) {
        Some(p) => p,
        None => return Err(DecodeError::Truncated),
    };
    assert(pixels@ =~= unfiltered(data@, pw as int, ph as int, bpp as int));
    scatter_pass(bitmap, pass, pw, ph, pixels.as_slice(), color_type, bpp, palette, trns)
}

/// A non-empty pass extent stays inside the image.
pub(crate) proof fn lemma_extent(size: int, start: int, step: int)
    requires
        step >= 1,
        start >= 0,
        size >= 0,
    ensures
        0 <= pass_extent(size, start, step) <= size,
        pass_extent(size, start, step) > 0 ==> start + (pass_extent(size, start, step) - 1) * step < size,
{
    if size > start {
        let n = size - start;
        let pw = (n + step - 1) / step;
        vstd::arithmetic::div_mod::lemma_fundamental_div_mod(n + step - 1, step);
        assert(step * pw == pw * step) by (nonlinear_arith);
        assert(pw >= 0) by (nonlinear_arith) requires pw == (n + step - 1) / step, n >= 1, step >= 1;
        assert((pw - 1) * step < n) by (nonlinear_arith)
            requires pw * step <= n + step - 1, step >= 1;
        assert(pw <= n) by (nonlinear_arith) requires (pw - 1) * step < n, step >= 1, pw >= 0, n >= 1;
    }
}

/// Turn decompressed scanlines into a bitmap: one pass over the whole image,
/// or the seven Adam7 passes of an interlaced one.
fn reconstruct(
    header: &Header,
    raw: &[u8],
    palette: Option<&[[u8; 3]]>,
    trns: Option<&Transparency>,
) -> (result: Result<Bitmap, DecodeError>)
    requires
        header_ok(*header),
    ensures
        match reconstruct_result(*header, raw@, palette_view(palette), trns_view(trns)) {
            Ok(px) => result matches Ok(b) && b.width == header.width && b.height == header.height && b.pixels@ == px && b.wf(),
            Err(e) => result matches Err(x) && x == e,
        },
{
    let bpp = match channels(header.color_type) {
        Some(b) => b,
        None => return Err(DecodeError::BadHeader),
    };
    let width = header.width;
    let height = header.height;
    proof {
        assert(width * height <= MAX_DIMENSION * MAX_DIMENSION) by (nonlinear_arith)
            requires width <= MAX_DIMENSION, height <= MAX_DIMENSION;
    }
    let mut bitmap = Bitmap::new(width, height);
    let ghost blank = Seq::new((width * height) as nat, |j: int| 0u32);
    assert(bitmap.pixels@ =~= blank);
    if header.interlace == 0 {
        let whole = Adam7Pass { x0: 0, y0: 0, dx: 1, dy: 1 };
        match read_pass(&mut bitmap, &whole, width, height, raw, header.color_type, bpp, palette, trns) {
            Ok(()) => {},
            Err(e) => return Err(e),
        }
        Ok(bitmap)
    } else {
        let passes = adam7_passes();
        let ghost goal = reconstruct_result(*header, raw@, palette_view(palette), trns_view(trns));
        let mut cursor: usize = 0;
        let mut i: usize = 0;
        while i < 7
            invariant
                header_ok(*header),
                header.interlace != 0,
                width == header.width,
                height == header.height,
                channels_spec(header.color_type) == Some(bpp),
                forall|k: int| 0 <= k < 7 ==> #[trigger] passes@[k] == adam7_spec(k),
                bitmap.wf(),
                bitmap.width == width,
                bitmap.height == height,
                i <= 7,
                cursor <= raw@.len(),
                goal == reconstruct_result(*header, raw@, palette_view(palette), trns_view(trns)),
                goal == passes_result(*header, raw@, palette_view(palette), trns_view(trns), i as int, cursor as int, bitmap.pixels@),
            decreases 7 - i,
        {
            let pass = passes[i];
            let (pw, ph) = pass_dims(&pass, width, height);
            if pw == 0 || ph == 0 {
                i = i + 1;
                continue;
            }
            proof {
                lemma_extent(width as int, pass.x0 as int, pass.dx as int);
                lemma_extent(height as int, pass.y0 as int, pass.dy as int);
                lemma_pass_sizes(width as int, height as int, bpp as int, pw as int, ph as int);
            }
            let size = (pw as usize * bpp + 1) * ph as usize;
            if size > raw.len() - cursor {
                return Err(DecodeError::Truncated);
            }
            let end = cursor + size;
            let segment = &raw[cursor..end];
            match read_pass(&mut bitmap, &pass, pw, ph, segment, header.color_type, bpp, palette, trns) {
                Ok(()) => {},
                Err(e) => return Err(e),
            }
            cursor = end;
            i = i + 1;
        }
        Ok(bitmap)
    }
}

/// Scanline bytes of the non-empty Adam7 passes from `i` on.
pub open spec fn interlaced_bytes(h: Header, i: int) -> int
    decreases 7 - i,
{
    if i >= 7 {
        0
    } else {
        let pass = adam7_spec(i);
        let bpp = bpp_of(h.color_type);
        let pw = pass_extent(h.width as int, pass.x0 as int, pass.dx as int);
        let ph = pass_extent(h.height as int, pass.y0 as int, pass.dy as int);
        (if pw == 0 || ph == 0 { 0 } else { (pw * bpp + 1) * ph }) + interlaced_bytes(h, i + 1)
    }
}

/// The decompressed size a well-formed image needs, plus 1 KiB of slack for
/// an encoder's harmless padding: one filter byte per scanline and the
/// pixels, summed over the Adam7 passes when interlaced.
pub open spec fn raw_size(h: Header) -> int {
    let bpp = bpp_of(h.color_type);
    (if h.interlace == 0 { (h.width * bpp + 1) * h.height } else { interlaced_bytes(h, 0) }) + 1024
}

proof fn lemma_interlaced_bytes(h: Header, i: int)
    requires
        header_ok(h),
        0 <= i <= 7,
    ensures
        0 <= interlaced_bytes(h, i) <= (7 - i) * ((4 * MAX_DIMENSION + 1) * MAX_DIMENSION),
    decreases 7 - i,
{
    if i < 7 {
        lemma_interlaced_bytes(h, i + 1);
        let pass = adam7_spec(i);
        lemma_extent(h.width as int, pass.x0 as int, pass.dx as int);
        lemma_extent(h.height as int, pass.y0 as int, pass.dy as int);
        let pw = pass_extent(h.width as int, pass.x0 as int, pass.dx as int);
        let ph = pass_extent(h.height as int, pass.y0 as int, pass.dy as int);
        lemma_pass_sizes(h.width as int, h.height as int, bpp_of(h.color_type), pw, ph);
        let c = (4 * MAX_DIMENSION + 1) * MAX_DIMENSION;
        assert((7 - (i + 1)) * c + c == (7 - i) * c) by (nonlinear_arith);
        assert(0 <= (pw * bpp_of(h.color_type) + 1) * ph) by (nonlinear_arith)
            requires pw >= 0, ph >= 0, bpp_of(h.color_type) >= 0;
    }
}

/// The decompressed size [`raw_size`] gives; `None` only if it does not fit
/// in `usize`.
fn expected_raw_size(header: &Header, bpp: usize) -> (result: Option<usize>)
    requires
        header_ok(*header),
        channels_spec(header.color_type) == Some(bpp),
    ensures
        raw_size(*header) >= 1024,
        raw_size(*header) <= usize::MAX ==> result == Some(raw_size(*header) as usize),
        raw_size(*header) > usize::MAX ==> result is None,
{
    proof {
        lemma_pass_sizes(header.width as int, header.height as int, bpp as int, header.width as int, header.height as int);
        lemma_interlaced_bytes(*header, 0);
        assert((header.width * bpp + 1) * header.height >= 0) by (nonlinear_arith)
            requires header.width >= 0, bpp >= 0, header.height >= 0;
    }
    let total: usize = if header.interlace == 0 {
        let stride = match (header.width as usize).checked_mul(bpp) {
            Some(v) => v,
            None => return None,
        };
        let row = match stride.checked_add(1) {
            Some(v) => v,
            None => return None,
        };
        match row.checked_mul(header.height as usize) {
            Some(v) => v,
            None => return None,
        }
    } else {
        let passes = adam7_passes();
        let mut total: usize = 0;
        let mut i: usize = 0;
        while i < 7
            invariant
                header_ok(*header),
                header.interlace != 0,
                channels_spec(header.color_type) == Some(bpp),
                forall|k: int| 0 <= k < 7 ==> #[trigger] passes@[k] == adam7_spec(k),
                i <= 7,
                total + interlaced_bytes(*header, i as int) == interlaced_bytes(*header, 0),
            decreases 7 - i,
        {
            proof {
                lemma_interlaced_bytes(*header, i as int);
                lemma_interlaced_bytes(*header, i as int + 1);
            }
            let pass = passes[i];
            let (pw, ph) = pass_dims(&pass, header.width, header.height);
            if pw == 0 || ph == 0 {
                i = i + 1;
                continue;
            }
            proof {
                lemma_extent(header.width as int, pass.x0 as int, pass.dx as int);
                lemma_extent(header.height as int, pass.y0 as int, pass.dy as int);
                lemma_pass_sizes(header.width as int, header.height as int, bpp as int, pw as int, ph as int);
            }
            let stride = match (pw as usize).checked_mul(bpp) {
                Some(v) => v,
                None => return None,
            };
            let row = match stride.checked_add(1) {
                Some(v) => v,
                None => return None,
            };
            let bytes = match row.checked_mul(ph as usize) {
                Some(v) => v,
                None => return None,
            };
            total = match total.checked_add(bytes) {
                Some(v) => v,
                None => return None,
            };
            i = i + 1;
        }
        total
    };
    total.checked_add(1024)
}

/// The four type bytes of a chunk.
pub open spec fn chunk_name(a: u8, b: u8, c: u8, d: u8) -> Seq<u8> {
    seq![a, b, c, d]
}

/// The chunk at byte `pos`: its type, and where its data starts and ends
/// (its CRC follows); `None` exactly at the end of the input.
#[verifier::opaque]
pub open spec fn chunk_at(data: Seq<u8>, pos: int) -> Result<Option<(Seq<u8>, int, int)>, DecodeError> {
    if pos == data.len() {
        Ok(None)
    } else if pos + 8 > data.len() {
        Err(DecodeError::Truncated)
    } else {
        let start = pos + 8;
        let end = start + be32_of(data, pos);
        if end + 4 > data.len() {
            Err(DecodeError::Truncated)
        } else if crc32_spec(data.subrange(pos + 4, end)) != be32_of(data, end) {
            Err(DecodeError::Corrupt)
        } else {
            Ok(Some((data.subrange(pos + 4, pos + 8), start, end)))
        }
    }
}

/// A chunk lies inside the input and ends after it starts.
pub proof fn lemma_chunk_advances(data: Seq<u8>, pos: int)
    requires
        0 <= pos,
    ensures
        chunk_at(data, pos) matches Ok(Some((kind, start, end))) ==> pos < start <= end && end + 4 <= data.len()
            && kind.len() == 4,
{
    reveal(chunk_at);
}

/// One chunk: its type and its data.
pub struct Chunk<'a> {
    pub kind: [u8; 4],
    pub data: &'a [u8],
}

/// Walks the chunks after the signature.
pub struct ChunkCursor<'a> {
    data: &'a [u8],
    pos: usize,
}

impl<'a> ChunkCursor<'a> {
    /// The bytes being walked.
    pub closed spec fn bytes(&self) -> Seq<u8> {
        self.data@
    }

    /// Where the next chunk starts.
    pub closed spec fn at(&self) -> int {
        self.pos as int
    }

    /// The position lies within the input.
    pub closed spec fn wf(&self) -> bool {
        self.pos <= self.data@.len()
    }

    /// A cursor at the first chunk; `NotAPng` without the signature.
    pub fn new(data: &'a [u8]) -> (result: Result<ChunkCursor<'a>, DecodeError>)
        ensures
            (data@.len() >= 8 && data@.subrange(0, 8) == signature()) <==> result is Ok,
            result is Err ==> (result matches Err(e) && e == DecodeError::NotAPng),
            result matches Ok(c) ==> c.wf() && c.bytes() == data@ && c.at() == 8,
    {
        if data.len() < 8 {
            return Err(DecodeError::NotAPng);
        }
        let expected: [u8; 8] = [0x89, 0x50, 0x4e, 0x47, 0x0d, 0x0a, 0x1a, 0x0a];
        let mut i: usize = 0;
        while i < 8
            invariant
                data@.len() >= 8,
                i <= 8,
                expected@ == signature(),
                forall|j: int| 0 <= j < i ==> data@[j] == signature()[j],
            decreases 8 - i,
        {
            if data[i] != expected[i] {
                assert(data@.subrange(0, 8)[i as int] != signature()[i as int]);
                return Err(DecodeError::NotAPng);
            }
            i = i + 1;
        }
        assert(data@.subrange(0, 8) =~= signature());
        Ok(ChunkCursor { data, pos: 8 })
    }

    /// The next chunk, or `None` exactly at the end of the input, which is
    /// itself an error one level up if `IEND` was never seen.
    pub fn next(&mut self) -> (result: Result<Option<Chunk<'a>>, DecodeError>)
        requires
            old(self).wf(),
        ensures
            final(self).wf(),
            final(self).bytes() == old(self).bytes(),
            match chunk_at(old(self).bytes(), old(self).at()) {
                Ok(None) => result matches Ok(None),
                Ok(Some((kind, start, end))) => result matches Ok(Some(c)) && c.kind@ == kind
                    && c.data@ == old(self).bytes().subrange(start, end) && final(self).at() == end + 4,
                Err(e) => result matches Err(x) && x == e,
            },
    {
        proof {
            reveal(chunk_at);
        }
        let n = self.data.len();
        if self.pos == n {
            return Ok(None);
        }
        if n - self.pos < 8 {
            return Err(DecodeError::Truncated);
        }
        let len = read_be32(self.data, self.pos) as usize;
        let start = self.pos + 8;
        if len > n - start || 4 > n - start - len {
            return Err(DecodeError::Truncated);
        }
        let end = start + len;
        let crc = crc32(&self.data[self.pos + 4..end]);
        if crc != read_be32(self.data, end) {
            return Err(DecodeError::Corrupt);
        }
        let kind: [u8; 4] = [self.data[self.pos + 4], self.data[self.pos + 5], self.data[self.pos + 6], self.data[self.pos + 7]];
        assert(kind@ =~= self.data@.subrange(self.pos + 4, self.pos + 8));
        let body = &self.data[start..end];
        self.pos = end + 4;
        Ok(Some(Chunk { kind, data: body }))
    }
}

/// The chunks from byte `pos` up to `IEND`, gathered: the last `PLTE` body,
/// the last `tRNS`, and the `IDAT` bodies concatenated. Unknown chunks are
/// skipped; a second `IHDR`, a malformed `PLTE` or `tRNS`, or running out
/// of chunks before `IEND` is an error.
pub open spec fn scan_result(
    data: Seq<u8>,
    pos: int,
    color_type: u8,
    palette: Option<Seq<u8>>,
    trns: Option<TransparencyView>,
    idat: Seq<u8>,
) -> Result<(Option<Seq<u8>>, Option<TransparencyView>, Seq<u8>), DecodeError>
    decreases data.len() - pos,
{
    if pos < 0 {
        Err(DecodeError::Truncated)
    } else {
    match chunk_at(data, pos) {
        Err(e) => Err(e),
        Ok(None) => Err(DecodeError::Truncated),
        Ok(Some((kind, start, end))) => {
            proof {
                lemma_chunk_advances(data, pos);
            }
            let body = data.subrange(start, end);
            let next = end + 4;
            if kind == chunk_name(0x49, 0x48, 0x44, 0x52) {
                Err(DecodeError::BadHeader)
            } else if kind == chunk_name(0x50, 0x4c, 0x54, 0x45) {
                if body.len() == 0 || body.len() % 3 != 0 {
                    Err(DecodeError::BadChunk)
                } else {
                    scan_result(data, next, color_type, Some(body), trns, idat)
                }
            } else if kind == chunk_name(0x74, 0x52, 0x4e, 0x53) {
                match trns_result(body, color_type) {
                    Err(e) => Err(e),
                    Ok(t) => scan_result(data, next, color_type, palette, Some(t), idat),
                }
            } else if kind == chunk_name(0x49, 0x44, 0x41, 0x54) {
                scan_result(data, next, color_type, palette, trns, idat + body)
            } else if kind == chunk_name(0x49, 0x45, 0x4e, 0x44) {
                Ok((palette, trns, idat))
            } else {
                scan_result(data, next, color_type, palette, trns, idat)
            }
        }
    }
    }
}

/// What decoding gives once the chunks have been gathered: the `IDAT`
/// stream inflated with the image's expected size as its cap, then
/// reconstructed.
pub open spec fn decode_gathered(
    h: Header,
    scanned: Result<(Option<Seq<u8>>, Option<TransparencyView>, Seq<u8>), DecodeError>,
) -> Result<(u32, u32, Seq<u32>), DecodeError> {
    match scanned {
        Err(e) => Err(e),
        Ok((palette, trns, idat)) => if raw_size(h) > usize::MAX {
            Err(DecodeError::ImageTooLarge { width: h.width, height: h.height })
        } else {
            match zlib_result(idat, raw_size(h)) {
                None => Err(DecodeError::BadCompression),
                Some(raw) => match reconstruct_result(h, raw, palette, trns) {
                    Err(e) => Err(e),
                    Ok(px) => Ok((h.width, h.height, px)),
                },
            }
        },
    }
}

/// What [`decode`] gives for `data`: the width, height and pixels of the
/// image, or the first reason it cannot be read. The first chunk must be
/// `IHDR`; the rest are gathered up to `IEND` by [`scan_result`].
pub open spec fn decode_result(data: Seq<u8>) -> Result<(u32, u32, Seq<u32>), DecodeError> {
    if !(data.len() >= 8 && data.subrange(0, 8) == signature()) {
        Err(DecodeError::NotAPng)
    } else {
        match chunk_at(data, 8) {
            Err(e) => Err(e),
            Ok(None) => Err(DecodeError::BadHeader),
            Ok(Some((kind, start, end))) => if kind != chunk_name(0x49, 0x48, 0x44, 0x52) {
                Err(DecodeError::BadHeader)
            } else {
                match header_result(data.subrange(start, end)) {
                    Err(e) => Err(e),
                    Ok(h) => decode_gathered(h, scan_result(data, end + 4, h.color_type, None, None, Seq::empty())),
                }
            },
        }
    }
}

fn kind_is(kind: &[u8; 4], a: u8, b: u8, c: u8, d: u8) -> (result: bool)
    ensures
        result == (kind@ == chunk_name(a, b, c, d)),
{
    let r = kind[0] == a && kind[1] == b && kind[2] == c && kind[3] == d;
    if r {
        assert(kind@ =~= chunk_name(a, b, c, d));
    } else {
        assert(kind@ != chunk_name(a, b, c, d) ) by {
            if kind@ == chunk_name(a, b, c, d) {
                assert(kind@[0] == a && kind@[1] == b && kind@[2] == c && kind@[3] == d);
            }
        }
    }
    r
}

#[verifier::rlimit(50)]
/// Decode a PNG's bytes into a straight-alpha [`Bitmap`]. Any input it
/// cannot read comes back as an error; see [`decode_result`] for exactly
/// which.
pub fn decode(data: &[u8]) -> (result: Result<Bitmap, DecodeError>)
    ensures
        match decode_result(data@) {
            Ok((w, h, px)) => result matches Ok(b) && b.width == w && b.height == h && b.pixels@ == px && b.wf(),
            Err(e) => result matches Err(x) && x == e,
        },
{
    let mut cursor = match ChunkCursor::new(data) {
        Ok(c) => c,
        Err(e) => return Err(e),
    };
    let first = match cursor.next() {
        Ok(Some(c)) => c,
        Ok(None) => return Err(DecodeError::BadHeader),
        Err(e) => return Err(e),
    };
    if !kind_is(&first.kind, 0x49, 0x48, 0x44, 0x52) {
        return Err(DecodeError::BadHeader);
    }
    let header = match parse_header(first.data) {
        Ok(h) => h,
        Err(e) => return Err(e),
    };
    let mut palette: Option<Vec<[u8; 3]>> = None;
    let mut trns: Option<Transparency> = None;
    let mut idat: Vec<u8> = Vec::new();
    let ghost mut pal_model: Option<Seq<u8>> = None;
    let ghost mut trns_model: Option<TransparencyView> = None;
    let ghost goal = scan_result(data@, cursor.at(), header.color_type, None, None, Seq::empty());
    assert(decode_result(data@) == decode_gathered(header, goal));
    assert(header_ok(header));
    loop
        invariant_except_break
            goal == scan_result(data@, cursor.at(), header.color_type, pal_model, trns_model, idat@),
        invariant
            header_ok(header),
            decode_result(data@) == decode_gathered(header, goal),
            cursor.wf(),
            cursor.bytes() == data@,
            0 <= cursor.at(),
            match palette { Some(p) => pal_model == Some(flat_palette(p@)), None => pal_model is None },
            match trns { Some(t) => trns_model == Some(t@), None => trns_model is None },
        ensures
            goal matches Ok((p, t, i)) && p == pal_model && t == trns_model && i == idat@,
        decreases data@.len() - cursor.at(),
    {
        let ghost at = cursor.at();
        proof {
            lemma_chunk_advances(data@, at);
        }
        let chunk = match cursor.next() {
            Ok(Some(c)) => c,
            Ok(None) => return Err(DecodeError::Truncated),
            Err(e) => return Err(e),
        };
        if kind_is(&chunk.kind, 0x49, 0x48, 0x44, 0x52) {
            return Err(DecodeError::BadHeader);
        } else if kind_is(&chunk.kind, 0x50, 0x4c, 0x54, 0x45) {
            let entries = match parse_palette(chunk.data) {
                Ok(p) => p,
                Err(e) => return Err(e),
            };
            proof {
                pal_model = Some(chunk.data@);
            }
            palette = Some(entries);
        } else if kind_is(&chunk.kind, 0x74, 0x52, 0x4e, 0x53) {
            let t = match parse_trns(chunk.data, header.color_type) {
                Ok(t) => t,
                Err(e) => return Err(e),
            };
            proof {
                trns_model = Some(t@);
            }
            trns = Some(t);
        } else if kind_is(&chunk.kind, 0x49, 0x44, 0x41, 0x54) {
            crate::raster::png::bytes::push_all(&mut idat, chunk.data);
        } else if kind_is(&chunk.kind, 0x49, 0x45, 0x4e, 0x44) {
            break;
        }
    }
    let bpp = match channels(header.color_type) {
        Some(b) => b,
        None => return Err(DecodeError::BadHeader),
    };
    let max_raw = match expected_raw_size(&header, bpp) {
        Some(m) => m,
        None => return Err(DecodeError::ImageTooLarge { width: header.width, height: header.height }),
    };
    assert(raw_size(header) <= usize::MAX && max_raw == raw_size(header));
    assert(goal == Ok::<(Option<Seq<u8>>, Option<TransparencyView>, Seq<u8>), DecodeError>((pal_model, trns_model, idat@)));
    let raw = match zlib_decompress(idat.as_slice(), max_raw) {
        Some(r) => r,
        None => return Err(DecodeError::BadCompression),
    };
    let pal_ref: Option<&[[u8; 3]]> = match &palette {
        Some(p) => Some(p.as_slice()),
        None => None,
    };
    let trns_ref: Option<&Transparency> = match &trns {
        Some(t) => Some(t),
        None => None,
    };
    assert(palette_view(pal_ref) == pal_model);
    assert(trns_view(trns_ref) == trns_model);
    reconstruct(&header, raw.as_slice(), pal_ref, trns_ref)
}

} // verus!
