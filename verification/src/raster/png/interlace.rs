//! The same pixels decode alike whether their scanlines are laid out flat or
//! in the seven Adam7 passes.

use vstd::prelude::*;
use crate::raster::png::decode::{
    bpp_of, grid_col, grid_row, lemma_extent, lemma_grid_inverse, on_grid, pass_decodes, pass_pixel, pass_readable, passes_result, pixel_value,
    reconstruct_result, unfiltered, whole_image, write_pass, DecodeError, Header, PassSource, TransparencyView,
};
use crate::raster::png::bytes::be32;
use crate::raster::png::encode::{chunk_bytes, lemma_stored_len, signature, zlib_stored};
use crate::raster::png::decode::{channels_spec, chunk_name, decode_result, header_result, interlaced_bytes, raw_size, MAX_DIMENSION};
use crate::raster::png::roundtrip::{iend_name, ihdr_name, idat_name, lemma_be32_at, lemma_chunk_read, lemma_inflate_stored, lemma_names_differ, lemma_scan_written};
use crate::raster::png::filter::{adam7_spec, filters_known, pass_extent, recon, Adam7Pass};

verus! {

/// Byte `k` of a pass's scanlines, each row filter type 0 and then the
/// sample bytes of the pass's pixels, taken from `samples` (the image's
/// sample bytes, row-major, `bpp` per pixel).
pub open spec fn layout_byte(samples: Seq<u8>, width: int, bpp: int, pass: Adam7Pass, pw: int, k: int) -> u8 {
    let stride = pw * bpp + 1;
    let y = k / stride;
    let i = k % stride;
    if i == 0 {
        0u8
    } else {
        samples[((pass.y0 + y * pass.dy) * width + pass.x0 + ((i - 1) / bpp) * pass.dx) * bpp + (i - 1) % bpp]
    }
}

/// The scanlines of a `pw × ph` pass over the image's samples.
pub open spec fn pass_layout(samples: Seq<u8>, width: int, bpp: int, pass: Adam7Pass, pw: int, ph: int) -> Seq<u8> {
    Seq::new(((pw * bpp + 1) * ph) as nat, |k: int| layout_byte(samples, width, bpp, pass, pw, k))
}

/// The scanlines of a non-interlaced image.
pub open spec fn flat_layout(samples: Seq<u8>, width: int, height: int, bpp: int) -> Seq<u8> {
    pass_layout(samples, width, bpp, whole_image(), width, height)
}

/// Pixels across and down of Adam7 pass `p`.
pub open spec fn pass_w(width: int, p: int) -> int {
    pass_extent(width, adam7_spec(p).x0 as int, adam7_spec(p).dx as int)
}

/// Rows of Adam7 pass `p`.
pub open spec fn pass_h(height: int, p: int) -> int {
    pass_extent(height, adam7_spec(p).y0 as int, adam7_spec(p).dy as int)
}

/// The scanlines of Adam7 passes `i` on, an empty pass taking none.
pub open spec fn interlaced_layout(samples: Seq<u8>, width: int, height: int, bpp: int, i: int) -> Seq<u8>
    decreases 7 - i,
{
    if i >= 7 {
        Seq::empty()
    } else {
        let pw = pass_w(width, i);
        let ph = pass_h(height, i);
        (if pw == 0 || ph == 0 { Seq::empty() } else { pass_layout(samples, width, bpp, adam7_spec(i), pw, ph) })
            + interlaced_layout(samples, width, height, bpp, i + 1)
    }
}

/// The word pixel `j` of the image decodes to, or why it does not.
pub open spec fn image_pixel(
    samples: Seq<u8>,
    bpp: int,
    color_type: u8,
    palette: Option<Seq<u8>>,
    trns: Option<TransparencyView>,
    j: int,
) -> Result<u32, DecodeError> {
    pixel_value(samples.subrange(j * bpp, j * bpp + bpp), color_type, palette, trns)
}

/// What decoding the image's samples gives, however they are laid out:
/// every pixel's word, or `BadPaletteIndex` if any pixel does not decode.
pub open spec fn image_result(
    samples: Seq<u8>,
    width: int,
    height: int,
    color_type: u8,
    palette: Option<Seq<u8>>,
    trns: Option<TransparencyView>,
) -> Result<Seq<u32>, DecodeError> {
    let bpp = bpp_of(color_type);
    if forall|j: int| 0 <= j < width * height ==> #[trigger] image_pixel(samples, bpp, color_type, palette, trns, j) is Ok {
        Ok(Seq::new((width * height) as nat, |j: int| match image_pixel(samples, bpp, color_type, palette, trns, j) {
            Ok(v) => v,
            Err(_) => 0u32,
        }))
    } else {
        Err(DecodeError::BadPaletteIndex)
    }
}

/// The pixel source a pass's scanlines give the decoder.
pub open spec fn layout_source(
    samples: Seq<u8>,
    width: int,
    bpp: int,
    pass: Adam7Pass,
    pw: int,
    ph: int,
    color_type: u8,
    palette: Option<Seq<u8>>,
    trns: Option<TransparencyView>,
) -> PassSource {
    PassSource {
        bytes: unfiltered(pass_layout(samples, width, bpp, pass, pw, ph), pw, ph, bpp),
        bpp,
        color_type,
        palette,
        trns,
    }
}

/// Row `y` of a pass's scanlines: its filter byte, and its sample bytes.
proof fn lemma_layout_row(samples: Seq<u8>, width: int, bpp: int, pass: Adam7Pass, pw: int, ph: int, y: int, i: int)
    requires
        bpp >= 1,
        pw >= 1,
        0 <= y < ph,
        0 <= i < pw * bpp,
    ensures
        y * (pw * bpp + 1) < (pw * bpp + 1) * ph,
        y * (pw * bpp + 1) + 1 + i < (pw * bpp + 1) * ph,
        pass_layout(samples, width, bpp, pass, pw, ph)[y * (pw * bpp + 1)] == 0,
        pass_layout(samples, width, bpp, pass, pw, ph)[y * (pw * bpp + 1) + 1 + i]
            == samples[((pass.y0 + y * pass.dy) * width + pass.x0 + (i / bpp) * pass.dx) * bpp + i % bpp],
{
    let s = pw * bpp + 1;
    assert(s >= 2) by (nonlinear_arith)
        requires
            s == pw * bpp + 1,
            pw >= 1,
            bpp >= 1;
    assert(y * s + s <= s * ph) by (nonlinear_arith)
        requires
            y + 1 <= ph,
            s >= 0;
    vstd::arithmetic::div_mod::lemma_fundamental_div_mod_converse(y * s, s, y, 0);
    vstd::arithmetic::div_mod::lemma_fundamental_div_mod_converse(y * s + 1 + i, s, y, 1 + i);
}

/// Unfiltered byte `k` of a pass is the sample byte its place names.
proof fn lemma_layout_recon(samples: Seq<u8>, width: int, bpp: int, pass: Adam7Pass, pw: int, ph: int, k: int)
    requires
        bpp >= 1,
        pw >= 1,
        0 <= k < pw * bpp * ph,
    ensures
        recon(pass_layout(samples, width, bpp, pass, pw, ph), pw * bpp, bpp, k)
            == samples[((pass.y0 + (k / (pw * bpp)) * pass.dy) * width + pass.x0 + ((k % (pw * bpp)) / bpp) * pass.dx) * bpp
                + (k % (pw * bpp)) % bpp],
{
    let stride = pw * bpp;
    assert(stride >= 1) by (nonlinear_arith)
        requires
            stride == pw * bpp,
            pw >= 1,
            bpp >= 1;
    let y = k / stride;
    let i = k % stride;
    vstd::arithmetic::div_mod::lemma_fundamental_div_mod(k, stride);
    assert(0 <= i < stride);
    assert(0 <= y < ph) by (nonlinear_arith)
        requires
            k == stride * y + i,
            0 <= i < stride,
            0 <= k < stride * ph,
            stride > 0;
    lemma_layout_row(samples, width, bpp, pass, pw, ph, y, i);
}

/// Pixel `(r, c)` of a pass read from its scanlines is the image's pixel at
/// that grid point.
proof fn lemma_layout_pixel(
    samples: Seq<u8>,
    width: int,
    height: int,
    bpp: int,
    pass: Adam7Pass,
    pw: int,
    ph: int,
    color_type: u8,
    palette: Option<Seq<u8>>,
    trns: Option<TransparencyView>,
    r: int,
    c: int,
)
    requires
        bpp >= 1,
        width >= 1,
        samples.len() == width * height * bpp,
        0 <= r < ph,
        0 <= c < pw,
        pass.x0 + c * pass.dx < width,
        pass.y0 + r * pass.dy < height,
    ensures
        0 <= (pass.y0 + r * pass.dy) * width + pass.x0 + c * pass.dx < width * height,
        pass_pixel(layout_source(samples, width, bpp, pass, pw, ph, color_type, palette, trns), pw, r, c)
            == image_pixel(samples, bpp, color_type, palette, trns, (pass.y0 + r * pass.dy) * width + pass.x0 + c * pass.dx),
{
    let src = layout_source(samples, width, bpp, pass, pw, ph, color_type, palette, trns);
    let x = pass.x0 + c * pass.dx;
    let y = pass.y0 + r * pass.dy;
    let at_pixel = y * width + x;
    assert(0 <= c * pass.dx && 0 <= r * pass.dy) by (nonlinear_arith)
        requires
            r >= 0,
            c >= 0;
    assert(0 <= at_pixel < width * height) by (nonlinear_arith)
        requires
            at_pixel == y * width + x,
            0 <= x < width,
            0 <= y < height;
    assert(at_pixel * bpp + bpp <= width * height * bpp) by (nonlinear_arith)
        requires
            at_pixel + 1 <= width * height,
            bpp >= 1;
    assert(0 <= at_pixel * bpp) by (nonlinear_arith)
        requires
            at_pixel >= 0,
            bpp >= 1;
    let stride = pw * bpp;
    let at = (r * pw + c) * bpp;
    assert(src.bytes.len() == pw * bpp * ph);
    assert(0 <= at && at + bpp <= pw * bpp * ph) by (nonlinear_arith)
        requires
            at == (r * pw + c) * bpp,
            0 <= r < ph,
            0 <= c < pw,
            bpp >= 1;
    assert forall|b: int| 0 <= b < bpp implies #[trigger] src.bytes.subrange(at, at + bpp)[b] == samples.subrange(at_pixel * bpp, at_pixel * bpp + bpp)[b] by {
        let k = at + b;
        assert(k == r * stride + (c * bpp + b)) by (nonlinear_arith)
            requires
                k == (r * pw + c) * bpp + b,
                stride == pw * bpp;
        assert(c * bpp + b < stride) by (nonlinear_arith)
            requires
                c + 1 <= pw,
                b < bpp,
                bpp >= 1,
                stride == pw * bpp;
        assert(0 <= c * bpp + b) by (nonlinear_arith)
            requires
                c >= 0,
                b >= 0,
                bpp >= 1;
        assert(k < stride * ph) by (nonlinear_arith)
            requires
                k == r * stride + (c * bpp + b),
                c * bpp + b < stride,
                stride >= 1,
                r + 1 <= ph;
        assert(pw >= 1);
        vstd::arithmetic::div_mod::lemma_fundamental_div_mod_converse(k, stride, r, c * bpp + b);
        vstd::arithmetic::div_mod::lemma_fundamental_div_mod_converse(c * bpp + b, bpp, c, b);
        assert(stride * ph == pw * bpp * ph) by (nonlinear_arith)
            requires
                stride == pw * bpp;
        lemma_layout_recon(samples, width, bpp, pass, pw, ph, k);
        assert(src.bytes[k] == recon(pass_layout(samples, width, bpp, pass, pw, ph), stride, bpp, k));
    }
    assert(src.bytes.subrange(at, at + bpp) =~= samples.subrange(at_pixel * bpp, at_pixel * bpp + bpp));
}

/// The whole-image pass steps one pixel at a time from the corner.
proof fn lemma_whole_steps(c: int, r: int)
    ensures
        whole_image().x0 + c * whole_image().dx == c,
        whole_image().y0 + r * whole_image().dy == r,
{
    let pass = whole_image();
    assert(c * pass.dx == c && r * pass.dy == r) by (nonlinear_arith)
        requires
            pass.dx == 1,
            pass.dy == 1;
}

/// Pixel `j` of a `width`-wide image is pixel `(j / width, j % width)` of
/// the whole-image pass.
proof fn lemma_whole_pixel(
    samples: Seq<u8>,
    width: int,
    height: int,
    bpp: int,
    color_type: u8,
    palette: Option<Seq<u8>>,
    trns: Option<TransparencyView>,
    j: int,
)
    requires
        bpp >= 1,
        width >= 1,
        samples.len() == width * height * bpp,
        0 <= j < width * height,
    ensures
        0 <= j / width < height,
        0 <= j % width < width,
        (j / width) * width + j % width == j,
        pass_pixel(layout_source(samples, width, bpp, whole_image(), width, height, color_type, palette, trns), width, j / width, j % width)
            == image_pixel(samples, bpp, color_type, palette, trns, j),
{
    let x = j % width;
    let y = j / width;
    vstd::arithmetic::div_mod::lemma_fundamental_div_mod(j, width);
    assert(0 <= y < height) by (nonlinear_arith)
        requires
            j == width * y + x,
            0 <= x < width,
            0 <= j < width * height;
    assert(y * width == width * y) by (nonlinear_arith);
    lemma_whole_steps(x, y);
    lemma_layout_pixel(samples, width, height, bpp, whole_image(), width, height, color_type, palette, trns, y, x);
}

/// A non-interlaced image's scanlines decode to the image.
proof fn lemma_flat_decodes(
    samples: Seq<u8>,
    width: u32,
    height: u32,
    color_type: u8,
    palette: Option<Seq<u8>>,
    trns: Option<TransparencyView>,
)
    requires
        width >= 1,
        height >= 1,
        bpp_of(color_type) >= 1,
        samples.len() == width * height * bpp_of(color_type),
    ensures
        reconstruct_result(Header { width, height, color_type, interlace: 0 }, flat_layout(samples, width as int, height as int, bpp_of(color_type)), palette, trns)
            == image_result(samples, width as int, height as int, color_type, palette, trns),
{
    let w = width as int;
    let h = height as int;
    let bpp = bpp_of(color_type);
    let raw = flat_layout(samples, w, h, bpp);
    let src = layout_source(samples, w, bpp, whole_image(), w, h, color_type, palette, trns);
    assert(raw.len() == (w * bpp + 1) * h);
    assert forall|y: int| 0 <= y < h implies #[trigger] raw[y * (w * bpp + 1)] <= 4 by {
        assert(w * bpp >= 1) by (nonlinear_arith)
            requires
                w >= 1,
                bpp >= 1;
        lemma_layout_row(samples, w, bpp, whole_image(), w, h, y, 0);
    }
    assert(filters_known(raw, w * bpp, h));
    assert(pass_readable(raw, w, h, bpp));
    let all_ok = forall|j: int| 0 <= j < w * h ==> #[trigger] image_pixel(samples, bpp, color_type, palette, trns, j) is Ok;
    if all_ok {
        assert forall|r: int, c: int| 0 <= r < h && 0 <= c < w implies #[trigger] pass_pixel(src, w, r, c) is Ok by {
            lemma_whole_steps(c, r);
            lemma_layout_pixel(samples, w, h, bpp, whole_image(), w, h, color_type, palette, trns, r, c);
        }
        assert(pass_decodes(src, w, h));
        let blank = Seq::new((width * height) as nat, |j: int| 0u32);
        let written = write_pass(blank, w, whole_image(), w, h, src);
        let expected = Seq::new((w * h) as nat, |j: int| match image_pixel(samples, bpp, color_type, palette, trns, j) {
            Ok(v) => v,
            Err(_) => 0u32,
        });
        assert forall|j: int| 0 <= j < w * h implies #[trigger] written[j] == expected[j] by {
            lemma_whole_pixel(samples, w, h, bpp, color_type, palette, trns, j);
            let x = j % w;
            let y = j / w;
            assert(x % 1 == 0 && x / 1 == x && y % 1 == 0 && y / 1 == y);
            assert(on_grid(j, w, whole_image(), w, h));
            assert(grid_row(j, w, whole_image()) == y);
            assert(grid_col(j, w, whole_image()) == x);
        }
        assert(written =~= expected);
    } else {
        let j = choose|j: int| 0 <= j < w * h && !(#[trigger] image_pixel(samples, bpp, color_type, palette, trns, j) is Ok);
        lemma_whole_pixel(samples, w, h, bpp, color_type, palette, trns, j);
        assert(!(pass_pixel(src, w, j / w, j % w) is Ok));
        assert(!pass_decodes(src, w, h));
    }
}

/// The image samples and how their pixels read, as the passes see them.
pub struct SampledImage {
    pub samples: Seq<u8>,
    pub width: int,
    pub height: int,
    pub color_type: u8,
    pub palette: Option<Seq<u8>>,
    pub trns: Option<TransparencyView>,
}

impl SampledImage {
    /// Bytes per pixel.
    pub open spec fn bpp(self) -> int {
        bpp_of(self.color_type)
    }

    /// Whether the samples hold exactly the image's pixels.
    pub open spec fn wf(self) -> bool {
        &&& self.width >= 1
        &&& self.height >= 1
        &&& self.bpp() >= 1
        &&& self.samples.len() == self.width * self.height * self.bpp()
    }

    /// The word of pixel `j`, or why it does not decode.
    pub open spec fn pixel(self, j: int) -> Result<u32, DecodeError> {
        image_pixel(self.samples, self.bpp(), self.color_type, self.palette, self.trns, j)
    }

    /// The word written for pixel `j`: its value, or 0 if it does not decode.
    pub open spec fn word(self, j: int) -> u32 {
        match self.pixel(j) {
            Ok(v) => v,
            Err(_) => 0u32,
        }
    }

    /// The pixel source of Adam7 pass `p`'s scanlines.
    pub open spec fn source(self, p: int) -> PassSource {
        layout_source(self.samples, self.width, self.bpp(), adam7_spec(p), pass_w(self.width, p), pass_h(self.height, p), self.color_type, self.palette, self.trns)
    }

    /// Whether every pixel of Adam7 pass `p` decodes (an empty pass does).
    pub open spec fn pass_ok(self, p: int) -> bool {
        pass_w(self.width, p) == 0 || pass_h(self.height, p) == 0 || pass_decodes(self.source(p), pass_w(self.width, p), pass_h(self.height, p))
    }

    /// Whether every pixel of passes `i` on decodes.
    pub open spec fn passes_ok_from(self, i: int) -> bool {
        forall|p: int| i <= p < 7 ==> #[trigger] self.pass_ok(p)
    }

    /// Whether pixel `j` lies on Adam7 pass `p`.
    pub open spec fn on_pass(self, p: int, j: int) -> bool {
        on_grid(j, self.width, adam7_spec(p), pass_w(self.width, p), pass_h(self.height, p))
    }

    /// Whether pixel `j` lies on one of passes `i` on.
    pub open spec fn covered_from(self, j: int, i: int) -> bool {
        exists|p: int| i <= p < 7 && #[trigger] self.on_pass(p, j)
    }

    /// `pixels` after passes `i` on are written onto it.
    pub open spec fn written_from(self, pixels: Seq<u32>, i: int) -> Seq<u32>
        decreases 7 - i,
    {
        if i >= 7 {
            pixels
        } else {
            let pw = pass_w(self.width, i);
            let ph = pass_h(self.height, i);
            let next = if pw == 0 || ph == 0 { pixels } else { write_pass(pixels, self.width, adam7_spec(i), pw, ph, self.source(i)) };
            self.written_from(next, i + 1)
        }
    }
}

/// An Adam7 pass steps by a positive amount both ways.
proof fn lemma_adam7_steps(p: int)
    ensures
        adam7_spec(p).dx >= 1,
        adam7_spec(p).dy >= 1,
{
}

/// The decoder's pass loop, from pass `i` on, over the interlaced scanlines
/// of `img` placed after `prefix`: it fails exactly when a pass has a pixel
/// that does not decode, and otherwise writes every pass.
proof fn lemma_passes(img: SampledImage, width: u32, height: u32, prefix: Seq<u8>, i: int, pixels: Seq<u32>)
    requires
        img.wf(),
        img.width == width,
        img.height == height,
        0 <= i <= 7,
    ensures
        passes_result(
            Header { width, height, color_type: img.color_type, interlace: 1 },
            prefix + interlaced_layout(img.samples, img.width, img.height, img.bpp(), i),
            img.palette,
            img.trns,
            i,
            prefix.len() as int,
            pixels,
        ) == (if img.passes_ok_from(i) {
            Ok::<Seq<u32>, DecodeError>(img.written_from(pixels, i))
        } else {
            Err::<Seq<u32>, DecodeError>(DecodeError::BadPaletteIndex)
        }),
    decreases 7 - i,
{
    let hd = Header { width, height, color_type: img.color_type, interlace: 1 };
    let bpp = img.bpp();
    let raw = prefix + interlaced_layout(img.samples, img.width, img.height, bpp, i);
    if i < 7 {
        let pass = adam7_spec(i);
        lemma_adam7_steps(i);
        let pw = pass_w(img.width, i);
        let ph = pass_h(img.height, i);
        lemma_extent(img.width, pass.x0 as int, pass.dx as int);
        lemma_extent(img.height, pass.y0 as int, pass.dy as int);
        let rest = interlaced_layout(img.samples, img.width, img.height, bpp, i + 1);
        assert(img.passes_ok_from(i) == (img.pass_ok(i) && img.passes_ok_from(i + 1))) by {
            if img.pass_ok(i) && img.passes_ok_from(i + 1) {
                assert forall|p: int| i <= p < 7 implies #[trigger] img.pass_ok(p) by {
                    if p > i {
                        assert(img.pass_ok(p));
                    }
                }
            }
        }
        if pw == 0 || ph == 0 {
            assert(raw =~= prefix + rest);
            lemma_passes(img, width, height, prefix, i + 1, pixels);
        } else {
            let layout = pass_layout(img.samples, img.width, bpp, pass, pw, ph);
            let size = (pw * bpp + 1) * ph;
            assert(raw =~= (prefix + layout) + rest);
            assert(layout.len() == size);
            let seg = raw.subrange(prefix.len() as int, prefix.len() + size);
            assert(seg =~= layout);
            assert forall|y: int| 0 <= y < ph implies #[trigger] seg[y * (pw * bpp + 1)] <= 4 by {
                assert(pw * bpp >= 1) by (nonlinear_arith)
                    requires
                        pw >= 1,
                        bpp >= 1;
                lemma_layout_row(img.samples, img.width, bpp, pass, pw, ph, y, 0);
            }
            assert(filters_known(seg, pw * bpp, ph));
            let src = PassSource { bytes: unfiltered(seg, pw, ph, bpp), bpp, color_type: hd.color_type, palette: img.palette, trns: img.trns };
            assert(src == img.source(i));
            if pass_decodes(src, pw, ph) {
                lemma_passes(img, width, height, prefix + layout, i + 1, write_pass(pixels, img.width, pass, pw, ph, src));
                assert((prefix + layout).len() == prefix.len() + size);
            }
        }
    }
}

/// A pixel on pass `p` is a grid point of the pass inside the image, and
/// that grid point reads as the pixel.
proof fn lemma_on_pass_pixel(img: SampledImage, p: int, j: int)
    requires
        img.wf(),
        0 <= j < img.width * img.height,
        img.on_pass(p, j),
    ensures
        ({
            let r = grid_row(j, img.width, adam7_spec(p));
            let c = grid_col(j, img.width, adam7_spec(p));
            &&& pass_w(img.width, p) > 0 && pass_h(img.height, p) > 0
            &&& 0 <= r < pass_h(img.height, p)
            &&& 0 <= c < pass_w(img.width, p)
            &&& pass_pixel(img.source(p), pass_w(img.width, p), r, c) == img.pixel(j)
        }),
{
    let pass = adam7_spec(p);
    lemma_adam7_steps(p);
    let pw = pass_w(img.width, p);
    let ph = pass_h(img.height, p);
    lemma_grid_inverse(j, img.width, pass, pw, ph);
    let r = grid_row(j, img.width, pass);
    let c = grid_col(j, img.width, pass);
    lemma_extent(img.width, pass.x0 as int, pass.dx as int);
    lemma_extent(img.height, pass.y0 as int, pass.dy as int);
    assert(pw > 0 && ph > 0);
    assert(c * pass.dx <= (pw - 1) * pass.dx) by (nonlinear_arith)
        requires
            0 <= c <= pw - 1,
            pass.dx >= 1;
    assert(r * pass.dy <= (ph - 1) * pass.dy) by (nonlinear_arith)
        requires
            0 <= r <= ph - 1,
            pass.dy >= 1;
    lemma_layout_pixel(img.samples, img.width, img.height, img.bpp(), pass, pw, ph, img.color_type, img.palette, img.trns, r, c);
}

/// Writing a non-empty pass sets exactly its pixels to their words.
proof fn lemma_write_at(img: SampledImage, p: int, pixels: Seq<u32>, j: int)
    requires
        img.wf(),
        pixels.len() == img.width * img.height,
        0 <= j < img.width * img.height,
        pass_w(img.width, p) > 0,
        pass_h(img.height, p) > 0,
    ensures
        ({
            let written = write_pass(pixels, img.width, adam7_spec(p), pass_w(img.width, p), pass_h(img.height, p), img.source(p));
            &&& written.len() == pixels.len()
            &&& written[j] == if img.on_pass(p, j) { img.word(j) } else { pixels[j] }
        }),
{
    if img.on_pass(p, j) {
        lemma_on_pass_pixel(img, p, j);
        let pw = pass_w(img.width, p);
        let ph = pass_h(img.height, p);
        let r = grid_row(j, img.width, adam7_spec(p));
        let c = grid_col(j, img.width, adam7_spec(p));
        assert(r * pw + c < pw * ph) by (nonlinear_arith)
            requires
                0 <= r < ph,
                0 <= c < pw;
    }
}

/// After passes `i` on, a pixel on one of them holds its word and any other
/// keeps what it had.
proof fn lemma_written_at(img: SampledImage, pixels: Seq<u32>, i: int, j: int)
    requires
        img.wf(),
        pixels.len() == img.width * img.height,
        0 <= j < img.width * img.height,
        0 <= i <= 7,
    ensures
        img.written_from(pixels, i).len() == pixels.len(),
        img.written_from(pixels, i)[j] == if img.covered_from(j, i) { img.word(j) } else { pixels[j] },
    decreases 7 - i,
{
    if i < 7 {
        let pw = pass_w(img.width, i);
        let ph = pass_h(img.height, i);
        let pass = adam7_spec(i);
        lemma_adam7_steps(i);
        lemma_extent(img.width, pass.x0 as int, pass.dx as int);
        lemma_extent(img.height, pass.y0 as int, pass.dy as int);
        let next = if pw == 0 || ph == 0 { pixels } else { write_pass(pixels, img.width, pass, pw, ph, img.source(i)) };
        if pw == 0 || ph == 0 {
            if img.on_pass(i, j) {
                lemma_on_pass_pixel(img, i, j);
            }
            assert(!img.on_pass(i, j));
        } else {
            lemma_write_at(img, i, pixels, j);
        }
        lemma_written_at(img, next, i + 1, j);
        assert(img.covered_from(j, i) == (img.on_pass(i, j) || img.covered_from(j, i + 1))) by {
            if img.covered_from(j, i) {
                let p = choose|p: int| i <= p < 7 && #[trigger] img.on_pass(p, j);
                if p > i {
                    assert(img.covered_from(j, i + 1));
                }
            }
            if img.covered_from(j, i + 1) {
                let p = choose|p: int| i + 1 <= p < 7 && #[trigger] img.on_pass(p, j);
                assert(img.covered_from(j, i));
            }
            if img.on_pass(i, j) {
                assert(img.covered_from(j, i));
            }
        }
    }
}

/// A position on a pass's step pattern below `size` is inside the pass.
proof fn lemma_below_extent(size: int, start: int, step: int, x: int)
    requires
        step >= 1,
        start >= 0,
        start <= x < size,
        (x - start) % step == 0,
    ensures
        0 <= (x - start) / step < pass_extent(size, start, step),
{
    let a = x - start;
    let q = a / step;
    let n = size - start + step - 1;
    let e = n / step;
    vstd::arithmetic::div_mod::lemma_fundamental_div_mod(a, step);
    vstd::arithmetic::div_mod::lemma_fundamental_div_mod(n, step);
    assert(0 <= q) by (nonlinear_arith)
        requires
            a == step * q + 0,
            a >= 0,
            step >= 1;
    assert(q < e) by (nonlinear_arith)
        requires
            a == step * q,
            n == step * e + n % step,
            0 <= n % step < step,
            n >= a + step,
            step >= 1;
}

/// Pixel `j` lies on pass `p` when its column and row fall on the pass's
/// pattern.
proof fn lemma_on_pass_by(img: SampledImage, p: int, j: int)
    requires
        img.wf(),
        0 <= j < img.width * img.height,
        0 <= p < 7,
        j % img.width >= adam7_spec(p).x0,
        (j % img.width - adam7_spec(p).x0) % (adam7_spec(p).dx as int) == 0,
        j / img.width >= adam7_spec(p).y0,
        (j / img.width - adam7_spec(p).y0) % (adam7_spec(p).dy as int) == 0,
    ensures
        img.on_pass(p, j),
{
    let pass = adam7_spec(p);
    lemma_adam7_steps(p);
    let x = j % img.width;
    let y = j / img.width;
    vstd::arithmetic::div_mod::lemma_fundamental_div_mod(j, img.width);
    assert(0 <= y < img.height) by (nonlinear_arith)
        requires
            j == img.width * y + x,
            0 <= x < img.width,
            0 <= j < img.width * img.height;
    lemma_below_extent(img.width, pass.x0 as int, pass.dx as int, x);
    lemma_below_extent(img.height, pass.y0 as int, pass.dy as int, y);
}

/// A coordinate whose residue is a pass's start lies on the pass's steps.
proof fn lemma_on_steps(v: int, start: int, step: int)
    requires
        step >= 1,
        v >= 0,
        v % step == start,
    ensures
        v >= start,
        (v - start) % step == 0,
{
    vstd::arithmetic::div_mod::lemma_fundamental_div_mod(v, step);
    let q = v / step;
    assert(q >= 0) by (nonlinear_arith)
        requires
            v == step * q + start,
            0 <= start < step,
            v >= 0;
    vstd::arithmetic::div_mod::lemma_fundamental_div_mod_converse(v - start, step, q, 0);
}

/// A coordinate's residues modulo 2 and 4 follow from its residue modulo 8.
proof fn lemma_residues(v: int)
    ensures
        0 <= v % 8 < 8,
        v % 2 == (v % 8) % 2,
        v % 4 == (v % 8) % 4,
{
    vstd::arithmetic::div_mod::lemma_mod_mod(v, 2, 4);
    vstd::arithmetic::div_mod::lemma_mod_mod(v, 4, 2);
}

/// Every pixel lies on one of the seven passes.
proof fn lemma_covered(img: SampledImage, j: int)
    requires
        img.wf(),
        0 <= j < img.width * img.height,
    ensures
        img.covered_from(j, 0),
{
    let x = j % img.width;
    let y = j / img.width;
    vstd::arithmetic::div_mod::lemma_fundamental_div_mod(j, img.width);
    assert(x >= 0 && y >= 0) by (nonlinear_arith)
        requires
            j == img.width * y + x,
            0 <= x < img.width,
            j >= 0,
            img.width >= 1;
    lemma_residues(x);
    lemma_residues(y);
    let (xr, yr) = (x % 8, y % 8);
    let p: int = if yr % 2 == 1 {
        6
    } else if xr % 2 == 1 {
        5
    } else if yr % 4 == 2 {
        4
    } else if xr % 4 == 2 {
        3
    } else if yr == 4 {
        2
    } else if xr == 4 {
        1
    } else {
        0
    };
    let pass = adam7_spec(p);
    lemma_adam7_steps(p);
    assert(x % (pass.dx as int) == pass.x0 && y % (pass.dy as int) == pass.y0) by {
        if p == 0 {
            assert(xr == 0 && yr == 0);
        }
    }
    lemma_on_steps(x, pass.x0 as int, pass.dx as int);
    lemma_on_steps(y, pass.y0 as int, pass.dy as int);
    lemma_on_pass_by(img, p, j);
    assert(img.on_pass(p, j));
}

/// Every pass decodes exactly when every pixel does.
proof fn lemma_passes_ok(img: SampledImage)
    requires
        img.wf(),
    ensures
        img.passes_ok_from(0) == (forall|j: int| 0 <= j < img.width * img.height ==> #[trigger] img.pixel(j) is Ok),
{
    if img.passes_ok_from(0) {
        assert forall|j: int| 0 <= j < img.width * img.height implies #[trigger] img.pixel(j) is Ok by {
            lemma_covered(img, j);
            let p = choose|p: int| 0 <= p < 7 && #[trigger] img.on_pass(p, j);
            lemma_on_pass_pixel(img, p, j);
            assert(img.pass_ok(p));
        }
    }
    if forall|j: int| 0 <= j < img.width * img.height ==> #[trigger] img.pixel(j) is Ok {
        assert forall|p: int| 0 <= p < 7 implies #[trigger] img.pass_ok(p) by {
            let pass = adam7_spec(p);
            lemma_adam7_steps(p);
            let pw = pass_w(img.width, p);
            let ph = pass_h(img.height, p);
            lemma_extent(img.width, pass.x0 as int, pass.dx as int);
            lemma_extent(img.height, pass.y0 as int, pass.dy as int);
            if pw > 0 && ph > 0 {
                assert forall|r: int, c: int| 0 <= r < ph && 0 <= c < pw implies #[trigger] pass_pixel(img.source(p), pw, r, c) is Ok by {
                    assert(c * pass.dx <= (pw - 1) * pass.dx) by (nonlinear_arith)
                        requires
                            0 <= c <= pw - 1,
                            pass.dx >= 1;
                    assert(r * pass.dy <= (ph - 1) * pass.dy) by (nonlinear_arith)
                        requires
                            0 <= r <= ph - 1,
                            pass.dy >= 1;
                    lemma_layout_pixel(img.samples, img.width, img.height, img.bpp(), pass, pw, ph, img.color_type, img.palette, img.trns, r, c);
                    let j = (pass.y0 + r * pass.dy) * img.width + pass.x0 + c * pass.dx;
                    assert(img.pixel(j) is Ok);
                }
            }
        }
    }
}

/// Whether every pixel decodes, said of `img` or of its samples.
proof fn lemma_all_ok_same(img: SampledImage)
    requires
        img.wf(),
    ensures
        (forall|j: int| 0 <= j < img.width * img.height ==> #[trigger] img.pixel(j) is Ok)
            == (forall|j: int| 0 <= j < img.width * img.height ==> #[trigger] image_pixel(img.samples, img.bpp(), img.color_type, img.palette, img.trns, j) is Ok),
{
    if forall|j: int| 0 <= j < img.width * img.height ==> #[trigger] img.pixel(j) is Ok {
        assert forall|j: int| 0 <= j < img.width * img.height implies #[trigger] image_pixel(img.samples, img.bpp(), img.color_type, img.palette, img.trns, j) is Ok by {
            assert(img.pixel(j) is Ok);
        }
    }
    if forall|j: int| 0 <= j < img.width * img.height ==> #[trigger] image_pixel(img.samples, img.bpp(), img.color_type, img.palette, img.trns, j) is Ok {
        assert forall|j: int| 0 <= j < img.width * img.height implies #[trigger] img.pixel(j) is Ok by {
            assert(image_pixel(img.samples, img.bpp(), img.color_type, img.palette, img.trns, j) is Ok);
        }
    }
}

/// Writing all seven passes onto a blank image gives every pixel its word.
proof fn lemma_written_all(img: SampledImage, blank: Seq<u32>)
    requires
        img.wf(),
        blank.len() == img.width * img.height,
    ensures
        img.written_from(blank, 0) == Seq::new((img.width * img.height) as nat, |j: int| img.word(j)),
{
    let expected = Seq::new((img.width * img.height) as nat, |j: int| img.word(j));
    let written = img.written_from(blank, 0);
    assert(img.width * img.height >= 1) by (nonlinear_arith)
        requires
            img.width >= 1,
            img.height >= 1;
    assert forall|j: int| 0 <= j < img.width * img.height implies #[trigger] written[j] == expected[j] by {
        lemma_written_at(img, blank, 0, j);
        lemma_covered(img, j);
    }
    lemma_written_at(img, blank, 0, 0);
    assert(written =~= expected);
}

/// An interlaced image's scanlines decode to the image.
proof fn lemma_interlaced_decodes(
    samples: Seq<u8>,
    width: u32,
    height: u32,
    color_type: u8,
    palette: Option<Seq<u8>>,
    trns: Option<TransparencyView>,
)
    requires
        width >= 1,
        height >= 1,
        bpp_of(color_type) >= 1,
        samples.len() == width * height * bpp_of(color_type),
    ensures
        reconstruct_result(Header { width, height, color_type, interlace: 1 }, interlaced_layout(samples, width as int, height as int, bpp_of(color_type), 0), palette, trns)
            == image_result(samples, width as int, height as int, color_type, palette, trns),
{
    let img = SampledImage { samples, width: width as int, height: height as int, color_type, palette, trns };
    let hd = Header { width, height, color_type, interlace: 1 };
    let raw = interlaced_layout(samples, width as int, height as int, bpp_of(color_type), 0);
    let blank = Seq::new((width * height) as nat, |j: int| 0u32);
    lemma_passes(img, width, height, Seq::empty(), 0, blank);
    assert(Seq::<u8>::empty() + raw =~= raw);
    assert(reconstruct_result(hd, raw, palette, trns) == passes_result(hd, raw, palette, trns, 0, 0, blank));
    lemma_passes_ok(img);
    lemma_all_ok_same(img);
    lemma_written_all(img, blank);
    let bpp = bpp_of(color_type);
    assert(Seq::new((img.width * img.height) as nat, |j: int| img.word(j))
        =~= Seq::new((img.width * img.height) as nat, |j: int| match image_pixel(samples, bpp, color_type, palette, trns, j) {
            Ok(v) => v,
            Err(_) => 0u32,
        }));
}

/// Interlaced and non-interlaced encodings of the same image decode
/// identically: the same samples laid out as flat scanlines and as the
/// seven Adam7 passes (each row filter type 0) reconstruct to the same
/// result, the image's words if every pixel decodes and `BadPaletteIndex`
/// otherwise.
pub proof fn lemma_interlaced_matches_flat(
    samples: Seq<u8>,
    width: u32,
    height: u32,
    color_type: u8,
    palette: Option<Seq<u8>>,
    trns: Option<TransparencyView>,
)
    requires
        width >= 1,
        height >= 1,
        bpp_of(color_type) >= 1,
        samples.len() == width * height * bpp_of(color_type),
    ensures
        reconstruct_result(Header { width, height, color_type, interlace: 1 }, interlaced_layout(samples, width as int, height as int, bpp_of(color_type), 0), palette, trns)
            == reconstruct_result(Header { width, height, color_type, interlace: 0 }, flat_layout(samples, width as int, height as int, bpp_of(color_type)), palette, trns),
        reconstruct_result(Header { width, height, color_type, interlace: 0 }, flat_layout(samples, width as int, height as int, bpp_of(color_type)), palette, trns)
            == image_result(samples, width as int, height as int, color_type, palette, trns),
{
    lemma_flat_decodes(samples, width, height, color_type, palette, trns);
    lemma_interlaced_decodes(samples, width, height, color_type, palette, trns);
}

/// An `IHDR` body: the size, bit depth 8, the colour type, compression and
/// filter method 0, and the interlace method.
pub open spec fn ihdr_body(width: u32, height: u32, color_type: u8, interlace: u8) -> Seq<u8> {
    be32(width) + be32(height) + seq![8u8, color_type, 0u8, 0u8, interlace]
}

/// A PNG framed as the writer frames one: `IHDR`, one `IDAT` holding the
/// scanlines as stored deflate blocks, and `IEND`.
pub open spec fn framed_png(width: u32, height: u32, color_type: u8, interlace: u8, raw: Seq<u8>) -> Seq<u8> {
    signature()
        + chunk_bytes(ihdr_name(), ihdr_body(width, height, color_type, interlace))
        + chunk_bytes(idat_name(), zlib_stored(raw))
        + chunk_bytes(iend_name(), Seq::empty())
}

/// An `IHDR` body within the limits reads back as its header.
proof fn lemma_ihdr_read(width: u32, height: u32, color_type: u8, interlace: u8)
    requires
        0 < width <= MAX_DIMENSION,
        0 < height <= MAX_DIMENSION,
        channels_spec(color_type) is Some,
        interlace <= 1,
    ensures
        header_result(ihdr_body(width, height, color_type, interlace))
            == Ok::<Header, DecodeError>(Header { width, height, color_type, interlace }),
{
    let d = ihdr_body(width, height, color_type, interlace);
    assert(d.subrange(0, 4) =~= be32(width));
    assert(d.subrange(4, 8) =~= be32(height));
    lemma_be32_at(d, 0, width);
    lemma_be32_at(d, 4, height);
    assert(d.len() == 13);
    assert(d[8] == 8 && d[9] == color_type && d[10] == 0 && d[11] == 0 && d[12] == interlace);
}

/// Decoding a framed PNG whose scanlines fit its decompression cap is
/// reconstructing those scanlines.
proof fn lemma_decode_framed(width: u32, height: u32, color_type: u8, interlace: u8, raw: Seq<u8>)
    requires
        0 < width <= MAX_DIMENSION,
        0 < height <= MAX_DIMENSION,
        channels_spec(color_type) is Some,
        interlace <= 1,
        raw.len() <= raw_size(Header { width, height, color_type, interlace }),
        raw_size(Header { width, height, color_type, interlace }) <= 0xf000_0000,
    ensures
        decode_result(framed_png(width, height, color_type, interlace, raw))
            == match reconstruct_result(Header { width, height, color_type, interlace }, raw, None, None) {
                Ok(px) => Ok::<(u32, u32, Seq<u32>), DecodeError>((width, height, px)),
                Err(e) => Err::<(u32, u32, Seq<u32>), DecodeError>(e),
            },
{
    let hd = Header { width, height, color_type, interlace };
    let z = zlib_stored(raw);
    let header = ihdr_body(width, height, color_type, interlace);
    let sig = signature();
    let ihdr = chunk_bytes(ihdr_name(), header);
    let idat = chunk_bytes(idat_name(), z);
    let iend = chunk_bytes(iend_name(), Seq::empty());
    let data = framed_png(width, height, color_type, interlace, raw);
    lemma_stored_len(raw, 0);
    let n = raw.len();
    assert(n / 65535 <= n);
    assert(z.len() <= u32::MAX);
    lemma_chunk_read(sig, ihdr_name(), header, idat + iend);
    assert(sig + ihdr + (idat + iend) =~= data);
    assert(data.subrange(0, 8) =~= sig);
    lemma_names_differ();
    lemma_ihdr_read(width, height, color_type, interlace);
    assert(sig.len() == 8 && header.len() == 13);
    lemma_scan_written(sig + ihdr, color_type, z);
    assert((sig + ihdr).len() == 33);
    lemma_inflate_stored(raw, raw_size(hd));
}

/// The interlaced scanlines of passes `i` on are as long as the decoder
/// counts them.
proof fn lemma_interlaced_len(samples: Seq<u8>, width: u32, height: u32, color_type: u8, i: int)
    requires
        0 <= i <= 7,
    ensures
        interlaced_layout(samples, width as int, height as int, bpp_of(color_type), i).len()
            == interlaced_bytes(Header { width, height, color_type, interlace: 1 }, i),
    decreases 7 - i,
{
    if i < 7 {
        lemma_interlaced_len(samples, width, height, color_type, i + 1);
        let pass = adam7_spec(i);
        lemma_adam7_steps(i);
        lemma_extent(width as int, pass.x0 as int, pass.dx as int);
        lemma_extent(height as int, pass.y0 as int, pass.dy as int);
        let pw = pass_w(width as int, i);
        let ph = pass_h(height as int, i);
        let bpp = bpp_of(color_type);
        if pw != 0 && ph != 0 {
            assert((pw * bpp + 1) * ph >= 0) by (nonlinear_arith)
                requires
                    pw >= 0,
                    ph >= 0,
                    bpp >= 0;
        }
    }
}

/// Interlaced and non-interlaced PNGs of the same image decode identically:
/// two files framed alike, with the same `IHDR` but for the interlace
/// method, one holding the image's samples as flat scanlines and the other
/// as the seven Adam7 passes (each row filter type 0), decode to the same
/// result. It is stated for every image within the dimension limit whose
/// interlaced scanlines fit the decompression cap the decoder reads into a
/// single 32-bit chunk.
pub proof fn lemma_interlaced_png_matches_flat(samples: Seq<u8>, width: u32, height: u32, color_type: u8)
    requires
        0 < width <= MAX_DIMENSION,
        0 < height <= MAX_DIMENSION,
        channels_spec(color_type) is Some,
        samples.len() == width * height * bpp_of(color_type),
        raw_size(Header { width, height, color_type, interlace: 1 }) <= 0xf000_0000,
    ensures
        decode_result(framed_png(width, height, color_type, 1, interlaced_layout(samples, width as int, height as int, bpp_of(color_type), 0)))
            == decode_result(framed_png(width, height, color_type, 0, flat_layout(samples, width as int, height as int, bpp_of(color_type)))),
{
    let bpp = bpp_of(color_type);
    let flat = flat_layout(samples, width as int, height as int, bpp);
    let inter = interlaced_layout(samples, width as int, height as int, bpp, 0);
    assert(bpp >= 1 && bpp <= 4);
    assert((width * bpp + 1) * height <= (4 * 16384 + 1) * 16384) by (nonlinear_arith)
        requires
            0 < width <= 16384,
            0 < height <= 16384,
            1 <= bpp <= 4;
    assert(flat.len() == (width * bpp + 1) * height);
    lemma_interlaced_len(samples, width, height, color_type, 0);
    lemma_decode_framed(width, height, color_type, 0, flat);
    lemma_decode_framed(width, height, color_type, 1, inter);
    lemma_interlaced_matches_flat(samples, width, height, color_type, None, None);
}

} // verus!
