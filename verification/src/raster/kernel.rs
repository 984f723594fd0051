//! Coverage bitmaps: one byte of coverage per pixel, as the analytic
//! rasterizer produces them, for the GUI to blend and the receipt path to
//! threshold.

use vstd::prelude::*;
use crate::raster::blend::{pack_row_1bit, packed_bit, all_zero};

verus! {

/// How to turn a winding number into coverage.
#[derive(Debug, Clone, Copy, PartialEq, Eq, Structural)]
pub enum FillRule {
    /// Glyph outlines: outer and inner contours wind oppositely, so a counter
    /// cancels to zero.
    NonZero,
    EvenOdd,
}

/// A dense coverage bitmap: 0 = uncovered, 255 = fully covered.
#[derive(Debug, Clone, PartialEq, Eq)]
pub struct CoverageBitmap {
    pub width: usize,
    pub height: usize,
    pub pixels: Vec<u8>,
}

/// The ASCII decimal digits of `n`, most significant first.
pub open spec fn decimal(n: nat) -> Seq<u8>
    decreases n,
{
    if n < 10 {
        seq![(48 + n) as u8]
    } else {
        decimal(n / 10).push((48 + n % 10) as u8)
    }
}

/// The binary PGM header for a `width × height` greyscale image.
pub open spec fn pgm_header(width: nat, height: nat) -> Seq<u8> {
    seq![80u8, 53u8, 10u8] + decimal(width) + seq![32u8] + decimal(height) + seq![10u8, 50u8, 53u8, 53u8, 10u8]
}

/// Append the decimal digits of `n` to `out`.
fn push_decimal(out: &mut Vec<u8>, n: usize)
    ensures
        final(out)@ == old(out)@ + decimal(n as nat),
    decreases n,
{
    if n < 10 {
        out.push(48 + n as u8);
    } else {
        push_decimal(out, n / 10);
        out.push(48 + (n % 10) as u8);
        proof {
            assert(decimal(n as nat) == decimal((n / 10) as nat).push((48 + n % 10) as u8));
        }
    }
}

impl CoverageBitmap {
    /// Whether the pixel vector holds exactly `width * height` bytes.
    pub open spec fn wf(&self) -> bool {
        self.pixels@.len() == self.width * self.height
    }

    /// Coverage at `(x, y)`, zero outside the bitmap.
    pub open spec fn at(&self, x: int, y: int) -> u8 {
        if 0 <= x < self.width && 0 <= y < self.height {
            self.pixels@[y * self.width + x]
        } else {
            0
        }
    }

    /// An empty (all zero) bitmap.
    pub fn new(width: usize, height: usize) -> (result: CoverageBitmap)
        requires
            width * height <= usize::MAX,
        ensures
            result.width == width,
            result.height == height,
            result.wf(),
            forall|i: int| 0 <= i < result.pixels@.len() ==> result.pixels@[i] == 0,
    {
        CoverageBitmap { width, height, pixels: vec![0u8; width * height] }
    }

    /// Coverage at `(x, y)`; zero for a position outside the bitmap.
    pub fn get(&self, x: usize, y: usize) -> (result: u8)
        requires
            self.wf(),
        ensures
            result == self.at(x as int, y as int),
    {
        if x >= self.width || y >= self.height {
            return 0;
        }
        let _len = self.pixels.len();
        proof {
            crate::raster::painter::lemma_index_in_bounds(self.width as int, self.height as int, x as int, y as int);
            assert(0 <= y * self.width <= y * self.width + x);
        }
        self.pixels[y * self.width + x]
    }

    /// Merge one pixel of coverage in, keeping the greater value; a position
    /// outside the bitmap is ignored.
    pub fn blend_max(&mut self, x: usize, y: usize, coverage: u8)
        requires
            old(self).wf(),
        ensures
            final(self).wf(),
            final(self).width == old(self).width,
            final(self).height == old(self).height,
            x >= old(self).width || y >= old(self).height ==> final(self).pixels@ == old(self).pixels@,
            x < old(self).width && y < old(self).height ==> final(self).pixels@ == old(self).pixels@.update(
                y * old(self).width + x,
                if coverage > old(self).pixels@[y * old(self).width + x] { coverage } else { old(self).pixels@[y * old(self).width + x] },
            ),
    {
        if x >= self.width || y >= self.height {
            return;
        }
        let _len = self.pixels.len();
        proof {
            crate::raster::painter::lemma_index_in_bounds(self.width as int, self.height as int, x as int, y as int);
            assert(0 <= y * self.width <= y * self.width + x);
        }
        let index = y * self.width + x;
        if coverage > self.pixels[index] {
            self.pixels.set(index, coverage);
        }
    }

    /// Merge a horizontal run of coverage in from `(x, y)`, keeping the
    /// greater value; anything past the right edge is cut, and a start outside
    /// the bitmap changes nothing.
    pub fn blend_max_row(&mut self, x: usize, y: usize, coverage: &[u8])
        requires
            old(self).wf(),
        ensures
            final(self).wf(),
            final(self).width == old(self).width,
            final(self).height == old(self).height,
            forall|i: int| 0 <= i < old(self).pixels@.len() ==> #[trigger] final(self).pixels@[i] == ({
                let w = old(self).width as int;
                let start = y * w + x;
                if y < old(self).height && x < old(self).width && start <= i < start + w - x && i - start < coverage@.len()
                    && coverage@[i - start] > old(self).pixels@[i] {
                    coverage@[i - start]
                } else {
                    old(self).pixels@[i]
                }
            }),
    {
        if y >= self.height || x >= self.width {
            return;
        }
        let room = self.width - x;
        let take = if room < coverage.len() { room } else { coverage.len() };
        let _len = self.pixels.len();
        proof {
            assert(0 <= y * self.width <= y * self.width + x);
            crate::raster::painter::lemma_index_in_bounds(self.width as int, self.height as int, x as int, y as int);
            crate::raster::painter::lemma_index_in_bounds(self.width as int, self.height as int, 0, y as int);
            assert((y + 1) * self.width <= self.width * self.height) by (nonlinear_arith)
                requires y < self.height;
            assert((y + 1) * self.width == y * self.width + self.width) by (nonlinear_arith);
        }
        let start = y * self.width + x;
        let mut i: usize = 0;
        while i < take
            invariant
                self.wf(),
                self.width == old(self).width,
                self.height == old(self).height,
                self.pixels@.len() == old(self).pixels@.len(),
                _len == self.pixels@.len(),
                start == y * self.width + x,
                take <= self.width - x,
                take <= coverage@.len(),
                start + take <= self.pixels@.len(),
                i <= take,
                forall|j: int| 0 <= j < old(self).pixels@.len() ==> #[trigger] self.pixels@[j] == if start <= j < start + i
                    && coverage@[j - start] > old(self).pixels@[j] {
                    coverage@[j - start]
                } else {
                    old(self).pixels@[j]
                },
            decreases take - i,
        {
            let ghost prev = self.pixels@;
            assert(prev[start + i] == old(self).pixels@[start + i]);
            if coverage[i] > self.pixels[start + i] {
                self.pixels.set(start + i, coverage[i]);
            }
            assert forall|j: int| 0 <= j < old(self).pixels@.len() implies #[trigger] self.pixels@[j] == if start <= j < start + i + 1
                && coverage@[j - start] > old(self).pixels@[j] {
                coverage@[j - start]
            } else {
                old(self).pixels@[j]
            } by {
                if j != start + i {
                    assert(self.pixels@[j] == prev[j]);
                }
            }
            i += 1;
        }
    }

    /// Whether every pixel is uncovered.
    pub fn is_blank(&self) -> (result: bool)
        ensures
            result == forall|i: int| 0 <= i < self.pixels@.len() ==> self.pixels@[i] == 0,
    {
        all_zero(self.pixels.as_slice())
    }

    /// Threshold to one bit per pixel, MSB first, each row padded to a byte
    /// boundary: `ceil(width / 8)` bytes per row.
    pub fn to_1bit_rows(&self, threshold: u8) -> (result: Vec<u8>)
        requires
            self.wf(),
            (self.width + 7) / 8 * self.height <= usize::MAX,
        ensures
            result@.len() == (self.width + 7) / 8 * self.height,
            forall|y: int, i: int| 0 <= y < self.height && 0 <= i < (self.width + 7) / 8 * 8 ==>
                #[trigger] packed_bit(result@.subrange(y * ((self.width + 7) / 8), (y + 1) * ((self.width + 7) / 8)), i)
                    == (i < self.width && self.pixels@[y * self.width + i] >= threshold),
    {
        let stride = self.width / 8 + if self.width % 8 == 0 { 0 } else { 1 };
        assert(stride == (self.width + 7) / 8);
        let _len = self.pixels.len();
        let mut out: Vec<u8> = Vec::new();
        let mut y: usize = 0;
        while y < self.height
            invariant
                self.wf(),
                _len == self.width * self.height,
                stride == (self.width + 7) / 8,
                stride * self.height <= usize::MAX,
                y <= self.height,
                out@.len() == y * stride,
                forall|yy: int, i: int| 0 <= yy < y && 0 <= i < stride * 8 ==>
                    #[trigger] packed_bit(out@.subrange(yy * stride, (yy + 1) * stride), i)
                        == (i < self.width && self.pixels@[yy * self.width + i] >= threshold),
            decreases self.height - y,
        {
            proof {
                assert(0 <= y * self.width) by (nonlinear_arith) requires y >= 0;
                assert((y + 1) * self.width <= self.width * self.height) by (nonlinear_arith)
                    requires y < self.height;
                assert((y + 1) * self.width == y * self.width + self.width) by (nonlinear_arith);
                assert((y + 1) * stride <= stride * self.height) by (nonlinear_arith)
                    requires y < self.height;
                assert((y + 1) * stride == y * stride + stride) by (nonlinear_arith);
            }
            let row = &self.pixels.as_slice()[y * self.width..(y + 1) * self.width];
            let mut packed: Vec<u8> = vec![0u8; stride];
            pack_row_1bit(row, threshold, packed.as_mut_slice());
            let ghost before = out@;
            let mut j: usize = 0;
            while j < stride
                invariant
                    j <= stride,
                    out@.len() == before.len() + j,
                    forall|m: int| 0 <= m < before.len() ==> #[trigger] out@[m] == before[m],
                    forall|m: int| 0 <= m < j ==> #[trigger] out@[before.len() + m] == packed@[m],
                    packed@.len() == stride,
                decreases stride - j,
            {
                out.push(packed[j]);
                j += 1;
            }
            proof {
                assert(before.len() == y * stride);
                assert forall|m: int| 0 <= m < stride implies #[trigger] out@.subrange(y * stride, (y + 1) * stride)[m] == packed@[m] by {
                    assert(out@[before.len() + m] == packed@[m]);
                }
                assert(out@.subrange(y * stride, (y + 1) * stride) =~= packed@);
                assert forall|yy: int, i: int| 0 <= yy < y + 1 && 0 <= i < stride * 8 implies
                    #[trigger] packed_bit(out@.subrange(yy * stride, (yy + 1) * stride), i)
                        == (i < self.width && self.pixels@[yy * self.width + i] >= threshold) by {
                    if yy < y {
                        assert((yy + 1) * stride <= y * stride) by (nonlinear_arith) requires yy < y, stride >= 0;
                        assert(0 <= yy * stride) by (nonlinear_arith) requires yy >= 0, stride >= 0;
                        assert((yy + 1) * stride == yy * stride + stride) by (nonlinear_arith);
                        assert forall|m: int| 0 <= m < stride implies #[trigger] out@.subrange(yy * stride, (yy + 1) * stride)[m]
                            == before.subrange(yy * stride, (yy + 1) * stride)[m] by {
                            assert(out@[yy * stride + m] == before[yy * stride + m]);
                        }
                        assert(out@.subrange(yy * stride, (yy + 1) * stride) =~= before.subrange(yy * stride, (yy + 1) * stride));
                    } else {
                        if i < self.width {
                            assert(row@[i] == self.pixels@[y * self.width + i]);
                        }
                    }
                }
            }
            y += 1;
        }
        assert(y * stride == stride * self.height) by (nonlinear_arith) requires y == self.height;
        out
    }

    /// Binary PGM: the header `P5\n<width> <height>\n255\n`, then the pixels.
    pub fn to_pgm(&self) -> (result: Vec<u8>)
        ensures
            result@ == pgm_header(self.width as nat, self.height as nat) + self.pixels@,
    {
        let mut out: Vec<u8> = Vec::new();
        out.push(80);
        out.push(53);
        out.push(10);
        push_decimal(&mut out, self.width);
        out.push(32);
        push_decimal(&mut out, self.height);
        out.push(10);
        out.push(50);
        out.push(53);
        out.push(53);
        out.push(10);
        let ghost header = out@;
        let mut i: usize = 0;
        while i < self.pixels.len()
            invariant
                i <= self.pixels@.len(),
                out@ == header + self.pixels@.take(i as int),
            decreases self.pixels@.len() - i,
        {
            out.push(self.pixels[i]);
            assert(self.pixels@.take(i + 1) == self.pixels@.take(i as int).push(self.pixels@[i as int]));
            i += 1;
        }
        assert(self.pixels@.take(self.pixels@.len() as int) == self.pixels@);
        assert(header == pgm_header(self.width as nat, self.height as nat));
        out
    }
}

} // verus!
