//! A decoded raster image: one straight-alpha word per pixel.
//!
//! Mirrors the window buffer's `0x00RRGGBB` layout with an alpha channel added
//! in the top byte, which is what the PNG decoder produces.

use vstd::prelude::*;

verus! {

/// `width × height` pixels, row-major, each `0xAARRGGBB` with straight
/// (not premultiplied) alpha.
#[derive(Debug, Clone, PartialEq, Eq)]
pub struct Bitmap {
    pub width: u32,
    pub height: u32,
    pub pixels: Vec<u32>,
}

/// The top byte of a pixel word.
pub open spec fn alpha_spec(pixel: u32) -> u8 {
    (pixel / 0x0100_0000) as u8
}

/// The low three bytes of a pixel word.
pub open spec fn rgb_spec(pixel: u32) -> u32 {
    (pixel % 0x0100_0000) as u32
}

/// The pixel word holding `alpha` above the colour bytes of `rgb`.
pub open spec fn argb_spec(alpha: u8, rgb: u32) -> u32 {
    (alpha * 0x0100_0000 + rgb % 0x0100_0000) as u32
}

impl Bitmap {
    /// Whether the pixel vector holds exactly `width * height` words.
    pub open spec fn wf(&self) -> bool {
        self.pixels@.len() == self.width * self.height
    }

    /// The word at column `x`, row `y` of a well-formed bitmap.
    pub open spec fn pixel_at(&self, x: int, y: int) -> u32 {
        self.pixels@[y * self.width + x]
    }

    /// A fully transparent bitmap of the given size.
    pub fn new(width: u32, height: u32) -> (result: Bitmap)
        requires
            width * height <= usize::MAX,
        ensures
            result.width == width,
            result.height == height,
            result.wf(),
            forall|i: int| 0 <= i < result.pixels@.len() ==> result.pixels@[i] == 0,
    {
        let count = (width as usize) * (height as usize);
        Bitmap { width, height, pixels: vec![0u32; count] }
    }

    /// The pixel at `(x, y)`, indexed row-major.
    pub fn pixel(&self, x: u32, y: u32) -> (result: u32)
        requires
            self.wf(),
            x < self.width,
            y < self.height,
            y * self.width + x <= u32::MAX,
        ensures
            result == self.pixel_at(x as int, y as int),
    {
        proof {
            assert(y * self.width + x < self.width * self.height) by (nonlinear_arith)
                requires x < self.width, y < self.height;
        }
        self.pixels[(y * self.width + x) as usize]
    }
}

/// Pack an alpha byte and an `0x00RRGGBB` colour into one bitmap pixel.
pub fn argb(alpha: u8, rgb: u32) -> (result: u32)
    ensures
        result == argb_spec(alpha, rgb),
        alpha_spec(result) == alpha,
        rgb_spec(result) == rgb_spec(rgb),
{
    let result = ((alpha as u32) << 24) | (rgb & 0x00ff_ffff);
    assert(result == (alpha * 0x0100_0000 + rgb % 0x0100_0000) as u32
        && result / 0x0100_0000 == alpha as u32
        && result % 0x0100_0000 == rgb % 0x0100_0000) by (bit_vector)
        requires result == ((alpha as u32) << 24) | (rgb & 0x00ff_ffff);
    result
}

/// The alpha byte of a pixel.
pub fn alpha_of(pixel: u32) -> (result: u8)
    ensures
        result == alpha_spec(pixel),
{
    assert((pixel >> 24) as u8 == (pixel / 0x0100_0000) as u8) by (bit_vector);
    (pixel >> 24) as u8
}

/// The colour of a pixel, in the window buffer's `0x00RRGGBB` layout.
pub fn rgb_of(pixel: u32) -> (result: u32)
    ensures
        result == rgb_spec(pixel),
{
    assert(pixel & 0x00ff_ffff == pixel % 0x0100_0000) by (bit_vector);
    pixel & 0x00ff_ffff
}

/// Packing a pixel and unpacking it again gives back the alpha byte and the
/// colour bytes that went in.
pub proof fn lemma_argb_round_trip(alpha: u8, rgb: u32)
    ensures
        alpha_spec(argb_spec(alpha, rgb)) == alpha,
        rgb_spec(argb_spec(alpha, rgb)) == rgb_spec(rgb),
        rgb_spec(rgb) <= 0x00ff_ffff,
{
}

} // verus!
