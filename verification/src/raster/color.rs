//! Colour helpers for the `0x00RRGGBB` words the window buffer holds.

use vstd::prelude::*;

verus! {

/// Byte `shift / 8` of a colour word (`shift` is 0, 8 or 16).
pub open spec fn channel(c: u32, shift: u32) -> u8 {
    ((c / pow2_u32(shift)) % 256) as u8
}

/// `2^shift` for the three channel offsets.
pub open spec fn pow2_u32(shift: u32) -> u32 {
    if shift == 0 { 1 } else if shift == 8 { 256 } else if shift == 16 { 65536 } else { 16777216 }
}

/// The colour word with the given red, green and blue bytes.
pub open spec fn from_rgb_spec(r: u8, g: u8, b: u8) -> u32 {
    (r * 65536 + g * 256 + b) as u32
}

/// The low three bytes of a word: the colour, with anything above dropped.
pub fn rgb(hex: u32) -> (result: u32)
    ensures
        result == hex % 0x0100_0000,
{
    assert(hex & 0x00ff_ffff == hex % 0x0100_0000) by (bit_vector);
    hex & 0x00ff_ffff
}

/// Pack three channel bytes into one colour word.
pub fn from_rgb(r: u8, g: u8, b: u8) -> (result: u32)
    ensures
        result == from_rgb_spec(r, g, b),
        channel(result, 16) == r,
        channel(result, 8) == g,
        channel(result, 0) == b,
        result <= 0x00ff_ffff,
{
    let result = ((r as u32) << 16) | ((g as u32) << 8) | (b as u32);
    assert(result == (r * 65536 + g * 256 + b) as u32
        && ((result / 65536) % 256) as u8 == r
        && ((result / 256) % 256) as u8 == g
        && ((result / 1) % 256) as u8 == b
        && result <= 0x00ff_ffff) by (bit_vector)
        requires result == ((r as u32) << 16) | ((g as u32) << 8) | (b as u32);
    result
}

/// The red byte of a colour word.
pub fn red(c: u32) -> (result: u8)
    ensures
        result == channel(c, 16),
{
    assert(((c >> 16) & 0xff) as u8 == ((c / 65536) % 256) as u8) by (bit_vector);
    ((c >> 16) & 0xff) as u8
}

/// The green byte of a colour word.
pub fn green(c: u32) -> (result: u8)
    ensures
        result == channel(c, 8),
{
    assert(((c >> 8) & 0xff) as u8 == ((c / 256) % 256) as u8) by (bit_vector);
    ((c >> 8) & 0xff) as u8
}

/// The blue byte of a colour word.
pub fn blue(c: u32) -> (result: u8)
    ensures
        result == channel(c, 0),
{
    assert((c & 0xff) as u8 == ((c / 1) % 256) as u8) by (bit_vector);
    (c & 0xff) as u8
}

} // verus!
