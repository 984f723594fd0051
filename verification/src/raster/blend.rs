//! The portable blend kernels — integer compositing in sRGB space.

use vstd::prelude::*;
use crate::raster::color::channel;

verus! {

/// One channel of a blend: weights `alpha + 1` and `255 - alpha`, summing to
/// 256, so a colour blended over itself is unchanged.
pub open spec fn blend_channel_spec(destination: u8, source: u8, alpha: u8) -> u8 {
    ((destination * (255 - alpha) + source * (alpha + 1)) / 256) as u8
}

/// Whether `result` is, channel by channel, the blend of `source` over
/// `destination` at `alpha`, with nothing above the colour bytes.
pub open spec fn is_blend(result: u32, destination: u32, source: u32, alpha: u8) -> bool {
    &&& result <= 0x00ff_ffff
    &&& channel(result, 16) == blend_channel_spec(channel(destination, 16), channel(source, 16), alpha)
    &&& channel(result, 8) == blend_channel_spec(channel(destination, 8), channel(source, 8), alpha)
    &&& channel(result, 0) == blend_channel_spec(channel(destination, 0), channel(source, 0), alpha)
}

/// One pixel of coverage-weighted compositing: exact at both ends.
pub open spec fn blend_pixel_spec(destination: u32, color: u32, coverage: u8) -> u32 {
    if coverage == 0 {
        destination
    } else if coverage == 255 {
        color
    } else {
        choose|r: u32| is_blend(r, destination, color, coverage)
    }
}

proof fn lemma_split_lanes(x: u32)
    ensures
        x & 0x00ff_00ff == ((x / 65536) % 256) * 65536 + x % 256,
        x & 0x0000_ff00 == ((x / 256) % 256) * 256,
{
    assert(x & 0x00ff_00ff == (((x / 65536) % 256) * 65536 + x % 256) as u32) by (bit_vector);
    assert(x & 0x0000_ff00 == (((x / 256) % 256) * 256) as u32) by (bit_vector);
}

proof fn lemma_join_lanes(rb: u32, hh: u32, ll: u32, g: u32)
    requires
        hh <= 65280,
        ll <= 255,
        g <= 65280,
        rb == hh * 256 + ll,
    ensures
        ({
            let r = (rb & 0x00ff_00ff) | (g & 0x0000_ff00);
            &&& r <= 0x00ff_ffff
            &&& (r / 65536) % 256 == hh / 256
            &&& (r / 256) % 256 == g / 256
            &&& r % 256 == ll
        }),
{
    assert({
        let r = (rb & 0x00ff_00ff) | (g & 0x0000_ff00);
        &&& r <= 0x00ff_ffff
        &&& (r / 65536) % 256 == hh / 256
        &&& (r / 256) % 256 == g / 256
        &&& r % 256 == ll
    }) by (bit_vector)
        requires hh <= 65280, ll <= 255, g <= 65280, rb == (hh * 256 + ll) as u32;
}

proof fn lemma_weighted(x: int, y: int, inverse: int, a: int)
    requires
        0 <= x <= 255,
        0 <= y <= 255,
        0 <= inverse,
        0 <= a,
        inverse + a == 256,
    ensures
        0 <= x * inverse + y * a <= 65280,
{
    assert(0 <= x * inverse + y * a <= 65280) by (nonlinear_arith)
        requires 0 <= x <= 255, 0 <= y <= 255, 0 <= inverse, 0 <= a, inverse + a == 256;
}

/// Integer blend in sRGB space, weights `alpha + 1` and `255 - alpha`.
pub fn blend_channels(destination: u32, source: u32, alpha: u8) -> (result: u32)
    ensures
        is_blend(result, destination, source, alpha),
{
    let ghost original = alpha;
    let alpha = (alpha as u32) + 1;
    let inverse = 256 - alpha;
    let ghost (d, s) = (destination, source);
    let ghost (dr, dg, db) = (((d / 65536) % 256) as int, ((d / 256) % 256) as int, (d % 256) as int);
    let ghost (sr, sg, sb) = (((s / 65536) % 256) as int, ((s / 256) % 256) as int, (s % 256) as int);
    let ghost hh = dr * inverse + sr * alpha;
    let ghost ll = db * inverse + sb * alpha;
    let ghost gg = dg * inverse + sg * alpha;
    proof {
        lemma_split_lanes(destination);
        lemma_split_lanes(source);
        lemma_weighted(dr, sr, inverse as int, alpha as int);
        lemma_weighted(dg, sg, inverse as int, alpha as int);
        lemma_weighted(db, sb, inverse as int, alpha as int);
        assert((dr * 65536 + db) * inverse + (sr * 65536 + sb) * alpha == hh * 65536 + ll) by (nonlinear_arith)
            requires hh == dr * inverse + sr * alpha, ll == db * inverse + sb * alpha;
        assert((dg * 256) * inverse + (sg * 256) * alpha == gg * 256) by (nonlinear_arith)
            requires gg == dg * inverse + sg * alpha;
        assert((hh * 65536 + ll) / 256 == hh * 256 + ll / 256) by (nonlinear_arith)
            requires 0 <= ll <= 65280;
        assert((gg * 256) / 256 == gg) by (nonlinear_arith);
        assert(0 <= ll / 256 <= 255) by (nonlinear_arith) requires 0 <= ll <= 65280;
    }
    let sum_rb = (destination & 0x00ff_00ff) * inverse + (source & 0x00ff_00ff) * alpha;
    let sum_g = (destination & 0x0000_ff00) * inverse + (source & 0x0000_ff00) * alpha;
    let red_blue = sum_rb >> 8;
    let green = sum_g >> 8;
    proof {
        assert(sum_rb >> 8 == sum_rb / 256) by (bit_vector);
        assert(sum_g >> 8 == sum_g / 256) by (bit_vector);
        lemma_join_lanes(red_blue, hh as u32, (ll / 256) as u32, green);
    }
    (red_blue & 0x00ff_00ff) | (green & 0x0000_ff00)
}

/// One pixel of coverage-weighted compositing: zero coverage leaves the
/// destination untouched and full coverage stores the colour verbatim.
pub fn blend_pixel(destination: u32, color: u32, coverage: u8) -> (result: u32)
    ensures
        coverage == 0 ==> result == destination,
        coverage == 255 ==> result == color,
        0 < coverage < 255 ==> is_blend(result, destination, color, coverage),
        result == blend_pixel_spec(destination, color, coverage),
{
    if coverage == 0 {
        destination
    } else if coverage == 255 {
        color
    } else {
        let r = blend_channels(destination, color, coverage);
        proof {
            lemma_blend_unique(r, blend_pixel_spec(destination, color, coverage), destination, color, coverage);
        }
        r
    }
}

/// At most one word is the blend of two colours at a given alpha.
pub proof fn lemma_blend_unique(r1: u32, r2: u32, destination: u32, source: u32, alpha: u8)
    requires
        is_blend(r1, destination, source, alpha),
        0 < alpha < 255 ==> is_blend(r2, destination, source, alpha) || r2 == choose|r: u32| is_blend(r, destination, source, alpha),
    ensures
        0 < alpha < 255 ==> r1 == r2,
{
    if 0 < alpha < 255 {
        let r = choose|r: u32| is_blend(r, destination, source, alpha);
        assert(is_blend(r, destination, source, alpha));
        assert(is_blend(r2, destination, source, alpha));
        lemma_channels_determine(r1, r2);
    }
}

/// A colour word no larger than `0x00ffffff` is fixed by its three channels.
pub proof fn lemma_channels_determine(a: u32, b: u32)
    requires
        a <= 0x00ff_ffff,
        b <= 0x00ff_ffff,
        channel(a, 16) == channel(b, 16),
        channel(a, 8) == channel(b, 8),
        channel(a, 0) == channel(b, 0),
    ensures
        a == b,
{
    assert(a == b) by (bit_vector)
        requires
            a <= 0x00ff_ffff,
            b <= 0x00ff_ffff,
            (a / 65536) % 256 == (b / 65536) % 256,
            (a / 256) % 256 == (b / 256) % 256,
            a % 256 == b % 256;
}

/// Blending a colour over itself leaves it unchanged, at every alpha.
pub proof fn lemma_blend_over_itself(c: u8, alpha: u8)
    ensures
        blend_channel_spec(c, c, alpha) == c,
{
    assert(c * (255 - alpha) + c * (alpha + 1) == c * 256) by (nonlinear_arith);
}

/// Blend one colour along a row, weighted per pixel by a coverage byte. Stops
/// at the shorter of the two slices.
pub fn blend_coverage_span(destination: &mut [u32], color: u32, coverage: &[u8])
    ensures
        final(destination)@.len() == old(destination)@.len(),
        forall|i: int| 0 <= i < old(destination)@.len() ==> #[trigger] final(destination)@[i] == if i < coverage@.len() {
            blend_pixel_spec(old(destination)@[i], color, coverage@[i])
        } else {
            old(destination)@[i]
        },
{
    let n = if destination.len() < coverage.len() { destination.len() } else { coverage.len() };
    let mut i: usize = 0;
    while i < n
        invariant
            n <= destination@.len(),
            n <= coverage@.len(),
            i <= n,
            destination@.len() == old(destination)@.len(),
            forall|j: int| 0 <= j < old(destination)@.len() ==> #[trigger] destination@[j] == if j < i {
                blend_pixel_spec(old(destination)@[j], color, coverage@[j])
            } else {
                old(destination)@[j]
            },
        decreases n - i,
    {
        let p = blend_pixel(destination[i], color, coverage[i]);
        destination[i] = p;
        i += 1;
    }
}

/// Merge coverage in, keeping the greater value, over the shorter slice.
pub fn max_span(destination: &mut [u8], source: &[u8])
    ensures
        final(destination)@.len() == old(destination)@.len(),
        forall|i: int| 0 <= i < old(destination)@.len() ==> #[trigger] final(destination)@[i] == if i < source@.len() && source@[i] > old(destination)@[i] {
            source@[i]
        } else {
            old(destination)@[i]
        },
{
    let n = if destination.len() < source.len() { destination.len() } else { source.len() };
    let mut i: usize = 0;
    while i < n
        invariant
            n <= destination@.len(),
            n <= source@.len(),
            i <= n,
            destination@.len() == old(destination)@.len(),
            forall|j: int| 0 <= j < old(destination)@.len() ==> #[trigger] destination@[j] == if j < i && source@[j] > old(destination)@[j] {
                source@[j]
            } else {
                old(destination)@[j]
            },
        decreases n - i,
    {
        if source[i] > destination[i] {
            destination[i] = source[i];
        }
        i += 1;
    }
}

/// Bit `j` of a byte, counting from the most significant (`j` in `0..8`).
pub open spec fn msb_bit(byte: u8, j: u8) -> bool {
    byte & (0x80u8 >> j) != 0
}

/// Bit `index % 8` (MSB first) of byte `index / 8` of a packed row.
pub open spec fn packed_bit(packed: Seq<u8>, index: int) -> bool {
    msb_bit(packed[index / 8], (index % 8) as u8)
}

proof fn lemma_set_msb(old_byte: u8, byte: u8, k: u8, j: u8, set: bool)
    requires
        k < 8,
        j < 8,
        byte == (if set { old_byte | (0x80u8 >> k) } else { old_byte }),
    ensures
        j != k ==> msb_bit(byte, j) == msb_bit(old_byte, j),
        j == k && !msb_bit(old_byte, k) ==> msb_bit(byte, k) == set,
{
    assert(j != k ==> (byte & (0x80u8 >> j) != 0) == (old_byte & (0x80u8 >> j) != 0)) by (bit_vector)
        requires k < 8, j < 8, byte == (if set { old_byte | (0x80u8 >> k) } else { old_byte });
    assert(j == k && !(old_byte & (0x80u8 >> k) != 0) ==> (byte & (0x80u8 >> k) != 0) == set) by (bit_vector)
        requires k < 8, j < 8, byte == (if set { old_byte | (0x80u8 >> k) } else { old_byte });
}

proof fn lemma_zero_msb(j: u8)
    requires j < 8,
    ensures !msb_bit(0, j),
{
    assert(!(0u8 & (0x80u8 >> j) != 0)) by (bit_vector) requires j < 8;
}

/// Threshold coverage to one bit per pixel, MSB first. The first
/// `ceil(len / 8)` bytes of `output` are written whole, padding bits zero.
pub fn pack_row_1bit(coverage: &[u8], threshold: u8, output: &mut [u8])
    requires
        old(output)@.len() >= (coverage@.len() + 7) / 8,
    ensures
        final(output)@.len() == old(output)@.len(),
        forall|i: int| (coverage@.len() + 7) / 8 <= i < old(output)@.len() ==> #[trigger] final(output)@[i] == old(output)@[i],
        forall|i: int| 0 <= i < (coverage@.len() + 7) / 8 * 8 ==> #[trigger] packed_bit(final(output)@, i) == (i < coverage@.len() && coverage@[i] >= threshold),
{
    let len = coverage.len();
    let bytes = len / 8 + if len % 8 == 0 { 0 } else { 1 };
    assert(bytes == (len + 7) / 8);
    let mut b: usize = 0;
    while b < bytes
        invariant
            bytes == (len + 7) / 8,
            len == coverage@.len(),
            bytes <= output@.len(),
            b <= bytes,
            output@.len() == old(output)@.len(),
            forall|i: int| bytes <= i < old(output)@.len() ==> #[trigger] output@[i] == old(output)@[i],
            forall|i: int| 0 <= i < b * 8 ==> #[trigger] packed_bit(output@, i) == (i < len && coverage@[i] >= threshold),
        decreases bytes - b,
    {
        let mut byte: u8 = 0;
        let mut k: usize = 0;
        proof {
            assert forall|j: u8| j < 8 implies !#[trigger] msb_bit(0, j) by { lemma_zero_msb(j); }
        }
        while k < 8
            invariant
                k <= 8,
                b < bytes,
                bytes == (len + 7) / 8,
                len == coverage@.len(),
                forall|j: u8| j < k ==> #[trigger] msb_bit(byte, j) == (b * 8 + j < len && coverage@[b * 8 + j] >= threshold),
                forall|j: u8| k <= j < 8 ==> !#[trigger] msb_bit(byte, j),
            decreases 8 - k,
        {
            let index = b * 8 + k;
            let set = index < len && coverage[index] >= threshold;
            let old_byte = byte;
            let kk = k as u8;
            if set {
                byte = byte | (0x80u8 >> kk);
            }
            proof {
                assert forall|j: u8| j < 8 implies (j != kk ==> #[trigger] msb_bit(byte, j) == msb_bit(old_byte, j)) && (j == kk ==> msb_bit(byte, j) == set) by {
                    lemma_set_msb(old_byte, byte, kk, j, set);
                }
            }
            k += 1;
        }
        let ghost prev = output@;
        output[b] = byte;
        proof {
            assert forall|i: int| 0 <= i < (b + 1) * 8 implies #[trigger] packed_bit(output@, i) == (i < len && coverage@[i] >= threshold) by {
                if i >= b * 8 {
                    assert(i / 8 == b);
                    let j = (i % 8) as u8;
                    assert(b * 8 + j == i);
                    assert(msb_bit(byte, j) == (b * 8 + j < len && coverage@[b * 8 + j] >= threshold));
                } else {
                    assert(i / 8 < b);
                    assert(output@[i / 8] == prev[i / 8]);
                    assert(packed_bit(prev, i) == (i < len && coverage@[i] >= threshold));
                }
            }
        }
        b += 1;
    }
}

/// Whether every byte is zero.
pub fn all_zero(bytes: &[u8]) -> (result: bool)
    ensures
        result == forall|i: int| 0 <= i < bytes@.len() ==> bytes@[i] == 0,
{
    let mut i: usize = 0;
    while i < bytes.len()
        invariant
            i <= bytes@.len(),
            forall|j: int| 0 <= j < i ==> bytes@[j] == 0,
        decreases bytes@.len() - i,
    {
        if bytes[i] != 0 {
            return false;
        }
        i += 1;
    }
    true
}

} // verus!
