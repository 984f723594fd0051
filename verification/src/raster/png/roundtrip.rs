//! What the reader gives back of what the writer wrote.

use vstd::prelude::*;
use crate::raster::png::bytes::{be32, le16, lemma_be32_round_trip, read_be32};
use crate::raster::png::checksum::{adler32_spec, crc32_spec};
use crate::raster::png::encode::{chunk_bytes, lemma_stored_len, png_bytes, raw_image, rgb_header, signature, rgb_byte, scanline, stored_block, stored_from, zlib_stored};
use crate::raster::png::inflate::{bit_at, bits_le, byte_align, pow2, stored_result, stream_result, total_bits, zlib_result};
use crate::raster::png::filter::{filters_known, recon};
use crate::raster::bitmap::argb_spec;
use crate::raster::painter::WindowBuffer;
use crate::raster::color::{channel, from_rgb_spec};
use crate::raster::png::decode::{be32_of, bpp_of, chunk_at, chunk_name, decode_result, header_result, raw_size, scan_result, TransparencyView, MAX_DIMENSION, grid_col, grid_row, on_grid, pass_pixel, pass_readable, reconstruct_result, unfiltered, whole_image, write_pass, DecodeError, Header, PassSource};

verus! {

/// `2^(n + m) = 2^n · 2^m`.
proof fn lemma_pow2_add(n: nat, m: nat)
    ensures
        pow2(n + m) == pow2(n) * pow2(m),
    decreases m,
{
    if m > 0 {
        let m1 = (m - 1) as nat;
        lemma_pow2_add(n, m1);
        assert((n + m) - 1 == n + m1);
        let (x, y, z, w) = (pow2(n + m), pow2(n + m1), pow2(m), pow2(m1));
        let a = pow2(n);
        assert(x == a * z && a * z >= 0) by (nonlinear_arith)
            requires
                x == 2 * y,
                z == 2 * w,
                y == a * w,
                a >= 0,
                w >= 0;
    } else {
        let a = pow2(n);
        let one = pow2(0);
        assert(one == 1);
        assert(a * one == a && a * one >= 0) by (nonlinear_arith)
            requires
                one == 1,
                a >= 0;
    }
}

/// A bit of the stream is 0 or 1.
proof fn lemma_bit_range(data: Seq<u8>, i: int)
    ensures
        0 <= bit_at(data, i) <= 1,
{
    let byte = data[i / 8];
    let sh = (i % 8) as u8;
    assert(((byte >> sh) & 1u8) <= 1u8) by (bit_vector);
}

/// One more bit on top of `j` bits.
proof fn lemma_bits_step(data: Seq<u8>, s: int, j: nat)
    ensures
        bits_le(data, s, j + 1) == bits_le(data, s, j) + bit_at(data, s + j) * pow2(j),
{
    lemma_bit_range(data, s + j);
    assert((j + 1) - 1 == j);
}

/// Reading `n + m` bits is reading `n`, then `m` more above them.
proof fn lemma_bits_split(data: Seq<u8>, s: int, n: nat, m: nat)
    ensures
        bits_le(data, s, n + m) == bits_le(data, s, n) + pow2(n) * bits_le(data, s + n, m),
    decreases m,
{
    if m > 0 {
        let m1 = (m - 1) as nat;
        lemma_bits_split(data, s, n, m1);
        lemma_pow2_add(n, m1);
        lemma_bits_step(data, s, n + m1);
        lemma_bits_step(data, s + n, m1);
        assert(n + m1 + 1 == n + m && m1 + 1 == m && s + (n + m1) == (s + n) + m1);
        let (whole, low, high1, b) = (bits_le(data, s, n + m1), bits_le(data, s, n), bits_le(data, s + n, m1), bit_at(data, s + n + m1));
        let (pn, pm1, pnm1) = (pow2(n), pow2(m1), pow2(n + m1));
        let high = bits_le(data, s + n, m);
        assert(whole + b * pnm1 == low + pn * high && pn * high >= 0) by (nonlinear_arith)
            requires
                whole == low + pn * high1,
                pnm1 == pn * pm1,
                high == high1 + b * pm1,
                pn >= 0,
                high >= 0;
    } else {
        let pn = pow2(n);
        let zero = bits_le(data, s + n, 0);
        assert(zero == 0);
        assert(pn * zero == 0) by (nonlinear_arith)
            requires
                zero == 0;
    }
}

/// Bit `i` of byte `k`.
proof fn lemma_bit_of_byte(data: Seq<u8>, k: int, i: int)
    requires
        0 <= k,
        0 <= i < 8,
    ensures
        bit_at(data, 8 * k + i) == ((data[k] >> (i as u8)) & 1u8) as int,
{
    assert((8 * k + i) / 8 == k);
    assert((8 * k + i) % 8 == i);
}

/// The eight bits of a byte, least significant first, make the byte.
proof fn lemma_byte_bits(data: Seq<u8>, k: int)
    requires
        0 <= k < data.len(),
    ensures
        bits_le(data, 8 * k, 8) == data[k] as nat,
{
    let b = data[k];
    let s = 8 * k;
    reveal_with_fuel(pow2, 8);
    lemma_bits_step(data, s, 0);
    lemma_bits_step(data, s, 1);
    lemma_bits_step(data, s, 2);
    lemma_bits_step(data, s, 3);
    lemma_bits_step(data, s, 4);
    lemma_bits_step(data, s, 5);
    lemma_bits_step(data, s, 6);
    lemma_bits_step(data, s, 7);
    lemma_bit_of_byte(data, k, 0);
    lemma_bit_of_byte(data, k, 1);
    lemma_bit_of_byte(data, k, 2);
    lemma_bit_of_byte(data, k, 3);
    lemma_bit_of_byte(data, k, 4);
    lemma_bit_of_byte(data, k, 5);
    lemma_bit_of_byte(data, k, 6);
    lemma_bit_of_byte(data, k, 7);
    assert(b == ((b >> 0u8) & 1u8) + 2 * ((b >> 1u8) & 1u8) + 4 * ((b >> 2u8) & 1u8) + 8 * ((b >> 3u8) & 1u8)
        + 16 * ((b >> 4u8) & 1u8) + 32 * ((b >> 5u8) & 1u8) + 64 * ((b >> 6u8) & 1u8) + 128 * ((b >> 7u8) & 1u8)) by (bit_vector);
    let (v0, v1, v2, v3, v4) = (bits_le(data, s, 0), bits_le(data, s, 1), bits_le(data, s, 2), bits_le(data, s, 3), bits_le(data, s, 4));
    let (v5, v6, v7, v8) = (bits_le(data, s, 5), bits_le(data, s, 6), bits_le(data, s, 7), bits_le(data, s, 8));
    let (x0, x1, x2, x3) = (bit_at(data, s + 0), bit_at(data, s + 1), bit_at(data, s + 2), bit_at(data, s + 3));
    let (x4, x5, x6, x7) = (bit_at(data, s + 4), bit_at(data, s + 5), bit_at(data, s + 6), bit_at(data, s + 7));
    let (p0, p1, p2, p3) = (pow2(0), pow2(1), pow2(2), pow2(3));
    let (p4, p5, p6, p7) = (pow2(4), pow2(5), pow2(6), pow2(7));
    assert(p0 == 1 && p1 == 2 && p2 == 4 && p3 == 8 && p4 == 16 && p5 == 32 && p6 == 64 && p7 == 128);
    assert(v0 == 0);
    assert(v8 == x0 + 2 * x1 + 4 * x2 + 8 * x3 + 16 * x4 + 32 * x5 + 64 * x6 + 128 * x7) by (nonlinear_arith)
        requires
            v0 == 0,
            v1 == v0 + x0 * p0,
            v2 == v1 + x1 * p1,
            v3 == v2 + x2 * p2,
            v4 == v3 + x3 * p3,
            v5 == v4 + x4 * p4,
            v6 == v5 + x5 * p5,
            v7 == v6 + x6 * p6,
            v8 == v7 + x7 * p7,
            p0 == 1, p1 == 2, p2 == 4, p3 == 8, p4 == 16, p5 == 32, p6 == 64, p7 == 128;
}

/// Sixteen bits from a byte boundary are the little-endian number in the
/// two bytes there.
proof fn lemma_le16_bits(data: Seq<u8>, k: int)
    requires
        0 <= k,
        k + 2 <= data.len(),
    ensures
        bits_le(data, 8 * k, 16) == data[k] + 256 * data[k + 1],
{
    lemma_bits_split(data, 8 * k, 8, 8);
    lemma_byte_bits(data, k);
    lemma_byte_bits(data, k + 1);
    reveal_with_fuel(pow2, 9);
    assert(8 * k + 8 == 8 * (k + 1));
}

/// The header bits of a stored block: the final flag, then type 0.
proof fn lemma_block_header_bits(data: Seq<u8>, k: int)
    requires
        0 <= k < data.len(),
        data[k] == 0 || data[k] == 1,
    ensures
        bits_le(data, 8 * k, 1) == data[k] as nat,
        bits_le(data, 8 * k + 1, 2) == 0,
{
    let b = data[k];
    let s = 8 * k;
    reveal_with_fuel(pow2, 2);
    assert(s / 8 == k && s % 8 == 0);
    assert((s + 1) / 8 == k && (s + 1) % 8 == 1);
    assert((s + 2) / 8 == k && (s + 2) % 8 == 2);
    lemma_bits_step(data, s, 0);
    lemma_bits_step(data, s + 1, 0);
    lemma_bits_step(data, s + 1, 1);
    assert(((b >> 0u8) & 1u8) == b && ((b >> 1u8) & 1u8) == 0 && ((b >> 2u8) & 1u8) == 0) by (bit_vector)
        requires b == 0 || b == 1;
    assert(bit_at(data, s) == b);
    assert(bit_at(data, s + 1) == 0);
    assert(bit_at(data, s + 1 + 1) == 0);
    let (v0, v1, x0, p0) = (bits_le(data, s, 0), bits_le(data, s, 1), bit_at(data, s + 0), pow2(0));
    assert(v0 == 0 && p0 == 1);
    assert(v1 == x0) by (nonlinear_arith)
        requires
            v1 == v0 + x0 * p0,
            v0 == 0,
            p0 == 1;
    let (w0, w1, w2, y0, y1, p1) = (bits_le(data, s + 1, 0), bits_le(data, s + 1, 1), bits_le(data, s + 1, 2), bit_at(data, s + 1 + 0), bit_at(data, s + 1 + 1), pow2(1));
    assert(w0 == 0 && p1 == 2);
    assert(w2 == y0 + 2 * y1) by (nonlinear_arith)
        requires
            w1 == w0 + y0 * p0,
            w2 == w1 + y1 * p1,
            w0 == 0,
            p0 == 1,
            p1 == 2;
}

/// A stored block at byte `k` decodes to its bytes, and the next block
/// starts right after it.
proof fn lemma_stored_block_decodes(data: Seq<u8>, k: int, chunk: Seq<u8>, last: bool, out: Seq<u8>, max: int)
    requires
        0 <= k,
        chunk.len() <= 65535,
        k + 5 + chunk.len() <= data.len(),
        data.subrange(k, k + 5 + chunk.len()) == stored_block(chunk, last),
        out.len() + chunk.len() <= max,
    ensures
        bits_le(data, 8 * k, 1) == (if last { 1nat } else { 0nat }),
        bits_le(data, 8 * k + 1, 2) == 0,
        stored_result(data, 8 * k + 3, out, max) == Some(((k + 5 + chunk.len()) * 8, out + chunk)),
{
    let block = stored_block(chunk, last);
    let len = chunk.len() as u16;
    assert(data[k] == block[0]);
    assert(data[k + 1] == block[1] && data[k + 2] == block[2]);
    assert(data[k + 3] == block[3] && data[k + 4] == block[4]);
    lemma_block_header_bits(data, k);
    assert(byte_align(8 * k + 3) == 8 * (k + 1));
    lemma_le16_bits(data, k + 1);
    lemma_le16_bits(data, k + 3);
    assert(le16(len)[0] + 256 * le16(len)[1] == len);
    assert(!len == 0xffffu16 - len) by (bit_vector);
    assert(le16(!len)[0] + 256 * le16(!len)[1] == !len);
    assert(8 * (k + 1) + 16 == 8 * (k + 3));
    assert((8 * (k + 1) + 32) / 8 == k + 5);
    assert(data.subrange(k + 5, k + 5 + chunk.len()) =~= chunk) by {
        assert forall|i: int| 0 <= i < chunk.len() implies data.subrange(k + 5, k + 5 + chunk.len())[i] == chunk[i] by {
            assert(data[k + 5 + i] == block[5 + i]);
        }
    }
}

/// The stream step at a stored block: its bytes join the output, and the
/// stream ends there if the block is the last one, else goes on after it.
proof fn lemma_stream_at_stored(data: Seq<u8>, k: int, chunk: Seq<u8>, last: bool, out: Seq<u8>, max: int)
    requires
        0 <= k,
        chunk.len() <= 65535,
        k + 5 + chunk.len() <= data.len(),
        data.subrange(k, k + 5 + chunk.len()) == stored_block(chunk, last),
        out.len() + chunk.len() <= max,
    ensures
        stream_result(data, 8 * k, out, max) == (if last {
            Some(out + chunk)
        } else {
            stream_result(data, (k + 5 + chunk.len()) * 8, out + chunk, max)
        }),
{
    lemma_stored_block_decodes(data, k, chunk, last, out, max);
    assert(8 * k + 3 <= total_bits(data));
}

/// Bytes placed after a prefix are found again past the prefix.
proof fn lemma_block_after(prefix: Seq<u8>, block: Seq<u8>, rest: Seq<u8>)
    ensures
        (prefix + block + rest).subrange(prefix.len() as int, (prefix.len() + block.len()) as int) == block,
{
    assert((prefix + block + rest).subrange(prefix.len() as int, (prefix.len() + block.len()) as int) =~= block);
}

/// The stored blocks of `raw` from `offset` on, after any bytes, inflate
/// onto the bytes before `offset` to give back all of `raw`.
proof fn lemma_stored_stream(prefix: Seq<u8>, raw: Seq<u8>, offset: int, max: int)
    requires
        0 <= offset <= raw.len(),
        raw.len() <= max,
    ensures
        stream_result(prefix + stored_from(raw, offset), 8 * (prefix.len() as int), raw.subrange(0, offset), max) == Some(raw),
    decreases raw.len() - offset,
{
    let k = prefix.len() as int;
    let data = prefix + stored_from(raw, offset);
    let out = raw.subrange(0, offset);
    if raw.len() - offset <= 65535 {
        lemma_last_stored(prefix, raw, offset, max);
    } else {
        lemma_middle_stored(prefix, raw, offset, max);
        lemma_stored_stream(prefix + stored_block(raw.subrange(offset, offset + 65535), false), raw, offset + 65535, max);
    }
}

/// A stored block of `raw` that is not the last passes its bytes on to the
/// blocks after it.
proof fn lemma_middle_stored(prefix: Seq<u8>, raw: Seq<u8>, offset: int, max: int)
    requires
        0 <= offset,
        offset + 65535 < raw.len(),
        raw.len() <= max,
    ensures
        ({
            let next = offset + 65535;
            let block = stored_block(raw.subrange(offset, next), false);
            stream_result(prefix + stored_from(raw, offset), 8 * (prefix.len() as int), raw.subrange(0, offset), max)
                == stream_result((prefix + block) + stored_from(raw, next), 8 * ((prefix + block).len() as int), raw.subrange(0, next), max)
        }),
{
    let k = prefix.len() as int;
    let out = raw.subrange(0, offset);
    let next = offset + 65535;
    let chunk = raw.subrange(offset, next);
    lemma_middle_layout(prefix, raw, offset);
    lemma_stream_at_stored(prefix + stored_from(raw, offset), k, chunk, false, out, max);
}

/// How the bytes lie around a stored block that is not the last.
proof fn lemma_middle_layout(prefix: Seq<u8>, raw: Seq<u8>, offset: int)
    requires
        0 <= offset,
        offset + 65535 < raw.len(),
    ensures
        ({
            let next = offset + 65535;
            let chunk = raw.subrange(offset, next);
            let block = stored_block(chunk, false);
            let k = prefix.len() as int;
            &&& prefix + stored_from(raw, offset) == (prefix + block) + stored_from(raw, next)
            &&& (prefix + stored_from(raw, offset)).subrange(k, k + 5 + chunk.len()) == block
            &&& k + 5 + chunk.len() <= (prefix + stored_from(raw, offset)).len()
            &&& raw.subrange(0, offset) + chunk == raw.subrange(0, next)
            &&& (prefix + block).len() == k + 5 + chunk.len()
        }),
{
    let next = offset + 65535;
    let chunk = raw.subrange(offset, next);
    let block = stored_block(chunk, false);
    let rest = stored_from(raw, next);
    assert(stored_from(raw, offset) == block + rest);
    assert(prefix + (block + rest) =~= (prefix + block) + rest);
    lemma_block_after(prefix, block, rest);
    assert(raw.subrange(0, offset) + chunk =~= raw.subrange(0, next));
}

/// The last stored block of `raw`, after any bytes, finishes the output.
proof fn lemma_last_stored(prefix: Seq<u8>, raw: Seq<u8>, offset: int, max: int)
    requires
        0 <= offset <= raw.len(),
        raw.len() <= max,
        raw.len() - offset <= 65535,
    ensures
        stream_result(prefix + stored_from(raw, offset), 8 * (prefix.len() as int), raw.subrange(0, offset), max) == Some(raw),
{
    let k = prefix.len() as int;
    let chunk = raw.subrange(offset, raw.len() as int);
    lemma_last_layout(prefix, raw, offset);
    lemma_stream_at_stored(prefix + stored_from(raw, offset), k, chunk, true, raw.subrange(0, offset), max);
}

/// How the bytes lie around the last stored block.
proof fn lemma_last_layout(prefix: Seq<u8>, raw: Seq<u8>, offset: int)
    requires
        0 <= offset <= raw.len(),
        raw.len() - offset <= 65535,
    ensures
        ({
            let chunk = raw.subrange(offset, raw.len() as int);
            let k = prefix.len() as int;
            &&& (prefix + stored_from(raw, offset)).subrange(k, k + 5 + chunk.len()) == stored_block(chunk, true)
            &&& k + 5 + chunk.len() <= (prefix + stored_from(raw, offset)).len()
            &&& raw.subrange(0, offset) + chunk == raw
        }),
{
    let chunk = raw.subrange(offset, raw.len() as int);
    let block = stored_block(chunk, true);
    assert(stored_from(raw, offset) == block);
    assert(prefix + block + Seq::empty() =~= prefix + stored_from(raw, offset));
    lemma_block_after(prefix, block, Seq::empty());
    assert(raw.subrange(0, offset) + chunk =~= raw);
}

/// How a zlib stream of stored blocks is laid out: header bytes, blocks,
/// then the Adler-32 trailer of the bytes it stores.
proof fn lemma_zlib_layout(raw: Seq<u8>)
    ensures
        ({
            let z = zlib_stored(raw);
            &&& z.len() >= 6
            &&& z[0] == 0x78u8
            &&& z[1] == 0x01u8
            &&& z.subrange(2, z.len() - 4) == Seq::<u8>::empty() + stored_from(raw, 0)
            &&& read_be32(z.subrange(z.len() - 4, z.len() as int)) == adler32_spec(raw)
            &&& raw.subrange(0, 0) == Seq::<u8>::empty()
        }),
{
    let z = zlib_stored(raw);
    let s = stored_from(raw, 0);
    lemma_be32_round_trip(adler32_spec(raw));
    assert(s.len() >= 5);
    assert(z.subrange(2, z.len() - 4) =~= Seq::<u8>::empty() + s);
    assert(z.subrange(z.len() - 4, z.len() as int) =~= be32(adler32_spec(raw)));
    assert(raw.subrange(0, 0) =~= Seq::<u8>::empty());
}

/// Inflating what the encoder deflates gives back its bytes: a zlib stream
/// of stored blocks with its Adler-32 trailer decompresses to exactly the
/// bytes it stores, whenever they fit the cap.
pub proof fn lemma_inflate_stored(raw: Seq<u8>, max: int)
    requires
        raw.len() <= max,
    ensures
        zlib_result(zlib_stored(raw), max) == Some(raw),
{
    lemma_zlib_layout(raw);
    assert(0x78u8 & 0x0fu8 == 8u8) by (bit_vector);
    assert(0x01u8 & 0x20u8 == 0u8) by (bit_vector);
    lemma_stored_stream(Seq::empty(), raw, 0, max);
}

/// The scanlines of an image take one filter byte and three bytes per
/// pixel each.
proof fn lemma_raw_len(pixels: Seq<u32>, w: int, rows: int)
    requires
        w >= 0,
        rows >= 0,
    ensures
        raw_image(pixels, w, rows).len() == (3 * w + 1) * rows,
    decreases rows,
{
    if rows > 0 {
        lemma_raw_len(pixels, w, rows - 1);
        assert((3 * w + 1) * (rows - 1) + (3 * w + 1) == (3 * w + 1) * rows) by (nonlinear_arith);
    } else {
        assert((3 * w + 1) * rows == 0) by (nonlinear_arith)
            requires
                rows == 0;
    }
}

/// Row `y` of the scanlines: filter type 0, then the red, green and blue
/// bytes of its pixels.
proof fn lemma_raw_byte(pixels: Seq<u32>, w: int, rows: int, y: int, i: int)
    requires
        w > 0,
        0 <= y < rows,
        0 <= i < 3 * w,
    ensures
        raw_image(pixels, w, rows)[y * (3 * w + 1)] == 0,
        raw_image(pixels, w, rows)[y * (3 * w + 1) + 1 + i] == rgb_byte(pixels[y * w + i / 3], i % 3),
    decreases rows,
{
    let before = raw_image(pixels, w, rows - 1);
    let line = scanline(pixels, w, rows - 1);
    lemma_raw_len(pixels, w, rows - 1);
    assert(raw_image(pixels, w, rows) == before + line);
    if y == rows - 1 {
        assert(before.len() == y * (3 * w + 1)) by (nonlinear_arith)
            requires
                before.len() == (3 * w + 1) * (rows - 1),
                y == rows - 1;
        assert(line[0] == 0);
        assert(line[1 + i] == rgb_byte(pixels[y * w + i / 3], i % 3));
    } else {
        lemma_raw_byte(pixels, w, rows - 1, y, i);
        assert(y * (3 * w + 1) + 1 + i < before.len()) by (nonlinear_arith)
            requires
                before.len() == (3 * w + 1) * (rows - 1),
                y < rows - 1,
                0 <= y,
                i < 3 * w;
    }
}

/// Where output byte `j` of a `w`-pixel-wide RGB image sits among the
/// scanlines: row `j / 3w`, column `j % 3w`.
proof fn lemma_recon_unfiltered(pixels: Seq<u32>, w: int, h: int, j: int)
    requires
        w > 0,
        h > 0,
        0 <= j < 3 * w * h,
    ensures
        recon(raw_image(pixels, w, h), 3 * w, 3, j)
            == rgb_byte(pixels[(j / (3 * w)) * w + (j % (3 * w)) / 3], (j % (3 * w)) % 3),
{
    let stride = 3 * w;
    let y = j / stride;
    let i = j % stride;
    vstd::arithmetic::div_mod::lemma_fundamental_div_mod(j, stride);
    assert(0 <= i < stride);
    assert(0 <= y < h) by (nonlinear_arith)
        requires
            j == stride * y + i,
            0 <= i < stride,
            0 <= j < stride * h,
            stride > 0;
    lemma_raw_byte(pixels, w, h, y, i);
}

/// The sample byte `c` of pixel `(row, col)`, unfiltered, is that channel of
/// the pixel.
proof fn lemma_sample_byte(pixels: Seq<u32>, w: int, h: int, row: int, col: int, c: int)
    requires
        w > 0,
        0 <= row < h,
        0 <= col < w,
        0 <= c < 3,
    ensures
        0 <= row * w + col < w * h,
        (row * w + col) * 3 + c < 3 * w * h,
        recon(raw_image(pixels, w, h), 3 * w, 3, (row * w + col) * 3 + c) == rgb_byte(pixels[row * w + col], c),
{
    let j = (row * w + col) * 3 + c;
    assert(j == row * (3 * w) + (3 * col + c)) by (nonlinear_arith)
        requires
            j == (row * w + col) * 3 + c;
    assert((row + 1) * (3 * w) <= h * (3 * w)) by (nonlinear_arith)
        requires
            row + 1 <= h,
            w > 0;
    assert(j < 3 * w * h) by (nonlinear_arith)
        requires
            (row + 1) * (3 * w) <= h * (3 * w),
            j == row * (3 * w) + (3 * col + c),
            3 * col + c < 3 * w,
            row < h,
            row >= 0;
    assert(0 <= j) by (nonlinear_arith)
        requires
            j == row * (3 * w) + (3 * col + c),
            3 * col + c >= 0,
            row >= 0,
            w > 0;
    assert(0 <= row * w + col < w * h) by (nonlinear_arith)
        requires
            0 <= row < h,
            0 <= col < w;
    vstd::arithmetic::div_mod::lemma_fundamental_div_mod_converse(j, 3 * w, row, 3 * col + c);
    vstd::arithmetic::div_mod::lemma_fundamental_div_mod_converse(3 * col + c, 3, col, c);
    lemma_recon_unfiltered(pixels, w, h, j);
}

/// What a pixel reads back as once written as 8-bit RGB: its colour
/// channels, fully opaque.
pub open spec fn rgb_opaque(p: u32) -> u32 {
    argb_spec(255, from_rgb_spec(channel(p, 16), channel(p, 8), channel(p, 0)))
}

/// The header the writer puts in `IHDR`.
pub open spec fn rgb_header_of(width: u32, height: u32) -> Header {
    Header { width, height, color_type: 2, interlace: 0 }
}

/// The unfiltered pixel source of the writer's scanlines.
spec fn rgb_source(pixels: Seq<u32>, w: int, h: int) -> PassSource {
    PassSource {
        bytes: unfiltered(raw_image(pixels, w, h), w, h, 3),
        bpp: 3,
        color_type: 2,
        palette: None,
        trns: None,
    }
}

/// Pixel `(row, col)` of the writer's scanlines decodes to the pixel made
/// opaque.
proof fn lemma_rgb_pixel(pixels: Seq<u32>, w: int, h: int, row: int, col: int)
    requires
        w > 0,
        0 <= row < h,
        0 <= col < w,
    ensures
        0 <= row * w + col < w * h,
        pass_pixel(rgb_source(pixels, w, h), w, row, col) == Ok::<u32, DecodeError>(rgb_opaque(pixels[row * w + col])),
{
    let src = rgb_source(pixels, w, h);
    let at = (row * w + col) * 3;
    let sample = src.bytes.subrange(at, at + 3);
    lemma_sample_byte(pixels, w, h, row, col, 0);
    lemma_sample_byte(pixels, w, h, row, col, 1);
    lemma_sample_byte(pixels, w, h, row, col, 2);
    assert(src.bytes.len() == 3 * w * h) by (nonlinear_arith)
        requires
            src.bytes.len() == ((w * 3 * h) as nat),
            w > 0,
            h > 0;
    assert(at + 3 <= 3 * w * h && at >= 0);
    assert(sample[0] == rgb_byte(pixels[row * w + col], 0));
    assert(sample[1] == rgb_byte(pixels[row * w + col], 1));
    assert(sample[2] == rgb_byte(pixels[row * w + col], 2));
}

/// The writer's scanlines reconstruct to every pixel made opaque.
proof fn lemma_reconstruct_rgb(pixels: Seq<u32>, width: u32, height: u32)
    requires
        width > 0,
        height > 0,
        pixels.len() == width * height,
    ensures
        reconstruct_result(rgb_header_of(width, height), raw_image(pixels, width as int, height as int), None, None)
            == Ok::<Seq<u32>, DecodeError>(Seq::new((width * height) as nat, |j: int| rgb_opaque(pixels[j]))),
{
    let w = width as int;
    let h = height as int;
    let hd = rgb_header_of(width, height);
    let raw = raw_image(pixels, w, h);
    let src = rgb_source(pixels, w, h);
    assert(bpp_of(2) == 3);
    lemma_raw_len(pixels, w, h);
    assert(raw.len() == (w * 3 + 1) * h);
    assert forall|y: int| 0 <= y < h implies #[trigger] raw[y * (w * 3 + 1)] <= 4 by {
        lemma_raw_byte(pixels, w, h, y, 0);
        assert(y * (w * 3 + 1) == y * (3 * w + 1));
    }
    assert(filters_known(raw, w * 3, h));
    assert(pass_readable(raw, w, h, 3));
    assert(src == (PassSource { bytes: unfiltered(raw, w, h, 3), bpp: 3, color_type: hd.color_type, palette: None, trns: None }));
    assert forall|row: int, col: int| 0 <= row < h && 0 <= col < w implies #[trigger] pass_pixel(src, w, row, col) is Ok by {
        lemma_rgb_pixel(pixels, w, h, row, col);
    }
    let blank = Seq::new((width * height) as nat, |j: int| 0u32);
    let expected = Seq::new((width * height) as nat, |j: int| rgb_opaque(pixels[j]));
    let written = write_pass(blank, w, whole_image(), w, h, src);
    assert forall|j: int| 0 <= j < w * h implies #[trigger] written[j] == expected[j] by {
        let x = j % w;
        let y = j / w;
        vstd::arithmetic::div_mod::lemma_fundamental_div_mod(j, w);
        assert(0 <= x < w);
        assert(0 <= y < h) by (nonlinear_arith)
            requires
                j == w * y + x,
                0 <= x < w,
                0 <= j < w * h,
                w > 0;
        assert(x % 1 == 0 && x / 1 == x && y % 1 == 0 && y / 1 == y);
        assert(on_grid(j, w, whole_image(), w, h));
        assert(grid_row(j, w, whole_image()) == y);
        assert(grid_col(j, w, whole_image()) == x);
        assert(y * w + x == j) by (nonlinear_arith)
            requires
                j == w * y + x;
        lemma_rgb_pixel(pixels, w, h, y, x);
    }
    assert(written =~= expected);
}

/// The four bytes at `at` read back the number written there.
pub(crate) proof fn lemma_be32_at(data: Seq<u8>, at: int, v: u32)
    requires
        0 <= at,
        at + 4 <= data.len(),
        data.subrange(at, at + 4) == be32(v),
    ensures
        be32_of(data, at) == v,
{
    lemma_be32_round_trip(v);
    let b = be32(v);
    assert(data[at] == b[0] && data[at + 1] == b[1] && data[at + 2] == b[2] && data[at + 3] == b[3]) by {
        assert(data.subrange(at, at + 4)[0] == data[at]);
        assert(data.subrange(at, at + 4)[1] == data[at + 1]);
        assert(data.subrange(at, at + 4)[2] == data[at + 2]);
        assert(data.subrange(at, at + 4)[3] == data[at + 3]);
    }
}

/// A chunk the writer framed, wherever it stands, is read back whole: its
/// type, and its body between `pos + 8` and the CRC.
pub(crate) proof fn lemma_chunk_read(pre: Seq<u8>, kind: Seq<u8>, body: Seq<u8>, post: Seq<u8>)
    requires
        kind.len() == 4,
        body.len() <= u32::MAX,
    ensures
        ({
            let data = pre + chunk_bytes(kind, body) + post;
            let pos = pre.len() as int;
            &&& chunk_at(data, pos) == Ok::<Option<(Seq<u8>, int, int)>, DecodeError>(Some((kind, pos + 8, pos + 8 + body.len())))
            &&& data.subrange(pos + 8, pos + 8 + body.len()) == body
            &&& pos + 12 + body.len() + post.len() == data.len()
            &&& data.subrange(pos + 12 + body.len(), data.len() as int) == post
        }),
{
    let data = pre + chunk_bytes(kind, body) + post;
    let pos = pre.len() as int;
    let n = body.len() as u32;
    let end = pos + 8 + body.len();
    let crc = crc32_spec(kind + body);
    assert(data.subrange(pos, pos + 4) =~= be32(n));
    lemma_be32_at(data, pos, n);
    assert(data.subrange(end, end + 4) =~= be32(crc));
    lemma_be32_at(data, end, crc);
    assert(data.subrange(pos + 4, end) =~= kind + body);
    assert(data.subrange(pos + 4, pos + 8) =~= kind);
    assert(data.subrange(pos + 8, end) =~= body);
    assert(data.subrange(end + 4, data.len() as int) =~= post);
    reveal(chunk_at);
}

/// The writer's `IHDR` body reads back as the header it describes.
proof fn lemma_header_read(width: u32, height: u32)
    requires
        0 < width <= MAX_DIMENSION,
        0 < height <= MAX_DIMENSION,
    ensures
        header_result(rgb_header(width, height)) == Ok::<Header, DecodeError>(rgb_header_of(width, height)),
{
    let d = rgb_header(width, height);
    assert(d.subrange(0, 4) =~= be32(width));
    assert(d.subrange(4, 8) =~= be32(height));
    lemma_be32_at(d, 0, width);
    lemma_be32_at(d, 4, height);
    assert(d.len() == 13);
    assert(d[8] == 8 && d[9] == 2 && d[10] == 0 && d[11] == 0 && d[12] == 0);
}

/// The chunk names the writer uses.
pub open spec fn ihdr_name() -> Seq<u8> {
    seq![0x49u8, 0x48u8, 0x44u8, 0x52u8]
}

/// `IDAT`.
pub open spec fn idat_name() -> Seq<u8> {
    seq![0x49u8, 0x44u8, 0x41u8, 0x54u8]
}

/// `IEND`.
pub open spec fn iend_name() -> Seq<u8> {
    seq![0x49u8, 0x45u8, 0x4eu8, 0x44u8]
}

/// Where the writer's last two chunks lie after `head`, and that their
/// names are none of the others the scan looks for.
proof fn lemma_tail_layout(head: Seq<u8>, z: Seq<u8>)
    requires
        z.len() <= u32::MAX,
    ensures
        ({
            let data = head + chunk_bytes(idat_name(), z) + chunk_bytes(iend_name(), Seq::empty());
            let p2 = head.len() as int;
            let p3 = p2 + 12 + z.len();
            &&& chunk_at(data, p2) == Ok::<Option<(Seq<u8>, int, int)>, DecodeError>(Some((idat_name(), p2 + 8, p2 + 8 + z.len())))
            &&& data.subrange(p2 + 8, p2 + 8 + z.len()) == z
            &&& chunk_at(data, p3) == Ok::<Option<(Seq<u8>, int, int)>, DecodeError>(Some((iend_name(), p3 + 8, p3 + 8)))
        }),
{
    let idat = chunk_bytes(idat_name(), z);
    let iend = chunk_bytes(iend_name(), Seq::empty());
    let data = head + idat + iend;
    lemma_chunk_read(head, idat_name(), z, iend);
    lemma_chunk_read(head + idat, iend_name(), Seq::empty(), Seq::empty());
    assert(head + idat + iend + Seq::<u8>::empty() =~= data);
}

/// The names differ from one another.
pub(crate) proof fn lemma_names_differ()
    ensures
        idat_name() == chunk_name(0x49, 0x44, 0x41, 0x54),
        iend_name() == chunk_name(0x49, 0x45, 0x4e, 0x44),
        ihdr_name() == chunk_name(0x49, 0x48, 0x44, 0x52),
        iend_name() != chunk_name(0x49, 0x48, 0x44, 0x52),
        iend_name() != chunk_name(0x50, 0x4c, 0x54, 0x45),
        iend_name() != chunk_name(0x74, 0x52, 0x4e, 0x53),
        iend_name() != chunk_name(0x49, 0x44, 0x41, 0x54),
        idat_name() != chunk_name(0x49, 0x48, 0x44, 0x52),
        idat_name() != chunk_name(0x50, 0x4c, 0x54, 0x45),
        idat_name() != chunk_name(0x74, 0x52, 0x4e, 0x53),
{
    assert(ihdr_name() =~= chunk_name(0x49, 0x48, 0x44, 0x52));
    assert(idat_name() =~= chunk_name(0x49, 0x44, 0x41, 0x54));
    assert(iend_name() =~= chunk_name(0x49, 0x45, 0x4e, 0x44));
    assert(iend_name()[1] != chunk_name(0x49, 0x48, 0x44, 0x52)[1]);
    assert(iend_name()[0] != chunk_name(0x50, 0x4c, 0x54, 0x45)[0]);
    assert(iend_name()[0] != chunk_name(0x74, 0x52, 0x4e, 0x53)[0]);
    assert(iend_name()[1] != chunk_name(0x49, 0x44, 0x41, 0x54)[1]);
    assert(idat_name()[1] != chunk_name(0x49, 0x48, 0x44, 0x52)[1]);
    assert(idat_name()[0] != chunk_name(0x50, 0x4c, 0x54, 0x45)[0]);
    assert(idat_name()[0] != chunk_name(0x74, 0x52, 0x4e, 0x53)[0]);
}

/// The scan stops at `IEND` with what it gathered.
proof fn lemma_scan_at_end(data: Seq<u8>, p: int, color_type: u8, acc: Seq<u8>)
    requires
        0 <= p,
        chunk_at(data, p) == Ok::<Option<(Seq<u8>, int, int)>, DecodeError>(Some((iend_name(), p + 8, p + 8))),
    ensures
        scan_result(data, p, color_type, None, None, acc)
            == Ok::<(Option<Seq<u8>>, Option<TransparencyView>, Seq<u8>), DecodeError>((None, None, acc)),
{
    lemma_names_differ();
}

/// At an `IDAT` chunk the scan adds its body and goes on after it.
proof fn lemma_scan_at_idat(data: Seq<u8>, p: int, color_type: u8, z: Seq<u8>)
    requires
        0 <= p,
        chunk_at(data, p) == Ok::<Option<(Seq<u8>, int, int)>, DecodeError>(Some((idat_name(), p + 8, p + 8 + z.len()))),
        data.subrange(p + 8, p + 8 + z.len()) == z,
    ensures
        scan_result(data, p, color_type, None, None, Seq::empty()) == scan_result(data, p + 12 + z.len(), color_type, None, None, z),
{
    lemma_names_differ();
    assert(Seq::<u8>::empty() + z =~= z);
}

/// After `IHDR`, the writer's `IDAT` and `IEND` gather to the one
/// compressed stream, with no palette and no transparency.
pub(crate) proof fn lemma_scan_written(head: Seq<u8>, color_type: u8, z: Seq<u8>)
    requires
        z.len() <= u32::MAX,
    ensures
        ({
            let data = head + chunk_bytes(idat_name(), z) + chunk_bytes(iend_name(), Seq::empty());
            scan_result(data, head.len() as int, color_type, None, None, Seq::empty())
                == Ok::<(Option<Seq<u8>>, Option<TransparencyView>, Seq<u8>), DecodeError>((None, None, z))
        }),
{
    let data = head + chunk_bytes(idat_name(), z) + chunk_bytes(iend_name(), Seq::empty());
    let p2 = head.len() as int;
    lemma_tail_layout(head, z);
    lemma_scan_at_idat(data, p2, color_type, z);
    lemma_scan_at_end(data, p2 + 12 + z.len(), color_type, z);
}

/// An image within the size limits writes a stream whose length fits the
/// chunk's 32-bit length field, and inflates within the decoder's cap.
proof fn lemma_written_size(pixels: Seq<u32>, width: u32, height: u32)
    requires
        0 < width <= MAX_DIMENSION,
        0 < height <= MAX_DIMENSION,
    ensures
        raw_image(pixels, width as int, height as int).len() == (width * 3 + 1) * height,
        (width * 3 + 1) * height + 1024 <= 0xffff_ffff,
        zlib_stored(raw_image(pixels, width as int, height as int)).len() <= u32::MAX,
{
    let raw = raw_image(pixels, width as int, height as int);
    lemma_raw_len(pixels, width as int, height as int);
    assert((width * 3 + 1) * height <= (16384 * 3 + 1) * 16384) by (nonlinear_arith)
        requires
            0 < width <= 16384,
            0 < height <= 16384;
    lemma_stored_len(raw, 0);
    let n = raw.len();
    assert(n / 65535 <= n);
}

/// Decoding what the writer encodes gives back the image: its width and
/// height, and every pixel's colour, made opaque (the file holds no alpha).
/// It holds for every buffer within the decoder's dimension limit.
pub proof fn lemma_png_round_trip(buffer: WindowBuffer)
    requires
        buffer.wf(),
        0 < buffer.width <= MAX_DIMENSION,
        0 < buffer.height <= MAX_DIMENSION,
    ensures
        decode_result(png_bytes(buffer)) == Ok::<(u32, u32, Seq<u32>), DecodeError>((
            buffer.width,
            buffer.height,
            Seq::new((buffer.width * buffer.height) as nat, |j: int| rgb_opaque(buffer.pixels@[j])),
        )),
{
    let (width, height) = (buffer.width, buffer.height);
    let pixels = buffer.pixels@;
    let raw = raw_image(pixels, width as int, height as int);
    let z = zlib_stored(raw);
    let header = rgb_header(width, height);
    let sig = signature();
    let ihdr = chunk_bytes(ihdr_name(), header);
    let idat = chunk_bytes(idat_name(), z);
    let iend = chunk_bytes(iend_name(), Seq::empty());
    let data = png_bytes(buffer);
    let hd = rgb_header_of(width, height);
    lemma_written_size(pixels, width, height);
    assert(data == sig + ihdr + idat + iend);
    lemma_chunk_read(sig, ihdr_name(), header, idat + iend);
    assert(sig + ihdr + (idat + iend) =~= data);
    assert(data.subrange(0, 8) =~= sig);
    lemma_names_differ();
    lemma_header_read(width, height);
    assert(sig.len() == 8 && header.len() == 13);
    lemma_scan_written(sig + ihdr, 2, z);
    assert((sig + ihdr).len() == 33);
    assert(raw_size(hd) == (width * 3 + 1) * height + 1024);
    lemma_inflate_stored(raw, raw_size(hd));
    lemma_reconstruct_rgb(pixels, width, height);
}

} // verus!
