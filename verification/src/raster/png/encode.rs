//! A minimal PNG writer: 8-bit RGB, stored (uncompressed) deflate blocks.

use vstd::prelude::*;
use crate::raster::color::channel;
use crate::raster::painter::WindowBuffer;
use crate::raster::png::bytes::{be32, le16, push_be32, push_le16, push_all};
use crate::raster::png::checksum::{crc32, crc32_spec, adler32, adler32_spec};

verus! {

/// The eight-byte PNG signature.
pub open spec fn signature() -> Seq<u8> {
    seq![0x89u8, 0x50u8, 0x4eu8, 0x47u8, 0x0du8, 0x0au8, 0x1au8, 0x0au8]
}

/// The byte `j` (0 red, 1 green, 2 blue) of an XRGB pixel.
pub open spec fn rgb_byte(p: u32, j: int) -> u8 {
    if j == 0 { channel(p, 16) } else if j == 1 { channel(p, 8) } else { channel(p, 0) }
}

/// One scanline: filter type 0, then red, green and blue for each pixel.
pub open spec fn scanline(pixels: Seq<u32>, width: int, y: int) -> Seq<u8> {
    seq![0u8] + Seq::new((3 * width) as nat, |i: int| rgb_byte(pixels[y * width + i / 3], i % 3))
}

/// The first `rows` scanlines of an image.
pub open spec fn raw_image(pixels: Seq<u32>, width: int, rows: int) -> Seq<u8>
    decreases rows,
{
    if rows <= 0 { Seq::empty() } else { raw_image(pixels, width, rows - 1) + scanline(pixels, width, rows - 1) }
}

/// One stored deflate block: final flag, length, its complement, the bytes.
pub open spec fn stored_block(data: Seq<u8>, last: bool) -> Seq<u8> {
    seq![if last { 1u8 } else { 0u8 }] + le16(data.len() as u16) + le16(!(data.len() as u16)) + data
}

/// `raw` from `offset` on, as stored blocks of at most 65535 bytes; the last
/// block is marked final (an empty stream is one empty final block).
pub open spec fn stored_from(raw: Seq<u8>, offset: int) -> Seq<u8>
    decreases raw.len() - offset,
{
    if raw.len() - offset <= 65535 {
        stored_block(raw.subrange(offset, raw.len() as int), true)
    } else {
        stored_block(raw.subrange(offset, offset + 65535), false) + stored_from(raw, offset + 65535)
    }
}

/// A zlib stream of stored blocks with its Adler-32 trailer.
pub open spec fn zlib_stored(raw: Seq<u8>) -> Seq<u8> {
    seq![0x78u8, 0x01u8] + stored_from(raw, 0) + be32(adler32_spec(raw))
}

/// One PNG chunk: length, type, data, CRC over type and data.
pub open spec fn chunk_bytes(kind: Seq<u8>, data: Seq<u8>) -> Seq<u8> {
    be32(data.len() as u32) + kind + data + be32(crc32_spec(kind + data))
}

/// The `IHDR` body of an 8-bit RGB, non-interlaced image.
pub open spec fn rgb_header(width: u32, height: u32) -> Seq<u8> {
    be32(width) + be32(height) + seq![8u8, 2u8, 0u8, 0u8, 0u8]
}

/// The whole file `encode` writes for a buffer.
pub open spec fn png_bytes(buffer: WindowBuffer) -> Seq<u8> {
    let raw = raw_image(buffer.pixels@, buffer.width as int, buffer.height as int);
    signature()
        + chunk_bytes(seq![0x49u8, 0x48u8, 0x44u8, 0x52u8], rgb_header(buffer.width, buffer.height))
        + chunk_bytes(seq![0x49u8, 0x44u8, 0x41u8, 0x54u8], zlib_stored(raw))
        + chunk_bytes(seq![0x49u8, 0x45u8, 0x4eu8, 0x44u8], Seq::empty())
}

/// The size of the stored-block encoding of `raw` from `offset` on.
pub(crate) proof fn lemma_stored_len(raw: Seq<u8>, offset: int)
    requires
        0 <= offset <= raw.len(),
    ensures
        stored_from(raw, offset).len() <= (raw.len() - offset) + 5 * ((raw.len() - offset) / 65535 + 1),
    decreases raw.len() - offset,
{
    if raw.len() - offset > 65535 {
        lemma_stored_len(raw, offset + 65535);
    }
}

/// Append one chunk.
pub fn chunk(out: &mut Vec<u8>, kind: &[u8; 4], data: &[u8])
    requires
        data@.len() <= u32::MAX,
    ensures
        final(out)@ == old(out)@ + chunk_bytes(kind@, data@),
{
    push_be32(out, data.len() as u32);
    let start = out.len();
    push_all(out, kind.as_slice());
    push_all(out, data);
    let crc = crc32(&out.as_slice()[start..out.len()]);
    assert(out@.subrange(start as int, out@.len() as int) =~= kind@ + data@);
    push_be32(out, crc);
    assert(out@ =~= old(out)@ + chunk_bytes(kind@, data@));
}

/// Encode `buffer` (XRGB) as an 8-bit RGB PNG with stored deflate blocks.
pub fn encode(buffer: &WindowBuffer) -> (result: Vec<u8>)
    requires
        buffer.wf(),
        (1 + 3 * buffer.width) * buffer.height <= 0xfff0_0000,
    ensures
        result@ == png_bytes(*buffer),
{
    let width = buffer.width as usize;
    let height = buffer.height as usize;
    let ghost w = width as int;
    let ghost pixels = buffer.pixels@;
    let _plen = buffer.pixels.len();
    let mut raw: Vec<u8> = Vec::new();
    let mut y: usize = 0;
    while y < height
        invariant
            y <= height,
            buffer.wf(),
            w == width, height == buffer.height, width == buffer.width,
            pixels == buffer.pixels@,
            _plen == w * height,
            (1 + 3 * w) * height <= 0xfff0_0000,
            raw@ == raw_image(pixels, w, y as int),
            raw@.len() == (1 + 3 * w) * y,
        decreases height - y,
    {
        let ghost before = raw@;
        raw.push(0);
        let mut x: usize = 0;
        while x < width
            invariant
                x <= width, y < height,
                buffer.wf(),
                w == width, height == buffer.height, width == buffer.width,
                pixels == buffer.pixels@,
                _plen == w * height,
                (1 + 3 * w) * height <= 0xfff0_0000,
                before.len() == (1 + 3 * w) * y,
                raw@ == before + seq![0u8] + Seq::new((3 * x) as nat, |i: int| rgb_byte(pixels[y * w + i / 3], i % 3)),
            decreases width - x,
        {
            proof {
                crate::raster::painter::lemma_index_in_bounds(w, height as int, x as int, y as int);
                assert(0 <= y * w <= y * w + x);
                assert((1 + 3 * w) * (y + 1) <= (1 + 3 * w) * height) by (nonlinear_arith) requires y < height, w >= 0;
                assert((1 + 3 * w) * (y + 1) == (1 + 3 * w) * y + 1 + 3 * w) by (nonlinear_arith);
            }
            let p = buffer.pixels[y * width + x];
            raw.push(crate::raster::color::red(p));
            raw.push(crate::raster::color::green(p));
            raw.push(crate::raster::color::blue(p));
            proof {
                let next = Seq::new((3 * (x + 1)) as nat, |i: int| rgb_byte(pixels[y * w + i / 3], i % 3));
                let prev = Seq::new((3 * x) as nat, |i: int| rgb_byte(pixels[y * w + i / 3], i % 3));
                assert forall|i: int| 0 <= i < 3 * (x + 1) implies #[trigger] next[i] == (prev + seq![
                    channel(p, 16), channel(p, 8), channel(p, 0)])[i] by {
                    if i >= 3 * x {
                        assert(i / 3 == x);
                    }
                }
                assert(next =~= prev + seq![channel(p, 16), channel(p, 8), channel(p, 0)]);
                assert(raw@ =~= before + seq![0u8] + next);
            }
            x += 1;
        }
        proof {
            assert(raw@ =~= raw_image(pixels, w, y + 1));
            assert((1 + 3 * w) * (y + 1) == (1 + 3 * w) * y + 1 + 3 * w) by (nonlinear_arith);
        }
        y += 1;
    }

    let mut out: Vec<u8> = Vec::new();
    out.push(0x89);
    out.push(0x50);
    out.push(0x4e);
    out.push(0x47);
    out.push(0x0d);
    out.push(0x0a);
    out.push(0x1a);
    out.push(0x0a);
    assert(out@ =~= signature());

    let mut ihdr: Vec<u8> = Vec::new();
    push_be32(&mut ihdr, buffer.width);
    push_be32(&mut ihdr, buffer.height);
    ihdr.push(8);
    ihdr.push(2);
    ihdr.push(0);
    ihdr.push(0);
    ihdr.push(0);
    assert(ihdr@ =~= rgb_header(buffer.width, buffer.height));
    chunk(&mut out, &[0x49, 0x48, 0x44, 0x52], ihdr.as_slice());

    let mut idat: Vec<u8> = Vec::new();
    idat.push(0x78);
    idat.push(0x01);
    let len = raw.len();
    let mut offset: usize = 0;
    proof {
        lemma_stored_len(raw@, 0);
    }
    loop
        invariant_except_break
            len == raw@.len(),
            len <= 0xfff0_0000,
            offset <= len,
            idat@ + stored_from(raw@, offset as int) == seq![0x78u8, 0x01u8] + stored_from(raw@, 0),
        ensures
            idat@ == seq![0x78u8, 0x01u8] + stored_from(raw@, 0),
        decreases len - offset,
    {
        let remaining = len - offset;
        let take = if remaining < 65535 { remaining } else { 65535 };
        let last = remaining <= 65535;
        let ghost before = idat@;
        idat.push(if last { 1 } else { 0 });
        push_le16(&mut idat, take as u16);
        push_le16(&mut idat, !(take as u16));
        push_all(&mut idat, &raw.as_slice()[offset..offset + take]);
        proof {
            assert(idat@ =~= before + stored_block(raw@.subrange(offset as int, offset + take), last));
        }
        if last {
            assert(stored_from(raw@, offset as int) == stored_block(raw@.subrange(offset as int, len as int), true));
            assert(idat@ =~= seq![0x78u8, 0x01u8] + stored_from(raw@, 0));
            break;
        }
        proof {
            assert(stored_from(raw@, offset as int) == stored_block(raw@.subrange(offset as int, offset + 65535), false) + stored_from(raw@, offset + 65535));
            assert(idat@ + stored_from(raw@, offset + 65535) =~= seq![0x78u8, 0x01u8] + stored_from(raw@, 0));
        }
        offset += 65535;
    }
    let checksum = adler32(raw.as_slice());
    push_be32(&mut idat, checksum);
    proof {
        lemma_stored_len(raw@, 0);
    }
    chunk(&mut out, &[0x49, 0x44, 0x41, 0x54], idat.as_slice());
    let empty: Vec<u8> = Vec::new();
    chunk(&mut out, &[0x49, 0x45, 0x4e, 0x44], empty.as_slice());
    proof {
        let raw_spec = raw_image(buffer.pixels@, buffer.width as int, buffer.height as int);
        assert(raw@ == raw_spec);
        assert(idat@ =~= zlib_stored(raw_spec));
        assert(empty@ =~= Seq::<u8>::empty());
    }
    out
}

} // verus!
