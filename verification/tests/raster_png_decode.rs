use pixelkit::raster::bitmap::{alpha_of, rgb_of};
use pixelkit::raster::color::from_rgb;
use pixelkit::raster::png::checksum::{adler32, crc32};
use pixelkit::raster::png::decode::{decode, DecodeError, MAX_DIMENSION};
use pixelkit::raster::png::encode::chunk as write_chunk;
use pixelkit::raster::png::filter::{adam7_passes, pass_dims};

const SIGNATURE: [u8; 8] = [0x89, b'P', b'N', b'G', 0x0d, 0x0a, 0x1a, 0x0a];


fn stored_zlib(raw: &[u8]) -> Vec<u8> {
    let mut out = vec![0x78, 0x01];
    if raw.is_empty() {
        out.extend_from_slice(&[1, 0, 0, 0xff, 0xff]);
    }
    for (i, block) in raw.chunks(4).enumerate() {
        let last = (i + 1) * 4 >= raw.len();
        out.push(u8::from(last));
        let len = block.len() as u16;
        out.extend_from_slice(&len.to_le_bytes());
        out.extend_from_slice(&(!len).to_le_bytes());
        out.extend_from_slice(block);
    }
    out.extend_from_slice(&adler32(raw).to_be_bytes());
    out
}

/// Build a PNG by hand — the same "stored deflate block" trick the
/// writer uses — so pixel-level correctness for chunk parsing,
/// unfiltering, interlacing and colour handling can be checked without a
/// second PNG library to generate fixtures.
fn build_png(
    width: u32,
    height: u32,
    color_type: u8,
    interlace: u8,
    palette: Option<&[[u8; 3]]>,
    trns: Option<&[u8]>,
    pixel: impl Fn(u32, u32) -> Vec<u8>,
) -> Vec<u8> {
    let mut raw = Vec::new();
    if interlace == 0 {
        for y in 0..height {
            raw.push(0);
            for x in 0..width {
                raw.extend_from_slice(&pixel(x, y));
            }
        }
    } else {
        for pass in &adam7_passes() {
            let (pw, ph) = pass_dims(pass, width, height);
            if pw == 0 || ph == 0 {
                // Matches `reconstruct`: a pass with nothing in it writes
                // no scanlines at all, not even a lone filter byte.
                continue;
            }
            for row in 0..ph {
                raw.push(0);
                for col in 0..pw {
                    raw.extend_from_slice(&pixel(
                        pass.x0 + col * pass.dx,
                        pass.y0 + row * pass.dy,
                    ));
                }
            }
        }
    }

    let mut out = SIGNATURE.to_vec();
    let mut ihdr = Vec::new();
    ihdr.extend_from_slice(&width.to_be_bytes());
    ihdr.extend_from_slice(&height.to_be_bytes());
    ihdr.extend_from_slice(&[8, color_type, 0, 0, interlace]);
    write_chunk(&mut out, b"IHDR", &ihdr);
    if let Some(pal) = palette {
        let mut data = Vec::new();
        for &[r, g, b] in pal {
            data.extend_from_slice(&[r, g, b]);
        }
        write_chunk(&mut out, b"PLTE", &data);
    }
    if let Some(t) = trns {
        write_chunk(&mut out, b"tRNS", t);
    }
    write_chunk(&mut out, b"IDAT", &stored_zlib(&raw));
    write_chunk(&mut out, b"IEND", &[]);
    out
}

#[test]
fn a_non_interlaced_rgb_image_decodes_exactly() {
    let png = build_png(3, 2, 2, 0, None, None, |x, y| {
        vec![x as u8 * 10, y as u8 * 20, 5]
    });
    let bitmap = decode(&png).unwrap();
    assert_eq!((bitmap.width, bitmap.height), (3, 2));
    for y in 0..2u32 {
        for x in 0..3u32 {
            let pixel = bitmap.pixel(x, y);
            assert_eq!(alpha_of(pixel), 255);
            assert_eq!(rgb_of(pixel), from_rgb(x as u8 * 10, y as u8 * 20, 5));
        }
    }
}

#[test]
fn greyscale_trns_makes_one_grey_level_transparent() {
    let png = build_png(2, 1, 0, 0, None, Some(&[0, 100]), |x, _| {
        vec![if x == 0 { 100 } else { 50 }]
    });
    let bitmap = decode(&png).unwrap();
    assert_eq!(
        alpha_of(bitmap.pixel(0, 0)),
        0,
        "matches the tRNS grey value"
    );
    assert_eq!(
        alpha_of(bitmap.pixel(1, 0)),
        255,
        "a different grey stays opaque"
    );
}

#[test]
fn rgb_trns_makes_one_colour_transparent() {
    let key = [10u8, 20, 30];
    let trns = [0, key[0], 0, key[1], 0, key[2]];
    let png = build_png(2, 1, 2, 0, None, Some(&trns), |x, _| {
        if x == 0 {
            key.to_vec()
        } else {
            vec![1, 2, 3]
        }
    });
    let bitmap = decode(&png).unwrap();
    assert_eq!(alpha_of(bitmap.pixel(0, 0)), 0);
    assert_eq!(alpha_of(bitmap.pixel(1, 0)), 255);
}

#[test]
fn palette_pixels_look_up_colour_and_per_index_alpha() {
    let palette = [[255, 0, 0], [0, 255, 0], [0, 0, 255]];
    let trns = [255u8, 128, 0]; // index 2 fully transparent, index 1 half
    let png = build_png(3, 1, 3, 0, Some(&palette), Some(&trns), |x, _| {
        vec![x as u8]
    });
    let bitmap = decode(&png).unwrap();
    assert_eq!(rgb_of(bitmap.pixel(0, 0)), from_rgb(255, 0, 0));
    assert_eq!(alpha_of(bitmap.pixel(0, 0)), 255);
    assert_eq!(alpha_of(bitmap.pixel(1, 0)), 128);
    assert_eq!(alpha_of(bitmap.pixel(2, 0)), 0);
}

#[test]
fn palette_entries_trns_does_not_mention_default_to_opaque() {
    let palette = [[1, 2, 3], [4, 5, 6]];
    let trns = [0u8]; // only index 0 given; index 1 must default to 255
    let png = build_png(2, 1, 3, 0, Some(&palette), Some(&trns), |x, _| {
        vec![x as u8]
    });
    let bitmap = decode(&png).unwrap();
    assert_eq!(alpha_of(bitmap.pixel(1, 0)), 255);
}

#[test]
fn a_palette_pixel_with_no_plte_chunk_is_an_error_not_a_panic() {
    let png = build_png(1, 1, 3, 0, None, None, |_, _| vec![0]);
    assert_eq!(decode(&png), Err(DecodeError::BadPaletteIndex));
}

#[test]
fn a_palette_index_past_the_end_of_plte_is_an_error_not_a_panic() {
    let palette = [[1, 2, 3]];
    let png = build_png(1, 1, 3, 0, Some(&palette), None, |_, _| vec![5]);
    assert_eq!(decode(&png), Err(DecodeError::BadPaletteIndex));
}

#[test]
fn grey_alpha_and_rgba_carry_their_own_alpha_channel() {
    let ga = build_png(1, 1, 4, 0, None, None, |_, _| vec![9, 200]);
    let bitmap = decode(&ga).unwrap();
    assert_eq!(rgb_of(bitmap.pixel(0, 0)), from_rgb(9, 9, 9));
    assert_eq!(alpha_of(bitmap.pixel(0, 0)), 200);

    let rgba = build_png(1, 1, 6, 0, None, None, |_, _| vec![1, 2, 3, 77]);
    let bitmap = decode(&rgba).unwrap();
    assert_eq!(rgb_of(bitmap.pixel(0, 0)), from_rgb(1, 2, 3));
    assert_eq!(alpha_of(bitmap.pixel(0, 0)), 77);
}

#[test]
fn interlaced_and_non_interlaced_encodings_of_the_same_image_decode_identically() {
    // The real test of Adam7: not a single hand-picked case but the same
    // pixel source scattered through the seven passes and reassembled,
    // over sizes that land unevenly at every pass boundary.
    let pixel = |x: u32, y: u32| {
        vec![
            (x * 17 % 251) as u8,
            (y * 31 % 251) as u8,
            ((x + y) % 251) as u8,
            255,
        ]
    };
    for (width, height) in [(1, 1), (2, 2), (7, 1), (1, 7), (13, 9), (16, 16), (23, 5)] {
        let flat = build_png(width, height, 6, 0, None, None, pixel);
        let interlaced = build_png(width, height, 6, 1, None, None, pixel);
        let a = decode(&flat).unwrap();
        let b = decode(&interlaced).unwrap();
        assert_eq!(a.pixels, b.pixels, "at {width}x{height}");
    }
}

#[test]
fn a_bad_signature_is_not_a_png() {
    assert_eq!(decode(b"not a png at all"), Err(DecodeError::NotAPng));
}

#[test]
fn a_flipped_bit_in_a_chunk_fails_its_crc() {
    let mut png = build_png(2, 2, 2, 0, None, None, |_, _| vec![1, 2, 3]);
    let last = png.len() - 1; // inside the IEND chunk's CRC
    png[last] ^= 0xff;
    assert_eq!(decode(&png), Err(DecodeError::Corrupt));
}

#[test]
fn an_unsupported_bit_depth_is_refused_cleanly() {
    let mut png = build_png(1, 1, 2, 0, None, None, |_, _| vec![0, 0, 0]);
    // Layout from byte 0: 8 signature, 4 length, 4 "IHDR", 13 IHDR data
    // (4 width, 4 height, then bit depth), 4 CRC.
    let type_start = 8 + 4;
    let data_start = type_start + 4;
    let data_end = data_start + 13;
    png[data_start + 8] = 16; // bit depth
                              // The header CRC no longer matches; recompute it so this exercises
                              // "bit depth 16 is unsupported" rather than "the file is corrupt".
    let crc = crc32(&png[type_start..data_end]);
    png[data_end..data_end + 4].copy_from_slice(&crc.to_be_bytes());
    assert_eq!(
        decode(&png),
        Err(DecodeError::Unsupported {
            bit_depth: 16,
            color_type: 2
        })
    );
}

#[test]
fn an_absurd_declared_size_is_refused_before_any_large_allocation() {
    // The exact shape of the exploit this guards against: a tiny file
    // with no real pixel data at all, declaring dimensions so large that
    // `Bitmap::new(width, height)` — called with no bound — would try to
    // allocate gigabytes and abort the process rather than return an
    // `Err`. If this test completes at all (instead of the whole test
    // binary aborting), no such allocation happened: `MAX_DIMENSION` has
    // to be checked from `IHDR` before that call, not after.
    let mut png = SIGNATURE.to_vec();
    let mut ihdr = Vec::new();
    ihdr.extend_from_slice(&40_000u32.to_be_bytes());
    ihdr.extend_from_slice(&40_000u32.to_be_bytes());
    ihdr.extend_from_slice(&[8, 2, 0, 0, 0]); // 8-bit RGB, non-interlaced
    write_chunk(&mut png, b"IHDR", &ihdr);
    write_chunk(&mut png, b"IDAT", &stored_zlib(&[])); // no real pixel data
    write_chunk(&mut png, b"IEND", &[]);

    assert!(
        png.len() < 100,
        "the file itself stayed tiny: {} bytes",
        png.len()
    );
    assert_eq!(
        decode(&png),
        Err(DecodeError::ImageTooLarge {
            width: 40_000,
            height: 40_000
        })
    );
}

#[test]
fn a_declared_size_at_the_limit_is_still_accepted() {
    // The bound has to actually admit the sizes it claims to, not just
    // reject everything past some smaller, unstated number.
    let mut png = SIGNATURE.to_vec();
    let mut ihdr = Vec::new();
    ihdr.extend_from_slice(&MAX_DIMENSION.to_be_bytes());
    ihdr.extend_from_slice(&1u32.to_be_bytes());
    ihdr.extend_from_slice(&[8, 0, 0, 0, 0]); // 8-bit greyscale, 1 row
    write_chunk(&mut png, b"IHDR", &ihdr);
    let row = vec![0u8; MAX_DIMENSION as usize + 1]; // filter byte + one grey byte per pixel
    write_chunk(&mut png, b"IDAT", &stored_zlib(&row));
    write_chunk(&mut png, b"IEND", &[]);

    let bitmap = decode(&png).unwrap();
    assert_eq!(bitmap.width, MAX_DIMENSION);
}

#[test]
fn a_decompressed_stream_far_larger_than_the_header_implies_is_refused() {
    // A declared 4x4 RGB image needs 52 bytes once decompressed (1
    // filter byte + 12 pixel bytes, per row, four rows). A stream that
    // inflates to far more than that is a decompression bomb — not
    // exponential in this construction, but the same threat `inflate`'s
    // own cap exists for — and must be refused rather than allocated.
    let huge_raw = vec![0u8; 5_000];
    let mut png = SIGNATURE.to_vec();
    let mut ihdr = Vec::new();
    ihdr.extend_from_slice(&4u32.to_be_bytes());
    ihdr.extend_from_slice(&4u32.to_be_bytes());
    ihdr.extend_from_slice(&[8, 2, 0, 0, 0]);
    write_chunk(&mut png, b"IHDR", &ihdr);
    write_chunk(&mut png, b"IDAT", &stored_zlib(&huge_raw));
    write_chunk(&mut png, b"IEND", &[]);

    assert_eq!(decode(&png), Err(DecodeError::BadCompression));
}

#[test]
fn truncating_a_valid_png_anywhere_never_panics_and_never_falsely_succeeds() {
    let png = build_png(4, 4, 6, 1, None, None, |x, y| {
        vec![x as u8, y as u8, 0, 255]
    });
    for len in 0..png.len() {
        let _ = decode(&png[..len]);
    }
    assert!(decode(&png).is_ok(), "the untruncated file is still valid");
}

#[test]
fn a_png_with_no_iend_is_truncated_rather_than_silently_partial() {
    let mut png = build_png(1, 1, 2, 0, None, None, |_, _| vec![1, 2, 3]);
    let iend_len = 12; // length(4) + "IEND"(4) + crc(4), zero-length data
    png.truncate(png.len() - iend_len);
    assert_eq!(decode(&png), Err(DecodeError::Truncated));
}

/// Encoded by ImageMagick (`-interlace PNG -define png:color-type=6`),
/// not by this crate — real dynamic-Huffman DEFLATE, real Adam7, and a
/// handful of ancillary chunks (`cHRM`, `bKGD`, `tEXt`) this decoder must
/// skip over. Pixel `(x, y)` is `(x*40, y*50, 100, 255 if (x+y) even
/// else 128)`, confirmed against the source image before encoding.
const REAL_RGBA_INTERLACED: &[u8] = &[
    0x89, 0x50, 0x4e, 0x47, 0x0d, 0x0a, 0x1a, 0x0a, 0x00, 0x00, 0x00, 0x0d, 0x49, 0x48, 0x44, 0x52,
    0x00, 0x00, 0x00, 0x06, 0x00, 0x00, 0x00, 0x05, 0x08, 0x06, 0x00, 0x00, 0x01, 0x11, 0x5f, 0xad,
    0x70, 0x00, 0x00, 0x00, 0x20, 0x63, 0x48, 0x52, 0x4d, 0x00, 0x00, 0x7a, 0x26, 0x00, 0x00, 0x80,
    0x84, 0x00, 0x00, 0xfa, 0x00, 0x00, 0x00, 0x80, 0xe8, 0x00, 0x00, 0x75, 0x30, 0x00, 0x00, 0xea,
    0x60, 0x00, 0x00, 0x3a, 0x98, 0x00, 0x00, 0x17, 0x70, 0x9c, 0xba, 0x51, 0x3c, 0x00, 0x00, 0x00,
    0x06, 0x62, 0x4b, 0x47, 0x44, 0x00, 0xff, 0x00, 0xff, 0x00, 0xff, 0xa0, 0xbd, 0xa7, 0x93, 0x00,
    0x00, 0x00, 0x44, 0x49, 0x44, 0x41, 0x54, 0x08, 0xd7, 0x55, 0xca, 0x41, 0x0d, 0x80, 0x30, 0x18,
    0xc5, 0xe0, 0x6f, 0x04, 0x31, 0x3b, 0xa3, 0x64, 0x22, 0x9e, 0x0f, 0xc0, 0x09, 0x72, 0x70, 0xf5,
    0x73, 0x82, 0x8c, 0x5e, 0x9a, 0x26, 0x45, 0xca, 0x25, 0xd5, 0xdc, 0xa9, 0x0b, 0x86, 0xd4, 0xe2,
    0xa6, 0x49, 0x6a, 0x60, 0xa0, 0x75, 0x39, 0xde, 0x58, 0xc5, 0xc7, 0x2f, 0x9a, 0x2d, 0x47, 0x67,
    0xef, 0x9c, 0xb3, 0x7f, 0xd7, 0xcc, 0x03, 0x5a, 0xe7, 0x12, 0x5b, 0xa4, 0xd0, 0x06, 0x9b, 0x00,
    0x00, 0x00, 0x25, 0x74, 0x45, 0x58, 0x74, 0x64, 0x61, 0x74, 0x65, 0x3a, 0x63, 0x72, 0x65, 0x61,
    0x74, 0x65, 0x00, 0x32, 0x30, 0x32, 0x36, 0x2d, 0x30, 0x38, 0x2d, 0x32, 0x31, 0x54, 0x30, 0x39,
    0x3a, 0x35, 0x36, 0x3a, 0x30, 0x32, 0x2b, 0x30, 0x30, 0x3a, 0x30, 0x30, 0x61, 0xdb, 0xe7, 0x65,
    0x00, 0x00, 0x00, 0x25, 0x74, 0x45, 0x58, 0x74, 0x64, 0x61, 0x74, 0x65, 0x3a, 0x6d, 0x6f, 0x64,
    0x69, 0x66, 0x79, 0x00, 0x32, 0x30, 0x32, 0x36, 0x2d, 0x30, 0x38, 0x2d, 0x32, 0x31, 0x54, 0x30,
    0x39, 0x3a, 0x35, 0x36, 0x3a, 0x30, 0x32, 0x2b, 0x30, 0x30, 0x3a, 0x30, 0x30, 0x10, 0x86, 0x5f,
    0xd9, 0x00, 0x00, 0x00, 0x28, 0x74, 0x45, 0x58, 0x74, 0x64, 0x61, 0x74, 0x65, 0x3a, 0x74, 0x69,
    0x6d, 0x65, 0x73, 0x74, 0x61, 0x6d, 0x70, 0x00, 0x32, 0x30, 0x32, 0x36, 0x2d, 0x30, 0x38, 0x2d,
    0x32, 0x31, 0x54, 0x30, 0x39, 0x3a, 0x35, 0x36, 0x3a, 0x30, 0x39, 0x2b, 0x30, 0x30, 0x3a, 0x30,
    0x30, 0x45, 0x94, 0x2a, 0xfc, 0x00, 0x00, 0x00, 0x00, 0x49, 0x45, 0x4e, 0x44, 0xae, 0x42, 0x60,
    0x82,
];

#[test]
fn a_real_encoder_interlaced_rgba_file_decodes_to_the_known_pixels() {
    let bitmap = decode(REAL_RGBA_INTERLACED).unwrap();
    assert_eq!((bitmap.width, bitmap.height), (6, 5));
    for y in 0..5u32 {
        for x in 0..6u32 {
            let pixel = bitmap.pixel(x, y);
            let expected_alpha = if (x + y) % 2 == 0 { 255 } else { 128 };
            assert_eq!(
                rgb_of(pixel),
                from_rgb((x * 40) as u8, (y * 50) as u8, 100),
                "at ({x},{y})"
            );
            assert_eq!(alpha_of(pixel), expected_alpha, "at ({x},{y})");
        }
    }
}

/// A sample, not an exhaustive corpus: this machine's icon themes number
/// in the thousands and running all of them on every `cargo test` would
/// make the suite noticeably slower for a check that does not gain much
/// after the first few hundred files. Skips cleanly where the directory
/// does not exist, so this is not a source of CI flakiness elsewhere.
#[test]
fn each_error_has_a_message() {
    assert!(!DecodeError::NotAPng.message().is_empty());
    assert!(DecodeError::Unsupported { bit_depth: 16, color_type: 2 }.message().contains("16"));
}

#[test]
fn a_png_missing_its_header_is_refused() {
    let mut png = SIGNATURE.to_vec();
    write_chunk(&mut png, b"IEND", &[]);
    assert_eq!(decode(&png), Err(DecodeError::BadHeader));
}

#[test]
fn a_palette_of_the_wrong_size_is_a_bad_chunk() {
    let mut png = SIGNATURE.to_vec();
    let mut ihdr = Vec::new();
    ihdr.extend_from_slice(&1u32.to_be_bytes());
    ihdr.extend_from_slice(&1u32.to_be_bytes());
    ihdr.extend_from_slice(&[8, 3, 0, 0, 0]);
    write_chunk(&mut png, b"IHDR", &ihdr);
    write_chunk(&mut png, b"PLTE", &[1, 2]);
    write_chunk(&mut png, b"IDAT", &stored_zlib(&[0, 0]));
    write_chunk(&mut png, b"IEND", &[]);
    assert_eq!(decode(&png), Err(DecodeError::BadChunk));
}
