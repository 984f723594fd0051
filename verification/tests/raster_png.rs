use pixelkit::raster::painter::WindowBuffer;
use pixelkit::raster::png::checksum::{adler32, crc32};
use pixelkit::raster::png::encode::encode;
use pixelkit::raster::png::decode::decode;

/// Decode our own stored-block stream back to raw scanlines.
fn inflate_stored(zlib: &[u8]) -> Vec<u8> {
    let mut out = Vec::new();
    let mut i = 2;
    loop {
        let last = zlib[i] & 1 == 1;
        let len = u16::from_le_bytes([zlib[i + 1], zlib[i + 2]]) as usize;
        let nlen = u16::from_le_bytes([zlib[i + 3], zlib[i + 4]]);
        assert_eq!(nlen, !(len as u16));
        out.extend_from_slice(&zlib[i + 5..i + 5 + len]);
        i += 5 + len;
        if last {
            break;
        }
    }
    assert_eq!(adler32(&out).to_be_bytes(), zlib[i..i + 4]);
    out
}

#[test]
fn crc_matches_the_reference_vector() {
    assert_eq!(crc32(b"123456789"), 0xcbf4_3926);
    assert_eq!(adler32(b"Wikipedia"), 0x11e6_0398);
}

#[test]
fn a_small_image_round_trips() {
    let mut buffer = WindowBuffer::new(3, 2);
    buffer.pixels.copy_from_slice(&[0xff0000, 0x00ff00, 0x0000ff, 0x102030, 0xffffff, 0]);
    let png = encode(&buffer);
    assert_eq!(&png[..8], &[0x89, b'P', b'N', b'G', 0x0d, 0x0a, 0x1a, 0x0a]);
    // IHDR at 8: len(4) type(4) data(13) crc(4) = 25 bytes; IDAT follows.
    let idat_len = u32::from_be_bytes(png[33..37].try_into().unwrap()) as usize;
    assert_eq!(&png[37..41], b"IDAT");
    let zlib = &png[41..41 + idat_len];
    let raw = inflate_stored(zlib);
    assert_eq!(raw, vec![0, 255, 0, 0, 0, 255, 0, 0, 0, 255, 0, 0x10, 0x20, 0x30, 255, 255, 255, 0, 0, 0]);
}

#[test]
fn a_large_image_splits_into_stored_blocks() {
    let buffer = WindowBuffer::new(300, 100); // 90,100 raw bytes → 2 blocks
    let png = encode(&buffer);
    let idat_len = u32::from_be_bytes(png[33..37].try_into().unwrap()) as usize;
    let raw = inflate_stored(&png[41..41 + idat_len]);
    assert_eq!(raw.len(), 100 * (1 + 300 * 3));
}

#[test]
fn an_encoded_image_decodes_back_to_its_pixels() {
    let mut buffer = WindowBuffer::new(3, 2);
    buffer.pixels.copy_from_slice(&[0xff0000, 0x00ff00, 0x0000ff, 0x102030, 0xffffff, 0]);
    let bitmap = decode(&encode(&buffer)).expect("our own output decodes");
    assert_eq!((bitmap.width, bitmap.height), (3, 2));
    for (decoded, original) in bitmap.pixels.iter().zip(&buffer.pixels) {
        assert_eq!(*decoded, 0xff00_0000 | original);
    }
}

#[test]
fn checksums_of_nothing_are_their_starting_values() {
    assert_eq!(crc32(b""), 0);
    assert_eq!(adler32(b""), 1);
}
