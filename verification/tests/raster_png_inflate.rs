use pixelkit::raster::png::checksum::adler32;
use pixelkit::raster::png::inflate::{fixed_tables, inflate, inflate_block, zlib_decompress, BitReader, Huffman};

/// What most tests pass as `max_output`: they are not testing the cap,
/// so it should not be the thing that trips.
const NO_LIMIT: usize = usize::MAX;

/// Build a minimal zlib stream from one or more stored (uncompressed)
/// blocks — the same framing the writer in `encode.rs` produces — so the
/// stored-block path is tested without needing a compressed fixture.
fn zlib_stored(raw: &[u8]) -> Vec<u8> {
    let mut out = vec![0x78, 0x01];
    if raw.is_empty() {
        out.extend_from_slice(&[1, 0, 0, 0xff, 0xff]);
    }
    for (i, block) in raw.chunks(4).enumerate() {
        let last = (i + 1) * 4 >= raw.len();
        out.push(u8::from(last));
        let len = block.len() as u16;
        out.extend_from_slice(&len.to_le_bytes());
        out.extend_from_slice(&(!len).to_le_bytes());
        out.extend_from_slice(block);
    }
    out.extend_from_slice(&adler32(raw).to_be_bytes());
    out
}

#[test]
fn a_stored_stream_round_trips() {
    let raw = b"the quick brown fox jumps over the lazy dog";
    let zlib = zlib_stored(raw);
    assert_eq!(
        zlib_decompress(&zlib, NO_LIMIT).as_deref(),
        Some(raw.as_slice())
    );
}

#[test]
fn an_empty_stream_round_trips() {
    let zlib = zlib_stored(b"");
    assert_eq!(
        zlib_decompress(&zlib, NO_LIMIT).as_deref(),
        Some(b"".as_slice())
    );
}

#[test]
fn a_bad_header_is_rejected() {
    assert!(zlib_decompress(&[0x00, 0x00], NO_LIMIT).is_none());
}

#[test]
fn a_preset_dictionary_is_rejected() {
    // CMF 0x78, FLG 0x20: the header-check bits balance
    // (0x78 * 256 + 0x20 = 30752 = 31 * 992) and FDICT (bit 5 of FLG) is
    // set — the one thing a PNG's zlib stream never does.
    assert!(zlib_decompress(&[0x78, 0x20], NO_LIMIT).is_none());
}

#[test]
fn a_wrong_checksum_is_rejected() {
    let mut zlib = zlib_stored(b"data");
    let last = zlib.len() - 1;
    zlib[last] ^= 0xff;
    assert!(zlib_decompress(&zlib, NO_LIMIT).is_none());
}

#[test]
fn truncated_input_never_panics_and_never_succeeds() {
    let zlib = zlib_stored(b"the quick brown fox jumps over the lazy dog, twice over");
    for len in 0..zlib.len() {
        let _ = zlib_decompress(&zlib[..len], NO_LIMIT);
    }
    // Reaching here at all is the assertion: nothing panicked.
}

#[test]
fn a_stream_within_the_cap_is_unaffected_by_it() {
    let raw = b"twelve bytes";
    let zlib = zlib_stored(raw);
    assert_eq!(
        zlib_decompress(&zlib, raw.len()).as_deref(),
        Some(raw.as_slice()),
        "exactly enough room should still succeed"
    );
}

#[test]
fn a_stream_that_exceeds_the_cap_is_refused() {
    let raw = b"the quick brown fox jumps over the lazy dog";
    let zlib = zlib_stored(raw);
    assert!(zlib_decompress(&zlib, raw.len() - 1).is_none());
}

#[test]
fn a_stored_block_alone_cannot_exceed_the_cap() {
    // A single stored block can claim up to 64 KiB with no compression
    // at all — the cheapest possible way to blow past a small cap, and
    // it must be caught before the bytes are even copied out.
    let raw = vec![b'x'; 10_000];
    let zlib = zlib_stored(&raw);
    assert!(zlib_decompress(&zlib, 100).is_none());
}

#[test]
fn a_run_length_bomb_is_refused_rather_than_exhausting_memory() {
    // The classic decompression bomb in miniature: a two-bit match
    // ("copy 3 bytes from 4 back") repeated as many times as the input
    // allows turns a few dozen input bytes into an unbounded output.
    // `max_output` has to stop this while `out` is still growing, not
    // once the input runs out — this input has room for far more than
    // the cap allows.
    let mut out = vec![0u8; 8]; // a non-empty seed to copy from
    let mut lengths = [0u8; 288];
    lengths[256] = 2; // end-of-block, code "10"
    lengths[257] = 1; // length symbol 257 (base length 3), code "0"
    let literal = Huffman::build(&lengths).unwrap();
    let mut dlengths = [0u8; 30];
    dlengths[3] = 1; // distance symbol 3 (base distance 4), code "0"
    let distance = Huffman::build(&dlengths).unwrap();

    // An endless run of '0' bits: length symbol 257, then distance
    // symbol 3, forever — "copy 3 bytes from 4 back" on repeat.
    let data = vec![0x00u8; 4096];
    let mut reader = BitReader::new(&data);
    let result = inflate_block(&mut reader, &mut out, &literal, &distance, 1_000);
    assert!(result.is_none());
    assert!(out.len() <= 1_000, "grew to {} past the cap", out.len());
}

#[test]
fn fixed_huffman_tables_build_and_decode_every_literal() {
    let (literal, _distance) = fixed_tables();
    // Encode a bitstream containing every fixed code by hand is a lot of
    // machinery for a table test; instead check the shape directly:
    // 288 symbols, counts matching the RFC's per-length tally.
    assert_eq!(literal.symbols.len(), 288);
    assert_eq!(literal.counts[7], 24); // 256..280
    assert_eq!(literal.counts[8], 152); // 0..144 and 280..288
    assert_eq!(literal.counts[9], 112); // 144..256
}

#[test]
fn a_length_distance_backreference_round_trips() {
    // Hand-assemble one dynamic block: a literal run "ab", then a
    // length/distance pair copying "ab" again via a minimal Huffman
    // table, so the LZ77 copy path (not just stored blocks) is exercised
    // end to end through `inflate`.
    //
    // Building a legal dynamic header by hand is intricate, so this
    // drives `inflate_block` directly against a hand-rolled table
    // instead of a real bitstream — the unit under test either way is
    // "does a back-reference copy the right bytes".
    let mut out = b"ab".to_vec();
    let mut lengths = [0u8; 288];
    lengths[256] = 1; // end-of-block, single-bit code "0"
    lengths[257] = 1; // length symbol 257 (base length 3), code "1"
    let literal = Huffman::build(&lengths).unwrap();
    let mut dlengths = [0u8; 30];
    dlengths[1] = 1; // distance symbol 1 (base distance 2), code "0"
    let distance = Huffman::build(&dlengths).unwrap();

    // Bitstream: '1' (length 257, extra 0 bits) '0' (distance 1, extra 0
    // bits) '0' (end of block). LSB-first packing of a single byte.
    let data = [0b0000_0001u8];
    let mut reader = BitReader::new(&data);
    inflate_block(&mut reader, &mut out, &literal, &distance, NO_LIMIT).unwrap();
    // Distance 2, length 3: the copy re-reads its own output, so "ab"
    // extends by repeating itself rather than repeating one byte.
    assert_eq!(out, b"ababa");
}

#[test]
fn bits_come_out_least_significant_first() {
    let data = [0b1011_0010u8, 0xff];
    let mut reader = BitReader::new(&data);
    assert_eq!(reader.bits(1), Some(0));
    assert_eq!(reader.bits(3), Some(0b001));
    assert_eq!(reader.bits(4), Some(0b1011));
    assert_eq!(reader.bits(9), None, "only eight bits are left");
    assert_eq!(reader.bits(8), Some(0xff), "a refused read consumes nothing");
}

#[test]
fn a_fixed_huffman_block_decodes() {
    // BFINAL=1, BTYPE=01, then the fixed code for 'a' (0x30 + 0x61 = 0x91,
    // eight bits 10010001) and end-of-block (seven zero bits).
    let stream = [0x4bu8, 0x04, 0x00];
    assert_eq!(inflate(&stream, usize::MAX).as_deref(), Some(b"a".as_slice()));
}

#[test]
fn an_invalid_block_type_is_refused() {
    // BFINAL=1, BTYPE=11: reserved.
    assert!(inflate(&[0x07], usize::MAX).is_none());
}

#[test]
fn a_code_longer_than_fifteen_bits_is_refused() {
    assert!(Huffman::build(&[16]).is_none());
    assert!(Huffman::build(&[1, 1]).is_some());
    assert!(Huffman::build(&[15, 0, 3]).is_some());
}
