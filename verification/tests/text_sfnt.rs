use pixelkit::text::font::Face;
use pixelkit::text::sfnt::{CharacterMap, Reader, Sfnt};

#[test]
fn a_non_sfnt_file_is_refused_rather_than_misread() {
    assert!(Sfnt::parse(b"not a font at all").is_none());
    assert!(Sfnt::parse(&[]).is_none());
    assert!(Sfnt::parse(b"OTTO\0\0\0\0\0\0\0\0").is_none());
}

#[test]
fn the_reader_never_reads_past_the_end() {
    let mut reader = Reader::new(&[0x12, 0x34]);
    assert_eq!(reader.u16(), Some(0x1234));
    assert_eq!(reader.u16(), None);
    assert_eq!(reader.u8(), None);
    reader.skip(usize::MAX);
    assert_eq!(reader.remaining(), 0);
}

#[test]
fn garbage_does_not_parse() {
    assert!(Face::from_bytes(b"not a font at all").is_none());
}

/// A TrueType file holding only a `cmap` whose format 4 subtable maps
/// A, B and C to glyphs 1, 2 and 3.
fn cmap_only_font() -> Vec<u8> {
    let mut bytes = vec![0, 1, 0, 0, 0, 1, 0, 16, 0, 0, 0, 0];
    bytes.extend_from_slice(b"cmap");
    bytes.extend_from_slice(&[0, 0, 0, 0]); // checksum
    bytes.extend_from_slice(&[0, 0, 0, 28]); // offset
    let mut cmap = vec![0, 0, 0, 1, 0, 3, 0, 1, 0, 0, 0, 12];
    let subtable: Vec<u8> = vec![
        0, 4, 0, 32, 0, 0, // format, length, language
        0, 4, 0, 4, 0, 1, 0, 0, // segCountX2, searchRange, entrySelector, rangeShift
        0, 0x43, 0xff, 0xff, // end codes
        0, 0, // reserved
        0, 0x41, 0xff, 0xff, // start codes
        0xff, 0xc0, 0, 1, // deltas
        0, 0, 0, 0, // range offsets
    ];
    cmap.extend_from_slice(&subtable);
    bytes.extend_from_slice(&(cmap.len() as u32).to_be_bytes());
    bytes.extend_from_slice(&cmap);
    bytes
}

#[test]
fn a_hand_built_font_finds_its_table_and_maps_its_characters() {
    let bytes = cmap_only_font();
    let sfnt = Sfnt::parse(&bytes).expect("a well-formed table directory");
    assert!(sfnt.has_table(b"cmap"));
    assert!(!sfnt.has_table(b"glyf"));
    assert_eq!(sfnt.table(b"cmap").map(|t| t.len()), Some(44));
    let map = CharacterMap::parse(&sfnt).expect("a format 4 subtable");
    assert_eq!(map.glyph('A'), Some(1));
    assert_eq!(map.glyph('C'), Some(3));
    assert_eq!(map.glyph('D'), None);
    assert!(map.covers('B'));
    assert_eq!(map.len(), 3);
}

#[test]
fn a_table_running_past_the_end_of_the_file_is_clamped_to_it() {
    let mut bytes = cmap_only_font();
    bytes.truncate(bytes.len() - 1);
    let sfnt = Sfnt::parse(&bytes).expect("the directory itself is whole");
    assert_eq!(sfnt.table(b"cmap").map(|t| t.len()), Some(43));
}
