use pixelkit::text::layout::{
    class_of, coverage_index, value_record_size, Gdef, LayoutTable, Lookup, IGNORE_MARKS,
};

#[test]
fn a_missing_gdef_treats_everything_as_a_base() {
    let gdef = Gdef::empty();
    assert!(!gdef.is_mark(42));
    assert_eq!(gdef.class_of(42), 0);
}

#[test]
fn a_value_record_is_sized_by_its_format_bits() {
    assert_eq!(value_record_size(0), 0);
    assert_eq!(value_record_size(0x0004), 2); // XAdvance only
    assert_eq!(value_record_size(0x0005), 4); // XPlacement + XAdvance
    assert_eq!(value_record_size(0x00FF), 16); // every field
}

#[test]
fn coverage_lookup_handles_both_formats_and_misses() {
    let format1 = [0x00, 0x01, 0x00, 0x03, 0x00, 0x05, 0x00, 0x09, 0x00, 0x0A];
    assert_eq!(coverage_index(&format1, 0, 5), Some(0));
    assert_eq!(coverage_index(&format1, 0, 9), Some(1));
    assert_eq!(coverage_index(&format1, 0, 10), Some(2));
    assert_eq!(coverage_index(&format1, 0, 7), None);

    let format2 = [
        0x00, 0x02, 0x00, 0x01, // format, rangeCount
        0x00, 0x14, 0x00, 0x18, 0x00, 0x07, // 20..=24 starting at 7
    ];
    assert_eq!(coverage_index(&format2, 0, 20), Some(7));
    assert_eq!(coverage_index(&format2, 0, 24), Some(11));
    assert_eq!(coverage_index(&format2, 0, 25), None);
}

#[test]
fn class_definitions_default_unlisted_glyphs_to_zero() {
    let format1 = [
        0x00, 0x01, 0x00, 0x0A, 0x00, 0x03, // format, startGlyph 10, count 3
        0x00, 0x02, 0x00, 0x05, 0x00, 0x01,
    ];
    assert_eq!(class_of(&format1, 0, 10), 2);
    assert_eq!(class_of(&format1, 0, 12), 1);
    assert_eq!(class_of(&format1, 0, 13), 0, "past the end is class 0");
    assert_eq!(class_of(&format1, 0, 9), 0, "before the start is class 0");
}

/// A GDEF of version 1.0 whose glyph classes say 10 and 12 are bases and 11
/// is a mark.
fn small_gdef() -> Vec<u8> {
    vec![
        0, 1, 0, 0, // version 1.0
        0, 12, // glyph class definitions
        0, 0, 0, 0, 0, 0, // attach list, ligature carets, mark attachment classes
        0, 1, 0, 10, 0, 3, 0, 1, 0, 3, 0, 1, // format 1: 10..=12 as base, mark, base
    ]
}

#[test]
fn a_hand_built_gdef_tells_marks_from_bases() {
    let bytes = small_gdef();
    let gdef = Gdef::parse(&bytes).expect("a well-formed GDEF");
    assert!(!gdef.is_mark(10));
    assert!(gdef.is_mark(11));
    assert_eq!(gdef.class_of(12), 1);
    assert_eq!(gdef.class_of(99), 0);
}

#[test]
fn a_lookup_ignoring_marks_skips_exactly_the_marks() {
    let bytes = small_gdef();
    let gdef = Gdef::parse(&bytes).unwrap();
    let ignoring_marks = Lookup {
        kind: 2,
        flag: IGNORE_MARKS,
        mark_filtering_set: None,
        subtables: Vec::new(),
    };
    assert!(ignoring_marks.skips(11, &gdef));
    assert!(!ignoring_marks.skips(10, &gdef));
    let plain = Lookup {
        kind: 4,
        flag: 0,
        mark_filtering_set: None,
        subtables: Vec::new(),
    };
    assert!(!plain.skips(11, &gdef));
}

/// A GSUB with features `liga` (lookups 2 and 0) and `ccmp` (lookups 1 and
/// 2) over three empty lookups.
fn small_gsub() -> Vec<u8> {
    let mut bytes = vec![0, 1, 0, 0, 0, 10, 0, 12, 0, 42];
    bytes.extend_from_slice(&[0, 0]); // no scripts
    bytes.extend_from_slice(&[0, 2]); // two features
    bytes.extend_from_slice(b"liga");
    bytes.extend_from_slice(&[0, 14]);
    bytes.extend_from_slice(b"ccmp");
    bytes.extend_from_slice(&[0, 22]);
    bytes.extend_from_slice(&[0, 0, 0, 2, 0, 2, 0, 0]);
    bytes.extend_from_slice(&[0, 0, 0, 2, 0, 1, 0, 2]);
    assert_eq!(bytes.len(), 42);
    bytes.extend_from_slice(&[0, 3, 0, 8, 0, 14, 0, 20]);
    for _ in 0..3 {
        bytes.extend_from_slice(&[0, 1, 0, 0, 0, 0]);
    }
    bytes
}

#[test]
fn lookups_come_back_in_list_order_without_duplicates_from_a_hand_built_table() {
    let bytes = small_gsub();
    let table = LayoutTable::parse(&bytes).expect("a well-formed GSUB");
    assert_eq!(table.lookups().len(), 3);
    assert_eq!(table.lookups_for(&[b"liga", b"ccmp"]), vec![0, 1, 2]);
    assert_eq!(table.lookups_for(&[b"liga"]), vec![0, 2]);
    assert!(table.lookups_for(&[b"zzzz"]).is_empty());
    assert_eq!(table.feature_tags(), vec!["liga".to_owned(), "ccmp".to_owned()]);
}

#[test]
fn truncated_layout_bytes_are_refused() {
    assert!(LayoutTable::parse(&[]).is_none());
    assert!(LayoutTable::parse(&[0, 1, 0, 0]).is_none());
    assert!(Gdef::parse(&[0, 1]).is_none());
    let bytes = small_gsub();
    for length in 0..bytes.len() {
        let _ = LayoutTable::parse(&bytes[..length]);
    }
}

#[test]
fn malformed_layout_bytes_are_refused_rather_than_indexed_into() {
    assert!(LayoutTable::parse(&[]).is_none());
    assert!(LayoutTable::parse(&[0, 1, 0, 0]).is_none());
    assert!(Gdef::parse(&[0, 1]).is_none());
    // Truncations of a real table must not panic.
    let gsub = small_gsub();
    for length in 0..gsub.len() {
        let _ = LayoutTable::parse(&gsub[..length]);
    }
}

#[test]
fn a_tag_that_is_not_utf8_reads_back_lossily() {
    let mut bytes = small_gsub();
    bytes[14] = 0xFF;
    let table = LayoutTable::parse(&bytes).expect("the table is otherwise well formed");
    assert_eq!(table.feature_tags(), vec!["\u{FFFD}iga".to_owned(), "ccmp".to_owned()]);
}
