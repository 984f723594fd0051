use pixelkit::text::layout::{Gdef, LayoutTable};
use pixelkit::text::substitute::{apply_substitutions, Placement, SubstitutedGlyph};

fn push16(bytes: &mut Vec<u8>, v: u16) {
    bytes.extend_from_slice(&v.to_be_bytes());
}

/// A GSUB with four lookups: 0 single (5 -> 6 by delta), 1 multiple
/// (7 -> 8 9), 2 ligature (10 11 -> 12), 3 chained context (5 after 21
/// runs lookup 0).
fn gsub() -> Vec<u8> {
    let mut b = Vec::new();
    for v in [1u16, 0, 10, 12, 14] {
        push16(&mut b, v);
    }
    push16(&mut b, 0); // no scripts
    push16(&mut b, 0); // no features
    for v in [4u16, 10, 30, 58, 90] {
        push16(&mut b, v); // lookup list
    }
    // Lookup 0: single, format 1, delta +1, covering glyph 5.
    for v in [1u16, 0, 1, 8, 1, 6, 1, 1, 1, 5] {
        push16(&mut b, v);
    }
    // Lookup 1: multiple, glyph 7 becomes 8 9.
    for v in [2u16, 0, 1, 8, 1, 8, 1, 14, 1, 1, 7, 2, 8, 9] {
        push16(&mut b, v);
    }
    // Lookup 2: ligature, 10 11 become 12.
    for v in [4u16, 0, 1, 8, 1, 8, 1, 14, 1, 1, 10, 1, 4, 12, 2, 11] {
        push16(&mut b, v);
    }
    // Lookup 3: chained context format 3, backtrack 21, input 5, lookup 0.
    for v in [6u16, 0, 1, 8, 3, 1, 18, 1, 24, 0, 1, 0, 0, 1, 1, 21, 1, 1, 5] {
        push16(&mut b, v);
    }
    b
}

fn buffer(glyphs: &[u16]) -> Vec<SubstitutedGlyph> {
    glyphs
        .iter()
        .enumerate()
        .map(|(i, &glyph)| SubstitutedGlyph { glyph, cluster: i, placement: Placement::Kept(i) })
        .collect()
}

fn ids(glyphs: &[SubstitutedGlyph]) -> Vec<u16> {
    glyphs.iter().map(|g| g.glyph).collect()
}

#[test]
fn a_single_substitution_replaces_the_glyph_in_place() {
    let bytes = gsub();
    let table = LayoutTable::parse(&bytes).expect("a well-formed GSUB");
    let mut glyphs = buffer(&[5, 3, 5]);
    apply_substitutions(&table, &Gdef::empty(), &[0], &mut glyphs);
    assert_eq!(ids(&glyphs), vec![6, 3, 6]);
    assert_eq!(glyphs[2].placement, Placement::Kept(2));
}

#[test]
fn a_decomposed_character_keeps_its_cluster() {
    let bytes = gsub();
    let table = LayoutTable::parse(&bytes).unwrap();
    let mut glyphs = buffer(&[4, 7, 4]);
    apply_substitutions(&table, &Gdef::empty(), &[1], &mut glyphs);
    assert_eq!(ids(&glyphs), vec![4, 8, 9, 4]);
    assert_eq!(glyphs[1].cluster, 1);
    assert_eq!(glyphs[2].cluster, 1);
    assert_eq!(glyphs[2].placement, Placement::Zero);
    assert_eq!(glyphs[3].cluster, 2);
}

#[test]
fn a_ligature_takes_the_first_components_cluster_and_advance() {
    let bytes = gsub();
    let table = LayoutTable::parse(&bytes).unwrap();
    let mut glyphs = buffer(&[10, 11, 10]);
    apply_substitutions(&table, &Gdef::empty(), &[2], &mut glyphs);
    assert_eq!(ids(&glyphs), vec![12, 10]);
    assert_eq!(glyphs[0].placement, Placement::AdvanceOf(0));
    assert_eq!(glyphs[0].cluster, 0);
}

#[test]
fn a_chained_rule_only_fires_in_its_context() {
    let bytes = gsub();
    let table = LayoutTable::parse(&bytes).unwrap();
    let mut glyphs = buffer(&[21, 5, 22, 5, 5]);
    apply_substitutions(&table, &Gdef::empty(), &[3], &mut glyphs);
    assert_eq!(ids(&glyphs), vec![21, 6, 22, 5, 5]);
}

#[test]
fn lookups_run_in_the_order_given_and_unknown_ones_do_nothing() {
    let bytes = gsub();
    let table = LayoutTable::parse(&bytes).unwrap();
    let mut glyphs = buffer(&[7, 10, 11]);
    apply_substitutions(&table, &Gdef::empty(), &[9, 1, 2, 0], &mut glyphs);
    assert_eq!(ids(&glyphs), vec![8, 9, 12]);
    let mut empty = Vec::new();
    apply_substitutions(&table, &Gdef::empty(), &[0, 1, 2, 3], &mut empty);
    assert!(empty.is_empty());
}
