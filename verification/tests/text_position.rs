use pixelkit::text::layout::{Gdef, LayoutTable};
use pixelkit::text::position::{positioning_plan, Adjustment};

fn push16(bytes: &mut Vec<u8>, v: u16) {
    bytes.extend_from_slice(&v.to_be_bytes());
}

/// A GPOS with three lookups: 0 pair kerning by glyph (1 then 2: the first
/// advance shrinks by 50), 1 mark-to-base (mark 9 on base 1), 2 pair
/// kerning by class (3 then 4: -20).
fn gpos() -> Vec<u8> {
    let mut b = Vec::new();
    for v in [1u16, 0, 10, 12, 14, 0, 0, 3, 8, 40, 94] {
        push16(&mut b, v);
    }
    for v in [2u16, 0, 1, 8, 1, 12, 4, 0, 1, 18, 1, 1, 1, 1, 2, 0xffce] {
        push16(&mut b, v);
    }
    for v in [4u16, 0, 1, 8, 1, 12, 18, 1, 24, 36, 1, 1, 9, 1, 1, 1, 1, 0, 6, 1, 100, 0, 1, 4, 1, 300, 700] {
        push16(&mut b, v);
    }
    for v in [2u16, 0, 1, 8, 2, 24, 4, 0, 30, 38, 2, 2, 0, 0, 0, 0xffec, 1, 1, 3, 1, 3, 1, 1, 1, 4, 1, 1] {
        push16(&mut b, v);
    }
    b
}

#[test]
fn a_kerned_pair_moves_the_first_glyphs_advance() {
    let bytes = gpos();
    let table = LayoutTable::parse(&bytes).expect("a well-formed GPOS");
    let plan = positioning_plan(&table, &Gdef::empty(), &[0], &[1, 2, 9]);
    assert_eq!(
        plan,
        vec![Adjustment::Pair {
            first: 0,
            second: 1,
            first_placement: 0,
            first_advance: -50,
            second_placement: 0,
            second_advance: 0,
        }]
    );
}

#[test]
fn a_mark_attaches_to_the_base_before_it_by_anchor() {
    let bytes = gpos();
    let table = LayoutTable::parse(&bytes).unwrap();
    let plan = positioning_plan(&table, &Gdef::empty(), &[1], &[1, 9]);
    assert_eq!(
        plan,
        vec![Adjustment::Attach { base: 0, mark: 1, base_x: 300, base_y: 700, mark_x: 100, mark_y: 0 }]
    );
}

#[test]
fn class_kerning_applies_only_to_a_nonzero_cell() {
    let bytes = gpos();
    let table = LayoutTable::parse(&bytes).unwrap();
    let plan = positioning_plan(&table, &Gdef::empty(), &[2], &[3, 4]);
    assert_eq!(plan.len(), 1);
    assert!(matches!(plan[0], Adjustment::Pair { first: 0, second: 1, first_advance: -20, .. }));
    assert!(positioning_plan(&table, &Gdef::empty(), &[2], &[3, 3]).is_empty());
}

#[test]
fn an_unknown_lookup_plans_nothing() {
    let bytes = gpos();
    let table = LayoutTable::parse(&bytes).unwrap();
    assert!(positioning_plan(&table, &Gdef::empty(), &[7], &[1, 2]).is_empty());
    let both = positioning_plan(&table, &Gdef::empty(), &[0, 1], &[1, 2, 9]);
    assert_eq!(both.len(), 1, "9 follows 2, which is not covered as a base");
}
