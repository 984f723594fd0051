//! Glyph positioning (GPOS): pair kerning, mark-to-base and mark-to-mark
//! attachment.
//!
//! Which adjustments a run of glyphs gets depends only on the glyphs, never
//! on where earlier adjustments moved them; so positioning is planned here,
//! as a list of adjustments in design units in the order they apply, and
//! the shaper carries them out on its own glyph positions.

use vstd::prelude::*;
use crate::text::layout::{class_of_wide, class_result, coverage_index_wide, coverage_result, value_record_size,
    value_record_size_spec, Gdef, LayoutTable, Lookup, CLASS_MARK};
use crate::text::sfnt::{u16_at_wide, u16_opt};

verus! {

/// One positioning adjustment, in design units.
#[derive(Debug, Clone, Copy, PartialEq, Eq, Structural)]
pub enum Adjustment {
    /// Kerning: both glyphs of a pair move and change their advance.
    Pair {
        first: usize,
        second: usize,
        first_placement: i16,
        first_advance: i16,
        second_placement: i16,
        second_advance: i16,
    },
    /// The mark at `mark` moves so that its anchor lands on the anchor of
    /// the glyph at `base`.
    Attach {
        base: usize,
        mark: usize,
        base_x: i16,
        base_y: i16,
        mark_x: i16,
        mark_y: i16,
    },
}

/// The signed 16-bit number at `at`, or zero when the bytes are not there.
pub open spec fn i16_or_zero(data: Seq<u8>, at: int) -> i16 {
    match u16_opt(data, at) {
        Some(v) => v as i16,
        None => 0i16,
    }
}

/// The x-placement and x-advance of the value record of `format` at
/// `offset`; the vertical and device fields are not used.
pub open spec fn value_record(data: Seq<u8>, offset: int, format: u16) -> (i16, i16) {
    let placement = if format % 2 == 1 { i16_or_zero(data, offset) } else { 0i16 };
    let advance = if (format / 4) % 2 == 1 {
        i16_or_zero(data, offset + 2 * (format % 2 + (format / 2) % 2))
    } else {
        0i16
    };
    (placement, advance)
}

/// The anchor point at `offset`.
pub open spec fn anchor_at(data: Seq<u8>, offset: int) -> Option<(i16, i16)> {
    match (u16_opt(data, offset), u16_opt(data, offset + 2), u16_opt(data, offset + 4)) {
        (Some(_), Some(x), Some(y)) => Some((x as i16, y as i16)),
        _ => None,
    }
}

/// Entry `index` of the mark array at `array`: its mark class and anchor.
pub open spec fn mark_array_entry(data: Seq<u8>, array: int, index: u16) -> Option<(u16, (i16, i16))> {
    match u16_opt(data, array) {
        None => None,
        Some(count) => if index >= count {
            None
        } else {
            let record = array + 2 + 4 * index;
            match (u16_opt(data, record), u16_opt(data, record + 2)) {
                (Some(class), Some(offset)) => if offset == 0 {
                    None
                } else {
                    match anchor_at(data, array + offset) {
                        Some(anchor) => Some((class, anchor)),
                        None => None,
                    }
                },
                _ => None,
            }
        },
    }
}

/// The anchor for glyph `index` and mark class `class` of the base (or
/// second mark) array at `array`; a null offset means the class does not
/// attach to that glyph.
pub open spec fn anchor_array_entry(data: Seq<u8>, array: int, index: u16, class: u16, class_count: u16) -> Option<(i16, i16)> {
    match u16_opt(data, array) {
        None => None,
        Some(count) => if index >= count {
            None
        } else {
            let record = array + 2 + index * class_count * 2;
            match u16_opt(data, record + 2 * class) {
                None => None,
                Some(offset) => if offset == 0 { None } else { anchor_at(data, array + offset) },
            }
        },
    }
}

/// The first position at or after `from` that `lookup` does not skip.
pub open spec fn next_seen(lookup: Lookup, gdef: Gdef, glyphs: Seq<u16>, from: int) -> Option<int>
    decreases glyphs.len() - from,
{
    if from < 0 || from >= glyphs.len() {
        None
    } else if lookup.skips_spec(glyphs[from], &gdef) {
        next_seen(lookup, gdef, glyphs, from + 1)
    } else {
        Some(from)
    }
}

/// The last position before `before` that `lookup` does not skip.
pub open spec fn previous_seen(lookup: Lookup, gdef: Gdef, glyphs: Seq<u16>, before: int) -> Option<int>
    decreases before,
{
    if before <= 0 || before > glyphs.len() {
        None
    } else if lookup.skips_spec(glyphs[before - 1], &gdef) {
        previous_seen(lookup, gdef, glyphs, before - 1)
    } else {
        Some(before - 1)
    }
}

/// The last position before `before` whose glyph is not a mark.
pub open spec fn previous_base(gdef: Gdef, glyphs: Seq<u16>, before: int) -> Option<int>
    decreases before,
{
    if before <= 0 || before > glyphs.len() {
        None
    } else if gdef.class_spec(glyphs[before - 1]) == CLASS_MARK {
        previous_base(gdef, glyphs, before - 1)
    } else {
        Some(before - 1)
    }
}

/// The first pair record of the set at `set`, from the `k`th on, whose
/// second glyph is `second_glyph`.
pub open spec fn find_pair(data: Seq<u8>, set: int, count: int, record_size: int, second_glyph: u16, k: int) -> Option<int>
    decreases count - k,
{
    if k < 0 || k >= count {
        None
    } else if u16_opt(data, set + 2 + k * record_size) == Some(second_glyph) {
        Some(set + 2 + k * record_size)
    } else {
        find_pair(data, set, count, record_size, second_glyph, k + 1)
    }
}

/// A pair adjustment from its two value records.
pub open spec fn pair_from(position: int, second: int, values1: (i16, i16), values2: (i16, i16)) -> Adjustment {
    Adjustment::Pair {
        first: position as usize,
        second: second as usize,
        first_placement: values1.0,
        first_advance: values1.1,
        second_placement: values2.0,
        second_advance: values2.1,
    }
}

/// Pair positioning at `position` against the next glyph the lookup sees:
/// by glyph pair (format 1) or by class pair (format 2, where an all-zero
/// cell does not count as applying).
pub open spec fn pair_adjustment(data: Seq<u8>, lookup: Lookup, gdef: Gdef, subtable: int, glyphs: Seq<u16>, position: int) -> Option<Adjustment> {
    match next_seen(lookup, gdef, glyphs, position + 1) {
        None => None,
        Some(second) => match u16_opt(data, subtable + 2) {
            None => None,
            Some(coverage) => match coverage_result(data, subtable + coverage, glyphs[position]) {
                None => None,
                Some(index) => match (u16_opt(data, subtable + 4), u16_opt(data, subtable + 6)) {
                    (Some(format1), Some(format2)) => {
                        let size1 = value_record_size_spec(format1);
                        let size2 = value_record_size_spec(format2);
                        match u16_opt(data, subtable) {
                            Some(1) => match u16_opt(data, subtable + 8) {
                                None => None,
                                Some(set_count) => if index >= set_count {
                                    None
                                } else {
                                    match u16_opt(data, subtable + 10 + 2 * index) {
                                        None => None,
                                        Some(set_offset) => {
                                            let set = subtable + set_offset;
                                            match u16_opt(data, set) {
                                                None => None,
                                                Some(pairs) => match find_pair(data, set, pairs as int, 2 + size1 + size2, glyphs[second], 0) {
                                                    None => None,
                                                    Some(record) => Some(pair_from(position, second,
                                                        value_record(data, record + 2, format1),
                                                        value_record(data, record + 2 + size1, format2))),
                                                },
                                            }
                                        },
                                    }
                                },
                            },
                            Some(2) => match (u16_opt(data, subtable + 8), u16_opt(data, subtable + 10),
                                u16_opt(data, subtable + 12), u16_opt(data, subtable + 14)) {
                                (Some(class_def1), Some(class_def2), Some(count1), Some(count2)) => {
                                    let class1 = class_result(data, subtable + class_def1, glyphs[position]);
                                    let class2 = class_result(data, subtable + class_def2, glyphs[second]);
                                    if class1 >= count1 || class2 >= count2 {
                                        None
                                    } else {
                                        let record = subtable + 16 + (class1 * count2 + class2) * (size1 + size2);
                                        let values1 = value_record(data, record, format1);
                                        let values2 = value_record(data, record + size1, format2);
                                        if values1.0 == 0 && values1.1 == 0 && values2.0 == 0 && values2.1 == 0 {
                                            None
                                        } else {
                                            Some(pair_from(position, second, values1, values2))
                                        }
                                    }
                                },
                                _ => None,
                            },
                            _ => None,
                        }
                    },
                    _ => None,
                },
            },
        },
    }
}

/// Attaching the mark at `position` to the glyph at `target`, once the
/// mark's coverage index and the target's coverage offset are known.
pub open spec fn attachment(data: Seq<u8>, subtable: int, mark_index: u16, target_coverage: int, glyphs: Seq<u16>, target: int, position: int) -> Option<Adjustment> {
    match coverage_result(data, subtable + target_coverage, glyphs[target]) {
        None => None,
        Some(target_index) => match (u16_opt(data, subtable + 6), u16_opt(data, subtable + 8), u16_opt(data, subtable + 10)) {
            (Some(class_count), Some(mark_array), Some(target_array)) => match mark_array_entry(data, subtable + mark_array, mark_index) {
                None => None,
                Some((class, mark_anchor)) => if class >= class_count {
                    None
                } else {
                    match anchor_array_entry(data, subtable + target_array, target_index, class, class_count) {
                        None => None,
                        Some(target_anchor) => Some(Adjustment::Attach {
                            base: target as usize,
                            mark: position as usize,
                            base_x: target_anchor.0,
                            base_y: target_anchor.1,
                            mark_x: mark_anchor.0,
                            mark_y: mark_anchor.1,
                        }),
                    }
                },
            },
            _ => None,
        },
    }
}

/// Mark-to-base or mark-to-mark attachment at `position`: the mark goes on
/// the nearest preceding glyph that is not a mark (to a base) or that the
/// lookup sees (to a mark).
pub open spec fn mark_adjustment(data: Seq<u8>, lookup: Lookup, gdef: Gdef, subtable: int, glyphs: Seq<u16>, position: int, to_mark: bool) -> Option<Adjustment> {
    if u16_opt(data, subtable) != Some(1u16) {
        None
    } else {
        match (u16_opt(data, subtable + 2), u16_opt(data, subtable + 4)) {
            (Some(mark_coverage), Some(target_coverage)) => match coverage_result(data, subtable + mark_coverage, glyphs[position]) {
                None => None,
                Some(mark_index) => {
                    let target = if to_mark { previous_seen(lookup, gdef, glyphs, position) } else { previous_base(gdef, glyphs, position) };
                    match target {
                        None => None,
                        Some(t) => attachment(data, subtable, mark_index, target_coverage as int, glyphs, t, position),
                    }
                },
            },
            _ => None,
        }
    }
}

/// What subtable `i` and later ones of `lookup` do at `position`: the
/// first one that applies decides.
pub open spec fn first_adjustment(data: Seq<u8>, lookup: Lookup, gdef: Gdef, glyphs: Seq<u16>, position: int, i: int) -> Option<Adjustment>
    decreases lookup.subtables@.len() - i,
{
    if i < 0 || i >= lookup.subtables@.len() {
        None
    } else {
        let subtable = lookup.subtables@[i] as int;
        let here = if lookup.kind == 2 {
            pair_adjustment(data, lookup, gdef, subtable, glyphs, position)
        } else if lookup.kind == 4 {
            mark_adjustment(data, lookup, gdef, subtable, glyphs, position, false)
        } else if lookup.kind == 6 {
            mark_adjustment(data, lookup, gdef, subtable, glyphs, position, true)
        } else {
            None
        };
        match here {
            Some(a) => Some(a),
            None => first_adjustment(data, lookup, gdef, glyphs, position, i + 1),
        }
    }
}

/// The adjustments `lookup` makes at the first `count` positions, in order.
pub open spec fn lookup_plan(data: Seq<u8>, lookup: Lookup, gdef: Gdef, glyphs: Seq<u16>, count: int) -> Seq<Adjustment>
    decreases count,
{
    if count <= 0 {
        Seq::empty()
    } else {
        let before = lookup_plan(data, lookup, gdef, glyphs, count - 1);
        let position = count - 1;
        if lookup.skips_spec(glyphs[position], &gdef) {
            before
        } else {
            match first_adjustment(data, lookup, gdef, glyphs, position, 0) {
                Some(a) => before.push(a),
                None => before,
            }
        }
    }
}

/// The adjustments the first `count` of `indices` make, lookup after
/// lookup; an index the table does not have contributes nothing.
pub open spec fn positioning_plan_spec(data: Seq<u8>, lookups: Seq<Lookup>, gdef: Gdef, indices: Seq<u16>, glyphs: Seq<u16>, count: int) -> Seq<Adjustment>
    decreases count,
{
    if count <= 0 {
        Seq::empty()
    } else {
        let before = positioning_plan_spec(data, lookups, gdef, indices, glyphs, count - 1);
        let index = indices[count - 1] as int;
        if index >= lookups.len() {
            before
        } else {
            before + lookup_plan(data, lookups[index], gdef, glyphs, glyphs.len() as int)
        }
    }
}

/// The signed 16-bit number at `at`, or zero.
fn read_i16_or_zero(data: &[u8], at: u128) -> (result: i16)
    ensures
        result == i16_or_zero(data@, at as int),
{
    match u16_at_wide(data, at) {
        Some(v) => v as i16,
        None => 0,
    }
}

/// The x-placement and x-advance of a value record.
fn read_value_record(data: &[u8], offset: u128, format: u16) -> (result: (i16, i16))
    requires
        offset <= u64::MAX as u128 * 4,
    ensures
        result == value_record(data@, offset as int, format),
{
    let placement = if format % 2 == 1 { read_i16_or_zero(data, offset) } else { 0 };
    let advance = if (format / 4) % 2 == 1 {
        read_i16_or_zero(data, offset + 2 * (format % 2 + (format / 2) % 2) as u128)
    } else {
        0
    };
    (placement, advance)
}

/// The anchor point at `offset`.
fn read_anchor(data: &[u8], offset: u128) -> (result: Option<(i16, i16)>)
    requires
        offset <= u64::MAX as u128 * 4,
    ensures
        result == anchor_at(data@, offset as int),
{
    match (u16_at_wide(data, offset), u16_at_wide(data, offset + 2), u16_at_wide(data, offset + 4)) {
        (Some(_), Some(x), Some(y)) => Some((x as i16, y as i16)),
        _ => None,
    }
}

/// Entry `index` of the mark array at `array`.
fn read_mark_entry(data: &[u8], array: u128, index: u16) -> (result: Option<(u16, (i16, i16))>)
    requires
        array <= u64::MAX as u128 * 2,
    ensures
        result == mark_array_entry(data@, array as int, index),
{
    let count = match u16_at_wide(data, array) {
        Some(c) => c,
        None => return None,
    };
    if index >= count {
        return None;
    }
    let record = array + 2 + 4 * index as u128;
    match (u16_at_wide(data, record), u16_at_wide(data, record + 2)) {
        (Some(class), Some(offset)) => {
            if offset == 0 {
                return None;
            }
            match read_anchor(data, array + offset as u128) {
                Some(anchor) => Some((class, anchor)),
                None => None,
            }
        },
        _ => None,
    }
}

/// The anchor for glyph `index` and mark class `class` of a base or mark array.
fn read_anchor_entry(data: &[u8], array: u128, index: u16, class: u16, class_count: u16) -> (result: Option<(i16, i16)>)
    requires
        array <= u64::MAX as u128 * 2,
    ensures
        result == anchor_array_entry(data@, array as int, index, class, class_count),
{
    let count = match u16_at_wide(data, array) {
        Some(c) => c,
        None => return None,
    };
    if index >= count {
        return None;
    }
    let wide_index = index as u128;
    let wide_count = class_count as u128;
    assert(wide_index * wide_count <= 0xffff * 0xffff) by (nonlinear_arith)
        requires
            wide_index <= 0xffff,
            wide_count <= 0xffff;
    let record = array + 2 + wide_index * wide_count * 2;
    let offset = match u16_at_wide(data, record + 2 * class as u128) {
        Some(o) => o,
        None => return None,
    };
    if offset == 0 {
        return None;
    }
    read_anchor(data, array + offset as u128)
}

/// The first position at or after `from` that `lookup` does not skip.
fn find_next_seen(lookup: &Lookup, gdef: &Gdef, glyphs: &[u16], from: usize) -> (result: Option<usize>)
    ensures
        match result {
            Some(at) => next_seen(*lookup, *gdef, glyphs@, from as int) == Some(at as int),
            None => next_seen(*lookup, *gdef, glyphs@, from as int) is None,
        },
{
    let mut cursor = from;
    while cursor < glyphs.len()
        invariant
            from <= cursor,
            next_seen(*lookup, *gdef, glyphs@, from as int) == next_seen(*lookup, *gdef, glyphs@, cursor as int),
        decreases glyphs@.len() - cursor,
    {
        if !lookup.skips(glyphs[cursor], gdef) {
            return Some(cursor);
        }
        cursor = cursor + 1;
    }
    None
}

/// The last position before `before` that `lookup` does not skip.
fn find_previous_seen(lookup: &Lookup, gdef: &Gdef, glyphs: &[u16], before: usize) -> (result: Option<usize>)
    requires
        before <= glyphs@.len(),
    ensures
        match result {
            Some(at) => previous_seen(*lookup, *gdef, glyphs@, before as int) == Some(at as int),
            None => previous_seen(*lookup, *gdef, glyphs@, before as int) is None,
        },
{
    let mut cursor = before;
    while cursor > 0
        invariant
            cursor <= before <= glyphs@.len(),
            previous_seen(*lookup, *gdef, glyphs@, before as int) == previous_seen(*lookup, *gdef, glyphs@, cursor as int),
        decreases cursor,
    {
        if !lookup.skips(glyphs[cursor - 1], gdef) {
            return Some(cursor - 1);
        }
        cursor = cursor - 1;
    }
    None
}

/// The last position before `before` whose glyph is not a mark.
fn find_previous_base(gdef: &Gdef, glyphs: &[u16], before: usize) -> (result: Option<usize>)
    requires
        before <= glyphs@.len(),
    ensures
        match result {
            Some(at) => previous_base(*gdef, glyphs@, before as int) == Some(at as int),
            None => previous_base(*gdef, glyphs@, before as int) is None,
        },
{
    let mut cursor = before;
    while cursor > 0
        invariant
            cursor <= before <= glyphs@.len(),
            previous_base(*gdef, glyphs@, before as int) == previous_base(*gdef, glyphs@, cursor as int),
        decreases cursor,
    {
        if !gdef.is_mark(glyphs[cursor - 1]) {
            return Some(cursor - 1);
        }
        cursor = cursor - 1;
    }
    None
}

/// What a forward search finds lies at or after where it started.
proof fn lemma_next_seen_range(lookup: Lookup, gdef: Gdef, glyphs: Seq<u16>, from: int)
    requires
        0 <= from,
    ensures
        next_seen(lookup, gdef, glyphs, from) matches Some(at) ==> from <= at < glyphs.len(),
    decreases glyphs.len() - from,
{
    if from < glyphs.len() && lookup.skips_spec(glyphs[from], &gdef) {
        lemma_next_seen_range(lookup, gdef, glyphs, from + 1);
    }
}

/// What a backward search finds lies before where it started.
proof fn lemma_previous_range(lookup: Lookup, gdef: Gdef, glyphs: Seq<u16>, before: int)
    ensures
        previous_seen(lookup, gdef, glyphs, before) matches Some(at) ==> 0 <= at < before,
        previous_base(gdef, glyphs, before) matches Some(at) ==> 0 <= at < before,
    decreases before,
{
    if 0 < before <= glyphs.len() {
        lemma_previous_range(lookup, gdef, glyphs, before - 1);
    }
}

/// A value record never takes more than two bytes per format bit.
proof fn lemma_record_size(format: u16)
    ensures
        0 <= value_record_size_spec(format) <= 32,
{
    lemma_ones_bound(format as int, 16);
}

/// A count of one bits is between none and all of them.
proof fn lemma_ones_bound(v: int, bits: nat)
    requires
        v >= 0,
    ensures
        0 <= crate::text::layout::ones(v, bits) <= bits,
    decreases bits,
{
    if bits > 0 {
        lemma_ones_bound(v / 2, (bits - 1) as nat);
    }
}

/// Pair positioning at `position`.
fn pair_at(data: &[u8], lookup: &Lookup, gdef: &Gdef, subtable: usize, glyphs: &[u16], position: usize) -> (result: Option<Adjustment>)
    requires
        position < glyphs@.len(),
    ensures
        result == pair_adjustment(data@, *lookup, *gdef, subtable as int, glyphs@, position as int),
{
    let second = match find_next_seen(lookup, gdef, glyphs, position + 1) {
        Some(s) => s,
        None => return None,
    };
    let base = subtable as u128;
    let coverage = match u16_at_wide(data, base + 2) {
        Some(c) => c,
        None => return None,
    };
    let index = match coverage_index_wide(data, base + coverage as u128, glyphs[position]) {
        Some(i) => i,
        None => return None,
    };
    let (format1, format2) = match (u16_at_wide(data, base + 4), u16_at_wide(data, base + 6)) {
        (Some(f1), Some(f2)) => (f1, f2),
        _ => return None,
    };
    proof {
        lemma_record_size(format1);
        lemma_record_size(format2);
        lemma_next_seen_range(*lookup, *gdef, glyphs@, position + 1);
    }
    let size1 = value_record_size(format1) as u128;
    let size2 = value_record_size(format2) as u128;
    let format = u16_at_wide(data, base);
    if format == Some(1u16) {
        let set_count = match u16_at_wide(data, base + 8) {
            Some(c) => c,
            None => return None,
        };
        if index >= set_count {
            return None;
        }
        let set_offset = match u16_at_wide(data, base + 10 + 2 * index as u128) {
            Some(o) => o,
            None => return None,
        };
        let set = base + set_offset as u128;
        let pairs = match u16_at_wide(data, set) {
            Some(p) => p,
            None => return None,
        };
        let record_size = 2 + size1 + size2;
        let ghost d = data@;
        let ghost outcome = match find_pair(d, set as int, pairs as int, record_size as int, glyphs@[second as int], 0) {
            None => None,
            Some(record) => Some(pair_from(position as int, second as int,
                value_record(d, record + 2, format1),
                value_record(d, record + 2 + size1, format2))),
        };
        assert(pair_adjustment(d, *lookup, *gdef, subtable as int, glyphs@, position as int) == outcome);
        let mut k: u16 = 0;
        while k < pairs
            invariant
                pair_adjustment(d, *lookup, *gdef, subtable as int, glyphs@, position as int) == outcome,
                outcome == match find_pair(d, set as int, pairs as int, record_size as int, glyphs@[second as int], 0) {
                    None => None,
                    Some(record) => Some(pair_from(position as int, second as int,
                        value_record(d, record + 2, format1),
                        value_record(d, record + 2 + size1, format2))),
                },
                second < glyphs@.len(),
                size1 <= 32,
                size2 <= 32,
                size1 == value_record_size_spec(format1),
                record_size == 2 + size1 + size2,
                d == data@,
                set <= u64::MAX as u128 + 0x1_0000,
                record_size <= 66,
                k <= pairs,
                find_pair(d, set as int, pairs as int, record_size as int, glyphs@[second as int], 0)
                    == find_pair(d, set as int, pairs as int, record_size as int, glyphs@[second as int], k as int),
            decreases pairs - k,
        {
            let wide_k = k as u128;
            assert(wide_k * record_size <= 0xffff * 66) by (nonlinear_arith)
                requires
                    wide_k <= 0xffff,
                    record_size <= 66;
            let record = set + 2 + wide_k * record_size;
            if u16_at_wide(data, record) == Some(glyphs[second]) {
                let values1 = read_value_record(data, record + 2, format1);
                let values2 = read_value_record(data, record + 2 + size1, format2);
                return Some(Adjustment::Pair {
                    first: position,
                    second,
                    first_placement: values1.0,
                    first_advance: values1.1,
                    second_placement: values2.0,
                    second_advance: values2.1,
                });
            }
            k = k + 1;
        }
        None
    } else if format == Some(2u16) {
        let (class_def1, class_def2, count1, count2) = match (u16_at_wide(data, base + 8), u16_at_wide(data, base + 10),
            u16_at_wide(data, base + 12), u16_at_wide(data, base + 14)) {
            (Some(a), Some(b), Some(c), Some(e)) => (a, b, c, e),
            _ => return None,
        };
        let class1 = class_of_wide(data, base + class_def1 as u128, glyphs[position]);
        let class2 = class_of_wide(data, base + class_def2 as u128, glyphs[second]);
        if class1 >= count1 || class2 >= count2 {
            return None;
        }
        let c1 = class1 as u128;
        let c2 = class2 as u128;
        let n2 = count2 as u128;
        let cell = size1 + size2;
        assert(c1 * n2 <= 0xffff * 0xffff) by (nonlinear_arith)
            requires
                c1 <= 0xffff,
                n2 <= 0xffff;
        assert((c1 * n2 + c2) * cell <= (0xffff * 0xffff + 0xffff) * 64) by (nonlinear_arith)
            requires
                c1 <= 0xffff,
                n2 <= 0xffff,
                c2 <= 0xffff,
                cell <= 64;
        let record = base + 16 + (c1 * n2 + c2) * cell;
        let values1 = read_value_record(data, record, format1);
        let values2 = read_value_record(data, record + size1, format2);
        if values1.0 == 0 && values1.1 == 0 && values2.0 == 0 && values2.1 == 0 {
            return None;
        }
        Some(Adjustment::Pair {
            first: position,
            second,
            first_placement: values1.0,
            first_advance: values1.1,
            second_placement: values2.0,
            second_advance: values2.1,
        })
    } else {
        None
    }
}

/// Mark attachment at `position`, to a base or to the mark below.
fn mark_at(data: &[u8], lookup: &Lookup, gdef: &Gdef, subtable: usize, glyphs: &[u16], position: usize, to_mark: bool) -> (result: Option<Adjustment>)
    requires
        position < glyphs@.len(),
    ensures
        result == mark_adjustment(data@, *lookup, *gdef, subtable as int, glyphs@, position as int, to_mark),
{
    let base = subtable as u128;
    if u16_at_wide(data, base) != Some(1u16) {
        return None;
    }
    let (mark_coverage, target_coverage) = match (u16_at_wide(data, base + 2), u16_at_wide(data, base + 4)) {
        (Some(m), Some(t)) => (m, t),
        _ => return None,
    };
    let mark_index = match coverage_index_wide(data, base + mark_coverage as u128, glyphs[position]) {
        Some(i) => i,
        None => return None,
    };
    proof {
        lemma_previous_range(*lookup, *gdef, glyphs@, position as int);
    }
    let target = if to_mark {
        find_previous_seen(lookup, gdef, glyphs, position)
    } else {
        find_previous_base(gdef, glyphs, position)
    };
    let target = match target {
        Some(t) => t,
        None => return None,
    };
    let target_index = match coverage_index_wide(data, base + target_coverage as u128, glyphs[target]) {
        Some(i) => i,
        None => return None,
    };
    let (class_count, mark_array, target_array) = match (u16_at_wide(data, base + 6), u16_at_wide(data, base + 8), u16_at_wide(data, base + 10)) {
        (Some(c), Some(m), Some(t)) => (c, m, t),
        _ => return None,
    };
    let (class, mark_anchor) = match read_mark_entry(data, base + mark_array as u128, mark_index) {
        Some(entry) => entry,
        None => return None,
    };
    if class >= class_count {
        return None;
    }
    let target_anchor = match read_anchor_entry(data, base + target_array as u128, target_index, class, class_count) {
        Some(anchor) => anchor,
        None => return None,
    };
    Some(Adjustment::Attach {
        base: target,
        mark: position,
        base_x: target_anchor.0,
        base_y: target_anchor.1,
        mark_x: mark_anchor.0,
        mark_y: mark_anchor.1,
    })
}

/// What the subtables of `lookup` do at `position`: the first that applies.
fn adjustment_at(data: &[u8], lookup: &Lookup, gdef: &Gdef, glyphs: &[u16], position: usize) -> (result: Option<Adjustment>)
    requires
        position < glyphs@.len(),
    ensures
        result == first_adjustment(data@, *lookup, *gdef, glyphs@, position as int, 0),
{
    let mut i: usize = 0;
    while i < lookup.subtables.len()
        invariant
            position < glyphs@.len(),
            first_adjustment(data@, *lookup, *gdef, glyphs@, position as int, 0)
                == first_adjustment(data@, *lookup, *gdef, glyphs@, position as int, i as int),
        decreases lookup.subtables@.len() - i,
    {
        let subtable = lookup.subtables[i];
        let here = if lookup.kind == 2 {
            pair_at(data, lookup, gdef, subtable, glyphs, position)
        } else if lookup.kind == 4 {
            mark_at(data, lookup, gdef, subtable, glyphs, position, false)
        } else if lookup.kind == 6 {
            mark_at(data, lookup, gdef, subtable, glyphs, position, true)
        } else {
            None
        };
        if here.is_some() {
            return here;
        }
        i = i + 1;
    }
    None
}

/// Plan the positioning lookups `lookup_indices`, each over the whole run,
/// in the order given: the adjustments, in design units, in the order they
/// apply. An index the table does not have is passed over.
pub fn positioning_plan(table: &LayoutTable, gdef: &Gdef, lookup_indices: &[u16], glyphs: &[u16]) -> (result: Vec<Adjustment>)
    ensures
        result@ == positioning_plan_spec(table.bytes(), table.lookup_list(), *gdef, lookup_indices@, glyphs@, lookup_indices@.len() as int),
{
    let data = table.data();
    let lookups = table.lookups();
    let mut plan: Vec<Adjustment> = Vec::new();
    let mut k: usize = 0;
    while k < lookup_indices.len()
        invariant
            data@ == table.bytes(),
            lookups@ == table.lookup_list(),
            k <= lookup_indices@.len(),
            plan@ == positioning_plan_spec(table.bytes(), table.lookup_list(), *gdef, lookup_indices@, glyphs@, k as int),
        decreases lookup_indices@.len() - k,
    {
        let index = lookup_indices[k] as usize;
        if index < lookups.len() {
            let lookup = &lookups[index];
            let ghost start = plan@;
            let mut position: usize = 0;
            while position < glyphs.len()
                invariant
                    data@ == table.bytes(),
                    *lookup == table.lookup_list()[index as int],
                    position <= glyphs@.len(),
                    plan@ == start + lookup_plan(data@, *lookup, *gdef, glyphs@, position as int),
                decreases glyphs@.len() - position,
            {
                if !lookup.skips(glyphs[position], gdef) {
                    match adjustment_at(data, lookup, gdef, glyphs, position) {
                        Some(a) => {
                            plan.push(a);
                        },
                        None => {},
                    }
                }
                position = position + 1;
                proof {
                    assert(plan@ =~= start + lookup_plan(data@, *lookup, *gdef, glyphs@, position as int));
                }
            }
        }
        k = k + 1;
    }
    plan
}

/// Whether an adjustment refers to two glyphs of a run of `len`, the
/// earlier one first: a kerned pair reads left to right, and a mark only
/// ever attaches to something before it.
pub open spec fn in_order(adjustment: Adjustment, len: int) -> bool {
    match adjustment {
        Adjustment::Pair { first, second, .. } => first < second < len,
        Adjustment::Attach { base, mark, .. } => base < mark < len,
    }
}

/// What one subtable decides at `position` refers to glyphs of the run in order.
proof fn lemma_first_adjustment_in_order(data: Seq<u8>, lookup: Lookup, gdef: Gdef, glyphs: Seq<u16>, position: int, i: int)
    requires
        0 <= position < glyphs.len(),
        glyphs.len() <= usize::MAX,
    ensures
        first_adjustment(data, lookup, gdef, glyphs, position, i) matches Some(a) ==> in_order(a, glyphs.len() as int),
    decreases lookup.subtables@.len() - i,
{
    if 0 <= i < lookup.subtables@.len() {
        lemma_first_adjustment_in_order(data, lookup, gdef, glyphs, position, i + 1);
        lemma_next_seen_range(lookup, gdef, glyphs, position + 1);
        lemma_previous_range(lookup, gdef, glyphs, position);
    }
}

/// Every adjustment a positioning plan makes refers to two glyphs of the
/// run, the earlier first.
#[verifier::spinoff_prover]
pub proof fn lemma_plan_in_order(data: Seq<u8>, lookups: Seq<Lookup>, gdef: Gdef, indices: Seq<u16>, glyphs: Seq<u16>, count: int)
    requires
        glyphs.len() <= usize::MAX,
        count <= indices.len(),
    ensures
        forall|k: int| 0 <= k < positioning_plan_spec(data, lookups, gdef, indices, glyphs, count).len()
            ==> in_order(#[trigger] positioning_plan_spec(data, lookups, gdef, indices, glyphs, count)[k], glyphs.len() as int),
    decreases count,
{
    if count > 0 {
        lemma_plan_in_order(data, lookups, gdef, indices, glyphs, count - 1);
        let index = indices[count - 1] as int;
        if index < lookups.len() {
            lemma_lookup_plan_in_order(data, lookups[index], gdef, glyphs, glyphs.len() as int);
            let before = positioning_plan_spec(data, lookups, gdef, indices, glyphs, count - 1);
            let added = lookup_plan(data, lookups[index], gdef, glyphs, glyphs.len() as int);
            let after = positioning_plan_spec(data, lookups, gdef, indices, glyphs, count);
            assert forall|k: int| 0 <= k < after.len() implies in_order(#[trigger] after[k], glyphs.len() as int) by {
                if k < before.len() {
                    assert(after[k] == before[k]);
                } else {
                    assert(after[k] == added[k - before.len()]);
                }
            }
        } else {
            assert(positioning_plan_spec(data, lookups, gdef, indices, glyphs, count)
                == positioning_plan_spec(data, lookups, gdef, indices, glyphs, count - 1));
        }
    }
}

/// Every adjustment one lookup plans refers to two glyphs of the run in order.
proof fn lemma_lookup_plan_in_order(data: Seq<u8>, lookup: Lookup, gdef: Gdef, glyphs: Seq<u16>, count: int)
    requires
        glyphs.len() <= usize::MAX,
        count <= glyphs.len(),
    ensures
        forall|k: int| 0 <= k < lookup_plan(data, lookup, gdef, glyphs, count).len()
            ==> in_order(#[trigger] lookup_plan(data, lookup, gdef, glyphs, count)[k], glyphs.len() as int),
    decreases count,
{
    if count > 0 {
        lemma_lookup_plan_in_order(data, lookup, gdef, glyphs, count - 1);
        lemma_first_adjustment_in_order(data, lookup, gdef, glyphs, count - 1, 0);
        let before = lookup_plan(data, lookup, gdef, glyphs, count - 1);
        let after = lookup_plan(data, lookup, gdef, glyphs, count);
        assert forall|k: int| 0 <= k < after.len() implies in_order(#[trigger] after[k], glyphs.len() as int) by {
            if k < before.len() {
                assert(after[k] == before[k]);
            }
        }
    }
}

/// The base a mark attaches to is the nearest glyph before it that is not
/// a mark: what the search finds lies before `before`, is not of the mark
/// class, and every glyph between it and `before` is a mark; when it finds
/// nothing, every glyph before `before` is a mark.
pub proof fn lemma_previous_base_is_nearest_non_mark(gdef: Gdef, glyphs: Seq<u16>, before: int)
    requires
        0 <= before <= glyphs.len(),
    ensures
        match previous_base(gdef, glyphs, before) {
            Some(at) => {
                &&& 0 <= at < before
                &&& gdef.class_spec(glyphs[at]) != CLASS_MARK
                &&& forall|k: int| at < k < before ==> #[trigger] gdef.class_spec(glyphs[k]) == CLASS_MARK
            },
            None => forall|k: int| 0 <= k < before ==> #[trigger] gdef.class_spec(glyphs[k]) == CLASS_MARK,
        },
    decreases before,
{
    if before > 0 {
        lemma_previous_base_is_nearest_non_mark(gdef, glyphs, before - 1);
    }
}

} // verus!
