//! Glyph substitution (GSUB): single, multiple, alternate, ligature and
//! chained-context lookups, applied to a buffer of glyphs.
//!
//! Substitution changes which glyphs there are, never where they go; so the
//! buffer records, for each glyph, where its offsets and advance come from
//! (a glyph of the buffer it started from, or nothing), and the shaper fills
//! in the numbers afterwards.

use vstd::prelude::*;
use crate::text::layout::{coverage_index_wide, coverage_result, Gdef, LayoutTable, Lookup};
use crate::text::sfnt::{fits, u16_at_wide, u16_be, u16_opt};

verus! {

/// Where a substituted glyph's offsets and advance come from.
#[derive(Debug, Clone, Copy, PartialEq, Eq, Structural)]
pub enum Placement {
    /// Offsets and advance of glyph `i` of the buffer shaping started with.
    Kept(usize),
    /// Zero offsets, and the advance of glyph `i` of that buffer.
    AdvanceOf(usize),
    /// Zero offsets and a zero advance.
    Zero,
}

/// A glyph in the buffer being substituted.
#[derive(Debug, Clone, Copy, PartialEq, Eq, Structural)]
pub struct SubstitutedGlyph {
    pub glyph: u16,
    /// Which character of the source string this came from. The pieces of a
    /// decomposed character share it, which keeps line breaking from
    /// splitting them.
    pub cluster: usize,
    pub placement: Placement,
}

/// `g` showing a different glyph, in the same place.
pub open spec fn with_glyph(g: SubstitutedGlyph, glyph: u16) -> SubstitutedGlyph {
    SubstitutedGlyph { glyph, cluster: g.cluster, placement: g.placement }
}

/// A placement that keeps only the advance.
pub open spec fn advance_only(p: Placement) -> Placement {
    match p {
        Placement::Kept(i) => Placement::AdvanceOf(i),
        other => other,
    }
}

/// The coverage index of `glyph` in the table at `subtable` + the offset
/// stored at `subtable + 2`.
pub open spec fn subtable_coverage(data: Seq<u8>, subtable: int, glyph: u16) -> Option<u16> {
    match u16_opt(data, subtable + 2) {
        Some(coverage) => coverage_result(data, subtable + coverage, glyph),
        None => None,
    }
}

/// Single substitution: the glyph that replaces `glyph`, if the subtable
/// covers it. Format 1 adds a delta (modulo 2^16); format 2 looks it up.
pub open spec fn single_substitute(data: Seq<u8>, subtable: int, glyph: u16) -> Option<u16> {
    match subtable_coverage(data, subtable, glyph) {
        None => None,
        Some(index) => match u16_opt(data, subtable) {
            Some(1) => {
                let delta = match u16_opt(data, subtable + 4) { Some(d) => d as int, None => 0 };
                Some(((glyph + delta) % 0x1_0000) as u16)
            },
            Some(2) => {
                let count = match u16_opt(data, subtable + 4) { Some(c) => c, None => 0 };
                if index >= count { None } else { u16_opt(data, subtable + 6 + 2 * index) }
            },
            _ => None,
        },
    }
}

/// Alternate substitution: the first alternate of `glyph`, if the subtable
/// covers it and its alternate set is not empty.
pub open spec fn alternate_substitute(data: Seq<u8>, subtable: int, glyph: u16) -> Option<u16> {
    if u16_opt(data, subtable) != Some(1u16) {
        None
    } else {
        match subtable_coverage(data, subtable, glyph) {
            None => None,
            Some(index) => match u16_opt(data, subtable + 6 + 2 * index) {
                None => None,
                Some(set_offset) => {
                    let set = subtable + set_offset;
                    let count = match u16_opt(data, set) { Some(c) => c, None => 0 };
                    if count == 0 { None } else { u16_opt(data, set + 2) }
                },
            },
        }
    }
}

/// Multiple substitution: the glyphs that replace `glyph` (none at all
/// deletes it), if the subtable covers it and its sequence can be read.
pub open spec fn multiple_sequence(data: Seq<u8>, subtable: int, glyph: u16) -> Option<Seq<u16>> {
    if u16_opt(data, subtable) != Some(1u16) {
        None
    } else {
        match (subtable_coverage(data, subtable, glyph), u16_opt(data, subtable + 4)) {
            (Some(index), Some(count)) => if index >= count {
                None
            } else {
                match u16_opt(data, subtable + 6 + 2 * index) {
                    None => None,
                    Some(offset) => {
                        let sequence = subtable + offset;
                        match u16_opt(data, sequence) {
                            None => None,
                            Some(n) => if n == 0 {
                                Some(Seq::empty())
                            } else if fits(data, sequence + 2, 2 * n) {
                                Some(Seq::new(n as nat, |k: int| u16_be(data, sequence + 2 + 2 * k)))
                            } else {
                                None
                            },
                        }
                    },
                }
            },
            _ => None,
        }
    }
}

/// The buffer after multiple substitution at `position` put `replacements`
/// in place of one glyph: each keeps its cluster and takes no space of its own.
pub open spec fn replaced(glyphs: Seq<SubstitutedGlyph>, position: int, replacements: Seq<u16>) -> Seq<SubstitutedGlyph> {
    if replacements.len() == 0 {
        glyphs.remove(position)
    } else {
        glyphs.take(position)
            + Seq::new(replacements.len(), |k: int| SubstitutedGlyph {
                glyph: replacements[k],
                cluster: glyphs[position].cluster,
                placement: Placement::Zero,
            })
            + glyphs.skip(position + 1)
    }
}

/// The first position at or after `from` that `lookup` does not skip.
pub open spec fn next_visible(lookup: Lookup, gdef: Gdef, glyphs: Seq<SubstitutedGlyph>, from: int) -> Option<int>
    decreases glyphs.len() - from,
{
    if from < 0 || from >= glyphs.len() {
        None
    } else if lookup.skips_spec(glyphs[from].glyph, &gdef) {
        next_visible(lookup, gdef, glyphs, from + 1)
    } else {
        Some(from)
    }
}

/// Match components `component..count` of the ligature at `ligature`,
/// from `cursor` on, skipping what the lookup ignores: the positions
/// matched so far, extended, or `None` at the first mismatch.
pub open spec fn match_components(
    data: Seq<u8>,
    ligature: int,
    lookup: Lookup,
    gdef: Gdef,
    glyphs: Seq<SubstitutedGlyph>,
    component: int,
    count: int,
    cursor: int,
    matched: Seq<int>,
) -> Option<Seq<int>>
    decreases count - component,
{
    if component >= count {
        Some(matched)
    } else {
        match next_visible(lookup, gdef, glyphs, cursor) {
            None => None,
            Some(at) => match u16_opt(data, ligature + 2 + 2 * component) {
                None => None,
                Some(expected) => if glyphs[at].glyph != expected {
                    None
                } else {
                    match_components(data, ligature, lookup, gdef, glyphs, component + 1, count, at + 1, matched.push(at))
                },
            },
        }
    }
}

/// The first ligature of the set at `set`, from the `k`th on, whose
/// components all match after `position`: the ligature glyph and the
/// positions of its components.
pub open spec fn first_ligature(
    data: Seq<u8>,
    set: int,
    count: int,
    k: int,
    lookup: Lookup,
    gdef: Gdef,
    glyphs: Seq<SubstitutedGlyph>,
    position: int,
) -> Option<(u16, Seq<int>)>
    decreases count - k,
{
    if k >= count {
        None
    } else {
        let rest = first_ligature(data, set, count, k + 1, lookup, gdef, glyphs, position);
        match u16_opt(data, set + 2 + 2 * k) {
            None => rest,
            Some(offset) => {
                let ligature = set + offset;
                match (u16_opt(data, ligature), u16_opt(data, ligature + 2)) {
                    (Some(glyph), Some(components)) => if components == 0 {
                        rest
                    } else {
                        match match_components(data, ligature, lookup, gdef, glyphs, 1, components as int, position + 1, seq![position]) {
                            Some(matched) => Some((glyph, matched)),
                            None => rest,
                        }
                    },
                    _ => rest,
                }
            },
        }
    }
}

/// Ligature substitution: the ligature that starts at `position`, if any.
pub open spec fn ligature_match(
    data: Seq<u8>,
    subtable: int,
    lookup: Lookup,
    gdef: Gdef,
    glyphs: Seq<SubstitutedGlyph>,
    position: int,
) -> Option<(u16, Seq<int>)> {
    if u16_opt(data, subtable) != Some(1u16) {
        None
    } else {
        match (subtable_coverage(data, subtable, glyphs[position].glyph), u16_opt(data, subtable + 4)) {
            (Some(index), Some(set_count)) => if index >= set_count {
                None
            } else {
                match u16_opt(data, subtable + 6 + 2 * index) {
                    None => None,
                    Some(set_offset) => {
                        let set = subtable + set_offset;
                        match u16_opt(data, set) {
                            None => None,
                            Some(count) => first_ligature(data, set, count as int, 0, lookup, gdef, glyphs, position),
                        }
                    },
                }
            },
            _ => None,
        }
    }
}

/// `glyphs` without the positions listed, taken out from the last listed.
pub open spec fn without_positions(glyphs: Seq<SubstitutedGlyph>, positions: Seq<int>) -> Seq<SubstitutedGlyph>
    decreases positions.len(),
{
    if positions.len() == 0 {
        glyphs
    } else {
        without_positions(glyphs.remove(positions.last()), positions.drop_last())
    }
}

/// The buffer after a ligature of `glyph` over the components at `matched`
/// (the first of which is `position`): the other components go, and the
/// first becomes the ligature, keeping its cluster and advance.
pub open spec fn ligated(glyphs: Seq<SubstitutedGlyph>, position: int, glyph: u16, matched: Seq<int>) -> Seq<SubstitutedGlyph> {
    without_positions(glyphs, matched.drop_first()).update(position, SubstitutedGlyph {
        glyph,
        cluster: glyphs[position].cluster,
        placement: advance_only(glyphs[position].placement),
    })
}

/// Read the coverage index of `glyph` for the subtable at `subtable`.
fn coverage_of(data: &[u8], subtable: usize, glyph: u16) -> (result: Option<u16>)
    ensures
        result == subtable_coverage(data@, subtable as int, glyph),
{
    match u16_at_wide(data, subtable as u128 + 2) {
        Some(coverage) => coverage_index_wide(data, subtable as u128 + coverage as u128, glyph),
        None => None,
    }
}

/// Single substitution at `position`. Returns how many glyphs it consumed:
/// one if it replaced the glyph there, none if the subtable does not apply.
fn apply_single(data: &[u8], subtable: usize, glyphs: &mut Vec<SubstitutedGlyph>, position: usize) -> (consumed: usize)
    requires
        position < old(glyphs)@.len(),
    ensures
        match single_substitute(data@, subtable as int, old(glyphs)@[position as int].glyph) {
            Some(g) => consumed == 1 && final(glyphs)@ == old(glyphs)@.update(position as int, with_glyph(old(glyphs)@[position as int], g)),
            None => consumed == 0 && final(glyphs)@ == old(glyphs)@,
        },
{
    let current = glyphs[position];
    let glyph = current.glyph;
    let index = match coverage_of(data, subtable, glyph) {
        Some(i) => i,
        None => return 0,
    };
    let substitute = match u16_at_wide(data, subtable as u128) {
        Some(1) => {
            let delta = match u16_at_wide(data, subtable as u128 + 4) {
                Some(d) => d,
                None => 0,
            };
            glyph.wrapping_add(delta)
        },
        Some(2) => {
            let count = match u16_at_wide(data, subtable as u128 + 4) {
                Some(c) => c,
                None => 0,
            };
            if index >= count {
                return 0;
            }
            match u16_at_wide(data, subtable as u128 + 6 + 2 * index as u128) {
                Some(g) => g,
                None => return 0,
            }
        },
        _ => return 0,
    };
    glyphs.set(position, SubstitutedGlyph { glyph: substitute, cluster: current.cluster, placement: current.placement });
    1
}

/// Alternate substitution at `position`: the first alternate replaces the
/// glyph. Returns how many glyphs it consumed.
fn apply_alternate(data: &[u8], subtable: usize, glyphs: &mut Vec<SubstitutedGlyph>, position: usize) -> (consumed: usize)
    requires
        position < old(glyphs)@.len(),
    ensures
        match alternate_substitute(data@, subtable as int, old(glyphs)@[position as int].glyph) {
            Some(g) => consumed == 1 && final(glyphs)@ == old(glyphs)@.update(position as int, with_glyph(old(glyphs)@[position as int], g)),
            None => consumed == 0 && final(glyphs)@ == old(glyphs)@,
        },
{
    if u16_at_wide(data, subtable as u128) != Some(1u16) {
        return 0;
    }
    let current = glyphs[position];
    let index = match coverage_of(data, subtable, current.glyph) {
        Some(i) => i,
        None => return 0,
    };
    let set_offset = match u16_at_wide(data, subtable as u128 + 6 + 2 * index as u128) {
        Some(o) => o,
        None => return 0,
    };
    let set = subtable as u128 + set_offset as u128;
    let count = match u16_at_wide(data, set) {
        Some(c) => c,
        None => 0,
    };
    if count == 0 {
        return 0;
    }
    let alternate = match u16_at_wide(data, set + 2) {
        Some(g) => g,
        None => return 0,
    };
    glyphs.set(position, SubstitutedGlyph { glyph: alternate, cluster: current.cluster, placement: current.placement });
    1
}

/// Multiple substitution at `position`: one glyph becomes several (or
/// none). This is how SARA AM decomposes. Returns how many glyphs it
/// consumed: the replacements, or one for a deletion.
fn apply_multiple(data: &[u8], subtable: usize, glyphs: &mut Vec<SubstitutedGlyph>, position: usize) -> (consumed: usize)
    requires
        position < old(glyphs)@.len(),
    ensures
        match multiple_sequence(data@, subtable as int, old(glyphs)@[position as int].glyph) {
            Some(replacements) => {
                &&& final(glyphs)@ == replaced(old(glyphs)@, position as int, replacements)
                &&& consumed == if replacements.len() == 0 { 1 } else { replacements.len() }
            },
            None => consumed == 0 && final(glyphs)@ == old(glyphs)@,
        },
{
    if u16_at_wide(data, subtable as u128) != Some(1u16) {
        return 0;
    }
    let template = glyphs[position];
    let index = match coverage_of(data, subtable, template.glyph) {
        Some(i) => i,
        None => return 0,
    };
    let count = match u16_at_wide(data, subtable as u128 + 4) {
        Some(c) => c,
        None => return 0,
    };
    if index >= count {
        return 0;
    }
    let offset = match u16_at_wide(data, subtable as u128 + 6 + 2 * index as u128) {
        Some(o) => o,
        None => return 0,
    };
    let sequence = subtable as u128 + offset as u128;
    let n = match u16_at_wide(data, sequence) {
        Some(n) => n,
        None => return 0,
    };
    if n == 0 {
        glyphs.remove(position);
        return 1;
    }
    let ghost d = data@;
    let ghost outcome = if fits(d, sequence + 2, 2 * n) {
        Some(Seq::new(n as nat, |k: int| u16_be(d, sequence + 2 + 2 * k)))
    } else {
        None
    };
    assert(multiple_sequence(d, subtable as int, old(glyphs)@[position as int].glyph) == outcome);
    let mut replacements: Vec<u16> = Vec::new();
    let mut slot: u16 = 0;
    while slot < n
        invariant
            d == data@,
            glyphs@ == old(glyphs)@,
            position < old(glyphs)@.len(),
            multiple_sequence(d, subtable as int, old(glyphs)@[position as int].glyph) == outcome,
            outcome == if fits(d, sequence + 2, 2 * n) {
                Some(Seq::new(n as nat, |k: int| u16_be(d, sequence + 2 + 2 * k)))
            } else {
                None
            },
            sequence <= u64::MAX as u128 + 0x1_0000,
            slot <= n,
            slot == 0 || fits(d, sequence + 2, 2 * slot),
            replacements@ == Seq::new(slot as nat, |k: int| u16_be(d, sequence + 2 + 2 * k)),
        decreases n - slot,
    {
        let g = match u16_at_wide(data, sequence + 2 + 2 * slot as u128) {
            Some(g) => g,
            None => {
                assert(!fits(d, sequence + 2, 2 * n));
                return 0;
            },
        };
        replacements.push(g);
        slot = slot + 1;
        assert(replacements@ =~= Seq::new(slot as nat, |k: int| u16_be(d, sequence + 2 + 2 * k)));
    }
    let ghost before = glyphs@;
    let mut out: Vec<SubstitutedGlyph> = Vec::new();
    let mut i: usize = 0;
    while i < position
        invariant
            before == glyphs@,
            position < before.len(),
            i <= position,
            out@ == before.take(i as int),
        decreases position - i,
    {
        out.push(glyphs[i]);
        assert(before.take(i + 1) =~= before.take(i as int).push(before[i as int]));
        i = i + 1;
    }
    let mut k: usize = 0;
    while k < replacements.len()
        invariant
            before == glyphs@,
            position < before.len(),
            template == before[position as int],
            k <= replacements@.len(),
            out@ == before.take(position as int) + Seq::new(k as nat, |m: int| SubstitutedGlyph {
                glyph: replacements@[m],
                cluster: template.cluster,
                placement: Placement::Zero,
            }),
        decreases replacements@.len() - k,
    {
        out.push(SubstitutedGlyph { glyph: replacements[k], cluster: template.cluster, placement: Placement::Zero });
        k = k + 1;
        assert(out@ =~= before.take(position as int) + Seq::new(k as nat, |m: int| SubstitutedGlyph {
            glyph: replacements@[m],
            cluster: template.cluster,
            placement: Placement::Zero,
        }));
    }
    let total = glyphs.len();
    let mut j: usize = position + 1;
    let ghost middle = out@;
    while j < glyphs.len()
        invariant
            before == glyphs@,
            position < before.len(),
            position + 1 <= j <= before.len(),
            out@ == middle + before.subrange(position + 1, j as int),
        decreases before.len() - j,
    {
        out.push(glyphs[j]);
        assert(before.subrange(position + 1, j + 1) =~= before.subrange(position + 1, j as int).push(before[j as int]));
        j = j + 1;
    }
    assert(before.subrange(position + 1, before.len() as int) =~= before.skip(position + 1));
    assert(replacements@.len() == n);
    *glyphs = out;
    n as usize
}

/// The positions of `matched` as integers.
pub open spec fn as_ints(positions: Seq<usize>) -> Seq<int> {
    positions.map_values(|p: usize| p as int)
}

/// Whether positions strictly increase and all lie below `bound`.
pub open spec fn increasing_below(positions: Seq<int>, bound: int) -> bool {
    &&& forall|i: int, j: int| 0 <= i < j < positions.len() ==> positions[i] < positions[j]
    &&& forall|i: int| 0 <= i < positions.len() ==> 0 <= #[trigger] positions[i] < bound
}

/// What a search for the next visible glyph finds is visible, lies at or
/// after where it started, and nothing visible lies between.
proof fn lemma_next_visible(lookup: Lookup, gdef: Gdef, glyphs: Seq<SubstitutedGlyph>, from: int)
    requires
        0 <= from,
    ensures
        next_visible(lookup, gdef, glyphs, from) matches Some(at) ==> from <= at < glyphs.len(),
    decreases glyphs.len() - from,
{
    if from < glyphs.len() && lookup.skips_spec(glyphs[from].glyph, &gdef) {
        lemma_next_visible(lookup, gdef, glyphs, from + 1);
    }
}

/// Matching extends the positions already matched with later ones, so they
/// keep increasing and stay inside the buffer.
proof fn lemma_match_components(
    data: Seq<u8>,
    ligature: int,
    lookup: Lookup,
    gdef: Gdef,
    glyphs: Seq<SubstitutedGlyph>,
    component: int,
    count: int,
    cursor: int,
    matched: Seq<int>,
)
    requires
        increasing_below(matched, glyphs.len() as int),
        matched.len() > 0,
        matched.last() < cursor,
        0 <= cursor,
    ensures
        match_components(data, ligature, lookup, gdef, glyphs, component, count, cursor, matched) matches Some(m) ==> {
            &&& increasing_below(m, glyphs.len() as int)
            &&& m.len() >= matched.len()
            &&& m[0] == matched[0]
        },
    decreases count - component,
{
    if component < count {
        lemma_next_visible(lookup, gdef, glyphs, cursor);
        if let Some(at) = next_visible(lookup, gdef, glyphs, cursor) {
            if let Some(expected) = u16_opt(data, ligature + 2 + 2 * component) {
                if glyphs[at].glyph == expected {
                    let next = matched.push(at);
                    assert(increasing_below(next, glyphs.len() as int));
                    lemma_match_components(data, ligature, lookup, gdef, glyphs, component + 1, count, at + 1, next);
                }
            }
        }
    }
}

/// The ligatures a set offers all start with the glyph at `position`.
proof fn lemma_first_ligature(
    data: Seq<u8>,
    set: int,
    count: int,
    k: int,
    lookup: Lookup,
    gdef: Gdef,
    glyphs: Seq<SubstitutedGlyph>,
    position: int,
)
    requires
        0 <= position < glyphs.len(),
    ensures
        first_ligature(data, set, count, k, lookup, gdef, glyphs, position) matches Some((g, m)) ==> {
            &&& increasing_below(m, glyphs.len() as int)
            &&& m.len() >= 1
            &&& m[0] == position
        },
    decreases count - k,
{
    if k < count {
        lemma_first_ligature(data, set, count, k + 1, lookup, gdef, glyphs, position);
        if let Some(offset) = u16_opt(data, set + 2 + 2 * k) {
            let ligature = set + offset;
            if let (Some(glyph), Some(components)) = (u16_opt(data, ligature), u16_opt(data, ligature + 2)) {
                if components != 0 {
                    assert(increasing_below(seq![position], glyphs.len() as int));
                    lemma_match_components(data, ligature, lookup, gdef, glyphs, 1, components as int, position + 1, seq![position]);
                }
            }
        }
    }
}

/// Taking out positions that all lie after `keep` leaves everything up to
/// `keep` where it was, and shortens the buffer by how many were taken.
proof fn lemma_without_positions(glyphs: Seq<SubstitutedGlyph>, positions: Seq<int>, keep: int)
    requires
        increasing_below(positions, glyphs.len() as int),
        forall|i: int| 0 <= i < positions.len() ==> keep < #[trigger] positions[i],
        0 <= keep,
    ensures
        without_positions(glyphs, positions).len() == glyphs.len() - positions.len(),
        forall|i: int| 0 <= i <= keep && i < glyphs.len() ==> #[trigger] without_positions(glyphs, positions)[i] == glyphs[i],
    decreases positions.len(),
{
    if positions.len() > 0 {
        let last = positions.last();
        let rest = positions.drop_last();
        let shorter = glyphs.remove(last);
        assert forall|i: int| 0 <= i < rest.len() implies 0 <= #[trigger] rest[i] < shorter.len() by {
            assert(positions[i] < positions[positions.len() - 1]);
        }
        assert(increasing_below(rest, shorter.len() as int));
        lemma_without_positions(shorter, rest, keep);
    }
}

/// Find the next glyph at or after `from` that `lookup` does not skip.
fn find_visible(lookup: &Lookup, gdef: &Gdef, glyphs: &Vec<SubstitutedGlyph>, from: usize) -> (result: Option<usize>)
    ensures
        match result {
            Some(at) => next_visible(*lookup, *gdef, glyphs@, from as int) == Some(at as int),
            None => next_visible(*lookup, *gdef, glyphs@, from as int) is None,
        },
{
    let mut cursor = from;
    while cursor < glyphs.len()
        invariant
            from <= cursor,
            next_visible(*lookup, *gdef, glyphs@, from as int) == next_visible(*lookup, *gdef, glyphs@, cursor as int),
        decreases glyphs@.len() - cursor,
    {
        if !lookup.skips(glyphs[cursor].glyph, gdef) {
            return Some(cursor);
        }
        cursor = cursor + 1;
    }
    None
}

/// Match the components of the ligature at `ligature` after `position`:
/// the positions they sit at, or `None` at the first mismatch.
fn match_ligature(
    data: &[u8],
    ligature: u128,
    components: u16,
    lookup: &Lookup,
    gdef: &Gdef,
    glyphs: &Vec<SubstitutedGlyph>,
    position: usize,
) -> (result: Option<Vec<usize>>)
    requires
        position < glyphs@.len(),
        ligature <= u64::MAX as u128 + 0x2_0000,
        components >= 1,
    ensures
        match result {
            Some(m) => match_components(data@, ligature as int, *lookup, *gdef, glyphs@, 1, components as int, position + 1, seq![position as int])
                == Some(as_ints(m@)),
            None => match_components(data@, ligature as int, *lookup, *gdef, glyphs@, 1, components as int, position + 1, seq![position as int]) is None,
        },
{
    let ghost d = data@;
    let ghost g0 = glyphs@;
    let mut matched: Vec<usize> = Vec::new();
    matched.push(position);
    let total = glyphs.len();
    let mut cursor: usize = position + 1;
    proof {
        assert(as_ints(matched@) =~= seq![position as int]);
    }
    let mut component: u16 = 1;
    while component < components
        invariant
            d == data@,
            g0 == glyphs@,
            total == g0.len(),
            position < g0.len(),
            ligature <= u64::MAX as u128 + 0x2_0000,
            1 <= component <= components,
            cursor <= g0.len(),
            match_components(d, ligature as int, *lookup, *gdef, g0, 1, components as int, position + 1, seq![position as int])
                == match_components(d, ligature as int, *lookup, *gdef, g0, component as int, components as int, cursor as int, as_ints(matched@)),
        decreases components - component,
    {
        proof {
            lemma_next_visible(*lookup, *gdef, g0, cursor as int);
        }
        let at = match find_visible(lookup, gdef, glyphs, cursor) {
            Some(at) => at,
            None => return None,
        };
        let expected = match u16_at_wide(data, ligature + 2 + 2 * component as u128) {
            Some(e) => e,
            None => return None,
        };
        if glyphs[at].glyph != expected {
            return None;
        }
        let ghost before = as_ints(matched@);
        matched.push(at);
        assert(as_ints(matched@) =~= before.push(at as int));
        cursor = at + 1;
        component = component + 1;
    }
    Some(matched)
}

/// Form the ligature `glyph` over the components at `matched`, the first of
/// which is `position`.
fn ligate(glyphs: &mut Vec<SubstitutedGlyph>, position: usize, glyph: u16, matched: &Vec<usize>)
    requires
        increasing_below(as_ints(matched@), old(glyphs)@.len() as int),
        matched@.len() >= 1,
        matched@[0] == position,
    ensures
        final(glyphs)@ == ligated(old(glyphs)@, position as int, glyph, as_ints(matched@)),
{
    let ghost g0 = glyphs@;
    let ghost m = as_ints(matched@);
    proof {
        assert(m[0] == position);
        assert(m.drop_first().take(m.len() - 1) =~= m.drop_first());
        lemma_increasing_gap(m, 0, m.len() - 1);
    }
    let current = glyphs[position];
    let mut left = matched.len();
    while left > 1
        invariant
            g0.len() > position,
            m == as_ints(matched@),
            increasing_below(m, g0.len() as int),
            m.len() >= 1,
            m[0] == position,
            1 <= left <= m.len(),
            without_positions(g0, m.drop_first()) == without_positions(glyphs@, m.drop_first().take(left - 1)),
            glyphs@.len() == g0.len() - (m.len() - left),
        decreases left,
    {
        let at = matched[left - 1];
        proof {
            let ps = m.drop_first().take(left - 1);
            assert(ps.last() == m[left - 1]);
            assert(ps.drop_last() =~= m.drop_first().take(left - 2));
            lemma_increasing_gap(m, left - 1, m.len() - 1);
        }
        glyphs.remove(at);
        left = left - 1;
    }
    proof {
        assert(m.drop_first().take(0) =~= Seq::<int>::empty());
        assert forall|i: int| 0 <= i < m.drop_first().len() implies position < #[trigger] m.drop_first()[i] by {
            assert(m[0] < m[i + 1]);
        }
        assert(increasing_below(m.drop_first(), g0.len() as int));
        lemma_without_positions(g0, m.drop_first(), position as int);
        assert(glyphs@ == without_positions(g0, m.drop_first()));
    }
    glyphs.set(position, SubstitutedGlyph {
        glyph,
        cluster: current.cluster,
        placement: match current.placement {
            Placement::Kept(i) => Placement::AdvanceOf(i),
            other => other,
        },
    });
}

/// Ligature substitution at `position`: several glyphs become one. Returns
/// how many glyphs it consumed: one if a ligature formed, none otherwise.
fn apply_ligature(
    data: &[u8],
    subtable: usize,
    lookup: &Lookup,
    gdef: &Gdef,
    glyphs: &mut Vec<SubstitutedGlyph>,
    position: usize,
) -> (consumed: usize)
    requires
        position < old(glyphs)@.len(),
    ensures
        match ligature_match(data@, subtable as int, *lookup, *gdef, old(glyphs)@, position as int) {
            Some((glyph, matched)) => consumed == 1 && final(glyphs)@ == ligated(old(glyphs)@, position as int, glyph, matched),
            None => consumed == 0 && final(glyphs)@ == old(glyphs)@,
        },
{
    if u16_at_wide(data, subtable as u128) != Some(1u16) {
        return 0;
    }
    let index = match coverage_of(data, subtable, glyphs[position].glyph) {
        Some(i) => i,
        None => return 0,
    };
    let set_count = match u16_at_wide(data, subtable as u128 + 4) {
        Some(c) => c,
        None => return 0,
    };
    if index >= set_count {
        return 0;
    }
    let set_offset = match u16_at_wide(data, subtable as u128 + 6 + 2 * index as u128) {
        Some(o) => o,
        None => return 0,
    };
    let set = subtable as u128 + set_offset as u128;
    let count = match u16_at_wide(data, set) {
        Some(c) => c,
        None => return 0,
    };
    let ghost d = data@;
    let ghost g0 = glyphs@;
    assert(ligature_match(d, subtable as int, *lookup, *gdef, g0, position as int)
        == first_ligature(d, set as int, count as int, 0, *lookup, *gdef, g0, position as int));
    proof {
        lemma_first_ligature(d, set as int, count as int, 0, *lookup, *gdef, g0, position as int);
    }
    let mut k: u16 = 0;
    while k < count
        invariant
            d == data@,
            g0 == glyphs@,
            g0 == old(glyphs)@,
            position < g0.len(),
            set <= u64::MAX as u128 + 0x1_0000,
            k <= count,
            ligature_match(d, subtable as int, *lookup, *gdef, g0, position as int)
                == first_ligature(d, set as int, count as int, k as int, *lookup, *gdef, g0, position as int),
            ligature_match(d, subtable as int, *lookup, *gdef, g0, position as int)
                == first_ligature(d, set as int, count as int, 0, *lookup, *gdef, g0, position as int),
            first_ligature(d, set as int, count as int, 0, *lookup, *gdef, g0, position as int) matches Some((g, mm)) ==> {
                &&& increasing_below(mm, g0.len() as int)
                &&& mm.len() >= 1
                &&& mm[0] == position
            },
        decreases count - k,
    {
        let offset = match u16_at_wide(data, set + 2 + 2 * k as u128) {
            Some(o) => o,
            None => {
                k = k + 1;
                continue;
            },
        };
        let ligature = set + offset as u128;
        let (glyph, components) = match (u16_at_wide(data, ligature), u16_at_wide(data, ligature + 2)) {
            (Some(g), Some(c)) => (g, c),
            _ => {
                k = k + 1;
                continue;
            },
        };
        if components == 0 {
            k = k + 1;
            continue;
        }
        match match_ligature(data, ligature, components, lookup, gdef, glyphs, position) {
            Some(matched) => {
                assert(ligature_match(d, subtable as int, *lookup, *gdef, g0, position as int) == Some((glyph, as_ints(matched@))));
                ligate(glyphs, position, glyph, &matched);
                return 1;
            },
            None => {
                k = k + 1;
            },
        }
    }
    0
}

/// Strictly increasing integers grow by at least one per step.
proof fn lemma_increasing_gap(m: Seq<int>, a: int, b: int)
    requires
        forall|i: int, j: int| 0 <= i < j < m.len() ==> m[i] < m[j],
        0 <= a <= b < m.len(),
    ensures
        m[b] >= m[a] + (b - a),
    decreases b - a,
{
    if a < b {
        lemma_increasing_gap(m, a, b - 1);
        assert(m[b - 1] < m[b]);
    }
}

/// How deep chained lookups may nest: a chained rule that, through other
/// rules, ends up invoking itself stops here rather than recursing forever.
pub const NESTING_LIMIT: usize = 64;

/// Backtrack step `step` of the chained rule at `subtable` matches: the
/// glyph that many places before `position` is covered.
pub open spec fn backtrack_matches(data: Seq<u8>, subtable: int, backtrack_at: int, glyphs: Seq<SubstitutedGlyph>, position: int, step: int) -> bool {
    &&& position - step - 1 >= 0
    &&& match u16_opt(data, backtrack_at + 2 * step) {
        Some(coverage) => coverage_result(data, subtable + coverage, glyphs[position - step - 1].glyph) is Some,
        None => false,
    }
}

/// Input step `step` matches: the glyph at `position + step` is covered.
pub open spec fn input_matches(data: Seq<u8>, subtable: int, input_at: int, glyphs: Seq<SubstitutedGlyph>, position: int, step: int) -> bool {
    match u16_opt(data, input_at + 2 * step) {
        Some(coverage) => coverage_result(data, subtable + coverage, glyphs[position + step].glyph) is Some,
        None => false,
    }
}

/// Lookahead step `step` matches: there is a glyph `step` places after the
/// input, and it is covered.
pub open spec fn lookahead_matches(data: Seq<u8>, subtable: int, lookahead_at: int, glyphs: Seq<SubstitutedGlyph>, after: int, step: int) -> bool {
    &&& after + step < glyphs.len()
    &&& match u16_opt(data, lookahead_at + 2 * step) {
        Some(coverage) => coverage_result(data, subtable + coverage, glyphs[after + step].glyph) is Some,
        None => false,
    }
}

/// A chained-context rule (format 3) at `subtable` matching at `position`:
/// the input length, and where and how many nested lookup records follow.
pub open spec fn chain_match(data: Seq<u8>, subtable: int, glyphs: Seq<SubstitutedGlyph>, position: int) -> Option<(int, int, int)> {
    if u16_opt(data, subtable) != Some(3u16) {
        None
    } else {
        match u16_opt(data, subtable + 2) {
            None => None,
            Some(backtrack) => {
                let backtrack_at = subtable + 4;
                let input_count_at = backtrack_at + 2 * backtrack;
                match u16_opt(data, input_count_at) {
                    None => None,
                    Some(input) => {
                        let input_at = input_count_at + 2;
                        let lookahead_count_at = input_at + 2 * input;
                        match u16_opt(data, lookahead_count_at) {
                            None => None,
                            Some(lookahead) => {
                                let lookahead_at = lookahead_count_at + 2;
                                let record_count_at = lookahead_at + 2 * lookahead;
                                match u16_opt(data, record_count_at) {
                                    None => None,
                                    Some(records) => if input == 0 || position + input > glyphs.len() {
                                        None
                                    } else if (forall|step: int| 0 <= step < backtrack ==> #[trigger] backtrack_matches(data, subtable, backtrack_at, glyphs, position, step))
                                        && (forall|step: int| 0 <= step < input ==> #[trigger] input_matches(data, subtable, input_at, glyphs, position, step))
                                        && (forall|step: int| 0 <= step < lookahead ==> #[trigger] lookahead_matches(data, subtable, lookahead_at, glyphs, position + input, step)) {
                                        Some((input as int, record_count_at + 2, records as int))
                                    } else {
                                        None
                                    },
                                }
                            },
                        }
                    },
                }
            },
        }
    }
}

/// The buffer after lookup `index` runs once at `position`, with nesting
/// allowed `depth` levels deep, and how many glyphs it consumed (none if it
/// did not apply, leaving the buffer as it was).
pub open spec fn apply_at_spec(
    data: Seq<u8>,
    lookups: Seq<Lookup>,
    gdef: Gdef,
    index: int,
    glyphs: Seq<SubstitutedGlyph>,
    position: int,
    depth: nat,
) -> (Seq<SubstitutedGlyph>, int)
    decreases depth, 3int, 0int,
{
    if !(0 <= index < lookups.len()) || !(0 <= position < glyphs.len()) {
        (glyphs, 0)
    } else if lookups[index].skips_spec(glyphs[position].glyph, &gdef) {
        (glyphs, 0)
    } else {
        try_subtables(data, lookups, gdef, index, glyphs, position, depth, 0)
    }
}

/// Try lookup `index`'s subtables from the `i`th on; the first that applies
/// decides.
pub open spec fn try_subtables(
    data: Seq<u8>,
    lookups: Seq<Lookup>,
    gdef: Gdef,
    index: int,
    glyphs: Seq<SubstitutedGlyph>,
    position: int,
    depth: nat,
    i: int,
) -> (Seq<SubstitutedGlyph>, int)
    decreases depth, 2int, lookups[index].subtables@.len() - i,
{
    if !(0 <= index < lookups.len()) || !(0 <= position < glyphs.len()) || i < 0 || i >= lookups[index].subtables@.len() {
        (glyphs, 0)
    } else {
        let lookup = lookups[index];
        let subtable = lookup.subtables@[i] as int;
        let glyph = glyphs[position].glyph;
        let step = if lookup.kind == 1 {
            match single_substitute(data, subtable, glyph) {
                Some(g) => Some((glyphs.update(position, with_glyph(glyphs[position], g)), 1int)),
                None => None,
            }
        } else if lookup.kind == 2 {
            match multiple_sequence(data, subtable, glyph) {
                Some(r) => Some((replaced(glyphs, position, r), if r.len() == 0 { 1int } else { r.len() as int })),
                None => None,
            }
        } else if lookup.kind == 3 {
            match alternate_substitute(data, subtable, glyph) {
                Some(g) => Some((glyphs.update(position, with_glyph(glyphs[position], g)), 1int)),
                None => None,
            }
        } else if lookup.kind == 4 {
            match ligature_match(data, subtable, lookup, gdef, glyphs, position) {
                Some((g, matched)) => Some((ligated(glyphs, position, g, matched), 1int)),
                None => None,
            }
        } else if lookup.kind == 6 {
            chain_spec(data, lookups, gdef, index, subtable, glyphs, position, depth)
        } else {
            None
        };
        match step {
            Some(r) => r,
            None => try_subtables(data, lookups, gdef, index, glyphs, position, depth, i + 1),
        }
    }
}

/// A chained-context rule at `subtable`: when it matches at `position`, its
/// nested lookups run at their positions and it consumes its input.
pub open spec fn chain_spec(
    data: Seq<u8>,
    lookups: Seq<Lookup>,
    gdef: Gdef,
    index: int,
    subtable: int,
    glyphs: Seq<SubstitutedGlyph>,
    position: int,
    depth: nat,
) -> Option<(Seq<SubstitutedGlyph>, int)>
    decreases depth, 1int, 0int,
{
    match chain_match(data, subtable, glyphs, position) {
        None => None,
        Some((input, records_at, records)) => Some((
            chain_records(data, lookups, gdef, index, position, records_at, 0, records, glyphs, depth),
            input,
        )),
    }
}

/// Run nested lookup records `k..count` of a matched chained rule in turn.
/// A record naming its own lookup, a position past the buffer, a lookup
/// that does not exist, or nesting past the limit is passed over.
pub open spec fn chain_records(
    data: Seq<u8>,
    lookups: Seq<Lookup>,
    gdef: Gdef,
    index: int,
    position: int,
    records_at: int,
    k: int,
    count: int,
    glyphs: Seq<SubstitutedGlyph>,
    depth: nat,
) -> Seq<SubstitutedGlyph>
    decreases depth, 0int, count - k,
{
    if k < 0 || k >= count {
        glyphs
    } else {
        let at = records_at + 4 * k;
        let next = match (u16_opt(data, at), u16_opt(data, at + 2)) {
            (Some(sequence_index), Some(nested)) => if nested == index || position + sequence_index >= glyphs.len()
                || nested >= lookups.len() || depth == 0 {
                glyphs
            } else {
                apply_at_spec(data, lookups, gdef, nested as int, glyphs, position + sequence_index, (depth - 1) as nat).0
            },
            _ => glyphs,
        };
        chain_records(data, lookups, gdef, index, position, records_at, k + 1, count, next, depth)
    }
}

/// Match the chained-context rule at `subtable` at `position`.
fn find_chain(data: &[u8], subtable: usize, glyphs: &Vec<SubstitutedGlyph>, position: usize) -> (result: Option<(u16, u128, u16)>)
    requires
        position < glyphs@.len(),
    ensures
        match result {
            Some((input, records_at, records)) => chain_match(data@, subtable as int, glyphs@, position as int)
                == Some((input as int, records_at as int, records as int)),
            None => chain_match(data@, subtable as int, glyphs@, position as int) is None,
        },
{
    let ghost d = data@;
    let ghost g = glyphs@;
    let base = subtable as u128;
    if u16_at_wide(data, base) != Some(3u16) {
        return None;
    }
    let backtrack = match u16_at_wide(data, base + 2) {
        Some(v) => v,
        None => return None,
    };
    let backtrack_at = base + 4;
    let input_count_at = backtrack_at + 2 * backtrack as u128;
    let input = match u16_at_wide(data, input_count_at) {
        Some(v) => v,
        None => return None,
    };
    let input_at = input_count_at + 2;
    let lookahead_count_at = input_at + 2 * input as u128;
    let lookahead = match u16_at_wide(data, lookahead_count_at) {
        Some(v) => v,
        None => return None,
    };
    let lookahead_at = lookahead_count_at + 2;
    let record_count_at = lookahead_at + 2 * lookahead as u128;
    let records = match u16_at_wide(data, record_count_at) {
        Some(v) => v,
        None => return None,
    };
    let total = glyphs.len();
    if input == 0 || position as u128 + input as u128 > total as u128 {
        return None;
    }
    assert(chain_match(d, subtable as int, g, position as int) == (if (forall|t: int| 0 <= t < backtrack ==> #[trigger] backtrack_matches(d, subtable as int, backtrack_at as int, g, position as int, t))
                && (forall|t: int| 0 <= t < input ==> #[trigger] input_matches(d, subtable as int, input_at as int, g, position as int, t))
                && (forall|t: int| 0 <= t < lookahead ==> #[trigger] lookahead_matches(d, subtable as int, lookahead_at as int, g, position + input, t)) {
                Some((input as int, record_count_at + 2, records as int))
            } else {
                None
            }));
    let mut step: u16 = 0;
    while step < backtrack
        invariant
            chain_match(d, subtable as int, g, position as int) == (if (forall|t: int| 0 <= t < backtrack ==> #[trigger] backtrack_matches(d, subtable as int, backtrack_at as int, g, position as int, t))
                && (forall|t: int| 0 <= t < input ==> #[trigger] input_matches(d, subtable as int, input_at as int, g, position as int, t))
                && (forall|t: int| 0 <= t < lookahead ==> #[trigger] lookahead_matches(d, subtable as int, lookahead_at as int, g, position + input, t)) {
                Some((input as int, record_count_at + 2, records as int))
            } else {
                None
            }),
            d == data@,
            g == glyphs@,
            position < g.len(),
            base == subtable as u128,
            backtrack_at <= u64::MAX as u128 + 4,
            step <= backtrack,
            forall|t: int| 0 <= t < step ==> #[trigger] backtrack_matches(d, subtable as int, backtrack_at as int, g, position as int, t),
        decreases backtrack - step,
    {
        if step as usize + 1 > position {
            assert(!backtrack_matches(d, subtable as int, backtrack_at as int, g, position as int, step as int));
            return None;
        }
        let coverage = match u16_at_wide(data, backtrack_at + 2 * step as u128) {
            Some(c) => c,
            None => {
                assert(!backtrack_matches(d, subtable as int, backtrack_at as int, g, position as int, step as int));
                return None;
            },
        };
        if coverage_index_wide(data, base + coverage as u128, glyphs[position - step as usize - 1].glyph).is_none() {
            assert(!backtrack_matches(d, subtable as int, backtrack_at as int, g, position as int, step as int));
            return None;
        }
        step = step + 1;
    }
    let mut step: u16 = 0;
    while step < input
        invariant
            chain_match(d, subtable as int, g, position as int) == (if (forall|t: int| 0 <= t < backtrack ==> #[trigger] backtrack_matches(d, subtable as int, backtrack_at as int, g, position as int, t))
                && (forall|t: int| 0 <= t < input ==> #[trigger] input_matches(d, subtable as int, input_at as int, g, position as int, t))
                && (forall|t: int| 0 <= t < lookahead ==> #[trigger] lookahead_matches(d, subtable as int, lookahead_at as int, g, position + input, t)) {
                Some((input as int, record_count_at + 2, records as int))
            } else {
                None
            }),
            forall|t: int| 0 <= t < backtrack ==> #[trigger] backtrack_matches(d, subtable as int, backtrack_at as int, g, position as int, t),
            total == g.len(),
            d == data@,
            g == glyphs@,
            position + input <= g.len(),
            base == subtable as u128,
            input_at <= u64::MAX as u128 + 0x3_0000,
            step <= input,
            forall|t: int| 0 <= t < step ==> #[trigger] input_matches(d, subtable as int, input_at as int, g, position as int, t),
        decreases input - step,
    {
        let coverage = match u16_at_wide(data, input_at + 2 * step as u128) {
            Some(c) => c,
            None => {
                assert(!input_matches(d, subtable as int, input_at as int, g, position as int, step as int));
                return None;
            },
        };
        if coverage_index_wide(data, base + coverage as u128, glyphs[position + step as usize].glyph).is_none() {
            assert(!input_matches(d, subtable as int, input_at as int, g, position as int, step as int));
            return None;
        }
        step = step + 1;
    }
    let after = position + input as usize;
    let mut step: u16 = 0;
    while step < lookahead
        invariant
            chain_match(d, subtable as int, g, position as int) == (if (forall|t: int| 0 <= t < backtrack ==> #[trigger] backtrack_matches(d, subtable as int, backtrack_at as int, g, position as int, t))
                && (forall|t: int| 0 <= t < input ==> #[trigger] input_matches(d, subtable as int, input_at as int, g, position as int, t))
                && (forall|t: int| 0 <= t < lookahead ==> #[trigger] lookahead_matches(d, subtable as int, lookahead_at as int, g, position + input, t)) {
                Some((input as int, record_count_at + 2, records as int))
            } else {
                None
            }),
            forall|t: int| 0 <= t < backtrack ==> #[trigger] backtrack_matches(d, subtable as int, backtrack_at as int, g, position as int, t),
            forall|t: int| 0 <= t < input ==> #[trigger] input_matches(d, subtable as int, input_at as int, g, position as int, t),
            after == position + input,
            d == data@,
            g == glyphs@,
            after <= g.len(),
            total == g.len(),
            base == subtable as u128,
            lookahead_at <= u64::MAX as u128 + 0x5_0000,
            step <= lookahead,
            forall|t: int| 0 <= t < step ==> #[trigger] lookahead_matches(d, subtable as int, lookahead_at as int, g, after as int, t),
        decreases lookahead - step,
    {
        if after as u128 + step as u128 >= total as u128 {
            assert(!lookahead_matches(d, subtable as int, lookahead_at as int, g, after as int, step as int));
            return None;
        }
        let coverage = match u16_at_wide(data, lookahead_at + 2 * step as u128) {
            Some(c) => c,
            None => {
                assert(!lookahead_matches(d, subtable as int, lookahead_at as int, g, after as int, step as int));
                return None;
            },
        };
        if coverage_index_wide(data, base + coverage as u128, glyphs[after + step as usize].glyph).is_none() {
            assert(!lookahead_matches(d, subtable as int, lookahead_at as int, g, after as int, step as int));
            return None;
        }
        step = step + 1;
    }
    Some((input, record_count_at + 2, records))
}

/// Run lookup `index` once at `position`, nesting at most `depth` levels.
/// Returns how many glyphs it consumed; none means it did not apply.
fn apply_at(
    table: &LayoutTable,
    gdef: &Gdef,
    index: usize,
    glyphs: &mut Vec<SubstitutedGlyph>,
    position: usize,
    depth: usize,
) -> (consumed: usize)
    requires
        index < table.lookup_list().len(),
        position < old(glyphs)@.len(),
    ensures
        (final(glyphs)@, consumed as int)
            == apply_at_spec(table.bytes(), table.lookup_list(), *gdef, index as int, old(glyphs)@, position as int, depth as nat),
    decreases depth, 1int,
{
    let data = table.data();
    let lookups = table.lookups();
    let lookup = &lookups[index];
    if lookup.skips(glyphs[position].glyph, gdef) {
        return 0;
    }
    let ghost start = glyphs@;
    let mut i: usize = 0;
    while i < lookup.subtables.len()
        invariant
            data@ == table.bytes(),
            lookups@ == table.lookup_list(),
            index < lookups@.len(),
            *lookup == lookups@[index as int],
            start == old(glyphs)@,
            glyphs@ == start,
            position < start.len(),
            !lookup.skips_spec(start[position as int].glyph, gdef),
            apply_at_spec(table.bytes(), table.lookup_list(), *gdef, index as int, start, position as int, depth as nat)
                == try_subtables(table.bytes(), table.lookup_list(), *gdef, index as int, start, position as int, depth as nat, i as int),
        decreases lookup.subtables@.len() - i,
    {
        let subtable = lookup.subtables[i];
        let consumed = if lookup.kind == 1 {
            apply_single(data, subtable, glyphs, position)
        } else if lookup.kind == 2 {
            apply_multiple(data, subtable, glyphs, position)
        } else if lookup.kind == 3 {
            apply_alternate(data, subtable, glyphs, position)
        } else if lookup.kind == 4 {
            apply_ligature(data, subtable, lookup, gdef, glyphs, position)
        } else if lookup.kind == 6 {
            apply_chain(table, gdef, index, subtable, glyphs, position, depth)
        } else {
            0
        };
        if consumed > 0 {
            return consumed;
        }
        i = i + 1;
    }
    0
}

/// A chained-context rule at `subtable`: if it matches at `position`, run
/// its nested lookups and consume its input. Returns how many glyphs it
/// consumed; none means it did not match.
fn apply_chain(
    table: &LayoutTable,
    gdef: &Gdef,
    index: usize,
    subtable: usize,
    glyphs: &mut Vec<SubstitutedGlyph>,
    position: usize,
    depth: usize,
) -> (consumed: usize)
    requires
        index < table.lookup_list().len(),
        position < old(glyphs)@.len(),
    ensures
        match chain_spec(table.bytes(), table.lookup_list(), *gdef, index as int, subtable as int, old(glyphs)@, position as int, depth as nat) {
            Some((after, input)) => final(glyphs)@ == after && consumed == input && consumed > 0,
            None => final(glyphs)@ == old(glyphs)@ && consumed == 0,
        },
    decreases depth, 0int,
{
    let data = table.data();
    let count = table.lookups().len();
    let (input, records_at, records) = match find_chain(data, subtable, glyphs, position) {
        Some(found) => found,
        None => return 0,
    };
    let ghost start = glyphs@;
    let mut k: u16 = 0;
    while k < records
        invariant
            data@ == table.bytes(),
            count == table.lookup_list().len(),
            index < count,
            input > 0,
            records_at <= u64::MAX as u128 + 0x8_0000,
            start == old(glyphs)@,
            chain_match(table.bytes(), subtable as int, start, position as int) == Some((input as int, records_at as int, records as int)),
            k <= records,
            chain_records(table.bytes(), table.lookup_list(), *gdef, index as int, position as int, records_at as int, 0, records as int, start, depth as nat)
                == chain_records(table.bytes(), table.lookup_list(), *gdef, index as int, position as int, records_at as int, k as int, records as int, glyphs@, depth as nat),
        decreases records - k,
    {
        let at = records_at + 4 * k as u128;
        match (u16_at_wide(data, at), u16_at_wide(data, at + 2)) {
            (Some(sequence_index), Some(nested)) => {
                let total = glyphs.len();
                if nested as usize != index && (position as u128 + (sequence_index as u128)) < total as u128
                    && (nested as usize) < count && depth > 0 {
                    apply_at(table, gdef, nested as usize, glyphs, position + sequence_index as usize, depth - 1);
                }
            },
            _ => {},
        }
        k = k + 1;
    }
    input as usize
}

/// How many positions one pass of a lookup visits at most over a buffer of
/// `len` glyphs. A pass moves on by at least one glyph each time, so only a
/// font whose chained rules keep growing the buffer ahead of the pass ever
/// reaches it.
pub open spec fn pass_budget(len: int) -> int {
    64 * len + 4096
}

/// The buffer after one pass of lookup `index` from `position` on, with
/// `steps` positions left to visit: at each position the lookup runs once
/// and the pass moves past what it consumed (at least one glyph), so a
/// lookup never re-matches its own output.
pub open spec fn lookup_pass(
    data: Seq<u8>,
    lookups: Seq<Lookup>,
    gdef: Gdef,
    index: int,
    glyphs: Seq<SubstitutedGlyph>,
    position: int,
    steps: nat,
) -> Seq<SubstitutedGlyph>
    decreases steps,
{
    if steps == 0 || position >= glyphs.len() {
        glyphs
    } else {
        let (next, consumed) = apply_at_spec(data, lookups, gdef, index, glyphs, position, NESTING_LIMIT as nat);
        lookup_pass(data, lookups, gdef, index, next, position + if consumed > 1 { consumed } else { 1 }, (steps - 1) as nat)
    }
}

/// The buffer after lookup `index` runs over all of it (nothing, for a
/// lookup the table does not have).
pub open spec fn substituted_by(data: Seq<u8>, lookups: Seq<Lookup>, gdef: Gdef, index: int, glyphs: Seq<SubstitutedGlyph>) -> Seq<SubstitutedGlyph> {
    if index >= lookups.len() {
        glyphs
    } else {
        lookup_pass(data, lookups, gdef, index, glyphs, 0, pass_budget(glyphs.len() as int) as nat)
    }
}

/// The buffer after the first `count` of `indices` run over it in turn.
pub open spec fn substituted_all(
    data: Seq<u8>,
    lookups: Seq<Lookup>,
    gdef: Gdef,
    indices: Seq<u16>,
    glyphs: Seq<SubstitutedGlyph>,
    count: int,
) -> Seq<SubstitutedGlyph>
    decreases count,
{
    if count <= 0 {
        glyphs
    } else {
        substituted_by(data, lookups, gdef, indices[count - 1] as int, substituted_all(data, lookups, gdef, indices, glyphs, count - 1))
    }
}

/// Run lookup `index` over the whole buffer.
fn apply_lookup(table: &LayoutTable, gdef: &Gdef, index: usize, glyphs: &mut Vec<SubstitutedGlyph>)
    ensures
        final(glyphs)@ == substituted_by(table.bytes(), table.lookup_list(), *gdef, index as int, old(glyphs)@),
{
    if index >= table.lookups().len() {
        return;
    }
    let mut steps: u128 = 64 * glyphs.len() as u128 + 4096;
    let mut position: usize = 0;
    while steps > 0 && position < glyphs.len()
        invariant
            index < table.lookup_list().len(),
            substituted_by(table.bytes(), table.lookup_list(), *gdef, index as int, old(glyphs)@)
                == lookup_pass(table.bytes(), table.lookup_list(), *gdef, index as int, glyphs@, position as int, steps as nat),
        decreases steps,
    {
        let ghost before = glyphs@;
        let ghost pos0 = position as int;
        let ghost steps0 = steps as nat;
        let consumed = apply_at(table, gdef, index, glyphs, position, NESTING_LIMIT);
        let advance: usize = if consumed > 1 { consumed } else { 1 };
        let next = position as u128 + advance as u128;
        steps = steps - 1;
        proof {
            assert(lookup_pass(table.bytes(), table.lookup_list(), *gdef, index as int, before, pos0, steps0)
                == lookup_pass(table.bytes(), table.lookup_list(), *gdef, index as int, glyphs@, next as int, steps as nat));
        }
        let total = glyphs.len();
        if next >= total as u128 {
            position = total;
            proof {
                assert(lookup_pass(table.bytes(), table.lookup_list(), *gdef, index as int, glyphs@, next as int, steps as nat) == glyphs@);
                assert(lookup_pass(table.bytes(), table.lookup_list(), *gdef, index as int, glyphs@, total as int, steps as nat) == glyphs@);
            }
        } else {
            position = next as usize;
        }
    }
}

/// Apply substitution lookups to the buffer, each over all of it, in the
/// order given.
pub fn apply_substitutions(table: &LayoutTable, gdef: &Gdef, lookup_indices: &[u16], glyphs: &mut Vec<SubstitutedGlyph>)
    ensures
        final(glyphs)@ == substituted_all(table.bytes(), table.lookup_list(), *gdef, lookup_indices@, old(glyphs)@, lookup_indices@.len() as int),
{
    let mut k: usize = 0;
    while k < lookup_indices.len()
        invariant
            k <= lookup_indices@.len(),
            glyphs@ == substituted_all(table.bytes(), table.lookup_list(), *gdef, lookup_indices@, old(glyphs)@, k as int),
        decreases lookup_indices@.len() - k,
    {
        apply_lookup(table, gdef, lookup_indices[k] as usize, glyphs);
        k = k + 1;
    }
}

/// A decomposed character stays one unit: every glyph multiple substitution
/// puts in place of one keeps that glyph's cluster, takes no space of its
/// own, and the glyphs around it are untouched.
pub proof fn lemma_decomposition_keeps_cluster(glyphs: Seq<SubstitutedGlyph>, position: int, replacements: Seq<u16>)
    requires
        0 <= position < glyphs.len(),
        replacements.len() > 0,
    ensures
        replaced(glyphs, position, replacements).len() == glyphs.len() - 1 + replacements.len(),
        forall|k: int| position <= k < position + replacements.len() ==> {
            &&& (#[trigger] replaced(glyphs, position, replacements)[k]).cluster == glyphs[position].cluster
            &&& replaced(glyphs, position, replacements)[k].placement == Placement::Zero
            &&& replaced(glyphs, position, replacements)[k].glyph == replacements[k - position]
        },
        forall|k: int| 0 <= k < position ==> #[trigger] replaced(glyphs, position, replacements)[k] == glyphs[k],
        forall|k: int| position < k < glyphs.len() ==> #[trigger] replaced(glyphs, position, replacements)[k - 1 + replacements.len()] == glyphs[k],
{
}

/// A ligature keeps the cluster and the advance of its first component.
pub proof fn lemma_ligature_keeps_first_cluster(glyphs: Seq<SubstitutedGlyph>, position: int, glyph: u16, matched: Seq<int>)
    requires
        0 <= position < glyphs.len(),
        increasing_below(matched, glyphs.len() as int),
        matched.len() >= 1,
        matched[0] == position,
    ensures
        ligated(glyphs, position, glyph, matched).len() == glyphs.len() - (matched.len() - 1),
        ligated(glyphs, position, glyph, matched)[position].glyph == glyph,
        ligated(glyphs, position, glyph, matched)[position].cluster == glyphs[position].cluster,
        ligated(glyphs, position, glyph, matched)[position].placement == advance_only(glyphs[position].placement),
        forall|k: int| 0 <= k < position ==> #[trigger] ligated(glyphs, position, glyph, matched)[k] == glyphs[k],
{
    assert forall|i: int| 0 <= i < matched.drop_first().len() implies position < #[trigger] matched.drop_first()[i] by {
        assert(matched[0] < matched[i + 1]);
    }
    assert forall|i: int| 0 <= i < matched.drop_first().len() implies 0 <= #[trigger] matched.drop_first()[i] < glyphs.len() by {
        assert(matched[i + 1] < glyphs.len());
    }
    lemma_without_positions(glyphs, matched.drop_first(), position);
    lemma_increasing_gap(matched, 0, matched.len() - 1);
}

/// A format-2 single substitution replaces a covered glyph with the entry of
/// its substitute array at the glyph's coverage index: the big-endian word
/// six bytes past the subtable's start (after format, coverage offset and
/// glyph count) plus two bytes per index.
pub proof fn lemma_single_format2_reads_array(data: Seq<u8>, subtable: int, glyph: u16, index: u16)
    requires
        fits(data, subtable, 6),
        data[subtable] == 0,
        data[subtable + 1] == 2,
        subtable_coverage(data, subtable, glyph) == Some(index),
        index < data[subtable + 4] * 256 + data[subtable + 5],
        fits(data, subtable + 6 + 2 * index, 2),
    ensures
        single_substitute(data, subtable, glyph)
            == Some((data[subtable + 6 + 2 * index] * 256 + data[subtable + 6 + 2 * index + 1]) as u16),
{
    assert(u16_be(data, subtable) == 2);
    assert(u16_be(data, subtable + 4) == data[subtable + 4] * 256 + data[subtable + 5]);
}

/// A format-1 single substitution adds its delta (the word four bytes into
/// the subtable) to a covered glyph, wrapping modulo 2^16.
pub proof fn lemma_single_format1_adds_delta(data: Seq<u8>, subtable: int, glyph: u16, index: u16)
    requires
        fits(data, subtable, 6),
        data[subtable] == 0,
        data[subtable + 1] == 1,
        subtable_coverage(data, subtable, glyph) == Some(index),
    ensures
        single_substitute(data, subtable, glyph)
            == Some(((glyph + data[subtable + 4] * 256 + data[subtable + 5]) % 0x1_0000) as u16),
{
    assert(u16_be(data, subtable) == 1);
    assert(u16_be(data, subtable + 4) == data[subtable + 4] * 256 + data[subtable + 5]);
}

/// A glyph the subtable's coverage does not list is not substituted.
pub proof fn lemma_single_uncovered(data: Seq<u8>, subtable: int, glyph: u16)
    requires
        subtable_coverage(data, subtable, glyph) is None,
    ensures
        single_substitute(data, subtable, glyph) is None,
{
}

} // verus!
