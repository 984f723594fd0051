//! The parts of the OpenType layout tables (GSUB, GPOS, GDEF) that decide
//! which lookups run and which glyphs they see: coverage and class tables,
//! GDEF glyph classes and mark sets, lookup lists and feature lists.

use vstd::prelude::*;
use crate::text::sfnt::{fits, u16_at_wide, u16_be, u16_opt, u32_at_wide, u32_be, Reader};

verus! {

/// Glyph classes from GDEF, with the specification's values.
pub const CLASS_BASE: u16 = 1;
/// A ligature glyph.
pub const CLASS_LIGATURE: u16 = 2;
/// A combining mark.
pub const CLASS_MARK: u16 = 3;
/// A component of a ligature.
pub const CLASS_COMPONENT: u16 = 4;

/// Lookup flag: skip base glyphs.
pub const IGNORE_BASE_GLYPHS: u16 = 0x0002;
/// Lookup flag: skip ligatures.
pub const IGNORE_LIGATURES: u16 = 0x0004;
/// Lookup flag: skip marks.
pub const IGNORE_MARKS: u16 = 0x0008;
/// Lookup flag: a mark filtering set follows the subtable offsets.
pub const USE_MARK_FILTERING_SET: u16 = 0x0010;

/// Index `i` of a format-1 coverage table's glyph list, searched from `i` on.
pub open spec fn coverage1_find(data: Seq<u8>, offset: int, glyph: u16, count: int, i: int) -> Option<u16>
    decreases count - i,
{
    if i >= count {
        None
    } else if u16_opt(data, offset + 4 + 2 * i) == Some(glyph) {
        Some(i as u16)
    } else {
        coverage1_find(data, offset, glyph, count, i + 1)
    }
}

/// The first format-2 range record, from `i` on, that holds `glyph`: its
/// starting coverage index plus the glyph's distance into the range (modulo
/// 2^16). A record cut short is passed over.
pub open spec fn coverage2_find(data: Seq<u8>, offset: int, glyph: u16, count: int, i: int) -> Option<u16>
    decreases count - i,
{
    if i >= count {
        None
    } else {
        let record = offset + 4 + 6 * i;
        if fits(data, record, 6) && u16_be(data, record) <= glyph <= u16_be(data, record + 2) {
            Some(((u16_be(data, record + 4) + (glyph - u16_be(data, record))) % 0x1_0000) as u16)
        } else {
            coverage2_find(data, offset, glyph, count, i + 1)
        }
    }
}

/// Position of `glyph` in the coverage table at `offset`, or `None` if the
/// table does not list it or is not format 1 or 2.
pub open spec fn coverage_result(data: Seq<u8>, offset: int, glyph: u16) -> Option<u16> {
    match (u16_opt(data, offset), u16_opt(data, offset + 2)) {
        (Some(1), Some(count)) => coverage1_find(data, offset, glyph, count as int, 0),
        (Some(2), Some(count)) => coverage2_find(data, offset, glyph, count as int, 0),
        _ => None,
    }
}

/// Position of a glyph within a coverage table, or `None` if absent.
pub fn coverage_index(data: &[u8], offset: usize, glyph: u16) -> (result: Option<u16>)
    ensures
        result == coverage_result(data@, offset as int, glyph),
{
    coverage_index_wide(data, offset as u128, glyph)
}

pub(crate) fn coverage_index_wide(data: &[u8], offset: u128, glyph: u16) -> (result: Option<u16>)
    requires
        offset <= u64::MAX as u128 * 2,
    ensures
        result == coverage_result(data@, offset as int, glyph),
{
    let format = match u16_at_wide(data, offset) {
        Some(f) => f,
        None => return None,
    };
    let count = match u16_at_wide(data, offset + 2) {
        Some(c) => c,
        None => return None,
    };
    if format == 1 {
        let mut i: u16 = 0;
        while i < count
            invariant
                offset <= u64::MAX as u128 * 2,
                format == 1,
                u16_opt(data@, offset as int) == Some(format),
                u16_opt(data@, offset + 2) == Some(count),
                i <= count,
                coverage_result(data@, offset as int, glyph) == coverage1_find(data@, offset as int, glyph, count as int, i as int),
            decreases count - i,
        {
            if u16_at_wide(data, offset + 4 + 2 * i as u128) == Some(glyph) {
                return Some(i);
            }
            i = i + 1;
        }
        None
    } else if format == 2 {
        let mut i: u16 = 0;
        while i < count
            invariant
                offset <= u64::MAX as u128 * 2,
                format == 2,
                u16_opt(data@, offset as int) == Some(format),
                u16_opt(data@, offset + 2) == Some(count),
                i <= count,
                coverage_result(data@, offset as int, glyph) == coverage2_find(data@, offset as int, glyph, count as int, i as int),
            decreases count - i,
        {
            let record = offset + 4 + 6 * i as u128;
            match (u16_at_wide(data, record), u16_at_wide(data, record + 2), u16_at_wide(data, record + 4)) {
                (Some(start), Some(end), Some(first)) => {
                    if start <= glyph && glyph <= end {
                        return Some(first.wrapping_add(glyph - start));
                    }
                },
                _ => {},
            }
            i = i + 1;
        }
        None
    } else {
        None
    }
}

/// The class a format-2 class table gives `glyph`, searching its range
/// records from `i` on; 0 if none holds it, or as soon as a record is cut
/// short.
pub open spec fn class2_find(data: Seq<u8>, offset: int, glyph: u16, count: int, i: int) -> u16
    decreases count - i,
{
    if i >= count {
        0
    } else {
        let record = offset + 4 + 6 * i;
        if !fits(data, record, 6) {
            0
        } else if u16_be(data, record) <= glyph <= u16_be(data, record + 2) {
            u16_be(data, record + 4)
        } else {
            class2_find(data, offset, glyph, count, i + 1)
        }
    }
}

/// Class of `glyph` in the class-definition table at `offset`: format 1 is
/// an array from a start glyph, format 2 a list of ranges. Unlisted glyphs,
/// and anything unreadable, are class 0.
pub open spec fn class_result(data: Seq<u8>, offset: int, glyph: u16) -> u16 {
    match u16_opt(data, offset) {
        Some(1) => match (u16_opt(data, offset + 2), u16_opt(data, offset + 4)) {
            (Some(start), Some(count)) => if glyph < start || glyph >= start + count {
                0
            } else {
                match u16_opt(data, offset + 6 + 2 * (glyph - start)) {
                    Some(c) => c,
                    None => 0,
                }
            },
            _ => 0,
        },
        Some(2) => match u16_opt(data, offset + 2) {
            Some(count) => class2_find(data, offset, glyph, count as int, 0),
            None => 0,
        },
        _ => 0,
    }
}

/// Class of a glyph in a class-definition table. Unlisted glyphs are class 0.
pub fn class_of(data: &[u8], offset: usize, glyph: u16) -> (result: u16)
    ensures
        result == class_result(data@, offset as int, glyph),
{
    class_of_wide(data, offset as u128, glyph)
}

/// The class of a glyph in the class definition table at an offset
/// computed in wide arithmetic.
pub(crate) fn class_of_wide(data: &[u8], base: u128, glyph: u16) -> (result: u16)
    requires
        base <= u64::MAX as u128 * 2,
    ensures
        result == class_result(data@, base as int, glyph),
{
    match u16_at_wide(data, base) {
        Some(1) => {
            let start = match u16_at_wide(data, base + 2) {
                Some(v) => v,
                None => return 0,
            };
            let count = match u16_at_wide(data, base + 4) {
                Some(v) => v,
                None => return 0,
            };
            if glyph < start || glyph as u32 >= start as u32 + count as u32 {
                return 0;
            }
            match u16_at_wide(data, base + 6 + 2 * (glyph - start) as u128) {
                Some(c) => c,
                None => 0,
            }
        },
        Some(2) => {
            let count = match u16_at_wide(data, base + 2) {
                Some(v) => v,
                None => return 0,
            };
            let mut i: u16 = 0;
            while i < count
                invariant
                    base <= u64::MAX as u128 * 2,
                    u16_opt(data@, base as int) == Some(2u16),
                    u16_opt(data@, base + 2) == Some(count),
                    i <= count,
                    class_result(data@, base as int, glyph) == class2_find(data@, base as int, glyph, count as int, i as int),
                decreases count - i,
            {
                let record = base + 4 + 6 * i as u128;
                match (u16_at_wide(data, record), u16_at_wide(data, record + 2), u16_at_wide(data, record + 4)) {
                    (Some(start), Some(end), Some(class)) => {
                        if start <= glyph && glyph <= end {
                            return class;
                        }
                    },
                    _ => return 0,
                }
                i = i + 1;
            }
            0
        },
        _ => 0,
    }
}

/// How many bytes a value record of this format occupies: two per format
/// bit set.
pub open spec fn value_record_size_spec(format: u16) -> int
    decreases 16int,
{
    ones(format as int, 16) * 2
}

/// The number of one bits among the low `bits` bits of `v`.
pub open spec fn ones(v: int, bits: nat) -> int
    decreases bits,
{
    if bits == 0 { 0 } else { ones(v / 2, (bits - 1) as nat) + v % 2 }
}

/// How many bytes a value record of this format occupies.
pub fn value_record_size(format: u16) -> (result: usize)
    ensures
        result == value_record_size_spec(format),
{
    let mut count: usize = 0;
    let mut v: u16 = format;
    let mut bit: u32 = 0;
    while bit < 16
        invariant
            bit <= 16,
            count <= bit,
            count + ones(v as int, (16 - bit) as nat) == ones(format as int, 16),
        decreases 16 - bit,
    {
        proof {
            reveal_with_fuel(ones, 2);
        }
        if v % 2 == 1 {
            count = count + 1;
        }
        v = v / 2;
        bit = bit + 1;
    }
    proof {
        reveal_with_fuel(ones, 1);
    }
    count * 2
}

/// Which glyphs are bases and which are marks, and which mark sets exist.
#[derive(Debug, Clone)]
pub struct Gdef<'a> {
    data: &'a [u8],
    glyph_class_def: Option<usize>,
    mark_glyph_sets: Option<usize>,
}

/// What [`Gdef::parse`] reads: the glyph class table's offset (absent when
/// 0) and, from version 1.2 on, the mark glyph sets' offset (absent when 0);
/// `None` if the header is cut short.
pub open spec fn gdef_result(data: Seq<u8>) -> Option<(Option<usize>, Option<usize>)> {
    if !fits(data, 0, 12) {
        None
    } else {
        let version = u32_be(data, 0);
        let class_def = u16_be(data, 4);
        let class_def_at: Option<usize> = if class_def != 0 { Some(class_def as usize) } else { None };
        if version >= 0x0001_0002 {
            if !fits(data, 12, 2) {
                None
            } else {
                let sets = u16_be(data, 12);
                Some((class_def_at, if sets == 0 { None } else { Some(sets as usize) }))
            }
        } else {
            Some((class_def_at, None))
        }
    }
}

/// Whether mark set `set` of the mark glyph sets table at `sets` admits
/// `glyph`. Anything missing or out of range admits every glyph.
pub open spec fn mark_set_result(data: Seq<u8>, sets: Option<usize>, set: u16, glyph: u16) -> bool {
    match sets {
        None => true,
        Some(sets) => match u16_opt(data, sets + 2) {
            None => true,
            Some(count) => if set >= count {
                true
            } else {
                let slot = sets + 4 + set * 4;
                if !fits(data, slot, 4) {
                    true
                } else {
                    coverage_result(data, sets + u32_be(data, slot), glyph) is Some
                }
            },
        },
    }
}

impl<'a> Gdef<'a> {
    /// The table's bytes.
    pub closed spec fn bytes(&self) -> Seq<u8> {
        self.data@
    }

    /// Where the glyph class table is, if there is one.
    pub closed spec fn class_def_at(&self) -> Option<usize> {
        self.glyph_class_def
    }

    /// Where the mark glyph sets are, if there are any.
    pub closed spec fn mark_sets_at(&self) -> Option<usize> {
        self.mark_glyph_sets
    }

    /// Read a GDEF header.
    pub fn parse(data: &'a [u8]) -> (result: Option<Gdef<'a>>)
        ensures
            match gdef_result(data@) {
                Some((c, m)) => result matches Some(g) && g.bytes() == data@ && g.class_def_at() == c && g.mark_sets_at() == m,
                None => result is None,
            },
    {
        let mut reader = Reader::new(data);
        let version = match reader.u32() {
            Some(v) => v,
            None => return None,
        };
        let glyph_class_def = match reader.u16() {
            Some(v) => v as usize,
            None => return None,
        };
        let _attach_list = match reader.u16() {
            Some(v) => v,
            None => return None,
        };
        let _lig_caret_list = match reader.u16() {
            Some(v) => v,
            None => return None,
        };
        let _mark_attach_class_def = match reader.u16() {
            Some(v) => v,
            None => return None,
        };
        let mark_glyph_sets = if version >= 0x0001_0002 {
            match reader.u16() {
                Some(0) => None,
                Some(offset) => Some(offset as usize),
                None => return None,
            }
        } else {
            None
        };
        Some(Gdef {
            data,
            glyph_class_def: if glyph_class_def != 0 { Some(glyph_class_def) } else { None },
            mark_glyph_sets,
        })
    }

    /// A GDEF for a face that has none: every glyph is then class 0, a base
    /// as far as attachment is concerned.
    pub fn empty() -> (result: Gdef<'static>)
        ensures
            result.bytes().len() == 0,
            result.class_def_at() is None,
            result.mark_sets_at() is None,
    {
        Gdef { data: &[], glyph_class_def: None, mark_glyph_sets: None }
    }

    /// The class of a glyph (0 without a class table).
    pub open spec fn class_spec(&self, glyph: u16) -> u16 {
        match self.class_def_at() {
            Some(offset) => class_result(self.bytes(), offset as int, glyph),
            None => 0,
        }
    }

    /// The GDEF class of a glyph.
    pub fn class_of(&self, glyph: u16) -> (result: u16)
        ensures
            result == self.class_spec(glyph),
    {
        match self.glyph_class_def {
            Some(offset) => class_of(self.data, offset, glyph),
            None => 0,
        }
    }

    /// Whether a glyph is a combining mark.
    pub fn is_mark(&self, glyph: u16) -> (result: bool)
        ensures
            result == (self.class_spec(glyph) == CLASS_MARK),
    {
        self.class_of(glyph) == CLASS_MARK
    }

    /// Whether a glyph belongs to a numbered mark filtering set.
    pub fn in_mark_set(&self, set: u16, glyph: u16) -> (result: bool)
        ensures
            result == mark_set_result(self.bytes(), self.mark_sets_at(), set, glyph),
    {
        let sets = match self.mark_glyph_sets {
            Some(s) => s,
            None => return true,
        };
        let count = match u16_at_wide(self.data, sets as u128 + 2) {
            Some(c) => c,
            None => return true,
        };
        if set >= count {
            return true;
        }
        let slot = sets as u128 + 4 + set as u128 * 4;
        let offset = match u32_at_wide(self.data, slot) {
            Some(o) => o,
            None => return true,
        };
        coverage_index_wide(self.data, sets as u128 + offset as u128, glyph).is_some()
    }
}

/// One lookup of a GSUB or GPOS lookup list.
#[derive(Debug, Clone)]
pub struct Lookup {
    pub kind: u16,
    pub flag: u16,
    /// Present when the flag sets `USE_MARK_FILTERING_SET`.
    pub mark_filtering_set: Option<u16>,
    /// Absolute offsets into the table's bytes.
    pub subtables: Vec<usize>,
}

impl Lookup {
    /// Whether a glyph of class `class` is invisible to this lookup.
    pub open spec fn skips_spec(&self, glyph: u16, gdef: &Gdef<'_>) -> bool {
        let class = gdef.class_spec(glyph);
        ||| (self.flag & IGNORE_MARKS != 0 && class == CLASS_MARK)
        ||| (self.flag & IGNORE_BASE_GLYPHS != 0 && class == CLASS_BASE)
        ||| (self.flag & IGNORE_LIGATURES != 0 && class == CLASS_LIGATURE)
        ||| (self.mark_filtering_set matches Some(set) && class == CLASS_MARK
            && !mark_set_result(gdef.bytes(), gdef.mark_sets_at(), set, glyph))
    }

    /// Whether a glyph is invisible to this lookup: its class is one the
    /// flag ignores, or it is a mark outside the lookup's filtering set.
    pub fn skips(&self, glyph: u16, gdef: &Gdef<'_>) -> (result: bool)
        ensures
            result == self.skips_spec(glyph, gdef),
    {
        let class = gdef.class_of(glyph);
        if self.flag & IGNORE_MARKS != 0 && class == CLASS_MARK {
            return true;
        }
        if self.flag & IGNORE_BASE_GLYPHS != 0 && class == CLASS_BASE {
            return true;
        }
        if self.flag & IGNORE_LIGATURES != 0 && class == CLASS_LIGATURE {
            return true;
        }
        if let Some(set) = self.mark_filtering_set {
            if class == CLASS_MARK && !gdef.in_mark_set(set, glyph) {
                return true;
            }
        }
        false
    }
}

/// Where feature record `i` of the feature list at `fl` starts.
pub open spec fn feature_record(fl: int, i: int) -> int {
    fl + 2 + 6 * i
}

/// Where the feature table of record `i` starts.
pub open spec fn feature_at(data: Seq<u8>, fl: int, i: int) -> int {
    fl + u16_be(data, feature_record(fl, i) + 4)
}

/// Feature record `i` and its lookup index list can be read.
pub open spec fn feature_readable(data: Seq<u8>, fl: int, i: int) -> bool {
    &&& fits(data, feature_record(fl, i), 6)
    &&& fits(data, feature_at(data, fl, i) + 2, 2)
    &&& (u16_be(data, feature_at(data, fl, i) + 2) == 0
        || fits(data, feature_at(data, fl, i) + 4, 2 * u16_be(data, feature_at(data, fl, i) + 2)))
}

/// Where lookup `j` of the lookup list at `ll` starts.
pub open spec fn lookup_at(data: Seq<u8>, ll: int, j: int) -> int {
    ll + u16_be(data, ll + 2 + 2 * j)
}

/// Lookup `j`'s offset, header and subtable offsets can be read.
pub open spec fn lookup_readable(data: Seq<u8>, ll: int, j: int) -> bool {
    &&& fits(data, ll + 2 + 2 * j, 2)
    &&& fits(data, lookup_at(data, ll, j), 6)
    &&& (u16_be(data, lookup_at(data, ll, j) + 4) == 0
        || fits(data, lookup_at(data, ll, j) + 6, 2 * u16_be(data, lookup_at(data, ll, j) + 4)))
}

/// A GSUB or GPOS table whose header, feature list and lookup list can all
/// be read.
pub open spec fn layout_readable(data: Seq<u8>) -> bool {
    let fl = u16_be(data, 6) as int;
    let ll = u16_be(data, 8) as int;
    &&& fits(data, 0, 10)
    &&& fits(data, fl, 2)
    &&& forall|i: int| 0 <= i < u16_be(data, fl) ==> #[trigger] feature_readable(data, fl, i)
    &&& fits(data, ll, 2)
    &&& forall|j: int| 0 <= j < u16_be(data, ll) ==> #[trigger] lookup_readable(data, ll, j)
}

/// The lookup indices feature `i` lists.
pub open spec fn feature_indices(data: Seq<u8>, fl: int, i: int) -> Seq<u16> {
    let f = feature_at(data, fl, i);
    Seq::new(u16_be(data, f + 2) as nat, |k: int| u16_be(data, f + 4 + 2 * k))
}

/// The subtable offsets (absolute) lookup `j` lists.
pub open spec fn lookup_subtables(data: Seq<u8>, ll: int, j: int) -> Seq<usize> {
    let l = lookup_at(data, ll, j);
    Seq::new(u16_be(data, l + 4) as nat, |s: int| (l + u16_be(data, l + 6 + 2 * s)) as usize)
}

/// The mark filtering set of lookup `j`, present when its flag says so and
/// the table holds it.
pub open spec fn lookup_mark_set(data: Seq<u8>, ll: int, j: int) -> Option<u16> {
    let l = lookup_at(data, ll, j);
    if u16_be(data, l + 2) & USE_MARK_FILTERING_SET != 0 {
        u16_opt(data, l + 6 + 2 * u16_be(data, l + 4))
    } else {
        None
    }
}

/// A parsed GSUB or GPOS table: its lookups, and which lookups each feature
/// uses.
#[derive(Debug, Clone)]
pub struct LayoutTable<'a> {
    data: &'a [u8],
    lookups: Vec<Lookup>,
    features: Vec<([u8; 4], Vec<u16>)>,
}

fn read_indices(data: &[u8], feature: usize, count: u16) -> (result: Option<Vec<u16>>)
    requires
        feature + 4 + 2 * count <= usize::MAX,
    ensures
        result is Some <==> (count == 0 || fits(data@, feature + 4, 2 * count)),
        result matches Some(v) ==> v@ == Seq::new(count as nat, |k: int| u16_be(data@, feature + 4 + 2 * k)),
{
    let reader = Reader::new(data);
    let mut indices: Vec<u16> = Vec::new();
    let mut k: u16 = 0;
    while k < count
        invariant
            reader.bytes() == data@,
            feature + 4 + 2 * count <= usize::MAX,
            k <= count,
            k == 0 || fits(data@, feature + 4, 2 * k),
            indices@ == Seq::new(k as nat, |m: int| u16_be(data@, feature + 4 + 2 * m)),
        decreases count - k,
    {
        let index = match reader.u16_at(feature + 4 + 2 * k as usize) {
            Some(v) => v,
            None => return None,
        };
        indices.push(index);
        k = k + 1;
        assert(indices@ =~= Seq::new(k as nat, |m: int| u16_be(data@, feature + 4 + 2 * m)));
    }
    Some(indices)
}

fn read_subtables(data: &[u8], lookup: usize, count: u16) -> (result: Option<Vec<usize>>)
    requires
        lookup + 6 + 2 * count + 0x1_0000 <= usize::MAX,
    ensures
        result is Some <==> (count == 0 || fits(data@, lookup + 6, 2 * count)),
        result matches Some(v) ==> v@ == Seq::new(count as nat, |s: int| (lookup + u16_be(data@, lookup + 6 + 2 * s)) as usize),
{
    let reader = Reader::new(data);
    let mut subtables: Vec<usize> = Vec::new();
    let mut k: u16 = 0;
    while k < count
        invariant
            reader.bytes() == data@,
            lookup + 6 + 2 * count + 0x1_0000 <= usize::MAX,
            k <= count,
            k == 0 || fits(data@, lookup + 6, 2 * k),
            subtables@ == Seq::new(k as nat, |s: int| (lookup + u16_be(data@, lookup + 6 + 2 * s)) as usize),
        decreases count - k,
    {
        let offset = match reader.u16_at(lookup + 6 + 2 * k as usize) {
            Some(v) => v,
            None => return None,
        };
        subtables.push(lookup + offset as usize);
        k = k + 1;
        assert(subtables@ =~= Seq::new(k as nat, |s: int| (lookup + u16_be(data@, lookup + 6 + 2 * s)) as usize));
    }
    Some(subtables)
}

impl<'a> LayoutTable<'a> {
    /// The table's bytes.
    pub closed spec fn bytes(&self) -> Seq<u8> {
        self.data@
    }

    /// The lookups, in list order.
    pub closed spec fn lookup_list(&self) -> Seq<Lookup> {
        self.lookups@
    }

    /// The features: each one's tag and the lookup indices it lists.
    pub closed spec fn feature_list(&self) -> Seq<(Seq<u8>, Seq<u16>)> {
        self.features@.map_values(|f: ([u8; 4], Vec<u16>)| (f.0@, f.1@))
    }

    /// Read the feature list and the lookup list of a GSUB or GPOS table.
    /// `None` if any part of either is cut short.
    pub fn parse(data: &'a [u8]) -> (result: Option<LayoutTable<'a>>)
        ensures
            result is Some <==> layout_readable(data@),
            result matches Some(t) ==> {
                let fl = u16_be(data@, 6) as int;
                let ll = u16_be(data@, 8) as int;
                &&& t.bytes() == data@
                &&& t.feature_list().len() == u16_be(data@, fl)
                &&& forall|i: int| 0 <= i < t.feature_list().len() ==> #[trigger] t.feature_list()[i]
                    == (data@.subrange(feature_record(fl, i), feature_record(fl, i) + 4), feature_indices(data@, fl, i))
                &&& t.lookup_list().len() == u16_be(data@, ll)
                &&& forall|j: int| 0 <= j < t.lookup_list().len() ==> {
                    let l = lookup_at(data@, ll, j);
                    &&& (#[trigger] t.lookup_list()[j]).kind == u16_be(data@, l)
                    &&& t.lookup_list()[j].flag == u16_be(data@, l + 2)
                    &&& t.lookup_list()[j].subtables@ == lookup_subtables(data@, ll, j)
                    &&& t.lookup_list()[j].mark_filtering_set == lookup_mark_set(data@, ll, j)
                }
            },
    {
        let reader = Reader::new(data);
        let _version = match reader.u16_at(0) {
            Some(v) => v,
            None => return None,
        };
        let feature_list = match reader.u16_at(6) {
            Some(v) => v as usize,
            None => return None,
        };
        let lookup_list = match reader.u16_at(8) {
            Some(v) => v as usize,
            None => return None,
        };
        let feature_count = match reader.u16_at(feature_list) {
            Some(v) => v,
            None => return None,
        };
        let mut features: Vec<([u8; 4], Vec<u16>)> = Vec::new();
        let mut i: u16 = 0;
        while i < feature_count
            invariant
                reader.bytes() == data@,
                fits(data@, 0, 10),
                feature_list == u16_be(data@, 6),
                lookup_list == u16_be(data@, 8),
                fits(data@, feature_list as int, 2),
                feature_count == u16_be(data@, feature_list as int),
                i <= feature_count,
                forall|m: int| 0 <= m < i ==> #[trigger] feature_readable(data@, feature_list as int, m),
                features@.len() == i,
                forall|m: int| 0 <= m < i ==> (#[trigger] features@[m]).0@
                    == data@.subrange(feature_record(feature_list as int, m), feature_record(feature_list as int, m) + 4)
                    && features@[m].1@ == feature_indices(data@, feature_list as int, m),
            decreases feature_count - i,
        {
            let record = feature_list + 2 + 6 * i as usize;
            let ghost readable = feature_readable(data@, feature_list as int, i as int);
            if record >= data.len() || data.len() - record < 4 {
                assert(!readable);
                return None;
            }
            let tag: [u8; 4] = [data[record], data[record + 1], data[record + 2], data[record + 3]];
            let feature = match reader.u16_at(record + 4) {
                Some(v) => feature_list + v as usize,
                None => {
                    assert(!readable);
                    return None;
                },
            };
            let lookup_count = match reader.u16_at(feature + 2) {
                Some(v) => v,
                None => {
                    assert(!readable);
                    return None;
                },
            };
            let indices = match read_indices(data, feature, lookup_count) {
                Some(v) => v,
                None => {
                    assert(!readable);
                    return None;
                },
            };
            assert(tag@ =~= data@.subrange(record as int, record + 4));
            features.push((tag, indices));
            i = i + 1;
        }
        let lookup_count = match reader.u16_at(lookup_list) {
            Some(v) => v,
            None => return None,
        };
        let mut lookups: Vec<Lookup> = Vec::new();
        let mut j: u16 = 0;
        while j < lookup_count
            invariant
                reader.bytes() == data@,
                fits(data@, 0, 10),
                feature_list == u16_be(data@, 6),
                lookup_list == u16_be(data@, 8),
                fits(data@, feature_list as int, 2),
                feature_count == u16_be(data@, feature_list as int),
                forall|m: int| 0 <= m < feature_count ==> #[trigger] feature_readable(data@, feature_list as int, m),
                fits(data@, lookup_list as int, 2),
                lookup_count == u16_be(data@, lookup_list as int),
                j <= lookup_count,
                forall|m: int| 0 <= m < j ==> #[trigger] lookup_readable(data@, lookup_list as int, m),
                lookups@.len() == j,
                forall|m: int| 0 <= m < j ==> {
                    let l = lookup_at(data@, lookup_list as int, m);
                    &&& (#[trigger] lookups@[m]).kind == u16_be(data@, l)
                    &&& lookups@[m].flag == u16_be(data@, l + 2)
                    &&& lookups@[m].subtables@ == lookup_subtables(data@, lookup_list as int, m)
                    &&& lookups@[m].mark_filtering_set == lookup_mark_set(data@, lookup_list as int, m)
                },
            decreases lookup_count - j,
        {
            let ghost readable = lookup_readable(data@, lookup_list as int, j as int);
            let lookup = match reader.u16_at(lookup_list + 2 + 2 * j as usize) {
                Some(v) => lookup_list + v as usize,
                None => {
                    assert(!readable);
                    return None;
                },
            };
            let kind = match reader.u16_at(lookup) {
                Some(v) => v,
                None => {
                    assert(!readable);
                    return None;
                },
            };
            let flag = match reader.u16_at(lookup + 2) {
                Some(v) => v,
                None => {
                    assert(!readable);
                    return None;
                },
            };
            let subtable_count = match reader.u16_at(lookup + 4) {
                Some(v) => v,
                None => {
                    assert(!readable);
                    return None;
                },
            };
            let subtables = match read_subtables(data, lookup, subtable_count) {
                Some(v) => v,
                None => {
                    assert(!readable);
                    return None;
                },
            };
            let mark_filtering_set = if flag & USE_MARK_FILTERING_SET != 0 {
                reader.u16_at(lookup + 6 + 2 * subtable_count as usize)
            } else {
                None
            };
            lookups.push(Lookup { kind, flag, mark_filtering_set, subtables });
            j = j + 1;
        }
        let table = LayoutTable { data, lookups, features };
        proof {
            assert forall|i: int| 0 <= i < table.feature_list().len() implies #[trigger] table.feature_list()[i]
                == (data@.subrange(feature_record(feature_list as int, i), feature_record(feature_list as int, i) + 4),
                    feature_indices(data@, feature_list as int, i)) by {
                assert(table.features@[i].0@ == data@.subrange(feature_record(feature_list as int, i), feature_record(feature_list as int, i) + 4));
            }
        }
        Some(table)
    }

    /// The lookups, in list order.
    pub fn lookups(&self) -> (result: &[Lookup])
        ensures
            result@ == self.lookup_list(),
    {
        self.lookups.as_slice()
    }

    /// The table's bytes, which subtable offsets index into.
    pub(crate) fn data(&self) -> (result: &'a [u8])
        ensures
            result@ == self.bytes(),
    {
        self.data
    }
}

/// Whether feature `i` is one of `tags` and lists lookup `v`.
pub open spec fn feature_selects(features: Seq<(Seq<u8>, Seq<u16>)>, tags: Seq<Seq<u8>>, i: int, v: u16) -> bool {
    tags.contains(features[i].0) && features[i].1.contains(v)
}

/// Whether some feature among the first `n` is one of `tags` and lists
/// lookup `v`.
pub open spec fn selected_by(features: Seq<(Seq<u8>, Seq<u16>)>, tags: Seq<Seq<u8>>, n: int, v: u16) -> bool {
    exists|i: int| 0 <= i < n && #[trigger] feature_selects(features, tags, i, v)
}

fn same_tag(a: &[u8; 4], b: &[u8; 4]) -> (result: bool)
    ensures
        result == (a@ == b@),
{
    let r = a[0] == b[0] && a[1] == b[1] && a[2] == b[2] && a[3] == b[3];
    if r {
        assert(a@ =~= b@);
    }
    r
}

fn tag_listed(tags: &[&[u8; 4]], tag: &[u8; 4]) -> (result: bool)
    ensures
        result == tags@.map_values(|t: &[u8; 4]| t@).contains(tag@),
{
    let ghost views = tags@.map_values(|t: &[u8; 4]| t@);
    let mut i: usize = 0;
    while i < tags.len()
        invariant
            views == tags@.map_values(|t: &[u8; 4]| t@),
            i <= tags@.len(),
            forall|j: int| 0 <= j < i ==> views[j] != tag@,
        decreases tags@.len() - i,
    {
        if same_tag(tags[i], tag) {
            assert(views[i as int] == tag@);
            return true;
        }
        i = i + 1;
    }
    false
}

/// What `String::from_utf8_lossy` makes of `bytes`: the text they encode,
/// with each invalid UTF-8 sequence replaced by U+FFFD. It depends on the
/// bytes alone.
pub uninterp spec fn lossy_text(bytes: Seq<u8>) -> Seq<char>;

/// `bytes` as text, through `String::from_utf8_lossy`: the named lossy text
/// of the tag's bytes; an ASCII tag comes out as its letters.
#[verifier::external_body]
fn tag_text(tag: &[u8; 4]) -> (result: String)
    ensures
        result@ == lossy_text(tag@),
        (forall|i: int| 0 <= i < 4 ==> #[trigger] tag@[i] < 128) ==> result@ == tag@.map_values(|b: u8| b as char),
{
    String::from_utf8_lossy(tag).into_owned()
}

impl<'a> LayoutTable<'a> {
    /// Lookup indices used by the named features, in lookup-list order and
    /// without repeats: lookups must run in list order, not feature order.
    pub fn lookups_for(&self, tags: &[&[u8; 4]]) -> (result: Vec<u16>)
        ensures
            forall|a: int, b: int| 0 <= a < b < result@.len() ==> result@[a] < result@[b],
            forall|v: u16| result@.contains(v) <==> selected_by(self.feature_list(), tags@.map_values(|t: &[u8; 4]| t@), self.feature_list().len() as int, v),
    {
        let ghost feats = self.feature_list();
        let ghost tviews = tags@.map_values(|t: &[u8; 4]| t@);
        let mut seen: Vec<bool> = vec![false; 65536];
        let mut i: usize = 0;
        while i < self.features.len()
            invariant
                feats == self.feature_list(),
                tviews == tags@.map_values(|t: &[u8; 4]| t@),
                feats.len() == self.features@.len(),
                i <= self.features@.len(),
                seen@.len() == 65536,
                forall|v: u16| #[trigger] seen@[v as int] <==> selected_by(feats, tviews, i as int, v),
            decreases self.features@.len() - i,
        {
            let (tag, lookups) = &self.features[i];
            assert(feats[i as int] == (tag@, lookups@));
            if tag_listed(tags, tag) {
                let mut k: usize = 0;
                while k < lookups.len()
                    invariant
                        feats == self.feature_list(),
                        feats[i as int] == (tag@, lookups@),
                        tviews.contains(tag@),
                        i < feats.len(),
                        k <= lookups@.len(),
                        seen@.len() == 65536,
                        forall|v: u16| #[trigger] seen@[v as int] <==> (selected_by(feats, tviews, i as int, v)
                            || exists|m: int| 0 <= m < k && lookups@[m] == v),
                    decreases lookups@.len() - k,
                {
                    let v = lookups[k];
                    seen.set(v as usize, true);
                    k = k + 1;
                    proof {
                        assert forall|w: u16| #[trigger] seen@[w as int] <==> (selected_by(feats, tviews, i as int, w)
                            || exists|m: int| 0 <= m < k && lookups@[m] == w) by {
                            if w == v {
                                assert(lookups@[k - 1] == w);
                            }
                        }
                    }
                }
                proof {
                    assert forall|w: u16| #[trigger] seen@[w as int] <==> selected_by(feats, tviews, i + 1, w) by {
                        if seen@[w as int] && !selected_by(feats, tviews, i as int, w) {
                            let m = choose|m: int| 0 <= m < lookups@.len() && lookups@[m] == w;
                            assert(lookups@.contains(w));
                            assert(feature_selects(feats, tviews, i as int, w));
                        }
                        if selected_by(feats, tviews, i + 1, w) && !selected_by(feats, tviews, i as int, w) {
                            let j = choose|j: int| 0 <= j < i + 1 && #[trigger] feature_selects(feats, tviews, j, w);
                            assert(j == i);
                            let m = choose|m: int| 0 <= m < feats[i as int].1.len() && feats[i as int].1[m] == w;
                        }
                        if selected_by(feats, tviews, i as int, w) {
                            let j = choose|j: int| 0 <= j < i && #[trigger] feature_selects(feats, tviews, j, w);
                            assert(0 <= j < i + 1 && feature_selects(feats, tviews, j, w));
                        }
                    }
                }
            } else {
                proof {
                    assert forall|w: u16| #[trigger] seen@[w as int] <==> selected_by(feats, tviews, i + 1, w) by {
                        if selected_by(feats, tviews, i + 1, w) {
                            let j = choose|j: int| 0 <= j < i + 1 && #[trigger] feature_selects(feats, tviews, j, w);
                            assert(j != i);
                        }
                        if selected_by(feats, tviews, i as int, w) {
                            let j = choose|j: int| 0 <= j < i && #[trigger] feature_selects(feats, tviews, j, w);
                            assert(0 <= j < i + 1 && feature_selects(feats, tviews, j, w));
                        }
                    }
                }
            }
            i = i + 1;
        }
        let mut indices: Vec<u16> = Vec::new();
        let mut v: usize = 0;
        while v < 65536
            invariant
                v <= 65536,
                seen@.len() == 65536,
                forall|a: int, b: int| 0 <= a < b < indices@.len() ==> indices@[a] < indices@[b],
                forall|a: int| 0 <= a < indices@.len() ==> indices@[a] < v,
                forall|w: u16| indices@.contains(w) <==> (w < v && seen@[w as int]),
            decreases 65536 - v,
        {
            if seen[v] {
                let ghost before = indices@;
                indices.push(v as u16);
                proof {
                    assert forall|w: u16| indices@.contains(w) <==> (w < v + 1 && seen@[w as int]) by {
                        if w == v as u16 {
                            assert(indices@[indices@.len() - 1] == w);
                        }
                        if indices@.contains(w) && w != v as u16 {
                            let a = choose|a: int| 0 <= a < indices@.len() && indices@[a] == w;
                            assert(before.contains(w));
                        }
                        if w < v && seen@[w as int] {
                            assert(before.contains(w));
                            let a = choose|a: int| 0 <= a < before.len() && before[a] == w;
                            assert(indices@[a] == w);
                        }
                    }
                }
            } else {
                proof {
                    assert forall|w: u16| indices@.contains(w) <==> (w < v + 1 && seen@[w as int]) by {
                        if indices@.contains(w) {
                            let a = choose|a: int| 0 <= a < indices@.len() && indices@[a] == w;
                        }
                    }
                }
            }
            v = v + 1;
        }
        indices
    }

    /// The tags of the table's features, in list order, as text.
    pub fn feature_tags(&self) -> (result: Vec<String>)
        ensures
            result@.len() == self.feature_list().len(),
            forall|i: int| 0 <= i < result@.len() ==> #[trigger] result@[i]@ == lossy_text(self.feature_list()[i].0),
            forall|i: int| 0 <= i < result@.len() && (forall|k: int| 0 <= k < 4 ==> #[trigger] self.feature_list()[i].0[k] < 128)
                ==> #[trigger] result@[i]@ == self.feature_list()[i].0.map_values(|b: u8| b as char),
    {
        let mut tags: Vec<String> = Vec::new();
        let mut i: usize = 0;
        while i < self.features.len()
            invariant
                i <= self.features@.len(),
                tags@.len() == i,
                self.feature_list().len() == self.features@.len(),
                forall|j: int| 0 <= j < i ==> #[trigger] tags@[j]@ == lossy_text(self.feature_list()[j].0),
                forall|j: int| 0 <= j < i && (forall|k: int| 0 <= k < 4 ==> #[trigger] self.feature_list()[j].0[k] < 128)
                    ==> #[trigger] tags@[j]@ == self.feature_list()[j].0.map_values(|b: u8| b as char),
            decreases self.features@.len() - i,
        {
            let (tag, _) = &self.features[i];
            assert(self.feature_list()[i as int].0 == tag@);
            let text = tag_text(tag);
            tags.push(text);
            i = i + 1;
        }
        tags
    }
}

/// The big-endian word at `at`, as a number.
pub open spec fn word_at(data: Seq<u8>, at: int) -> int {
    data[at] * 256 + data[at + 1]
}

/// Whether range record `j` of the format-2 class definition at `offset`
/// holds `glyph`: its start is at or below the glyph and its end at or
/// above it.
pub open spec fn range_holds(data: Seq<u8>, offset: int, j: int, glyph: u16) -> bool {
    word_at(data, offset + 4 + 6 * j) <= glyph <= word_at(data, offset + 4 + 6 * j + 2)
}

/// Searching the range records from `i` on finds record `k` when it is the
/// first of them whose inclusive range holds the glyph.
proof fn lemma_class2_reaches(data: Seq<u8>, offset: int, glyph: u16, count: int, k: int, i: int)
    requires
        0 <= i <= k < count,
        fits(data, offset + 4, 6 * (k + 1)),
        range_holds(data, offset, k, glyph),
        forall|j: int| 0 <= j < k ==> !#[trigger] range_holds(data, offset, j, glyph),
    ensures
        class2_find(data, offset, glyph, count, i) == word_at(data, offset + 4 + 6 * k + 4),
    decreases k - i,
{
    let record = offset + 4 + 6 * i;
    assert(fits(data, record, 6));
    assert(u16_be(data, record) == word_at(data, record));
    assert(u16_be(data, record + 2) == word_at(data, record + 2));
    assert(u16_be(data, record + 4) == word_at(data, record + 4));
    if i < k {
        assert(!range_holds(data, offset, i, glyph));
        lemma_class2_reaches(data, offset, glyph, count, k, i + 1);
    }
}

/// Searching the range records from `i` on finds nothing when none of
/// them holds the glyph.
proof fn lemma_class2_misses(data: Seq<u8>, offset: int, glyph: u16, count: int, i: int)
    requires
        0 <= i <= count,
        fits(data, offset + 4, 6 * count),
        forall|j: int| 0 <= j < count ==> !#[trigger] range_holds(data, offset, j, glyph),
    ensures
        class2_find(data, offset, glyph, count, i) == 0,
    decreases count - i,
{
    if i < count {
        let record = offset + 4 + 6 * i;
        assert(fits(data, record, 6));
        assert(u16_be(data, record) == word_at(data, record));
        assert(u16_be(data, record + 2) == word_at(data, record + 2));
        assert(!range_holds(data, offset, i, glyph));
        lemma_class2_misses(data, offset, glyph, count, i + 1);
    }
}

/// In a format-2 class definition a glyph takes the class of the first
/// range record whose range `start..=end` holds it, ranges including their
/// end glyph; a glyph no record holds is class 0.
pub proof fn lemma_class_ranges_inclusive(data: Seq<u8>, offset: int, glyph: u16, k: int)
    requires
        fits(data, offset, 4),
        data[offset] == 0,
        data[offset + 1] == 2,
        fits(data, offset + 4, 6 * word_at(data, offset + 2)),
    ensures
        ({
            let count = word_at(data, offset + 2);
            &&& (0 <= k < count
                && range_holds(data, offset, k, glyph)
                && (forall|j: int| 0 <= j < k ==> !#[trigger] range_holds(data, offset, j, glyph)))
                ==> class_result(data, offset, glyph) == word_at(data, offset + 4 + 6 * k + 4)
            &&& (forall|j: int| 0 <= j < count ==> !#[trigger] range_holds(data, offset, j, glyph))
                ==> class_result(data, offset, glyph) == 0
        }),
{
    let count = word_at(data, offset + 2);
    assert(u16_opt(data, offset) == Some(2u16));
    assert(u16_opt(data, offset + 2) == Some(count as u16));
    if 0 <= k < count
        && range_holds(data, offset, k, glyph)
        && (forall|j: int| 0 <= j < k ==> !#[trigger] range_holds(data, offset, j, glyph)) {
        assert(fits(data, offset + 4, 6 * (k + 1))) by (nonlinear_arith)
            requires
                fits(data, offset + 4, 6 * count),
                0 <= k < count;
        lemma_class2_reaches(data, offset, glyph, count, k, 0);
    }
    if forall|j: int| 0 <= j < count ==> !#[trigger] range_holds(data, offset, j, glyph) {
        lemma_class2_misses(data, offset, glyph, count, 0);
    }
}

/// In a format-1 class definition (first glyph, glyph count, then one
/// class per glyph) a glyph within `start..start + count` takes the class
/// stored for it, and any other glyph is class 0.
pub proof fn lemma_class_array(data: Seq<u8>, offset: int, glyph: u16)
    requires
        fits(data, offset, 6),
        data[offset] == 0,
        data[offset + 1] == 1,
    ensures
        ({
            let start = word_at(data, offset + 2);
            let count = word_at(data, offset + 4);
            &&& (glyph < start || glyph >= start + count) ==> class_result(data, offset, glyph) == 0
            &&& (start <= glyph < start + count && fits(data, offset + 6 + 2 * (glyph - start), 2))
                ==> class_result(data, offset, glyph) == word_at(data, offset + 6 + 2 * (glyph - start))
        }),
{
    assert(u16_opt(data, offset) == Some(1u16));
    assert(u16_be(data, offset + 2) == word_at(data, offset + 2));
    assert(u16_be(data, offset + 4) == word_at(data, offset + 4));
    let start = word_at(data, offset + 2);
    if start <= glyph && fits(data, offset + 6 + 2 * (glyph - start), 2) {
        assert(u16_be(data, offset + 6 + 2 * (glyph - start)) == word_at(data, offset + 6 + 2 * (glyph - start)));
    }
}

} // verus!
