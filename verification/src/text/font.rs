//! A font face and the set of faces an application draws with.
//!
//! Faces are parsed from bytes the application embeds ([`Face::from_bytes`])
//! and registered in a [`FontSet`], which hands out [`FaceId`]s and resolves
//! each face's fallback chain.

use vstd::prelude::*;
use crate::text::layout::{Gdef, LayoutTable, CLASS_MARK};
use crate::text::glyph::{glyph_shape, shape_matches, GlyphShape};
use crate::text::position::{positioning_plan, positioning_plan_spec, Adjustment};
use crate::text::substitute::{apply_substitutions, substituted_all, Placement, SubstitutedGlyph};
use crate::text::utf8::{byte_len, char_width, chars_of, lemma_byte_len_cut, lemma_byte_len_nonneg, lemma_byte_len_prefix, width_of};
use crate::text::sfnt::{
    cmap_result, directory, fits, full_metric_count, key_cmap, key_glyf, key_head, key_hhea, key_hmtx,
    key_loca, key_maxp, metrics_result, sfnt_readable, u16_be, CharacterMap, FontMetrics, GlyphSource,
    HorizontalMetrics, Sfnt,
};

verus! {

/// U+0E33 THAI CHARACTER SARA AM.
pub const SARA_AM: char = '\u{0E33}';
/// U+0E4D THAI CHARACTER NIKHAHIT, the ring SARA AM decomposes into.
pub const NIKHAHIT: char = '\u{0E4D}';
/// U+0E32 THAI CHARACTER SARA AA, the tail SARA AM decomposes into.
pub const SARA_AA: char = '\u{0E32}';

/// The four Thai tone marks, plus THANTHAKHAT, which orders like one.
pub open spec fn is_tone_mark_spec(c: char) -> bool {
    0x0e48 <= (c as u32) <= 0x0e4c
}

/// Whether a character is a Thai tone mark (or THANTHAKHAT).
pub fn is_tone_mark(character: char) -> (result: bool)
    ensures
        result == is_tone_mark_spec(character),
{
    let c = character as u32;
    0x0e48 <= c && c <= 0x0e4c
}

/// Thai marks that attach to a base rather than taking their own width:
/// MAI HAN AKAT, the above and below vowels and PHINTHU, and the tone marks,
/// THANTHAKHAT, NIKHAHIT and YAMAKKAN.
pub open spec fn is_thai_combining_spec(c: char) -> bool {
    let v = c as u32;
    v == 0x0e31 || (0x0e34 <= v <= 0x0e3a) || (0x0e47 <= v <= 0x0e4e)
}

/// Whether a character combines with the base before it; a line break must
/// never fall in front of one.
pub fn is_thai_combining(character: char) -> (result: bool)
    ensures
        result == is_thai_combining_spec(character),
{
    let c = character as u32;
    c == 0x0e31 || (0x0e34 <= c && c <= 0x0e3a) || (0x0e47 <= c && c <= 0x0e4e)
}

/// Whether a character belongs to the Thai block, U+0E00..=U+0E7F.
pub fn is_thai(character: char) -> (result: bool)
    ensures
        result == (0x0e00 <= (character as u32) <= 0x0e7f),
{
    let c = character as u32;
    0x0e00 <= c && c <= 0x0e7f
}

/// The character with scalar value `v`, if there is one (what
/// `char::from_u32` returns).
#[verifier::external_body]
fn char_from(v: u32) -> (result: Option<char>)
    ensures
        result == (if v <= 0xd7ff || (0xe000 <= v <= 0x10_ffff) { Some(v as char) } else { None::<char> }),
{
    char::from_u32(v)
}

/// The first Thai-block character from `v` on that `mapping` maps to `glyph`.
pub open spec fn thai_char_for(mapping: Map<u32, u16>, glyph: u16, v: int) -> Option<char>
    decreases 0x0e80 - v,
{
    if v < 0x0e00 || v > 0x0e7f {
        None
    } else if mapping.contains_key(v as u32) && mapping[v as u32] == glyph {
        Some(v as char)
    } else {
        thai_char_for(mapping, glyph, v + 1)
    }
}

/// The glyph for a character, or `.notdef` (glyph 0): a visible box beats
/// a silent gap.
pub open spec fn glyph_of(mapping: Map<u32, u16>, c: char) -> u16 {
    if mapping.contains_key(c as u32) { mapping[c as u32] } else { 0 }
}

/// Whether the last glyph so far is a tone mark's.
pub open spec fn ends_in_tone(mapping: Map<u32, u16>, glyphs: Seq<SubstitutedGlyph>) -> bool {
    glyphs.len() > 0 && (thai_char_for(mapping, glyphs.last().glyph, 0x0e00) matches Some(t) && is_tone_mark_spec(t))
}

/// The glyphs after mapping one more character, at `cluster`. SARA AM
/// typed after a tone mark becomes NIKHAHIT below the tone mark and SARA AA
/// after it (the reordering the font's own tables cannot express); any
/// other character maps to its glyph. Each glyph's placement is its own
/// position.
pub open spec fn map_step(mapping: Map<u32, u16>, glyphs: Seq<SubstitutedGlyph>, c: char, cluster: int) -> Seq<SubstitutedGlyph> {
    if c == SARA_AM && ends_in_tone(mapping, glyphs) {
        let n = glyphs.len() - 1;
        let tone = glyphs.last();
        glyphs.drop_last()
            .push(SubstitutedGlyph { glyph: glyph_of(mapping, NIKHAHIT), cluster: cluster as usize, placement: Placement::Kept(n as usize) })
            .push(SubstitutedGlyph { glyph: tone.glyph, cluster: tone.cluster, placement: Placement::Kept((n + 1) as usize) })
            .push(SubstitutedGlyph { glyph: glyph_of(mapping, SARA_AA), cluster: cluster as usize, placement: Placement::Kept((n + 2) as usize) })
    } else {
        glyphs.push(SubstitutedGlyph { glyph: glyph_of(mapping, c), cluster: cluster as usize, placement: Placement::Kept(glyphs.len() as usize) })
    }
}

/// The glyphs for the first `count` characters, each character's cluster
/// being `base` plus its byte offset.
pub open spec fn mapped_characters(mapping: Map<u32, u16>, chars: Seq<char>, base: int, count: int) -> Seq<SubstitutedGlyph>
    decreases count,
{
    if count <= 0 {
        Seq::empty()
    } else {
        map_step(mapping, mapped_characters(mapping, chars, base, count - 1), chars[count - 1], base + byte_len(chars.take(count - 1)))
    }
}

/// The bytes of table `key` in a font whose directory has been read.
pub open spec fn font_table(data: Seq<u8>, key: u32) -> Option<Seq<u8>> {
    let tables = directory(data, u16_be(data, 4) as int);
    if tables.contains_key(key) {
        let (offset, length) = tables[key];
        Some(data.subrange(offset as int, offset + length))
    } else {
        None
    }
}

/// Whether a font's required tables all read: the directory, the metrics,
/// a Unicode character map, the horizontal metrics and the glyph locations.
pub open spec fn face_readable(data: Seq<u8>) -> bool {
    sfnt_readable(data) && match (
        metrics_result(font_table(data, key_head()), font_table(data, key_maxp()), font_table(data, key_hhea())),
        font_table(data, key_cmap()),
        font_table(data, key_hmtx()),
        font_table(data, key_glyf()),
        font_table(data, key_loca()),
    ) {
        (Some(m), Some(cmap), Some(hmtx), Some(_), Some(loca)) => {
            &&& cmap_result(cmap) is Some
            &&& 4 * full_metric_count(m) <= hmtx.len()
            &&& (if m.long_loca { 4int } else { 2int }) * (m.glyph_count + 1) <= loca.len()
        },
        _ => false,
    }
}

/// One parsed face.
#[derive(Debug)]
pub struct Face {
    metrics: FontMetrics,
    characters: CharacterMap,
    advances: HorizontalMetrics,
    glyphs: GlyphSource<'static>,
    gsub: Option<LayoutTable<'static>>,
    gpos: Option<LayoutTable<'static>>,
    gdef: Gdef<'static>,
    substitution_lookups: Vec<u16>,
    positioning_lookups: Vec<u16>,
}

impl Face {
    /// The face's metrics.
    pub closed spec fn metrics(&self) -> FontMetrics {
        self.metrics
    }

    /// Codepoint to glyph.
    pub closed spec fn mapping(&self) -> Map<u32, u16> {
        self.characters.mapping()
    }

    /// The GDEF the face uses (an empty one if it has none).
    pub closed spec fn gdef(&self) -> Gdef<'static> {
        self.gdef
    }

    /// The GSUB lookups the face applies, in list order.
    pub closed spec fn substitutions(&self) -> Seq<u16> {
        self.substitution_lookups@
    }

    /// The GPOS lookups the face applies, in list order.
    pub closed spec fn positionings(&self) -> Seq<u16> {
        self.positioning_lookups@
    }

    /// Parse a TrueType (`glyf`) face from bytes the caller keeps alive for
    /// the program's lifetime. `None` for anything this reader cannot read:
    /// CFF outlines, a missing or short required table.
    pub fn from_bytes(data: &'static [u8]) -> (result: Option<Face>)
        ensures
            result is Some <==> face_readable(data@),
            result matches Some(face) ==> {
                &&& Some(face.metrics()) == metrics_result(font_table(data@, key_head()), font_table(data@, key_maxp()), font_table(data@, key_hhea()))
                &&& (font_table(data@, key_cmap()) matches Some(cmap) && cmap_result(cmap) == Some(face.mapping()))
            },
    {
        let sfnt = match Sfnt::parse(data) {
            Some(s) => s,
            None => return None,
        };
        let metrics = match FontMetrics::parse(&sfnt) {
            Some(m) => m,
            None => return None,
        };
        let characters = match CharacterMap::parse(&sfnt) {
            Some(c) => c,
            None => return None,
        };
        let advances = match HorizontalMetrics::parse(&sfnt, &metrics) {
            Some(a) => a,
            None => return None,
        };
        let glyphs = match GlyphSource::parse(&sfnt, &metrics) {
            Some(g) => g,
            None => return None,
        };
        let gsub = match sfnt.table(&[0x47, 0x53, 0x55, 0x42]) {
            Some(t) => LayoutTable::parse(t),
            None => None,
        };
        let gpos = match sfnt.table(&[0x47, 0x50, 0x4f, 0x53]) {
            Some(t) => LayoutTable::parse(t),
            None => None,
        };
        let gdef = match sfnt.table(&[0x47, 0x44, 0x45, 0x46]) {
            Some(t) => match Gdef::parse(t) {
                Some(g) => g,
                None => Gdef::empty(),
            },
            None => Gdef::empty(),
        };
        let ccmp: [u8; 4] = [0x63, 0x63, 0x6d, 0x70];
        let liga: [u8; 4] = [0x6c, 0x69, 0x67, 0x61];
        let kern: [u8; 4] = [0x6b, 0x65, 0x72, 0x6e];
        let mark: [u8; 4] = [0x6d, 0x61, 0x72, 0x6b];
        let mkmk: [u8; 4] = [0x6d, 0x6b, 0x6d, 0x6b];
        let substitution_lookups = match &gsub {
            Some(table) => table.lookups_for(&[&ccmp, &liga]),
            None => Vec::new(),
        };
        let positioning_lookups = match &gpos {
            Some(table) => table.lookups_for(&[&kern, &mark, &mkmk]),
            None => Vec::new(),
        };
        Some(Face {
            metrics,
            characters,
            advances,
            glyphs,
            gsub,
            gpos,
            gdef,
            substitution_lookups,
            positioning_lookups,
        })
    }

    /// Whether the face has a glyph for a character.
    pub fn covers(&self, character: char) -> (result: bool)
        ensures
            result == self.mapping().contains_key(character as u32),
    {
        self.characters.covers(character)
    }

    /// The face's glyph for a character.
    pub fn glyph_for(&self, character: char) -> (result: Option<u16>)
        ensures
            self.mapping().contains_key(character as u32) ==> result == Some(self.mapping()[character as u32]),
            !self.mapping().contains_key(character as u32) ==> result is None,
    {
        self.characters.glyph(character)
    }

    /// Whether GDEF classes a glyph as a mark.
    pub fn is_mark(&self, glyph: u16) -> (result: bool)
        ensures
            result == (self.gdef().class_spec(glyph) == CLASS_MARK),
    {
        self.gdef.is_mark(glyph)
    }

    /// The first Thai-block character the face maps to `glyph`.
    pub fn glyph_character(&self, glyph: u16) -> (result: Option<char>)
        ensures
            result matches Some(c) ==> 0x0e00 <= (c as u32) <= 0x0e7f
                && self.mapping().contains_key(c as u32) && self.mapping()[c as u32] == glyph
                && forall|v: u32| 0x0e00 <= v < (c as u32) ==> !(self.mapping().contains_key(v) && self.mapping()[v] == glyph),
            result is None ==> forall|v: u32| 0x0e00 <= v <= 0x0e7f ==> !(self.mapping().contains_key(v) && self.mapping()[v] == glyph),
            result == thai_char_for(self.mapping(), glyph, 0x0e00),
    {
        let mut v: u32 = 0x0e00;
        while v <= 0x0e7f
            invariant
                thai_char_for(self.mapping(), glyph, 0x0e00) == thai_char_for(self.mapping(), glyph, v as int),
                0x0e00 <= v <= 0x0e80,
                forall|w: u32| 0x0e00 <= w < v ==> !(self.mapping().contains_key(w) && self.mapping()[w] == glyph),
            decreases 0x0e80 - v,
        {
            let candidate = match char_from(v) {
                Some(c) => c,
                None => return None,
            };
            if self.glyph_for(candidate) == Some(glyph) {
                return Some(candidate);
            }
            v = v + 1;
        }
        None
    }

    /// Map characters to glyphs, applying the one reordering the font's own
    /// tables cannot express: SARA AM after a tone mark puts its NIKHAHIT
    /// below the tone mark. Clusters are `cluster_base` plus each
    /// character's byte offset.
    pub fn map_characters(&self, text: &str, cluster_base: usize) -> (result: Vec<SubstitutedGlyph>)
        requires
            cluster_base + byte_len(text@) <= usize::MAX,
        ensures
            result@ == mapped_characters(self.mapping(), text@, cluster_base as int, text@.len() as int),
    {
        let chars = chars_of(text);
        let mut glyphs: Vec<SubstitutedGlyph> = Vec::new();
        let mut offset: usize = 0;
        let mut i: usize = 0;
        while i < chars.len()
            invariant
                chars@ == text@,
                cluster_base + byte_len(text@) <= usize::MAX,
                i <= chars@.len(),
                offset == byte_len(chars@.take(i as int)),
                glyphs@ == mapped_characters(self.mapping(), chars@, cluster_base as int, i as int),
            decreases chars@.len() - i,
        {
            let c = chars[i];
            proof {
                lemma_byte_len_prefix(chars@, i as int);
                lemma_byte_len_cut(chars@, i + 1, i + 1);
            }
            let cluster = cluster_base + offset;
            let mut tone = false;
            if c == SARA_AM && glyphs.len() > 0 {
                let last = glyphs[glyphs.len() - 1];
                tone = match self.glyph_character(last.glyph) {
                    Some(t) => is_tone_mark(t),
                    None => false,
                };
            }
            let ghost before = glyphs@;
            if tone {
                let last = glyphs[glyphs.len() - 1];
                glyphs.pop();
                let n = glyphs.len();
                let nikhahit = match self.glyph_for(NIKHAHIT) {
                    Some(g) => g,
                    None => 0,
                };
                let sara_aa = match self.glyph_for(SARA_AA) {
                    Some(g) => g,
                    None => 0,
                };
                glyphs.push(SubstitutedGlyph { glyph: nikhahit, cluster, placement: Placement::Kept(n) });
                let at_tone = glyphs.len();
                glyphs.push(SubstitutedGlyph { glyph: last.glyph, cluster: last.cluster, placement: Placement::Kept(at_tone) });
                let at_tail = glyphs.len();
                glyphs.push(SubstitutedGlyph { glyph: sara_aa, cluster, placement: Placement::Kept(at_tail) });
            } else {
                let glyph = match self.glyph_for(c) {
                    Some(g) => g,
                    None => 0,
                };
                let n = glyphs.len();
                glyphs.push(SubstitutedGlyph { glyph, cluster, placement: Placement::Kept(n) });
            }
            proof {
                assert(chars@.take(i + 1).drop_last() =~= chars@.take(i as int));
                assert(glyphs@ =~= map_step(self.mapping(), before, c, cluster as int));
            }
            offset = offset + width_of(c);
            i = i + 1;
        }
        proof {
            assert(chars@.take(chars@.len() as int) =~= chars@);
        }
        glyphs
    }
}

/// The advance `hmtx` gives a glyph: glyphs past the full records share the
/// last advance, and a table with no full records gives 0.
pub open spec fn advance_in(advances: Seq<u16>, glyph: u16) -> u16 {
    if (glyph as int) < advances.len() {
        advances[glyph as int]
    } else if advances.len() > 0 {
        advances.last()
    } else {
        0
    }
}

/// The glyph ids of a buffer.
pub open spec fn glyph_ids(glyphs: Seq<SubstitutedGlyph>) -> Seq<u16> {
    glyphs.map_values(|g: SubstitutedGlyph| g.glyph)
}

/// What shaping a run decides, in design units: the glyphs after
/// substitution, each glyph's own advance, and the positioning adjustments
/// to carry out on those advances, in order.
#[derive(Debug, Clone, PartialEq, Eq)]
pub struct ShapePlan {
    pub glyphs: Vec<SubstitutedGlyph>,
    pub advances: Vec<u16>,
    pub adjustments: Vec<Adjustment>,
}

impl Face {
    /// The face's GSUB, if it has a readable one.
    pub closed spec fn substitution_table(&self) -> Option<LayoutTable<'static>> {
        self.gsub
    }

    /// The face's GPOS, if it has a readable one.
    pub closed spec fn positioning_table(&self) -> Option<LayoutTable<'static>> {
        self.gpos
    }

    /// The advances of the full `hmtx` records.
    pub closed spec fn advance_list(&self) -> Seq<u16> {
        self.advances.advance_list()
    }

    /// The glyphs shaping `text` gives before positioning: the mapped
    /// characters with the face's substitution lookups applied in turn.
    pub open spec fn substituted(&self, text: Seq<char>, cluster_base: int) -> Seq<SubstitutedGlyph> {
        let mapped = mapped_characters(self.mapping(), text, cluster_base, text.len() as int);
        match self.substitution_table() {
            Some(t) => substituted_all(t.bytes(), t.lookup_list(), self.gdef(), self.substitutions(), mapped, self.substitutions().len() as int),
            None => mapped,
        }
    }

    /// The adjustments the face's positioning lookups plan for `glyphs`.
    pub open spec fn planned(&self, glyphs: Seq<u16>) -> Seq<Adjustment> {
        match self.positioning_table() {
            Some(t) => positioning_plan_spec(t.bytes(), t.lookup_list(), self.gdef(), self.positionings(), glyphs, self.positionings().len() as int),
            None => Seq::empty(),
        }
    }

    /// The face's `glyf`/`loca` pair.
    pub closed spec fn glyph_source(&self) -> GlyphSource<'static> {
        self.glyphs
    }

    /// The face's metrics: units per em, ascender, descender, line gap.
    pub fn font_metrics(&self) -> (result: FontMetrics)
        ensures
            result == self.metrics(),
    {
        self.metrics
    }

    /// What the record of one glyph holds: nothing, contours, or
    /// components; `None` for an index out of range or a malformed record.
    pub fn glyph_shape(&self, glyph: u16) -> (result: Option<GlyphShape>)
        ensures
            match glyph_shape(self.glyph_source().glyf_bytes(), self.glyph_source().offset_list(), glyph) {
                None => result is None,
                Some(view) => result matches Some(s) && shape_matches(s, view),
            },
    {
        self.glyphs.shape(glyph)
    }

    /// The advance of a glyph, from `hmtx`.
    pub fn advance(&self, glyph: u16) -> (result: u16)
        ensures
            result == advance_in(self.advance_list(), glyph),
    {
        self.advances.advance(glyph)
    }

    /// Shape a run: map its characters, apply the substitution lookups, read
    /// each resulting glyph's advance (after substitution, since a ligature
    /// or an alternate has its own width), and plan the positioning lookups
    /// over the result. Clusters are `cluster_base` plus byte offsets.
    pub fn shape(&self, text: &str, cluster_base: usize) -> (result: ShapePlan)
        requires
            cluster_base + byte_len(text@) <= usize::MAX,
        ensures
            result.glyphs@ == self.substituted(text@, cluster_base as int),
            result.advances@.len() == result.glyphs@.len(),
            forall|i: int| 0 <= i < result.glyphs@.len() ==> #[trigger] result.advances@[i] == advance_in(self.advance_list(), result.glyphs@[i].glyph),
            result.adjustments@ == self.planned(glyph_ids(result.glyphs@)),
    {
        let mut glyphs = self.map_characters(text, cluster_base);
        match &self.gsub {
            Some(table) => apply_substitutions(table, &self.gdef, self.substitution_lookups.as_slice(), &mut glyphs),
            None => {},
        }
        let mut advances: Vec<u16> = Vec::new();
        let mut ids: Vec<u16> = Vec::new();
        let mut i: usize = 0;
        while i < glyphs.len()
            invariant
                i <= glyphs@.len(),
                advances@.len() == i,
                ids@ == glyph_ids(glyphs@).take(i as int),
                forall|j: int| 0 <= j < i ==> #[trigger] advances@[j] == advance_in(self.advance_list(), glyphs@[j].glyph),
            decreases glyphs@.len() - i,
        {
            let glyph = glyphs[i].glyph;
            advances.push(self.advance(glyph));
            ids.push(glyph);
            i = i + 1;
            proof {
                assert(ids@ =~= glyph_ids(glyphs@).take(i as int));
            }
        }
        proof {
            assert(ids@ =~= glyph_ids(glyphs@));
        }
        let adjustments = match &self.gpos {
            Some(table) => positioning_plan(table, &self.gdef, self.positioning_lookups.as_slice(), ids.as_slice()),
            None => Vec::new(),
        };
        ShapePlan { glyphs, advances, adjustments }
    }
}

/// The runs of a string tile it: the first starts at byte 0, each one ends
/// where the next starts, the last ends at the string's end, none is empty,
/// and two neighbouring runs never have the same face (a split only falls
/// where the face changes).
pub proof fn lemma_runs_tile(set: FontSet, style: FaceId, chars: Seq<char>, count: int)
    requires
        0 <= count <= chars.len(),
        byte_len(chars) <= usize::MAX,
    ensures
        ({
            let runs = set.runs_spec(style, chars, count);
            &&& (count == 0 <==> runs.len() == 0)
            &&& runs.len() > 0 ==> runs[0].start == 0 && runs.last().end == byte_len(chars.take(count))
            &&& forall|k: int| 0 <= k < runs.len() ==> #[trigger] runs[k].start < runs[k].end
            &&& forall|k: int| 0 <= k < runs.len() - 1 ==> #[trigger] runs[k].end == runs[k + 1].start
            &&& forall|k: int| 0 <= k < runs.len() - 1 ==> #[trigger] runs[k].face != runs[k + 1].face
        }),
    decreases count,
{
    if count > 0 {
        lemma_runs_tile(set, style, chars, count - 1);
        lemma_byte_len_prefix(chars, count - 1);
        lemma_byte_len_cut(chars, count, count);
        lemma_byte_len_nonneg(chars.take(count - 1));
        let runs = set.runs_spec(style, chars, count);
        let before = set.runs_spec(style, chars, count - 1);
        assert forall|k: int| 0 <= k < runs.len() - 1 implies #[trigger] runs[k].end == runs[k + 1].start
            && runs[k].face != runs[k + 1].face by {
            if k + 1 < before.len() {
                assert(runs[k] == before[k]);
                assert(runs[k + 1].start == before[k + 1].start);
                assert(runs[k + 1].face == before[k + 1].face);
            }
        }
    }
}

/// Index of a face inside a [`FontSet`].
#[derive(Debug, Clone, Copy, PartialEq, Eq, Hash, PartialOrd, Ord, Structural)]
pub struct FaceId(pub u8);

/// A stretch of text drawn by one face: the face and the byte range.
#[derive(Debug, Clone, Copy, PartialEq, Eq, Structural)]
pub struct FaceRun {
    pub face: FaceId,
    pub start: usize,
    pub end: usize,
}

/// The faces an application draws with, plus each face's fallback chain.
#[derive(Debug)]
pub struct FontSet {
    faces: Vec<&'static Face>,
    fallbacks: Vec<Vec<FaceId>>,
}

impl FontSet {
    /// The registered faces, in id order.
    pub closed spec fn face_list(&self) -> Seq<&'static Face> {
        self.faces@
    }

    /// Each face's fallback chain.
    pub closed spec fn chain(&self, id: int) -> Seq<FaceId> {
        self.fallbacks@[id]@
    }

    /// One chain per face.
    pub closed spec fn wf(&self) -> bool {
        self.fallbacks@.len() == self.faces@.len()
    }

    /// Whether the face registered under `id` has a glyph for `c`.
    pub open spec fn face_covers(&self, id: FaceId, c: char) -> bool {
        self.face_list()[id.0 as int].mapping().contains_key(c as u32)
    }

    /// Whether every face named in `id`'s fallback chain is registered.
    pub open spec fn chain_valid(&self, id: FaceId) -> bool {
        forall|k: int| 0 <= k < self.chain(id.0 as int).len() ==> (#[trigger] self.chain(id.0 as int)[k]).0 < self.face_list().len()
    }

    /// The first face of `chain`, from position `k` on, that covers `c`.
    pub open spec fn first_covering(&self, chain: Seq<FaceId>, c: char, k: int) -> Option<FaceId>
        decreases chain.len() - k,
    {
        if k < 0 || k >= chain.len() {
            None
        } else if self.face_covers(chain[k], c) {
            Some(chain[k])
        } else {
            self.first_covering(chain, c, k + 1)
        }
    }

    /// The face that draws `c` under `style`: the style's own face if it
    /// covers `c`, else the first fallback that does, else the style's face.
    pub open spec fn chosen_face(&self, style: FaceId, c: char) -> FaceId {
        if self.face_covers(style, c) {
            style
        } else {
            match self.first_covering(self.chain(style.0 as int), c, 0) {
                Some(f) => f,
                None => style,
            }
        }
    }

    /// The runs of the first `count` characters of `chars`: maximal stretches
    /// drawn by one face, with their byte ranges.
    pub open spec fn runs_spec(&self, style: FaceId, chars: Seq<char>, count: int) -> Seq<FaceRun>
        decreases count,
    {
        if count <= 0 {
            Seq::empty()
        } else {
            let before = self.runs_spec(style, chars, count - 1);
            let c = chars[count - 1];
            let face = self.chosen_face(style, c);
            let start = byte_len(chars.take(count - 1));
            let end = start + char_width(c);
            if before.len() > 0 && before.last().face == face {
                before.update(before.len() - 1, FaceRun { face, start: before.last().start, end: end as usize })
            } else {
                before.push(FaceRun { face, start: start as usize, end: end as usize })
            }
        }
    }

    /// An empty set.
    pub fn new() -> (result: FontSet)
        ensures
            result.wf(),
            result.face_list().len() == 0,
    {
        FontSet { faces: Vec::new(), fallbacks: Vec::new() }
    }

    /// Register a face and get its id; its fallback chain starts empty. A set
    /// holds at most 255 faces.
    pub fn add(&mut self, face: &'static Face) -> (result: FaceId)
        requires
            old(self).wf(),
            old(self).face_list().len() < 255,
        ensures
            final(self).wf(),
            final(self).face_list() == old(self).face_list().push(face),
            result.0 == old(self).face_list().len(),
            final(self).chain(result.0 as int).len() == 0,
            forall|id: int| 0 <= id < old(self).face_list().len() ==> final(self).chain(id) == old(self).chain(id),
    {
        self.faces.push(face);
        self.fallbacks.push(Vec::new());
        FaceId((self.faces.len() - 1) as u8)
    }

    /// Faces tried, in order, when `face` lacks a character.
    pub fn set_fallbacks(&mut self, face: FaceId, chain: &[FaceId])
        requires
            old(self).wf(),
            (face.0 as int) < old(self).face_list().len(),
        ensures
            final(self).wf(),
            final(self).face_list() == old(self).face_list(),
            final(self).chain(face.0 as int) == chain@,
            forall|id: int| 0 <= id < old(self).face_list().len() && id != face.0 ==> final(self).chain(id) == old(self).chain(id),
    {
        let mut list: Vec<FaceId> = Vec::new();
        let mut i: usize = 0;
        while i < chain.len()
            invariant
                i <= chain@.len(),
                list@ == chain@.take(i as int),
            decreases chain@.len() - i,
        {
            list.push(chain[i]);
            i = i + 1;
            assert(list@ =~= chain@.take(i as int));
        }
        assert(chain@.take(chain@.len() as int) =~= chain@);
        self.fallbacks.set(face.0 as usize, list);
    }

    /// Whether `style` names a registered face whose fallback chain names
    /// only registered faces: what resolving characters under it needs.
    pub fn is_usable(&self, style: FaceId) -> (result: bool)
        requires
            self.wf(),
        ensures
            result == ((style.0 as int) < self.face_list().len() && self.chain_valid(style)),
    {
        if style.0 as usize >= self.faces.len() {
            return false;
        }
        let chain = &self.fallbacks[style.0 as usize];
        let mut k: usize = 0;
        while k < chain.len()
            invariant
                self.wf(),
                (style.0 as int) < self.face_list().len(),
                chain@ == self.chain(style.0 as int),
                k <= chain@.len(),
                forall|m: int| 0 <= m < k ==> (#[trigger] chain@[m]).0 < self.face_list().len(),
            decreases chain@.len() - k,
        {
            if chain[k].0 as usize >= self.faces.len() {
                return false;
            }
            k = k + 1;
        }
        true
    }

    /// The face registered under `id`.
    pub fn face(&self, id: FaceId) -> (result: &'static Face)
        requires
            (id.0 as int) < self.face_list().len(),
        ensures
            result == self.face_list()[id.0 as int],
    {
        self.faces[id.0 as usize]
    }

    /// How many faces are registered.
    pub fn len(&self) -> (result: usize)
        ensures
            result == self.face_list().len(),
    {
        self.faces.len()
    }

    /// Whether no face is registered.
    pub fn is_empty(&self) -> (result: bool)
        ensures
            result == (self.face_list().len() == 0),
    {
        self.faces.len() == 0
    }

    /// Which face draws `character` under `style`: the style's face if it
    /// covers it, else the first fallback that does, else the style's face
    /// (whose `.notdef` box is the right thing to show).
    pub fn face_for(&self, style: FaceId, character: char) -> (result: (&'static Face, FaceId))
        requires
            self.wf(),
            (style.0 as int) < self.face_list().len(),
            self.chain_valid(style),
        ensures
            result.0 == self.face_list()[result.1.0 as int],
            result.1 == self.chosen_face(style, character),
            ({
                let chain = self.chain(style.0 as int);
                if self.face_covers(style, character) {
                    result.1 == style
                } else if exists|k: int| 0 <= k < chain.len() && #[trigger] self.face_covers(chain[k], character) {
                    exists|k: int| 0 <= k < chain.len() && result.1 == chain[k] && #[trigger] self.face_covers(chain[k], character)
                        && forall|m: int| 0 <= m < k ==> !self.face_covers(chain[m], character)
                } else {
                    result.1 == style
                }
            }),
    {
        let primary = self.face(style);
        if primary.covers(character) {
            return (primary, style);
        }
        let chain = &self.fallbacks[style.0 as usize];
        let mut k: usize = 0;
        while k < chain.len()
            invariant
                self.wf(),
                (style.0 as int) < self.face_list().len(),
                self.chain_valid(style),
                chain@ == self.chain(style.0 as int),
                k <= chain@.len(),
                !self.face_covers(style, character),
                forall|m: int| 0 <= m < k ==> !self.face_covers(chain@[m], character),
                self.first_covering(chain@, character, 0) == self.first_covering(chain@, character, k as int),
            decreases chain@.len() - k,
        {
            let fallback = chain[k];
            let face = self.face(fallback);
            if face.covers(character) {
                proof {
                    assert(self.face_covers(chain@[k as int], character));
                }
                return (face, fallback);
            }
            k = k + 1;
        }
        (primary, style)
    }

    /// The face and every fallback it can reach, in order.
    pub fn family(&self, style: FaceId) -> (result: Vec<&'static Face>)
        requires
            self.wf(),
            (style.0 as int) < self.face_list().len(),
            self.chain_valid(style),
        ensures
            result@.len() == self.chain(style.0 as int).len() + 1,
            result@[0] == self.face_list()[style.0 as int],
            forall|k: int| 0 <= k < self.chain(style.0 as int).len() ==> #[trigger] result@[k + 1] == self.face_list()[self.chain(style.0 as int)[k].0 as int],
    {
        let mut faces: Vec<&'static Face> = Vec::new();
        faces.push(self.face(style));
        let chain = &self.fallbacks[style.0 as usize];
        let mut k: usize = 0;
        while k < chain.len()
            invariant
                self.wf(),
                self.chain_valid(style),
                (style.0 as int) < self.face_list().len(),
                chain@ == self.chain(style.0 as int),
                k <= chain@.len(),
                faces@.len() == k + 1,
                faces@[0] == self.face_list()[style.0 as int],
                forall|m: int| 0 <= m < k ==> #[trigger] faces@[m + 1] == self.face_list()[chain@[m].0 as int],
            decreases chain@.len() - k,
        {
            let face = self.face(chain[k]);
            faces.push(face);
            k = k + 1;
        }
        faces
    }

    /// Split `text` into runs by the face that draws each character under
    /// `style`. Runs are shaped independently, and a split only ever falls
    /// between characters drawn by different faces, so a Thai mark is never
    /// cut off from its base.
    pub fn runs(&self, style: FaceId, text: &str) -> (result: Vec<FaceRun>)
        requires
            self.wf(),
            (style.0 as int) < self.face_list().len(),
            self.chain_valid(style),
        ensures
            result@ == self.runs_spec(style, text@, text@.len() as int),
    {
        let chars = chars_of(text);
        let mut runs: Vec<FaceRun> = Vec::new();
        let mut offset: usize = 0;
        let mut i: usize = 0;
        while i < chars.len()
            invariant
                self.wf(),
                (style.0 as int) < self.face_list().len(),
                self.chain_valid(style),
                chars@ == text@,
                byte_len(text@) <= usize::MAX,
                i <= chars@.len(),
                offset == byte_len(chars@.take(i as int)),
                runs@ == self.runs_spec(style, chars@, i as int),
            decreases chars@.len() - i,
        {
            let c = chars[i];
            proof {
                lemma_byte_len_prefix(chars@, i as int);
                lemma_byte_len_cut(chars@, i + 1, i + 1);
            }
            let (_, face) = self.face_for(style, c);
            let end = offset + width_of(c);
            let n = runs.len();
            if n > 0 && runs[n - 1].face == face {
                let start = runs[n - 1].start;
                runs.set(n - 1, FaceRun { face, start, end });
            } else {
                runs.push(FaceRun { face, start: offset, end });
            }
            offset = end;
            i = i + 1;
        }
        runs
    }
}

} // verus!
