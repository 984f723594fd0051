//! A TrueType (SFNT) table reader. Every read is bounds-checked and every
//! malformed structure gives `None`, never a panic.

use vstd::prelude::*;
use crate::text::glyph::{glyph_shape, parse_components, parse_simple_glyph, shape_matches, GlyphShape};
use std::collections::HashMap;

verus! {

broadcast use vstd::std_specs::hash::group_hash_axioms;

/// The big-endian 16-bit number at byte `at`.
pub open spec fn u16_be(data: Seq<u8>, at: int) -> u16 {
    (data[at] * 256 + data[at + 1]) as u16
}

/// The big-endian 32-bit number at byte `at`.
pub open spec fn u32_be(data: Seq<u8>, at: int) -> u32 {
    (data[at] * 0x0100_0000 + data[at + 1] * 0x1_0000 + data[at + 2] * 256 + data[at + 3]) as u32
}

/// Whether `n` bytes can be read at `at`.
pub open spec fn fits(data: Seq<u8>, at: int, n: int) -> bool {
    0 <= at && at + n <= data.len()
}

/// The 16-bit number at `at`, if two bytes are there.
pub open spec fn u16_opt(data: Seq<u8>, at: int) -> Option<u16> {
    if fits(data, at, 2) { Some(u16_be(data, at)) } else { None }
}

fn be16(data: &[u8], at: usize) -> (result: u16)
    requires
        at + 2 <= data@.len(),
    ensures
        result == u16_be(data@, at as int),
{
    let hi = data[at] as u16;
    let lo = data[at + 1] as u16;
    assert(hi * 256 + lo < 0x1_0000) by (nonlinear_arith) requires hi < 256, lo < 256;
    hi * 256 + lo
}

fn be32(data: &[u8], at: usize) -> (result: u32)
    requires
        at + 4 <= data@.len(),
    ensures
        result == u32_be(data@, at as int),
{
    let b0 = data[at] as u32;
    let b1 = data[at + 1] as u32;
    let b2 = data[at + 2] as u32;
    let b3 = data[at + 3] as u32;
    let r = (b0 << 24) | (b1 << 16) | (b2 << 8) | b3;
    assert(r == (b0 * 0x0100_0000 + b1 * 0x1_0000 + b2 * 256 + b3) as u32) by (bit_vector)
        requires b0 < 256, b1 < 256, b2 < 256, b3 < 256, r == (b0 << 24) | (b1 << 16) | (b2 << 8) | b3;
    r
}

/// A big-endian cursor that never reads out of bounds.
#[derive(Debug, Clone, Copy)]
pub struct Reader<'a> {
    data: &'a [u8],
    pos: usize,
}

impl<'a> Reader<'a> {
    /// The bytes being read.
    pub closed spec fn bytes(&self) -> Seq<u8> {
        self.data@
    }

    /// The byte position, which may lie past the end.
    pub closed spec fn cursor(&self) -> int {
        self.pos as int
    }

    /// A reader at the first byte.
    pub fn new(data: &'a [u8]) -> (result: Reader<'a>)
        ensures
            result.bytes() == data@,
            result.cursor() == 0,
    {
        Reader { data, pos: 0 }
    }

    /// A reader at byte `pos`.
    pub fn at(data: &'a [u8], pos: usize) -> (result: Reader<'a>)
        ensures
            result.bytes() == data@,
            result.cursor() == pos,
    {
        Reader { data, pos }
    }

    /// The current byte position.
    pub fn pos(&self) -> (result: usize)
        ensures
            result == self.cursor(),
    {
        self.pos
    }

    /// Move to byte `pos`.
    pub fn seek(&mut self, pos: usize)
        ensures
            final(self).bytes() == old(self).bytes(),
            final(self).cursor() == pos,
    {
        self.pos = pos;
    }

    /// Move forward `bytes`, stopping at the largest position rather than
    /// overflowing.
    pub fn skip(&mut self, bytes: usize)
        ensures
            final(self).bytes() == old(self).bytes(),
            final(self).cursor() == if old(self).cursor() + bytes > usize::MAX { usize::MAX as int } else { old(self).cursor() + bytes },
    {
        self.pos = self.pos.saturating_add(bytes);
    }

    /// Bytes left after the position (zero past the end).
    pub fn remaining(&self) -> (result: usize)
        ensures
            result == if self.bytes().len() > self.cursor() { self.bytes().len() - self.cursor() } else { 0 },
    {
        self.data.len().saturating_sub(self.pos)
    }

    /// The next byte; `None`, and no move, at the end.
    pub fn u8(&mut self) -> (result: Option<u8>)
        ensures
            final(self).bytes() == old(self).bytes(),
            fits(old(self).bytes(), old(self).cursor(), 1) ==> result == Some(old(self).bytes()[old(self).cursor()])
                && final(self).cursor() == old(self).cursor() + 1,
            !fits(old(self).bytes(), old(self).cursor(), 1) ==> result is None && final(self).cursor() == old(self).cursor(),
    {
        if self.pos >= self.data.len() {
            return None;
        }
        let byte = self.data[self.pos];
        self.pos = self.pos + 1;
        Some(byte)
    }

    /// The next big-endian 16-bit number; `None`, and no move, if fewer than
    /// two bytes remain.
    pub fn u16(&mut self) -> (result: Option<u16>)
        ensures
            final(self).bytes() == old(self).bytes(),
            fits(old(self).bytes(), old(self).cursor(), 2) ==> result == Some(u16_be(old(self).bytes(), old(self).cursor()))
                && final(self).cursor() == old(self).cursor() + 2,
            !fits(old(self).bytes(), old(self).cursor(), 2) ==> result is None && final(self).cursor() == old(self).cursor(),
    {
        if self.pos >= self.data.len() || self.data.len() - self.pos < 2 {
            return None;
        }
        let value = be16(self.data, self.pos);
        self.pos = self.pos + 2;
        Some(value)
    }

    /// The next 16-bit number, read as signed.
    pub fn i16(&mut self) -> (result: Option<i16>)
        ensures
            final(self).bytes() == old(self).bytes(),
            fits(old(self).bytes(), old(self).cursor(), 2) ==> result == Some(u16_be(old(self).bytes(), old(self).cursor()) as i16)
                && final(self).cursor() == old(self).cursor() + 2,
            !fits(old(self).bytes(), old(self).cursor(), 2) ==> result is None && final(self).cursor() == old(self).cursor(),
    {
        match self.u16() {
            Some(value) => Some(value as i16),
            None => None,
        }
    }

    /// The next big-endian 32-bit number; `None`, and no move, if fewer than
    /// four bytes remain.
    pub fn u32(&mut self) -> (result: Option<u32>)
        ensures
            final(self).bytes() == old(self).bytes(),
            fits(old(self).bytes(), old(self).cursor(), 4) ==> result == Some(u32_be(old(self).bytes(), old(self).cursor()))
                && final(self).cursor() == old(self).cursor() + 4,
            !fits(old(self).bytes(), old(self).cursor(), 4) ==> result is None && final(self).cursor() == old(self).cursor(),
    {
        if self.pos >= self.data.len() || self.data.len() - self.pos < 4 {
            return None;
        }
        let value = be32(self.data, self.pos);
        self.pos = self.pos + 4;
        Some(value)
    }

    /// The 16-bit number at an absolute byte offset, without moving.
    pub fn u16_at(&self, offset: usize) -> (result: Option<u16>)
        ensures
            result == u16_opt(self.bytes(), offset as int),
    {
        if offset >= self.data.len() || self.data.len() - offset < 2 {
            return None;
        }
        Some(be16(self.data, offset))
    }
}

/// The version word of TrueType outlines, and Apple's old `true` tag.
pub open spec fn sfnt_version_ok(version: u32) -> bool {
    version == 0x0001_0000 || version == 0x7472_7565
}

/// The table directory's first `n` records, as a map from tag to offset and
/// length. A record whose offset lies past the file is dropped; a length
/// running past the file is clamped to it; a later record with the same tag
/// replaces an earlier one.
pub open spec fn directory(data: Seq<u8>, n: int) -> Map<u32, (usize, usize)>
    decreases n,
{
    if n <= 0 {
        Map::empty()
    } else {
        let m = directory(data, n - 1);
        let record = 12 + 16 * (n - 1);
        let offset = u32_be(data, record + 8) as int;
        let length = u32_be(data, record + 12) as int;
        if offset <= data.len() {
            let clamped = if length < data.len() - offset { length } else { data.len() - offset };
            m.insert(u32_be(data, record), (offset as usize, clamped as usize))
        } else {
            m
        }
    }
}

/// Whether `data` starts like a TrueType font this reader handles, with its
/// whole table directory present.
pub open spec fn sfnt_readable(data: Seq<u8>) -> bool {
    &&& data.len() >= 6
    &&& sfnt_version_ok(u32_be(data, 0))
    &&& (u16_be(data, 4) == 0 || 12 + 16 * u16_be(data, 4) <= data.len())
}

/// A four-byte tag as the number the directory is keyed by.
pub open spec fn tag_key(tag: Seq<u8>) -> u32 {
    u32_be(tag, 0)
}

/// A parsed font file: the table directory plus the bytes it points into.
#[derive(Debug, Clone)]
pub struct Sfnt<'a> {
    data: &'a [u8],
    tables: HashMap<u32, (usize, usize)>,
}

impl<'a> Sfnt<'a> {
    /// The font's bytes.
    pub closed spec fn bytes(&self) -> Seq<u8> {
        self.data@
    }

    /// The table directory.
    pub closed spec fn tables(&self) -> Map<u32, (usize, usize)> {
        self.tables@
    }

    /// Every directory entry lies inside the font.
    pub closed spec fn wf(&self) -> bool {
        forall|k: u32| #[trigger] self.tables@.contains_key(k) ==> self.tables@[k].0 + self.tables@[k].1 <= self.data@.len()
    }

    /// The bytes of the table with tag `key`, if the directory has it.
    pub open spec fn table_bytes(&self, key: u32) -> Option<Seq<u8>> {
        if self.tables().contains_key(key) {
            let (offset, length) = self.tables()[key];
            Some(self.bytes().subrange(offset as int, offset + length))
        } else {
            None
        }
    }

    /// Read the table directory. `None` for anything but TrueType outlines
    /// (CFF's `OTTO` included) or a directory that runs past the end.
    pub fn parse(data: &'a [u8]) -> (result: Option<Sfnt<'a>>)
        ensures
            result is Some <==> sfnt_readable(data@),
            result matches Some(s) ==> s.wf() && s.bytes() == data@
                && s.tables() == directory(data@, u16_be(data@, 4) as int),
    {
        let mut reader = Reader::new(data);
        let version = match reader.u32() {
            Some(v) => v,
            None => return None,
        };
        if version != 0x0001_0000 && version != 0x7472_7565 {
            return None;
        }
        let table_count = match reader.u16() {
            Some(c) => c,
            None => return None,
        };
        reader.skip(6);
        let mut tables: HashMap<u32, (usize, usize)> = HashMap::new();
        let mut i: u16 = 0;
        while i < table_count
            invariant
                reader.bytes() == data@,
                data@.len() >= 6,
                table_count == u16_be(data@, 4),
                i <= table_count,
                reader.cursor() == 12 + 16 * i,
                i == 0 || 12 + 16 * i <= data@.len(),
                tables@ == directory(data@, i as int),
                forall|k: u32| #[trigger] tables@.contains_key(k) ==> tables@[k].0 + tables@[k].1 <= data@.len(),
            decreases table_count - i,
        {
            let b0 = reader.u8();
            let b1 = reader.u8();
            let b2 = reader.u8();
            let b3 = reader.u8();
            let (t0, t1, t2, t3) = match (b0, b1, b2, b3) {
                (Some(t0), Some(t1), Some(t2), Some(t3)) => (t0, t1, t2, t3),
                _ => return None,
            };
            let _checksum = match reader.u32() {
                Some(v) => v,
                None => return None,
            };
            let offset = match reader.u32() {
                Some(v) => v as usize,
                None => return None,
            };
            let length = match reader.u32() {
                Some(v) => v as usize,
                None => return None,
            };
            let tag = (t0 as u32) * 0x0100_0000 + (t1 as u32) * 0x1_0000 + (t2 as u32) * 256 + (t3 as u32);
            if offset <= data.len() {
                let room = data.len() - offset;
                let clamped = if length < room { length } else { room };
                tables.insert(tag, (offset, clamped));
            }
            i = i + 1;
        }
        Some(Sfnt { data, tables })
    }
}

impl<'a> Sfnt<'a> {
    /// The bytes of the table with the tag `key`, as a number.
    pub fn table_by_key(&self, key: u32) -> (result: Option<&'a [u8]>)
        requires
            self.wf(),
        ensures
            match self.table_bytes(key) {
                Some(t) => result matches Some(r) && r@ == t,
                None => result is None,
            },
    {
        match self.tables.get(&key) {
            Some(entry) => {
                let (offset, length) = *entry;
                let _n = self.data.len();
                assert(self.tables@.contains_key(key) && self.tables@[key] == *entry);
                Some(&self.data[offset..offset + length])
            },
            None => None,
        }
    }

    /// The bytes of the table tagged `tag`.
    pub fn table(&self, tag: &[u8; 4]) -> (result: Option<&'a [u8]>)
        requires
            self.wf(),
        ensures
            match self.table_bytes(tag_key(tag@)) {
                Some(t) => result matches Some(r) && r@ == t,
                None => result is None,
            },
    {
        self.table_by_key(be32(tag, 0))
    }

    /// Whether the directory lists `tag`.
    pub fn has_table(&self, tag: &[u8; 4]) -> (result: bool)
        ensures
            result == self.tables().contains_key(tag_key(tag@)),
    {
        let key = be32(tag, 0);
        self.tables.contains_key(&key)
    }
}

/// The tags of the tables read here, as directory keys.
pub open spec fn key_head() -> u32 { 0x6865_6164 }
/// `maxp`.
pub open spec fn key_maxp() -> u32 { 0x6d61_7870 }
/// `hhea`.
pub open spec fn key_hhea() -> u32 { 0x6868_6561 }
/// `hmtx`.
pub open spec fn key_hmtx() -> u32 { 0x686d_7478 }
/// `cmap`.
pub open spec fn key_cmap() -> u32 { 0x636d_6170 }
/// `loca`.
pub open spec fn key_loca() -> u32 { 0x6c6f_6361 }
/// `glyf`.
pub open spec fn key_glyf() -> u32 { 0x676c_7966 }

/// The handful of scalars from `head`, `hhea` and `maxp` that everything
/// else needs.
#[derive(Debug, Clone, Copy, PartialEq, Eq, Structural)]
pub struct FontMetrics {
    /// Design units per em.
    pub units_per_em: u16,
    pub glyph_count: u16,
    pub ascender: i16,
    pub descender: i16,
    pub line_gap: i16,
    /// Whether `loca` holds 32-bit offsets rather than 16-bit halves.
    pub long_loca: bool,
    pub h_metric_count: u16,
}

/// What [`FontMetrics::parse`] reads from the three tables: `None` if one
/// is missing or too short, or units-per-em is zero.
pub open spec fn metrics_result(head: Option<Seq<u8>>, maxp: Option<Seq<u8>>, hhea: Option<Seq<u8>>) -> Option<FontMetrics> {
    match (head, maxp, hhea) {
        (Some(head), Some(maxp), Some(hhea)) => {
            if fits(head, 18, 2) && fits(head, 50, 2) && fits(maxp, 4, 2) && fits(hhea, 34, 2) && u16_be(head, 18) > 0 {
                Some(FontMetrics {
                    units_per_em: u16_be(head, 18),
                    glyph_count: u16_be(maxp, 4),
                    ascender: u16_be(hhea, 4) as i16,
                    descender: u16_be(hhea, 6) as i16,
                    line_gap: u16_be(hhea, 8) as i16,
                    long_loca: u16_be(head, 50) == 1,
                    h_metric_count: u16_be(hhea, 34),
                })
            } else {
                None
            }
        },
        _ => None,
    }
}

impl FontMetrics {
    /// Read units-per-em and the `loca` format from `head`, the glyph count
    /// from `maxp`, and the vertical metrics and metric count from `hhea`.
    pub fn parse(sfnt: &Sfnt<'_>) -> (result: Option<FontMetrics>)
        requires
            sfnt.wf(),
        ensures
            result == metrics_result(sfnt.table_bytes(key_head()), sfnt.table_bytes(key_maxp()), sfnt.table_bytes(key_hhea())),
    {
        let head = match sfnt.table_by_key(0x6865_6164) {
            Some(t) => t,
            None => return None,
        };
        let head_reader = Reader::new(head);
        let units_per_em = match head_reader.u16_at(18) {
            Some(v) => v,
            None => return None,
        };
        let long_loca = match head_reader.u16_at(50) {
            Some(v) => v == 1,
            None => return None,
        };
        let maxp = match sfnt.table_by_key(0x6d61_7870) {
            Some(t) => t,
            None => return None,
        };
        let glyph_count = match Reader::new(maxp).u16_at(4) {
            Some(v) => v,
            None => return None,
        };
        let hhea = match sfnt.table_by_key(0x6868_6561) {
            Some(t) => t,
            None => return None,
        };
        let hhea_reader = Reader::new(hhea);
        let ascender = match hhea_reader.u16_at(4) {
            Some(v) => v as i16,
            None => return None,
        };
        let descender = match hhea_reader.u16_at(6) {
            Some(v) => v as i16,
            None => return None,
        };
        let line_gap = match hhea_reader.u16_at(8) {
            Some(v) => v as i16,
            None => return None,
        };
        let h_metric_count = match hhea_reader.u16_at(34) {
            Some(v) => v,
            None => return None,
        };
        if units_per_em > 0 {
            Some(FontMetrics { units_per_em, glyph_count, ascender, descender, line_gap, long_loca, h_metric_count })
        } else {
            None
        }
    }
}

/// Horizontal advances and left side bearings, in design units.
#[derive(Debug, Clone)]
pub struct HorizontalMetrics {
    advances: Vec<u16>,
    left_side_bearings: Vec<i16>,
}

/// The number of full `hmtx` records: `numberOfHMetrics`, capped at the
/// glyph count.
pub open spec fn full_metric_count(metrics: FontMetrics) -> int {
    if metrics.h_metric_count < metrics.glyph_count { metrics.h_metric_count as int } else { metrics.glyph_count as int }
}

/// The left side bearing `hmtx` gives glyph `i` past the full records:
/// from the trailing bearing array, or 0 where the table has ended.
pub open spec fn tail_bearing(hmtx: Seq<u8>, count: int, i: int) -> i16 {
    let at = 4 * count + 2 * (i - count);
    if fits(hmtx, at, 2) { u16_be(hmtx, at) as i16 } else { 0 }
}

impl HorizontalMetrics {
    /// The advances.
    pub closed spec fn advance_list(&self) -> Seq<u16> {
        self.advances@
    }

    /// The left side bearings.
    pub closed spec fn bearing_list(&self) -> Seq<i16> {
        self.left_side_bearings@
    }

    /// Read `hmtx`: an advance and a bearing for each full record, then a
    /// bearing alone for each remaining glyph (0 where the table ends
    /// early). `None` if the table is missing or a full record is cut short.
    pub fn parse(sfnt: &Sfnt<'_>, metrics: &FontMetrics) -> (result: Option<HorizontalMetrics>)
        requires
            sfnt.wf(),
        ensures
            match sfnt.table_bytes(key_hmtx()) {
                None => result is None,
                Some(hmtx) => {
                    let count = full_metric_count(*metrics);
                    &&& result is Some <==> 4 * count <= hmtx.len()
                    &&& result matches Some(h) ==> {
                        &&& h.advance_list().len() == count
                        &&& h.bearing_list().len() == metrics.glyph_count
                        &&& forall|i: int| 0 <= i < count ==> #[trigger] h.advance_list()[i] == u16_be(hmtx, 4 * i)
                        &&& forall|i: int| 0 <= i < count ==> #[trigger] h.bearing_list()[i] == u16_be(hmtx, 4 * i + 2) as i16
                        &&& forall|i: int| count <= i < metrics.glyph_count ==> #[trigger] h.bearing_list()[i] == tail_bearing(hmtx, count, i)
                    }
                },
            },
    {
        let hmtx = match sfnt.table_by_key(0x686d_7478) {
            Some(t) => t,
            None => return None,
        };
        let mut reader = Reader::new(hmtx);
        let count: usize = if metrics.h_metric_count < metrics.glyph_count {
            metrics.h_metric_count as usize
        } else {
            metrics.glyph_count as usize
        };
        let mut advances: Vec<u16> = Vec::new();
        let mut left_side_bearings: Vec<i16> = Vec::new();
        let mut i: usize = 0;
        while i < count
            invariant
                reader.bytes() == hmtx@,
                sfnt.table_bytes(key_hmtx()) == Some(hmtx@),
                count == full_metric_count(*metrics),
                count <= 0xffff,
                i <= count,
                reader.cursor() == 4 * i,
                4 * i <= hmtx@.len(),
                advances@.len() == i,
                left_side_bearings@.len() == i,
                forall|j: int| 0 <= j < i ==> #[trigger] advances@[j] == u16_be(hmtx@, 4 * j),
                forall|j: int| 0 <= j < i ==> #[trigger] left_side_bearings@[j] == u16_be(hmtx@, 4 * j + 2) as i16,
            decreases count - i,
        {
            let advance = match reader.u16() {
                Some(v) => v,
                None => return None,
            };
            let bearing = match reader.i16() {
                Some(v) => v,
                None => return None,
            };
            advances.push(advance);
            left_side_bearings.push(bearing);
            i = i + 1;
        }
        let glyph_count = metrics.glyph_count as usize;
        let mut j: usize = count;
        while j < glyph_count
            invariant
                reader.bytes() == hmtx@,
                count == full_metric_count(*metrics),
                glyph_count == metrics.glyph_count,
                count <= j <= glyph_count,
                forall|k: int| count <= k < j ==> #[trigger] left_side_bearings@[k] == tail_bearing(hmtx@, count as int, k),
                fits(hmtx@, 4 * count + 2 * (j - count), 0) ==> reader.cursor() == 4 * count + 2 * (j - count),
                !fits(hmtx@, 4 * count + 2 * (j - count), 0) ==> reader.cursor() > hmtx@.len() - 2,
                advances@.len() == count,
                left_side_bearings@.len() == j,
                forall|k: int| 0 <= k < count ==> #[trigger] advances@[k] == u16_be(hmtx@, 4 * k),
                forall|k: int| 0 <= k < count ==> #[trigger] left_side_bearings@[k] == u16_be(hmtx@, 4 * k + 2) as i16,
            decreases glyph_count - j,
        {
            let bearing = match reader.i16() {
                Some(v) => v,
                None => 0,
            };
            left_side_bearings.push(bearing);
            j = j + 1;
        }
        Some(HorizontalMetrics { advances, left_side_bearings })
    }

    /// The advance of a glyph; glyphs past the full records share the last
    /// advance (0 if there are none).
    pub fn advance(&self, glyph: u16) -> (result: u16)
        ensures
            glyph < self.advance_list().len() ==> result == self.advance_list()[glyph as int],
            glyph >= self.advance_list().len() && self.advance_list().len() > 0 ==> result == self.advance_list().last(),
            self.advance_list().len() == 0 ==> result == 0,
    {
        let index = glyph as usize;
        if index < self.advances.len() {
            self.advances[index]
        } else if self.advances.len() > 0 {
            self.advances[self.advances.len() - 1]
        } else {
            0
        }
    }

    /// The left side bearing of a glyph, 0 past the end.
    pub fn left_side_bearing(&self, glyph: u16) -> (result: i16)
        ensures
            glyph < self.bearing_list().len() ==> result == self.bearing_list()[glyph as int],
            glyph >= self.bearing_list().len() ==> result == 0,
    {
        let index = glyph as usize;
        if index < self.left_side_bearings.len() {
            self.left_side_bearings[index]
        } else {
            0
        }
    }
}

/// The `glyf`/`loca` pair: where each glyph's outline lies.
#[derive(Debug, Clone)]
pub struct GlyphSource<'a> {
    glyf: &'a [u8],
    offsets: Vec<u32>,
}

/// Offset `i` of a `loca` table: a 32-bit number, or a 16-bit half.
pub open spec fn loca_offset(loca: Seq<u8>, long: bool, i: int) -> u32 {
    if long { u32_be(loca, 4 * i) } else { (u16_be(loca, 2 * i) * 2) as u32 }
}

impl<'a> GlyphSource<'a> {
    /// The `glyf` bytes.
    pub closed spec fn glyf_bytes(&self) -> Seq<u8> {
        self.glyf@
    }

    /// Where each glyph starts; glyph `i` ends where `i + 1` starts.
    pub closed spec fn offset_list(&self) -> Seq<u32> {
        self.offsets@
    }

    /// Read `loca`: one offset per glyph plus the end, in the format `head`
    /// names. `None` if `glyf` or `loca` is missing or `loca` is too short.
    pub fn parse(sfnt: &Sfnt<'a>, metrics: &FontMetrics) -> (result: Option<GlyphSource<'a>>)
        requires
            sfnt.wf(),
        ensures
            match (sfnt.table_bytes(key_glyf()), sfnt.table_bytes(key_loca())) {
                (Some(glyf), Some(loca)) => {
                    let count = metrics.glyph_count + 1;
                    let width = if metrics.long_loca { 4int } else { 2int };
                    &&& result is Some <==> width * count <= loca.len()
                    &&& result matches Some(g) ==> g.glyf_bytes() == glyf && g.offset_list().len() == count
                        && forall|i: int| 0 <= i < count ==> #[trigger] g.offset_list()[i] == loca_offset(loca, metrics.long_loca, i)
                },
                _ => result is None,
            },
    {
        let glyf = match sfnt.table_by_key(0x676c_7966) {
            Some(t) => t,
            None => return None,
        };
        let loca = match sfnt.table_by_key(0x6c6f_6361) {
            Some(t) => t,
            None => return None,
        };
        let count = metrics.glyph_count as usize + 1;
        let mut reader = Reader::new(loca);
        let mut offsets: Vec<u32> = Vec::new();
        let mut i: usize = 0;
        let ghost width: int = if metrics.long_loca { 4 } else { 2 };
        while i < count
            invariant
                reader.bytes() == loca@,
                sfnt.table_bytes(key_glyf()) == Some(glyf@),
                sfnt.table_bytes(key_loca()) == Some(loca@),
                count == metrics.glyph_count + 1,
                width == if metrics.long_loca { 4int } else { 2int },
                i <= count,
                reader.cursor() == width * i,
                width * i <= loca@.len(),
                offsets@.len() == i,
                forall|k: int| 0 <= k < i ==> #[trigger] offsets@[k] == loca_offset(loca@, metrics.long_loca, k),
            decreases count - i,
        {
            let offset = if metrics.long_loca {
                match reader.u32() {
                    Some(v) => v,
                    None => return None,
                }
            } else {
                match reader.u16() {
                    Some(v) => (v as u32) * 2,
                    None => return None,
                }
            };
            offsets.push(offset);
            i = i + 1;
        }
        Some(GlyphSource { glyf, offsets })
    }

    /// What the record of one glyph holds: nothing (a space), contours, or
    /// components. `None` if the index is out of range or the record is
    /// malformed.
    pub fn shape(&self, glyph: u16) -> (result: Option<GlyphShape>)
        ensures
            match glyph_shape(self.glyf_bytes(), self.offset_list(), glyph) {
                None => result is None,
                Some(view) => result matches Some(s) && shape_matches(s, view),
            },
    {
        let index = glyph as usize;
        if index + 1 >= self.offsets.len() {
            return None;
        }
        let start = self.offsets[index] as usize;
        let end = self.offsets[index + 1] as usize;
        if end <= start {
            return Some(GlyphShape::Empty);
        }
        if end > self.glyf.len() {
            return None;
        }
        let data = vstd::slice::slice_subrange(self.glyf, start, end);
        let count = match u16_at_wide(data, 0) {
            Some(v) => v as i16,
            None => return None,
        };
        if count >= 0 {
            match parse_simple_glyph(data, 10, count as usize) {
                Some(contours) => Some(GlyphShape::Simple(contours)),
                None => None,
            }
        } else {
            match parse_components(data, 10) {
                Some(components) => Some(GlyphShape::Composite(components)),
                None => None,
            }
        }
    }
}

/// The 16-bit number at an offset computed in wide arithmetic.
pub(crate) fn u16_at_wide(data: &[u8], at: u128) -> (result: Option<u16>)
    ensures
        result == u16_opt(data@, at as int),
{
    let n = data.len() as u128;
    if at >= n || n - at < 2 {
        return None;
    }
    Some(be16(data, at as usize))
}

/// The 32-bit number at an offset computed in wide arithmetic.
pub(crate) fn u32_at_wide(data: &[u8], at: u128) -> (result: Option<u32>)
    ensures
        fits(data@, at as int, 4) ==> result == Some(u32_be(data@, at as int)),
        !fits(data@, at as int, 4) ==> result is None,
{
    let n = data.len() as u128;
    if at >= n || n - at < 4 {
        return None;
    }
    Some(be32(data, at as usize))
}

/// How much a character map subtable's platform and encoding are worth:
/// 2 for full Unicode, 1 for the Basic Multilingual Plane, 0 for anything
/// platform-specific, which is ignored.
pub open spec fn encoding_rank(platform: u16, encoding: u16) -> u8 {
    if (platform == 3 && encoding == 10) || (platform == 0 && (encoding == 4 || encoding == 6)) {
        2
    } else if (platform == 3 && encoding == 1) || (platform == 0 && encoding == 3) {
        1
    } else {
        0
    }
}

/// The best-ranked subtable among the first `n` encoding records of `cmap`,
/// the earliest one winning a tie: its rank and offset.
pub open spec fn best_subtable(cmap: Seq<u8>, n: int) -> Option<(u8, u32)>
    decreases n,
{
    if n <= 0 {
        None
    } else {
        let best = best_subtable(cmap, n - 1);
        let record = 4 + 8 * (n - 1);
        let rank = encoding_rank(u16_be(cmap, record), u16_be(cmap, record + 2));
        if rank == 0 {
            best
        } else {
            match best {
                Some((r, _)) => if rank > r { Some((rank, u32_be(cmap, record + 4))) } else { best },
                None => Some((rank, u32_be(cmap, record + 4))),
            }
        }
    }
}

/// The glyph a format-4 segment gives `code` (`None` for the terminating
/// 0xFFFF, for glyph 0, and where an indexed slot is missing or 0): the code
/// plus the segment's delta, or the slot the range offset points at plus the
/// delta, both modulo 2^16.
pub open spec fn cmap4_glyph(t: Seq<u8>, slot_base: int, start: u16, delta: u16, range_offset: u16, code: int) -> Option<u16> {
    if code == 0xffff {
        None
    } else {
        let glyph: int = if range_offset == 0 {
            (code + delta) % 0x1_0000
        } else {
            let slot = slot_base + range_offset + (code - start) * 2;
            if !fits(t, slot, 2) || u16_be(t, slot) == 0 { 0 } else { (u16_be(t, slot) + delta) % 0x1_0000 }
        };
        if glyph == 0 { None } else { Some(glyph as u16) }
    }
}

/// `m` with the codes `code..=end` of one format-4 segment added.
pub open spec fn cmap4_codes(
    t: Seq<u8>,
    slot_base: int,
    start: u16,
    delta: u16,
    range_offset: u16,
    code: int,
    end: int,
    m: Map<u32, u16>,
) -> Map<u32, u16>
    decreases end + 1 - code,
{
    if code > end {
        m
    } else {
        let next = match cmap4_glyph(t, slot_base, start, delta, range_offset, code) {
            Some(g) => m.insert(code as u32, g),
            None => m,
        };
        cmap4_codes(t, slot_base, start, delta, range_offset, code + 1, end, next)
    }
}

/// `m` with format-4 segments `seg..count` added, the four parallel arrays
/// starting at `ends`, `starts`, `deltas` and `ranges`; `None` if any array
/// entry is missing.
pub open spec fn cmap4_segments(
    t: Seq<u8>,
    ends: int,
    starts: int,
    deltas: int,
    ranges: int,
    count: int,
    seg: int,
    m: Map<u32, u16>,
) -> Option<Map<u32, u16>>
    decreases count - seg,
{
    if seg >= count {
        Some(m)
    } else if !(fits(t, ends + 2 * seg, 2) && fits(t, starts + 2 * seg, 2) && fits(t, deltas + 2 * seg, 2) && fits(t, ranges + 2 * seg, 2)) {
        None
    } else {
        let end = u16_be(t, ends + 2 * seg);
        let start = u16_be(t, starts + 2 * seg);
        let delta = u16_be(t, deltas + 2 * seg);
        let range_offset = u16_be(t, ranges + 2 * seg);
        let next = if start > end {
            m
        } else {
            cmap4_codes(t, ranges + 2 * seg, start, delta, range_offset, start as int, end as int, m)
        };
        cmap4_segments(t, ends, starts, deltas, ranges, count, seg + 1, next)
    }
}

/// The map a format-4 subtable at `off` gives.
pub open spec fn cmap4_result(t: Seq<u8>, off: int) -> Option<Map<u32, u16>> {
    if !fits(t, off, 8) {
        None
    } else {
        let count = (u16_be(t, off + 6) / 2) as int;
        let ends = off + 14;
        let starts = ends + 2 * count + 2;
        let deltas = starts + 2 * count;
        let ranges = deltas + 2 * count;
        cmap4_segments(t, ends, starts, deltas, ranges, count, 0, Map::empty())
    }
}

/// `m` with the codes `code..=end` of one format-12 group added: each maps
/// to the group's first glyph plus its distance from the group's start,
/// when that is a non-zero 16-bit glyph.
pub open spec fn cmap12_codes(start: u32, first_glyph: u32, code: int, end: int, m: Map<u32, u16>) -> Map<u32, u16>
    decreases end + 1 - code,
{
    if code > end {
        m
    } else {
        let glyph = first_glyph + (code - start);
        let next = if 0 < glyph <= 0xffff { m.insert(code as u32, glyph as u16) } else { m };
        cmap12_codes(start, first_glyph, code + 1, end, next)
    }
}

/// `m` with format-12 groups `g..count` added (12 bytes each from `at`);
/// `None` if a group is cut short. A reversed group, or one spanning more
/// than the Unicode range, is skipped.
pub open spec fn cmap12_groups(t: Seq<u8>, at: int, count: int, g: int, m: Map<u32, u16>) -> Option<Map<u32, u16>>
    decreases count - g,
{
    if g >= count {
        Some(m)
    } else if !fits(t, at + 12 * g, 12) {
        None
    } else {
        let start = u32_be(t, at + 12 * g);
        let end = u32_be(t, at + 12 * g + 4);
        let first = u32_be(t, at + 12 * g + 8);
        let next = if start > end || end - start > 0x10_ffff { m } else { cmap12_codes(start, first, start as int, end as int, m) };
        cmap12_groups(t, at, count, g + 1, next)
    }
}

/// The map a format-12 subtable gives, read from just after its format.
pub open spec fn cmap12_result(t: Seq<u8>, p: int) -> Option<Map<u32, u16>> {
    if !fits(t, p + 2, 12) {
        None
    } else {
        cmap12_groups(t, p + 14, u32_be(t, p + 10) as int, 0, Map::empty())
    }
}

/// What [`CharacterMap::parse`] reads from a `cmap` table: the best-ranked
/// Unicode subtable, in format 4 or 12.
pub open spec fn cmap_result(cmap: Seq<u8>) -> Option<Map<u32, u16>> {
    if !fits(cmap, 2, 2) {
        None
    } else {
        let count = u16_be(cmap, 2) as int;
        if count > 0 && 4 + 8 * count > cmap.len() {
            None
        } else {
            match best_subtable(cmap, count) {
                None => None,
                Some((_, off)) => if !fits(cmap, off as int, 2) {
                    None
                } else if u16_be(cmap, off as int) == 4 {
                    cmap4_result(cmap, off as int)
                } else if u16_be(cmap, off as int) == 12 {
                    cmap12_result(cmap, off + 2)
                } else {
                    None
                },
            }
        }
    }
}

/// Add the codes `start..=end` of one format-4 segment to `map`.
fn cmap4_add_codes(
    t: &[u8],
    slot_base: u128,
    start: u16,
    end: u16,
    delta: u16,
    range_offset: u16,
    map: &mut HashMap<u32, u16>,
)
    requires
        start <= end,
        slot_base <= u64::MAX as u128 + 0x10_0000,
    ensures
        final(map)@ == cmap4_codes(t@, slot_base as int, start, delta, range_offset, start as int, end as int, old(map)@),
{
    let ghost goal = cmap4_codes(t@, slot_base as int, start, delta, range_offset, start as int, end as int, map@);
    let mut code: u32 = start as u32;
    while code <= end as u32
        invariant
            start <= code <= end as u32 + 1,
            slot_base <= u64::MAX as u128 + 0x10_0000,
            goal == cmap4_codes(t@, slot_base as int, start, delta, range_offset, start as int, end as int, old(map)@),
            goal == cmap4_codes(t@, slot_base as int, start, delta, range_offset, code as int, end as int, map@),
        decreases end as u32 + 1 - code,
    {
        if code != 0xffff {
            let glyph: u32 = if range_offset == 0 {
                (code + delta as u32) % 0x1_0000
            } else {
                let slot = slot_base + range_offset as u128 + (code - start as u32) as u128 * 2;
                match u16_at_wide(t, slot) {
                    Some(0) | None => 0,
                    Some(g) => (g as u32 + delta as u32) % 0x1_0000,
                }
            };
            if glyph != 0 {
                map.insert(code, glyph as u16);
            }
        }
        code = code + 1;
    }
}

fn parse_cmap_format4(table: &[u8], offset: usize) -> (result: Option<HashMap<u32, u16>>)
    ensures
        match cmap4_result(table@, offset as int) {
            Some(m) => result matches Some(h) && h@ == m,
            None => result is None,
        },
{
    let mut reader = Reader::at(table, offset);
    let _format = match reader.u16() {
        Some(v) => v,
        None => return None,
    };
    let _length = match reader.u16() {
        Some(v) => v,
        None => return None,
    };
    let _language = match reader.u16() {
        Some(v) => v,
        None => return None,
    };
    let count = match reader.u16() {
        Some(v) => v / 2,
        None => return None,
    };
    let ends = offset as u128 + 14;
    let starts = ends + 2 * count as u128 + 2;
    let deltas = starts + 2 * count as u128;
    let ranges = deltas + 2 * count as u128;
    let mut map: HashMap<u32, u16> = HashMap::new();
    let ghost goal = cmap4_result(table@, offset as int);
    let mut seg: u16 = 0;
    while seg < count
        invariant
            offset + 8 <= table@.len(),
            count == u16_be(table@, offset + 6) / 2,
            ends == offset + 14,
            starts == ends + 2 * count + 2,
            deltas == starts + 2 * count,
            ranges == deltas + 2 * count,
            seg <= count,
            goal == cmap4_result(table@, offset as int),
            goal == cmap4_segments(table@, ends as int, starts as int, deltas as int, ranges as int, count as int, seg as int, map@),
        decreases count - seg,
    {
        let s2 = 2 * seg as u128;
        let end = match u16_at_wide(table, ends + s2) {
            Some(v) => v,
            None => return None,
        };
        let start = match u16_at_wide(table, starts + s2) {
            Some(v) => v,
            None => return None,
        };
        let delta = match u16_at_wide(table, deltas + s2) {
            Some(v) => v,
            None => return None,
        };
        let range_offset = match u16_at_wide(table, ranges + s2) {
            Some(v) => v,
            None => return None,
        };
        if start <= end {
            cmap4_add_codes(table, ranges + s2, start, end, delta, range_offset, &mut map);
        }
        seg = seg + 1;
    }
    Some(map)
}

/// Add the codes `start..=end` of one format-12 group to `map`.
fn cmap12_add_codes(start: u32, end: u32, first_glyph: u32, map: &mut HashMap<u32, u16>)
    requires
        start <= end,
    ensures
        final(map)@ == cmap12_codes(start, first_glyph, start as int, end as int, old(map)@),
{
    let ghost goal = cmap12_codes(start, first_glyph, start as int, end as int, map@);
    let mut code: u64 = start as u64;
    while code <= end as u64
        invariant
            start <= code <= end as u64 + 1,
            goal == cmap12_codes(start, first_glyph, start as int, end as int, old(map)@),
            goal == cmap12_codes(start, first_glyph, code as int, end as int, map@),
        decreases end as u64 + 1 - code,
    {
        let glyph: u64 = first_glyph as u64 + (code - start as u64);
        if glyph != 0 && glyph <= 0xffff {
            map.insert(code as u32, glyph as u16);
        }
        code = code + 1;
    }
}

fn parse_cmap_format12(reader: &mut Reader<'_>) -> (result: Option<HashMap<u32, u16>>)
    ensures
        match cmap12_result(old(reader).bytes(), old(reader).cursor()) {
            Some(m) => result matches Some(h) && h@ == m,
            None => result is None,
        },
{
    let ghost t = reader.bytes();
    let ghost p = reader.cursor();
    let table = reader.data;
    let base = reader.pos as u128;
    let _length = match u32_at_wide(table, base + 2) {
        Some(v) => v,
        None => return None,
    };
    let _language = match u32_at_wide(table, base + 6) {
        Some(v) => v,
        None => return None,
    };
    let count = match u32_at_wide(table, base + 10) {
        Some(v) => v,
        None => return None,
    };
    let at = base + 14;
    let mut map: HashMap<u32, u16> = HashMap::new();
    let ghost goal = cmap12_result(t, p);
    let mut g: u32 = 0;
    while g < count
        invariant
            table@ == t,
            t == old(reader).bytes(),
            p == old(reader).cursor(),
            0 <= p <= u64::MAX,
            fits(t, p + 2, 12),
            count == u32_be(t, p + 10),
            at == p + 14,
            g <= count,
            goal == cmap12_result(t, p),
            goal == cmap12_groups(t, at as int, count as int, g as int, map@),
        decreases count - g,
    {
        let record = at + 12 * g as u128;
        let start = match u32_at_wide(table, record) {
            Some(v) => v,
            None => return None,
        };
        let end = match u32_at_wide(table, record + 4) {
            Some(v) => v,
            None => return None,
        };
        let first = match u32_at_wide(table, record + 8) {
            Some(v) => v,
            None => return None,
        };
        if start <= end && end - start <= 0x10_ffff {
            cmap12_add_codes(start, end, first, &mut map);
        }
        g = g + 1;
    }
    Some(map)
}

/// Codepoint to glyph index, from the best Unicode subtable of `cmap`.
#[derive(Debug, Clone)]
pub struct CharacterMap {
    map: HashMap<u32, u16>,
}

impl CharacterMap {
    /// Codepoint to glyph.
    pub closed spec fn mapping(&self) -> Map<u32, u16> {
        self.map@
    }

    /// Read the `cmap` table, preferring a full-Unicode subtable to a BMP
    /// one; format 4 and format 12 subtables are read, anything else is
    /// `None`.
    pub fn parse(sfnt: &Sfnt<'_>) -> (result: Option<CharacterMap>)
        requires
            sfnt.wf(),
        ensures
            match sfnt.table_bytes(key_cmap()) {
                None => result is None,
                Some(cmap) => match cmap_result(cmap) {
                    Some(m) => result matches Some(c) && c.mapping() == m,
                    None => result is None,
                },
            },
    {
        let cmap = match sfnt.table_by_key(0x636d_6170) {
            Some(t) => t,
            None => return None,
        };
        let mut reader = Reader::new(cmap);
        reader.skip(2);
        let count = match reader.u16() {
            Some(c) => c,
            None => return None,
        };
        let mut best: Option<(u8, u32)> = None;
        let mut i: u16 = 0;
        while i < count
            invariant
                reader.bytes() == cmap@,
                sfnt.table_bytes(key_cmap()) == Some(cmap@),
                fits(cmap@, 2, 2),
                count == u16_be(cmap@, 2),
                i <= count,
                reader.cursor() == 4 + 8 * i,
                i == 0 || 4 + 8 * i <= cmap@.len(),
                best == best_subtable(cmap@, i as int),
            decreases count - i,
        {
            let platform = match reader.u16() {
                Some(v) => v,
                None => return None,
            };
            let encoding = match reader.u16() {
                Some(v) => v,
                None => return None,
            };
            let offset = match reader.u32() {
                Some(v) => v,
                None => return None,
            };
            let rank: u8 = if (platform == 3 && encoding == 10) || (platform == 0 && (encoding == 4 || encoding == 6)) {
                2
            } else if (platform == 3 && encoding == 1) || (platform == 0 && encoding == 3) {
                1
            } else {
                0
            };
            if rank != 0 {
                best = match best {
                    Some((r, o)) => if rank > r { Some((rank, offset)) } else { Some((r, o)) },
                    None => Some((rank, offset)),
                };
            }
            i = i + 1;
        }
        let offset = match best {
            Some((_, o)) => o as usize,
            None => return None,
        };
        let mut sub = Reader::at(cmap, offset);
        let format = match sub.u16() {
            Some(f) => f,
            None => return None,
        };
        let map = if format == 4 {
            match parse_cmap_format4(cmap, offset) {
                Some(m) => m,
                None => return None,
            }
        } else if format == 12 {
            match parse_cmap_format12(&mut sub) {
                Some(m) => m,
                None => return None,
            }
        } else {
            return None;
        };
        Some(CharacterMap { map })
    }

    /// The glyph for a character, if the map has one.
    pub fn glyph(&self, codepoint: char) -> (result: Option<u16>)
        ensures
            self.mapping().contains_key(codepoint as u32) ==> result == Some(self.mapping()[codepoint as u32]),
            !self.mapping().contains_key(codepoint as u32) ==> result is None,
    {
        let key = codepoint as u32;
        match self.map.get(&key) {
            Some(g) => Some(*g),
            None => None,
        }
    }

    /// Whether the map has a glyph for a character.
    pub fn covers(&self, codepoint: char) -> (result: bool)
        ensures
            result == self.mapping().contains_key(codepoint as u32),
    {
        let key = codepoint as u32;
        self.map.contains_key(&key)
    }

    /// How many characters are mapped.
    pub fn len(&self) -> (result: usize)
        ensures
            result == self.mapping().len(),
    {
        self.map.len()
    }

    /// Whether no character is mapped.
    pub fn is_empty(&self) -> (result: bool)
        ensures
            result == (self.mapping().len() == 0),
    {
        self.map.len() == 0
    }
}

/// Adding a group's codes from `code` on leaves every code below `code`
/// as it was.
proof fn lemma_cmap12_keeps_below(start: u32, first_glyph: u32, code: int, end: int, m: Map<u32, u16>, key: u32)
    requires
        0 <= key < code,
        end <= u32::MAX,
    ensures
        cmap12_codes(start, first_glyph, code, end, m).contains_key(key) == m.contains_key(key),
        m.contains_key(key) ==> cmap12_codes(start, first_glyph, code, end, m)[key] == m[key],
    decreases end + 1 - code,
{
    if code <= end {
        let glyph = first_glyph + (code - start);
        let next = if 0 < glyph <= 0xffff { m.insert(code as u32, glyph as u16) } else { m };
        assert(code as u32 != key);
        lemma_cmap12_keeps_below(start, first_glyph, code + 1, end, next, key);
    }
}

/// Each code of a format-12 group maps to the group's first glyph plus the
/// code's distance from the group's start, whenever that is a non-zero
/// 16-bit glyph: codes from `code` to `end` so mapped are in the map with
/// that glyph.
proof fn lemma_cmap12_from(start: u32, first_glyph: u32, code: int, end: int, m: Map<u32, u16>, c: int)
    requires
        0 <= code <= c <= end <= u32::MAX,
        0 < first_glyph + (c - start) <= 0xffff,
    ensures
        cmap12_codes(start, first_glyph, code, end, m).contains_key(c as u32),
        cmap12_codes(start, first_glyph, code, end, m)[c as u32] == first_glyph + (c - start),
    decreases end + 1 - code,
{
    let glyph = first_glyph + (code - start);
    let next = if 0 < glyph <= 0xffff { m.insert(code as u32, glyph as u16) } else { m };
    if code < c {
        lemma_cmap12_from(start, first_glyph, code + 1, end, next, c);
    } else {
        lemma_cmap12_keeps_below(start, first_glyph, code + 1, end, next, c as u32);
    }
}

/// A format-12 group `start..=end` starting at glyph `first_glyph` maps
/// each of its codes `c` to `first_glyph + (c - start)` whenever that is a
/// non-zero 16-bit glyph, so distinct codes of a group map to distinct
/// glyphs.
pub proof fn lemma_cmap12_group(start: u32, first_glyph: u32, end: u32, m: Map<u32, u16>, c1: u32, c2: u32)
    requires
        start <= c1 <= end,
        start <= c2 <= end,
        0 < first_glyph + (c1 - start) <= 0xffff,
        0 < first_glyph + (c2 - start) <= 0xffff,
    ensures
        cmap12_codes(start, first_glyph, start as int, end as int, m).contains_key(c1),
        cmap12_codes(start, first_glyph, start as int, end as int, m)[c1] == first_glyph + (c1 - start),
        c1 != c2 ==> cmap12_codes(start, first_glyph, start as int, end as int, m)[c1]
            != cmap12_codes(start, first_glyph, start as int, end as int, m)[c2],
{
    lemma_cmap12_from(start, first_glyph, start as int, end as int, m, c1 as int);
    lemma_cmap12_from(start, first_glyph, start as int, end as int, m, c2 as int);
}

/// A group adds no code whose glyph would be 0 or past 16 bits: such a
/// code keeps whatever the map held.
pub proof fn lemma_cmap12_skips_unmapped(start: u32, first_glyph: u32, code: int, end: int, m: Map<u32, u16>, c: int)
    requires
        0 <= code <= c <= end <= u32::MAX,
        !(0 < first_glyph + (c - start) <= 0xffff),
    ensures
        cmap12_codes(start, first_glyph, code, end, m).contains_key(c as u32) == m.contains_key(c as u32),
        m.contains_key(c as u32) ==> cmap12_codes(start, first_glyph, code, end, m)[c as u32] == m[c as u32],
    decreases end + 1 - code,
{
    let glyph = first_glyph + (code - start);
    let next = if 0 < glyph <= 0xffff { m.insert(code as u32, glyph as u16) } else { m };
    if code < c {
        assert(code as u32 != c as u32);
        lemma_cmap12_skips_unmapped(start, first_glyph, code + 1, end, next, c);
    } else {
        lemma_cmap12_keeps_below(start, first_glyph, code + 1, end, next, c as u32);
    }
}

} // verus!
