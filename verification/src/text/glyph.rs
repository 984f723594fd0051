//! Simple TrueType glyph outlines: contour end points, run-length encoded
//! flags, and x and y coordinates stored as deltas, decoded to points in
//! design units.

use vstd::prelude::*;
use crate::text::sfnt::{fits, u16_at_wide, u16_be, u16_opt};

verus! {

/// A point of a glyph outline, in design units.
#[derive(Debug, Clone, Copy, PartialEq, Eq, Structural)]
pub struct GlyphPoint {
    pub x: i32,
    pub y: i32,
    /// Off-curve points are quadratic control points.
    pub on_curve: bool,
}

/// Flag bit: the point is on the curve.
pub const ON_CURVE: u8 = 0x01;
/// Flag bit: the x delta is one unsigned byte.
pub const X_SHORT: u8 = 0x02;
/// Flag bit: the y delta is one unsigned byte.
pub const Y_SHORT: u8 = 0x04;
/// Flag bit: the next byte says how many times to repeat this flag.
pub const REPEAT: u8 = 0x08;
/// Flag bit: a short x delta is positive; a long one is absent (x repeats).
pub const X_SAME_OR_POSITIVE: u8 = 0x10;
/// Flag bit: a short y delta is positive; a long one is absent (y repeats).
pub const Y_SAME_OR_POSITIVE: u8 = 0x20;

/// Whether `flag` has `bit` (a power of two below 256) set.
pub open spec fn has_bit(flag: u8, bit: u8) -> bool {
    (flag / bit) % 2 == 1
}

/// The byte at `at`, if there is one.
pub open spec fn byte_at(data: Seq<u8>, at: int) -> Option<u8> {
    if fits(data, at, 1) { Some(data[at]) } else { None }
}

/// Where a cursor at `at` lands after skipping `n` bytes: it saturates
/// rather than wrapping.
pub open spec fn skipped(at: int, n: int) -> int {
    if at + n > usize::MAX { usize::MAX as int } else { at + n }
}

/// The flags from `at` on, once `flags` are already read, until `needed`
/// are known: each flag may be followed by a repeat count, and repeats past
/// `needed` are dropped. Also where the flags end.
pub open spec fn decode_flags(data: Seq<u8>, at: int, needed: int, flags: Seq<u8>) -> Option<(Seq<u8>, int)>
    decreases needed - flags.len(),
{
    if flags.len() >= needed {
        Some((flags, at))
    } else {
        match byte_at(data, at) {
            None => None,
            Some(flag) => {
                let more = flags.push(flag);
                if has_bit(flag, REPEAT) {
                    match byte_at(data, at + 1) {
                        None => None,
                        Some(repeats) => {
                            let extra = if repeats < needed - more.len() { repeats as int } else { needed - more.len() };
                            decode_flags(data, at + 2, needed, more + Seq::new(extra as nat, |k: int| flag))
                        },
                    }
                } else {
                    decode_flags(data, at + 1, needed, more)
                }
            },
        }
    }
}

/// One axis of coordinates from `at` on, for flags `i..`, starting from
/// `value`: a short delta is one byte with the sign in `same`, a long one a
/// signed 16-bit number, and no delta at all repeats the coordinate. Also
/// where the coordinates end.
pub open spec fn decode_axis(
    data: Seq<u8>,
    at: int,
    flags: Seq<u8>,
    short: u8,
    same: u8,
    i: int,
    value: int,
    coords: Seq<int>,
) -> Option<(Seq<int>, int)>
    decreases flags.len() - i,
{
    if i < 0 || i >= flags.len() {
        Some((coords, at))
    } else {
        let flag = flags[i];
        if has_bit(flag, short) {
            match byte_at(data, at) {
                None => None,
                Some(delta) => {
                    let next = if has_bit(flag, same) { value + delta } else { value - delta };
                    decode_axis(data, at + 1, flags, short, same, i + 1, next, coords.push(next))
                },
            }
        } else if !has_bit(flag, same) {
            if fits(data, at, 2) {
                let next = value + (u16_be(data, at) as i16);
                decode_axis(data, at + 2, flags, short, same, i + 1, next, coords.push(next))
            } else {
                None
            }
        } else {
            decode_axis(data, at, flags, short, same, i + 1, value, coords.push(value))
        }
    }
}

/// The contours from end point `k` on, the current one starting at point
/// `start`: each runs to its end point; contours of fewer than two points
/// are dropped, and an end point out of order or past the points stops it.
pub open spec fn split_contours(points: Seq<GlyphPoint>, ends: Seq<u16>, k: int, start: int, contours: Seq<Seq<GlyphPoint>>) -> Seq<Seq<GlyphPoint>>
    decreases ends.len() - k,
{
    if k < 0 || k >= ends.len() {
        contours
    } else {
        let end = ends[k] as int;
        if end < start || end >= points.len() {
            contours
        } else {
            let contour = points.subrange(start, end + 1);
            let more = if contour.len() >= 2 { contours.push(contour) } else { contours };
            split_contours(points, ends, k + 1, end + 1, more)
        }
    }
}

/// The outline of the simple glyph whose description (after its header)
/// starts at `at`, with `count` contours; `None` if the data runs out.
pub open spec fn simple_glyph(data: Seq<u8>, at: int, count: int) -> Option<Seq<Seq<GlyphPoint>>> {
    if count == 0 {
        Some(Seq::empty())
    } else if !fits(data, at, 2 * count) || !fits(data, at + 2 * count, 2) {
        None
    } else {
        let ends = Seq::new(count as nat, |k: int| u16_be(data, at + 2 * k));
        let needed = ends.last() + 1;
        let instructions = u16_be(data, at + 2 * count);
        match decode_flags(data, skipped(at + 2 * count + 2, instructions as int), needed, Seq::empty()) {
            None => None,
            Some((flags, after_flags)) => match decode_axis(data, after_flags, flags, X_SHORT, X_SAME_OR_POSITIVE, 0, 0, Seq::empty()) {
                None => None,
                Some((xs, after_xs)) => match decode_axis(data, after_xs, flags, Y_SHORT, Y_SAME_OR_POSITIVE, 0, 0, Seq::empty()) {
                    None => None,
                    Some((ys, _)) => {
                        let points = Seq::new(flags.len(), |i: int| GlyphPoint {
                            x: xs[i] as i32,
                            y: ys[i] as i32,
                            on_curve: has_bit(flags[i], ON_CURVE),
                        });
                        Some(split_contours(points, ends, 0, 0, Seq::empty()))
                    },
                },
            },
        }
    }
}

/// The values of a run of coordinates as integers.
pub open spec fn as_ints(values: Seq<i32>) -> Seq<int> {
    values.map_values(|v: i32| v as int)
}

/// Whether `flag` has `bit` set.
fn flag_has(flag: u8, bit: u8) -> (result: bool)
    requires
        bit > 0,
    ensures
        result == has_bit(flag, bit),
{
    (flag / bit) % 2 == 1
}

/// The byte at `at`, if there is one.
fn read_byte(data: &[u8], at: usize) -> (result: Option<u8>)
    ensures
        result == byte_at(data@, at as int),
{
    if at < data.len() { Some(data[at]) } else { None }
}

/// Decode the run-length encoded flags from `at` until `needed` are known.
fn read_flags(data: &[u8], at: usize, needed: usize) -> (result: Option<(Vec<u8>, usize)>)
    requires
        needed <= 0x1_0000,
    ensures
        match decode_flags(data@, at as int, needed as int, Seq::empty()) {
            Some((flags, end)) => result matches Some((f, e)) && f@ == flags && e == end,
            None => result is None,
        },
{
    let total = data.len();
    let mut flags: Vec<u8> = Vec::new();
    let mut cursor = at;
    while flags.len() < needed
        invariant
            total == data@.len(),
            needed <= 0x1_0000,
            flags@.len() <= needed,
            decode_flags(data@, at as int, needed as int, Seq::empty()) == decode_flags(data@, cursor as int, needed as int, flags@),
        decreases needed - flags@.len(),
    {
        let flag = match read_byte(data, cursor) {
            Some(f) => f,
            None => return None,
        };
        let ghost more = flags@.push(flag);
        flags.push(flag);
        if flag_has(flag, REPEAT) {
            let repeats = match read_byte(data, cursor + 1) {
                Some(r) => r,
                None => return None,
            };
            let room = needed - flags.len();
            let extra: usize = if (repeats as usize) < room { repeats as usize } else { room };
            let mut k: usize = 0;
            while k < extra
                invariant
                    flags@ == more + Seq::new(k as nat, |m: int| flag),
                    k <= extra,
                    more.len() + extra <= needed,
                decreases extra - k,
            {
                flags.push(flag);
                k = k + 1;
                assert(flags@ =~= more + Seq::new(k as nat, |m: int| flag));
            }
            cursor = cursor + 2;
        } else {
            cursor = cursor + 1;
        }
    }
    Some((flags, cursor))
}

/// Decode one axis of coordinates from `at`.
fn read_axis(data: &[u8], at: usize, flags: &Vec<u8>, short: u8, same: u8) -> (result: Option<(Vec<i32>, usize)>)
    requires
        flags@.len() <= 0x1_0000,
        short > 0,
        same > 0,
    ensures
        match decode_axis(data@, at as int, flags@, short, same, 0, 0, Seq::empty()) {
            Some((coords, end)) => result matches Some((c, e)) && as_ints(c@) == coords && e == end,
            None => result is None,
        },
{
    let total = data.len();
    let mut coords: Vec<i32> = Vec::new();
    let mut cursor = at;
    let mut value: i32 = 0;
    let mut i: usize = 0;
    proof {
        assert(as_ints(coords@) =~= Seq::<int>::empty());
    }
    while i < flags.len()
        invariant
            total == data@.len(),
            flags@.len() <= 0x1_0000,
            short > 0,
            same > 0,
            i <= flags@.len(),
            -32768 * i <= value <= 32767 * i,
            decode_axis(data@, at as int, flags@, short, same, 0, 0, Seq::empty())
                == decode_axis(data@, cursor as int, flags@, short, same, i as int, value as int, as_ints(coords@)),
        decreases flags@.len() - i,
    {
        let flag = flags[i];
        let ghost before = as_ints(coords@);
        if flag_has(flag, short) {
            let delta = match read_byte(data, cursor) {
                Some(d) => d,
                None => return None,
            };
            value = if flag_has(flag, same) { value + delta as i32 } else { value - delta as i32 };
            cursor = cursor + 1;
        } else if !flag_has(flag, same) {
            let raw = match u16_at_wide(data, cursor as u128) {
                Some(r) => r,
                None => return None,
            };
            value = value + (raw as i16) as i32;
            cursor = cursor + 2;
        }
        coords.push(value);
        proof {
            assert(as_ints(coords@) =~= before.push(value as int));
        }
        i = i + 1;
    }
    Some((coords, cursor))
}

/// The contours of a glyph as vectors.
pub open spec fn contour_views(contours: Seq<Vec<GlyphPoint>>) -> Seq<Seq<GlyphPoint>> {
    contours.map_values(|c: Vec<GlyphPoint>| c@)
}

/// Decode a simple glyph's outline: its description (after the glyph
/// header) starts at `at` and has `contour_count` contours. Points are in
/// design units; contours of fewer than two points are dropped. `None` if
/// the data runs out.
pub fn parse_simple_glyph(data: &[u8], at: usize, contour_count: usize) -> (result: Option<Vec<Vec<GlyphPoint>>>)
    ensures
        match simple_glyph(data@, at as int, contour_count as int) {
            Some(contours) => result matches Some(r) && contour_views(r@) == contours,
            None => result is None,
        },
{
    let base = at as u128;
    let mut ends: Vec<u16> = Vec::new();
    let mut k: usize = 0;
    while k < contour_count
        invariant
            base == at as u128,
            k <= contour_count,
            k == 0 || fits(data@, at as int, 2 * k),
            ends@ == Seq::new(k as nat, |m: int| u16_be(data@, at + 2 * m)),
        decreases contour_count - k,
    {
        let end = match u16_at_wide(data, base + 2 * k as u128) {
            Some(e) => e,
            None => {
                assert(!fits(data@, at as int, 2 * contour_count));
                return None;
            },
        };
        ends.push(end);
        k = k + 1;
        assert(ends@ =~= Seq::new(k as nat, |m: int| u16_be(data@, at + 2 * m)));
    }
    if contour_count == 0 {
        let empty: Vec<Vec<GlyphPoint>> = Vec::new();
        proof {
            assert(contour_views(empty@) =~= Seq::<Seq<GlyphPoint>>::empty());
        }
        return Some(empty);
    }
    let instructions = match u16_at_wide(data, base + 2 * contour_count as u128) {
        Some(n) => n,
        None => return None,
    };
    let needed = ends[contour_count - 1] as usize + 1;
    let flags_at = base + 2 * contour_count as u128 + 2 + instructions as u128;
    let flags_at: usize = if flags_at > usize::MAX as u128 { usize::MAX } else { flags_at as usize };
    let (flags, after_flags) = match read_flags(data, flags_at, needed) {
        Some(found) => found,
        None => return None,
    };
    proof {
        lemma_decode_flags_len(data@, flags_at as int, needed as int, Seq::empty());
    }
    let (xs, after_xs) = match read_axis(data, after_flags, &flags, X_SHORT, X_SAME_OR_POSITIVE) {
        Some(found) => found,
        None => return None,
    };
    let (ys, _after_ys) = match read_axis(data, after_xs, &flags, Y_SHORT, Y_SAME_OR_POSITIVE) {
        Some(found) => found,
        None => return None,
    };
    proof {
        lemma_decode_axis_len(data@, after_flags as int, flags@, X_SHORT, X_SAME_OR_POSITIVE, 0, 0, Seq::empty());
        lemma_decode_axis_len(data@, after_xs as int, flags@, Y_SHORT, Y_SAME_OR_POSITIVE, 0, 0, Seq::empty());
    }
    let mut points: Vec<GlyphPoint> = Vec::new();
    let mut i: usize = 0;
    while i < flags.len()
        invariant
            xs@.len() == flags@.len(),
            ys@.len() == flags@.len(),
            i <= flags@.len(),
            points@ == Seq::new(i as nat, |m: int| GlyphPoint {
                x: xs@[m],
                y: ys@[m],
                on_curve: has_bit(flags@[m], ON_CURVE),
            }),
        decreases flags@.len() - i,
    {
        points.push(GlyphPoint { x: xs[i], y: ys[i], on_curve: flag_has(flags[i], ON_CURVE) });
        i = i + 1;
        assert(points@ =~= Seq::new(i as nat, |m: int| GlyphPoint {
            x: xs@[m],
            y: ys@[m],
            on_curve: has_bit(flags@[m], ON_CURVE),
        }));
    }
    let ghost spec_points = Seq::new(flags@.len(), |m: int| GlyphPoint {
        x: as_ints(xs@)[m] as i32,
        y: as_ints(ys@)[m] as i32,
        on_curve: has_bit(flags@[m], ON_CURVE),
    });
    assert(points@ =~= spec_points);
    let mut contours: Vec<Vec<GlyphPoint>> = Vec::new();
    let mut start: usize = 0;
    let mut k: usize = 0;
    proof {
        assert(contour_views(contours@) =~= Seq::<Seq<GlyphPoint>>::empty());
    }
    while k < ends.len()
        invariant
            k <= ends@.len(),
            start <= points@.len() + 1,
            split_contours(points@, ends@, 0, 0, Seq::empty())
                == split_contours(points@, ends@, k as int, start as int, contour_views(contours@)),
        ensures
            split_contours(points@, ends@, 0, 0, Seq::empty()) == contour_views(contours@),
        decreases ends@.len() - k,
    {
        let end = ends[k] as usize;
        if end < start || end >= points.len() {
            break;
        }
        let mut contour: Vec<GlyphPoint> = Vec::new();
        let plen = points.len();
        let mut j: usize = start;
        while j <= end
            invariant
                plen == points@.len(),
                start <= j <= end + 1,
                end < points@.len(),
                contour@ == points@.subrange(start as int, j as int),
            decreases end + 1 - j,
        {
            contour.push(points[j]);
            assert(points@.subrange(start as int, j + 1) =~= points@.subrange(start as int, j as int).push(points@[j as int]));
            j = j + 1;
        }
        if contour.len() >= 2 {
            let ghost before = contour_views(contours@);
            contours.push(contour);
            proof {
                assert(contour_views(contours@) =~= before.push(points@.subrange(start as int, end + 1)));
            }
        }
        start = end + 1;
        k = k + 1;
    }
    Some(contours)
}

/// Decoded flags number exactly as many as were needed.
proof fn lemma_decode_flags_len(data: Seq<u8>, at: int, needed: int, flags: Seq<u8>)
    requires
        flags.len() <= needed,
    ensures
        decode_flags(data, at, needed, flags) matches Some((f, _)) ==> f.len() == needed,
    decreases needed - flags.len(),
{
    if flags.len() < needed {
        if let Some(flag) = byte_at(data, at) {
            let more = flags.push(flag);
            if has_bit(flag, REPEAT) {
                if let Some(repeats) = byte_at(data, at + 1) {
                    let extra = if repeats < needed - more.len() { repeats as int } else { needed - more.len() };
                    lemma_decode_flags_len(data, at + 2, needed, more + Seq::new(extra as nat, |k: int| flag));
                }
            } else {
                lemma_decode_flags_len(data, at + 1, needed, more);
            }
        }
    }
}

/// Decoded coordinates number one per flag.
proof fn lemma_decode_axis_len(data: Seq<u8>, at: int, flags: Seq<u8>, short: u8, same: u8, i: int, value: int, coords: Seq<int>)
    requires
        0 <= i <= flags.len(),
        coords.len() == i,
    ensures
        decode_axis(data, at, flags, short, same, i, value, coords) matches Some((c, _)) ==> c.len() == flags.len(),
    decreases flags.len() - i,
{
    if i < flags.len() {
        let flag = flags[i];
        if has_bit(flag, short) {
            if let Some(delta) = byte_at(data, at) {
                let next = if has_bit(flag, same) { value + delta } else { value - delta };
                lemma_decode_axis_len(data, at + 1, flags, short, same, i + 1, next, coords.push(next));
            }
        } else if !has_bit(flag, same) {
            if fits(data, at, 2) {
                let next = value + (u16_be(data, at) as i16);
                lemma_decode_axis_len(data, at + 2, flags, short, same, i + 1, next, coords.push(next));
            }
        } else {
            lemma_decode_axis_len(data, at, flags, short, same, i + 1, value, coords.push(value));
        }
    }
}

/// Component flag: the offsets are 16-bit words rather than bytes.
pub const ARGS_ARE_WORDS: u16 = 0x0001;
/// Component flag: the two arguments are an x and y offset (rather than
/// point numbers to match).
pub const ARGS_ARE_XY: u16 = 0x0002;
/// Component flag: one scale for both axes follows.
pub const HAVE_SCALE: u16 = 0x0008;
/// Component flag: another component follows this one.
pub const MORE_COMPONENTS: u16 = 0x0020;
/// Component flag: separate x and y scales follow.
pub const HAVE_XY_SCALE: u16 = 0x0040;
/// Component flag: a full 2×2 transform follows.
pub const HAVE_TWO_BY_TWO: u16 = 0x0080;

/// How a component's outline is transformed before it is offset, with each
/// number an F2Dot14 fixed-point value (16384 is 1.0).
#[derive(Debug, Clone, Copy, PartialEq, Eq, Structural)]
pub enum ComponentTransform {
    Identity,
    Scale(i16),
    XyScale(i16, i16),
    /// `[a, b, c, d]`: x' = a·x + c·y, y' = b·x + d·y.
    TwoByTwo(i16, i16, i16, i16),
}

/// One component of a composite glyph: another glyph, transformed, then
/// offset by `(dx, dy)` design units. Point-matched components (arguments
/// that are point numbers) are rare and get no offset.
#[derive(Debug, Clone, Copy, PartialEq, Eq, Structural)]
pub struct Component {
    pub glyph: u16,
    pub dx: i16,
    pub dy: i16,
    pub transform: ComponentTransform,
}

/// Whether component flags have `bit` (a power of two) set.
pub open spec fn flag16(flags: u16, bit: u16) -> bool {
    (flags / bit) % 2 == 1
}

/// Bytes taken by the transform a component's flags announce.
pub open spec fn transform_size(flags: u16) -> int {
    if flag16(flags, HAVE_TWO_BY_TWO) {
        8
    } else if flag16(flags, HAVE_XY_SCALE) {
        4
    } else if flag16(flags, HAVE_SCALE) {
        2
    } else {
        0
    }
}

/// Bytes taken by a whole component record.
pub open spec fn component_size(flags: u16) -> int {
    4 + (if flag16(flags, ARGS_ARE_WORDS) { 4int } else { 2int }) + transform_size(flags)
}

/// A byte read as a signed number.
pub open spec fn signed_byte(b: u8) -> i16 {
    if b < 128 { b as i16 } else { (b - 256) as i16 }
}

/// The signed 16-bit number at `at`.
pub open spec fn i16_be(data: Seq<u8>, at: int) -> i16 {
    u16_be(data, at) as i16
}

/// The component whose record, with these flags, starts at `at`.
pub open spec fn component_fields(data: Seq<u8>, at: int, flags: u16) -> Component {
    let words = flag16(flags, ARGS_ARE_WORDS);
    let args = if words {
        (i16_be(data, at + 4), i16_be(data, at + 6))
    } else {
        (signed_byte(data[at + 4]), signed_byte(data[at + 5]))
    };
    let t = at + 4 + if words { 4int } else { 2int };
    let transform = if flag16(flags, HAVE_TWO_BY_TWO) {
        ComponentTransform::TwoByTwo(i16_be(data, t), i16_be(data, t + 2), i16_be(data, t + 4), i16_be(data, t + 6))
    } else if flag16(flags, HAVE_XY_SCALE) {
        ComponentTransform::XyScale(i16_be(data, t), i16_be(data, t + 2))
    } else if flag16(flags, HAVE_SCALE) {
        ComponentTransform::Scale(i16_be(data, t))
    } else {
        ComponentTransform::Identity
    };
    let (dx, dy) = if flag16(flags, ARGS_ARE_XY) { args } else { (0i16, 0i16) };
    Component { glyph: u16_be(data, at + 2), dx, dy, transform }
}

/// The components from `at` on, after `found`, until one without the
/// "more components" flag; `None` if a record is cut short.
pub open spec fn components_from(data: Seq<u8>, at: int, found: Seq<Component>) -> Option<Seq<Component>>
    decreases data.len() - at,
{
    if !fits(data, at, 4) {
        None
    } else {
        let flags = u16_be(data, at);
        if !fits(data, at, component_size(flags)) {
            None
        } else {
            let found = found.push(component_fields(data, at, flags));
            if flag16(flags, MORE_COMPONENTS) {
                components_from(data, at + component_size(flags), found)
            } else {
                Some(found)
            }
        }
    }
}

fn read_i16(data: &[u8], at: usize) -> (result: i16)
    requires
        fits(data@, at as int, 2),
    ensures
        result == i16_be(data@, at as int),
{
    match u16_at_wide(data, at as u128) {
        Some(v) => v as i16,
        None => 0,
    }
}

fn read_signed_byte(data: &[u8], at: usize) -> (result: i16)
    requires
        fits(data@, at as int, 1),
    ensures
        result == signed_byte(data@[at as int]),
{
    let b = data[at];
    if b < 128 { b as i16 } else { b as i16 - 256 }
}

/// Read a composite glyph's component records, starting at `at` (after the
/// glyph header). `None` if a record is cut short.
pub fn parse_components(data: &[u8], at: usize) -> (result: Option<Vec<Component>>)
    ensures
        match components_from(data@, at as int, Seq::empty()) {
            Some(found) => result matches Some(r) && r@ == found,
            None => result is None,
        },
{
    let mut found: Vec<Component> = Vec::new();
    let mut pos: usize = at;
    loop
        invariant
            pos <= data@.len() || pos == at,
            components_from(data@, at as int, Seq::empty()) == components_from(data@, pos as int, found@),
        decreases data@.len() - pos,
    {
        let flags = match u16_at_wide(data, pos as u128) {
            Some(f) => f,
            None => return None,
        };
        if data.len() - pos < 4 {
            return None;
        }
        let words = (flags / ARGS_ARE_WORDS) % 2 == 1;
        let transform_bytes: usize = if (flags / HAVE_TWO_BY_TWO) % 2 == 1 {
            8
        } else if (flags / HAVE_XY_SCALE) % 2 == 1 {
            4
        } else if (flags / HAVE_SCALE) % 2 == 1 {
            2
        } else {
            0
        };
        let size: usize = 4 + (if words { 4 } else { 2 }) + transform_bytes;
        if data.len() - pos < size {
            return None;
        }
        let glyph = match u16_at_wide(data, pos as u128 + 2) {
            Some(g) => g,
            None => 0,
        };
        let (ax, ay) = if words {
            (read_i16(data, pos + 4), read_i16(data, pos + 6))
        } else {
            (read_signed_byte(data, pos + 4), read_signed_byte(data, pos + 5))
        };
        let t = pos + 4 + if words { 4 } else { 2 };
        let transform = if (flags / HAVE_TWO_BY_TWO) % 2 == 1 {
            ComponentTransform::TwoByTwo(read_i16(data, t), read_i16(data, t + 2), read_i16(data, t + 4), read_i16(data, t + 6))
        } else if (flags / HAVE_XY_SCALE) % 2 == 1 {
            ComponentTransform::XyScale(read_i16(data, t), read_i16(data, t + 2))
        } else if (flags / HAVE_SCALE) % 2 == 1 {
            ComponentTransform::Scale(read_i16(data, t))
        } else {
            ComponentTransform::Identity
        };
        let (dx, dy) = if (flags / ARGS_ARE_XY) % 2 == 1 { (ax, ay) } else { (0i16, 0i16) };
        let component = Component { glyph, dx, dy, transform };
        proof {
            assert(component == component_fields(data@, pos as int, flags));
        }
        found.push(component);
        pos = pos + size;
        if (flags / MORE_COMPONENTS) % 2 != 1 {
            return Some(found);
        }
    }
}

/// What a glyph's record holds.
#[derive(Debug, Clone, PartialEq, Eq)]
pub enum GlyphShape {
    /// No outline at all, as for a space.
    Empty,
    /// Contours of points.
    Simple(Vec<Vec<GlyphPoint>>),
    /// Other glyphs, placed.
    Composite(Vec<Component>),
}

/// [`GlyphShape`] as values.
pub enum ShapeView {
    Empty,
    Simple(Seq<Seq<GlyphPoint>>),
    Composite(Seq<Component>),
}

/// What the record of glyph `glyph` holds, given the `glyf` bytes and the
/// `loca` offsets: `None` if the index is out of range, the record runs
/// past the table, or its contents are cut short. A zero-length record is an
/// empty glyph. The record starts with the contour count (negative for a
/// composite) and the bounding box, and its description follows at byte 10.
pub open spec fn glyph_shape(glyf: Seq<u8>, offsets: Seq<u32>, glyph: u16) -> Option<ShapeView> {
    let index = glyph as int;
    if index + 1 >= offsets.len() {
        None
    } else {
        let start = offsets[index] as int;
        let end = offsets[index + 1] as int;
        if end <= start {
            Some(ShapeView::Empty)
        } else if end > glyf.len() {
            None
        } else {
            let data = glyf.subrange(start, end);
            if !fits(data, 0, 2) {
                None
            } else {
                let count = i16_be(data, 0);
                if count >= 0 {
                    match simple_glyph(data, 10, count as int) {
                        Some(contours) => Some(ShapeView::Simple(contours)),
                        None => None,
                    }
                } else {
                    match components_from(data, 10, Seq::empty()) {
                        Some(found) => Some(ShapeView::Composite(found)),
                        None => None,
                    }
                }
            }
        }
    }
}

/// Whether a glyph record read back matches its values.
pub open spec fn shape_matches(shape: GlyphShape, view: ShapeView) -> bool {
    match (shape, view) {
        (GlyphShape::Empty, ShapeView::Empty) => true,
        (GlyphShape::Simple(c), ShapeView::Simple(v)) => contour_views(c@) == v,
        (GlyphShape::Composite(c), ShapeView::Composite(v)) => c@ == v,
        _ => false,
    }
}

} // verus!
