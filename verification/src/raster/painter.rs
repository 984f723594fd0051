//! A software painter over a plain `u32` XRGB buffer, with a clip stack.
//!
//! Every write goes through the clip, and a nested clip intersects rather than
//! replaces, so a child can never draw outside the region its parent allowed.

use vstd::prelude::*;
use crate::raster::blend::{blend_channels, blend_pixel_spec, is_blend, blend_coverage_span};

verus! {

/// The window's pixels, XRGB, row-major.
#[derive(Debug, Clone)]
pub struct WindowBuffer {
    pub width: u32,
    pub height: u32,
    pub pixels: Vec<u32>,
}

impl WindowBuffer {
    /// Whether the pixel vector holds exactly `width * height` words.
    pub open spec fn wf(&self) -> bool {
        self.pixels@.len() == self.width * self.height
    }

    /// A black buffer of the given size.
    pub fn new(width: u32, height: u32) -> (result: WindowBuffer)
        requires
            width * height <= usize::MAX,
        ensures
            result.width == width,
            result.height == height,
            result.wf(),
            forall|i: int| 0 <= i < result.pixels@.len() ==> result.pixels@[i] == 0,
    {
        let count = (width as usize) * (height as usize);
        WindowBuffer { width, height, pixels: vec![0u32; count] }
    }

    /// Change the size. Pixels that survive keep their position in the
    /// vector; any new ones are black.
    pub fn resize(&mut self, width: u32, height: u32)
        requires
            width * height <= usize::MAX,
        ensures
            final(self).width == width,
            final(self).height == height,
            final(self).wf(),
            forall|i: int| 0 <= i < final(self).pixels@.len() ==> #[trigger] final(self).pixels@[i] == if i < old(self).pixels@.len() {
                old(self).pixels@[i]
            } else {
                0u32
            },
    {
        self.width = width;
        self.height = height;
        let count = (width as usize) * (height as usize);
        if count <= self.pixels.len() {
            self.pixels.truncate(count);
        } else {
            let mut i = self.pixels.len();
            while i < count
                invariant
                    self.pixels@.len() == i,
                    self.width == width,
                    self.height == height,
                    count == width * height,
                    i <= count,
                    old(self).pixels@.len() <= i,
                    forall|j: int| 0 <= j < i ==> #[trigger] self.pixels@[j] == if j < old(self).pixels@.len() {
                        old(self).pixels@[j]
                    } else {
                        0u32
                    },
                decreases count - i,
            {
                self.pixels.push(0);
                i += 1;
            }
        }
    }
}

/// An axis-aligned rectangle in pixels: `[x, x + w) × [y, y + h)`.
#[derive(Debug, Clone, Copy, Default, PartialEq, Eq, Structural)]
pub struct Rect {
    pub x: i32,
    pub y: i32,
    pub w: i32,
    pub h: i32,
}

/// Whether an integer fits an `i32`.
pub open spec fn in_i32(v: int) -> bool {
    i32::MIN <= v <= i32::MAX
}

/// The larger of two integers.
pub open spec fn max_int(a: int, b: int) -> int {
    if a >= b { a } else { b }
}

/// The smaller of two integers.
pub open spec fn min_int(a: int, b: int) -> int {
    if a <= b { a } else { b }
}

impl Rect {
    /// Whether the right and bottom edges are representable.
    pub open spec fn fits(self) -> bool {
        in_i32(self.x + self.w) && in_i32(self.y + self.h)
    }

    /// Whether the point lies inside the rectangle.
    pub open spec fn has(self, x: int, y: int) -> bool {
        self.x <= x < self.x + self.w && self.y <= y < self.y + self.h
    }

    /// Whether the rectangle covers no pixel.
    pub open spec fn empty_spec(self) -> bool {
        self.w <= 0 || self.h <= 0
    }

    /// Whether every pixel of `self` is a pixel of `outer`.
    pub open spec fn within(self, outer: Rect) -> bool {
        forall|x: int, y: int| #[trigger] self.has(x, y) ==> outer.has(x, y)
    }

    /// Whether the overlap's width and height are representable (they are
    /// whenever both rectangles have non-negative size and nearby origins).
    pub open spec fn intersect_ok(self, other: Rect) -> bool {
        &&& in_i32(min_int(self.x + self.w, other.x + other.w) - max_int(self.x as int, other.x as int))
        &&& in_i32(min_int(self.y + self.h, other.y + other.h) - max_int(self.y as int, other.y as int))
    }

    /// The overlap of two rectangles, clamped to a non-negative size.
    pub open spec fn intersect_spec(self, other: Rect) -> Rect {
        let x = max_int(self.x as int, other.x as int);
        let y = max_int(self.y as int, other.y as int);
        let right = min_int(self.x + self.w, other.x + other.w);
        let bottom = min_int(self.y + self.h, other.y + other.h);
        Rect { x: x as i32, y: y as i32, w: max_int(right - x, 0) as i32, h: max_int(bottom - y, 0) as i32 }
    }

    pub fn new(x: i32, y: i32, w: i32, h: i32) -> (result: Rect)
        ensures
            result == (Rect { x, y, w, h }),
    {
        Rect { x, y, w, h }
    }

    pub fn right(self) -> (result: i32)
        requires
            in_i32(self.x + self.w),
        ensures
            result == self.x + self.w,
    {
        self.x + self.w
    }

    pub fn bottom(self) -> (result: i32)
        requires
            in_i32(self.y + self.h),
        ensures
            result == self.y + self.h,
    {
        self.y + self.h
    }

    pub fn contains(self, x: i32, y: i32) -> (result: bool)
        requires
            self.fits(),
        ensures
            result == self.has(x as int, y as int),
    {
        x >= self.x && x < self.right() && y >= self.y && y < self.bottom()
    }

    /// Shrink by `amount` on every side, never below zero size.
    pub fn inset(self, amount: i32) -> (result: Rect)
        requires
            in_i32(amount * 2),
            in_i32(self.x + amount),
            in_i32(self.y + amount),
            in_i32(self.w - amount * 2),
            in_i32(self.h - amount * 2),
        ensures
            result.x == self.x + amount,
            result.y == self.y + amount,
            result.w == max_int(self.w - amount * 2, 0),
            result.h == max_int(self.h - amount * 2, 0),
    {
        let w = self.w - amount * 2;
        let h = self.h - amount * 2;
        Rect::new(self.x + amount, self.y + amount, if w > 0 { w } else { 0 }, if h > 0 { h } else { 0 })
    }

    /// Split a horizontal strip off the top, returning it and the remainder.
    pub fn split_top(self, height: i32) -> (result: (Rect, Rect))
        requires
            self.fits(),
            in_i32(self.y + min_int(height as int, self.h as int)),
            in_i32(self.h - min_int(height as int, self.h as int)),
        ensures
            result.0 == (Rect { x: self.x, y: self.y, w: self.w, h: min_int(height as int, self.h as int) as i32 }),
            result.1 == (Rect { x: self.x, y: (self.y + min_int(height as int, self.h as int)) as i32, w: self.w, h: (self.h - min_int(height as int, self.h as int)) as i32 }),
            result.0.h + result.1.h == self.h,
            result.0.y + result.0.h == result.1.y,
    {
        let height = if height < self.h { height } else { self.h };
        (Rect::new(self.x, self.y, self.w, height), Rect::new(self.x, self.y + height, self.w, self.h - height))
    }

    /// Split a horizontal strip off the bottom.
    pub fn split_bottom(self, height: i32) -> (result: (Rect, Rect))
        requires
            self.fits(),
            in_i32(self.y + min_int(height as int, self.h as int)),
            in_i32(self.h - min_int(height as int, self.h as int)),
            in_i32(self.y + self.h - min_int(height as int, self.h as int)),
        ensures
            result.0 == (Rect { x: self.x, y: (self.y + self.h - min_int(height as int, self.h as int)) as i32, w: self.w, h: min_int(height as int, self.h as int) as i32 }),
            result.1 == (Rect { x: self.x, y: self.y, w: self.w, h: (self.h - min_int(height as int, self.h as int)) as i32 }),
            result.0.h + result.1.h == self.h,
            result.1.y + result.1.h == result.0.y,
    {
        let height = if height < self.h { height } else { self.h };
        (Rect::new(self.x, self.bottom() - height, self.w, height), Rect::new(self.x, self.y, self.w, self.h - height))
    }

    /// Split a vertical strip off the right.
    pub fn split_right(self, width: i32) -> (result: (Rect, Rect))
        requires
            self.fits(),
            in_i32(self.x + min_int(width as int, self.w as int)),
            in_i32(self.w - min_int(width as int, self.w as int)),
            in_i32(self.x + self.w - min_int(width as int, self.w as int)),
        ensures
            result.0 == (Rect { x: (self.x + self.w - min_int(width as int, self.w as int)) as i32, y: self.y, w: min_int(width as int, self.w as int) as i32, h: self.h }),
            result.1 == (Rect { x: self.x, y: self.y, w: (self.w - min_int(width as int, self.w as int)) as i32, h: self.h }),
            result.0.w + result.1.w == self.w,
            result.1.x + result.1.w == result.0.x,
    {
        let width = if width < self.w { width } else { self.w };
        (Rect::new(self.right() - width, self.y, width, self.h), Rect::new(self.x, self.y, self.w - width, self.h))
    }

    /// Split a vertical strip off the left.
    pub fn split_left(self, width: i32) -> (result: (Rect, Rect))
        requires
            self.fits(),
            in_i32(self.x + min_int(width as int, self.w as int)),
            in_i32(self.w - min_int(width as int, self.w as int)),
        ensures
            result.0 == (Rect { x: self.x, y: self.y, w: min_int(width as int, self.w as int) as i32, h: self.h }),
            result.1 == (Rect { x: (self.x + min_int(width as int, self.w as int)) as i32, y: self.y, w: (self.w - min_int(width as int, self.w as int)) as i32, h: self.h }),
            result.0.w + result.1.w == self.w,
            result.0.x + result.0.w == result.1.x,
    {
        let width = if width < self.w { width } else { self.w };
        (Rect::new(self.x, self.y, width, self.h), Rect::new(self.x + width, self.y, self.w - width, self.h))
    }

    /// The overlap of two rectangles, empty (never negative) if they do not
    /// touch.
    pub fn intersect(self, other: Rect) -> (result: Rect)
        requires
            self.fits(),
            other.fits(),
            self.intersect_ok(other),
        ensures
            result == self.intersect_spec(other),
            result.w >= 0,
            result.h >= 0,
            result.fits(),
            forall|x: int, y: int| #[trigger] result.has(x, y) <==> (self.has(x, y) && other.has(x, y)),
    {
        let x = if self.x >= other.x { self.x } else { other.x };
        let y = if self.y >= other.y { self.y } else { other.y };
        let right = if self.right() <= other.right() { self.right() } else { other.right() };
        let bottom = if self.bottom() <= other.bottom() { self.bottom() } else { other.bottom() };
        let w = if right - x > 0 { right - x } else { 0 };
        let h = if bottom - y > 0 { bottom - y } else { 0 };
        Rect::new(x, y, w, h)
    }

    pub fn is_empty(self) -> (result: bool)
        ensures
            result == self.empty_spec(),
            !result || forall|x: int, y: int| !#[trigger] self.has(x, y),
    {
        self.w <= 0 || self.h <= 0
    }

    /// Move by an offset without resizing.
    pub fn translate(self, dx: i32, dy: i32) -> (result: Rect)
        requires
            in_i32(self.x + dx),
            in_i32(self.y + dy),
        ensures
            result == (Rect { x: (self.x + dx) as i32, y: (self.y + dy) as i32, w: self.w, h: self.h }),
    {
        Rect::new(self.x + dx, self.y + dy, self.w, self.h)
    }
}

/// Whether a clip rectangle has a non-negative size, representable edges,
/// and (unless empty) lies inside a `width × height` buffer.
pub open spec fn clip_ok(r: Rect, width: u32, height: u32) -> bool {
    &&& r.w >= 0
    &&& r.h >= 0
    &&& r.fits()
    &&& (r.empty_spec() || (0 <= r.x && 0 <= r.y && r.x + r.w <= width && r.y + r.h <= height))
}

/// Pixel `k` of a row-major buffer `width` wide sits at `(k % width, k / width)`.
pub open spec fn col(k: int, width: u32) -> int {
    k % (width as int)
}

/// The row of pixel `k`.
pub open spec fn row(k: int, width: u32) -> int {
    k / (width as int)
}

/// `new` is `old` with every pixel inside `area` set to `color`.
pub open spec fn painted(old: Seq<u32>, new: Seq<u32>, width: u32, area: Rect, color: u32) -> bool {
    &&& new.len() == old.len()
    &&& forall|k: int| 0 <= k < old.len() ==> #[trigger] new[k] == if area.has(col(k, width), row(k, width)) {
        color
    } else {
        old[k]
    }
}

/// `new` is `old` with every pixel inside both `area` and `clip` set to
/// `color`.
pub open spec fn painted_in(old: Seq<u32>, new: Seq<u32>, width: u32, area: Rect, clip: Rect, color: u32) -> bool {
    &&& new.len() == old.len()
    &&& forall|k: int| 0 <= k < old.len() ==> #[trigger] new[k] == if area.has(col(k, width), row(k, width))
        && clip.has(col(k, width), row(k, width)) {
        color
    } else {
        old[k]
    }
}

/// `new` is `old` with every pixel inside `area` blended toward `color` at
/// `alpha`.
pub open spec fn blended(old: Seq<u32>, new: Seq<u32>, width: u32, area: Rect, color: u32, alpha: u8) -> bool {
    &&& new.len() == old.len()
    &&& forall|k: int| 0 <= k < old.len() ==> #[trigger] new[k] == if area.has(col(k, width), row(k, width)) {
        blend_pixel_spec(old[k], color, alpha)
    } else {
        old[k]
    }
}

/// Index `y * width + x` is exactly the pixel at column `x`, row `y`.
pub proof fn lemma_index(k: int, width: int, x: int, y: int)
    requires
        width > 0,
        0 <= x < width,
        0 <= k,
    ensures
        (k == y * width + x) <==> (k % width == x && k / width == y),
{
    vstd::arithmetic::div_mod::lemma_fundamental_div_mod(k, width);
    assert(width * (k / width) == (k / width) * width) by (nonlinear_arith);
    if k == y * width + x {
        vstd::arithmetic::div_mod::lemma_fundamental_div_mod_converse(k, width, y, x);
    }
}

/// A pixel inside the buffer's bounds has an index inside the pixel vector.
pub proof fn lemma_index_in_bounds(width: int, height: int, x: int, y: int)
    requires
        0 <= x < width,
        0 <= y < height,
    ensures
        0 <= y * width + x < width * height,
{
    assert(0 <= y * width + x < width * height) by (nonlinear_arith)
        requires 0 <= x < width, 0 <= y < height;
}

/// Whether `s` is the integer square root of `n`.
pub open spec fn is_isqrt(n: int, s: int) -> bool {
    0 <= s && s * s <= n < (s + 1) * (s + 1)
}

/// The integer square root of a non-negative `n`.
pub open spec fn isqrt_spec(n: int) -> int {
    choose|s: int| is_isqrt(n, s)
}

/// How far row `d` (counted from the nearer of the top and bottom edges) of a
/// corner of radius `r` is pulled in from the side: `r` less the half-width
/// of the circle's chord through that row's centre, rounded down.
pub open spec fn corner_inset(r: int, d: int) -> int {
    r - isqrt_spec(4 * r * r - (2 * r - 2 * d - 1) * (2 * r - 2 * d - 1)) / 2
}

/// The radius `fill_rounded_rect` actually uses: clamped to `[0, min(w, h) / 2]`.
pub open spec fn rounded_radius(rect: Rect, radius: int) -> int {
    let most = min_int(rect.w as int, rect.h as int) / 2;
    if radius < 0 { 0 } else if radius > most { most } else { radius }
}

/// Whether pixel `(px, py)` belongs to `rect` with its corners rounded at
/// radius `r`: rows within `r` of the top or bottom edge are pulled in from
/// both sides by the corner inset for that row.
pub open spec fn in_rounded(rect: Rect, r: int, px: int, py: int) -> bool {
    let d = min_int(py - rect.y, rect.y + rect.h - 1 - py);
    &&& rect.has(px, py)
    &&& (d >= r || (rect.x + corner_inset(r, d) <= px < rect.x + rect.w - corner_inset(r, d)))
}

/// `new` is `old` with every pixel of the clip satisfying `inside` set to `color`.
pub open spec fn painted_where(old: Seq<u32>, new: Seq<u32>, width: u32, clip: Rect, inside: spec_fn(int, int) -> bool, color: u32) -> bool {
    &&& new.len() == old.len()
    &&& forall|k: int| 0 <= k < old.len() ==> #[trigger] new[k] == if clip.has(col(k, width), row(k, width))
        && inside(col(k, width), row(k, width)) {
        color
    } else {
        old[k]
    }
}

/// The square root of `n` is unique.
pub proof fn lemma_isqrt_unique(n: int, a: int, b: int)
    requires
        is_isqrt(n, a),
        is_isqrt(n, b),
    ensures
        a == b,
{
    if a < b {
        assert((a + 1) * (a + 1) <= b * b) by (nonlinear_arith) requires 0 <= a, a + 1 <= b;
    } else if b < a {
        assert((b + 1) * (b + 1) <= a * a) by (nonlinear_arith) requires 0 <= b, b + 1 <= a;
    }
}

/// Integer square root by bisection.
fn isqrt(n: u64) -> (result: u64)
    ensures
        is_isqrt(n as int, result as int),
        result as int == isqrt_spec(n as int),
{
    let mut lo: u64 = 0;
    let mut hi: u64 = 0x1_0000_0000;
    assert(n < hi * hi) by (nonlinear_arith) requires hi == 0x1_0000_0000u64, n <= u64::MAX;
    while hi - lo > 1
        invariant
            lo < hi <= 0x1_0000_0000,
            lo * lo <= n,
            n < hi * hi,
        decreases hi - lo,
    {
        let mid = lo + (hi - lo) / 2;
        assert((mid as u128) * (mid as u128) <= 0x1_0000_0000u128 * 0x1_0000_0000u128) by (nonlinear_arith)
            requires mid <= 0x1_0000_0000u64;
        let sq = (mid as u128) * (mid as u128);
        if sq <= n as u128 {
            lo = mid;
        } else {
            hi = mid;
        }
    }
    assert(hi == lo + 1);
    proof {
        assert(is_isqrt(n as int, lo as int));
        let s = isqrt_spec(n as int);
        assert(is_isqrt(n as int, s));
        lemma_isqrt_unique(n as int, lo as int, s);
    }
    lo
}

/// For a row `d` above the radius, the corner inset lies in `[0, r]`.
proof fn lemma_corner_inset_bounds(r: int, d: int)
    requires
        0 <= d < r,
    ensures
        0 <= corner_inset(r, d) <= r,
{
    let e = 2 * r - 2 * d - 1;
    let n = 4 * r * r - e * e;
    let s = isqrt_spec(n);
    assert(0 < e < 2 * r);
    assert(0 < n <= 4 * r * r) by (nonlinear_arith) requires 0 < e < 2 * r, n == 4 * r * r - e * e;
    assert(exists|t: int| is_isqrt(n, t)) by {
        lemma_isqrt_exists(n);
    }
    assert(is_isqrt(n, s));
    assert(s <= 2 * r) by (nonlinear_arith) requires s * s <= n, n <= 4 * r * r, 0 <= s, r > 0;
}

/// Every non-negative integer has a square root.
proof fn lemma_isqrt_exists(n: int)
    requires
        n >= 0,
    ensures
        exists|s: int| is_isqrt(n, s),
    decreases n,
{
    if n == 0 {
        assert(is_isqrt(0, 0));
    } else {
        let m = n - 1;
        lemma_isqrt_exists(m);
        let s = choose|s: int| is_isqrt(m, s);
        if n < (s + 1) * (s + 1) {
            assert(is_isqrt(n, s));
        } else {
            assert(n == (s + 1) * (s + 1));
            assert(n < (s + 2) * (s + 2)) by (nonlinear_arith) requires n == (s + 1) * (s + 1), s >= 0;
            assert(is_isqrt(n, s + 1));
        }
    }
}

/// Depth of the fixed inline clip store before clips spill to the heap.
pub const INLINE_CLIP_DEPTH: usize = 8;

/// The clip and the saved clips below it, after `push_clip(rect)`: the
/// drawing region narrows to the overlap and the old region is saved.
pub open spec fn push_step(state: (Rect, Seq<Rect>), rect: Rect) -> (Rect, Seq<Rect>) {
    (state.0.intersect_spec(rect), state.1.push(state.0))
}

/// The clip and the saved clips below it, after `pop_clip`: the last saved
/// region comes back; with nothing saved, nothing changes.
pub open spec fn pop_step(state: (Rect, Seq<Rect>)) -> (Rect, Seq<Rect>) {
    if state.1.len() == 0 { state } else { (state.1.last(), state.1.drop_last()) }
}

/// After a `push_clip` for each of `rects`, in order.
pub open spec fn pushes(state: (Rect, Seq<Rect>), rects: Seq<Rect>) -> (Rect, Seq<Rect>)
    decreases rects.len(),
{
    if rects.len() == 0 { state } else { push_step(pushes(state, rects.drop_last()), rects.last()) }
}

/// After `k` calls of `pop_clip`.
pub open spec fn pops(state: (Rect, Seq<Rect>), k: nat) -> (Rect, Seq<Rect>)
    decreases k,
{
    if k == 0 { state } else { pop_step(pops(state, (k - 1) as nat)) }
}

/// `k + 1` pops are one pop, then `k` more.
proof fn lemma_pops_first(state: (Rect, Seq<Rect>), k: nat)
    ensures
        pops(state, k + 1) == pops(pop_step(state), k),
    decreases k,
{
    assert(((k + 1) - 1) as nat == k);
    assert(pops(state, k + 1) == pop_step(pops(state, k)));
    if k > 0 {
        lemma_pops_first(state, (k - 1) as nat);
        assert(((k - 1) + 1) as nat == k);
        assert(pops(pop_step(state), k) == pop_step(pops(pop_step(state), (k - 1) as nat)));
    } else {
        assert(pops(state, 0) == state);
        assert(pops(pop_step(state), 0) == pop_step(state));
    }
}

/// Clip nesting restores: pushing any clips, however deep, and then popping
/// as many gives back the clip and the saved clips there were before.
pub proof fn lemma_clip_nesting_restores(state: (Rect, Seq<Rect>), rects: Seq<Rect>)
    ensures
        pops(pushes(state, rects), rects.len()) == state,
    decreases rects.len(),
{
    if rects.len() > 0 {
        let before = pushes(state, rects.drop_last());
        let n = (rects.len() - 1) as nat;
        assert(pop_step(push_step(before, rects.last())) == before) by {
            assert(before.1.push(before.0).drop_last() =~= before.1);
        }
        lemma_pops_first(push_step(before, rects.last()), n);
        assert(n + 1 == rects.len());
        lemma_clip_nesting_restores(state, rects.drop_last());
    }
}


/// A painter borrowing a window buffer, with a clip stack.
pub struct Painter<'a> {
    pub buffer: &'a mut WindowBuffer,
    clip: Rect,
    saved_inline: [Rect; 8],
    saved_overflow: Vec<Rect>,
    saved_depth: usize,
}

impl<'a> Painter<'a> {
    /// The region drawing is currently confined to.
    pub closed spec fn clip_rect(&self) -> Rect {
        self.clip
    }

    /// The clips pushed and not yet popped, oldest first.
    pub closed spec fn saved(&self) -> Seq<Rect> {
        if self.saved_depth <= 8 {
            self.saved_inline@.take(self.saved_depth as int)
        } else {
            self.saved_inline@ + self.saved_overflow@
        }
    }

    /// The painter's invariant: a consistent buffer, a clip inside it that is
    /// inside every clip saved below it, and a consistent clip stack.
    pub closed spec fn wf(&self) -> bool {
        &&& self.buffer.wf()
        &&& clip_ok(self.clip, self.buffer.width, self.buffer.height)
        &&& (self.saved_depth <= 8 ==> self.saved_overflow@.len() == 0)
        &&& (self.saved_depth > 8 ==> self.saved_overflow@.len() == self.saved_depth - 8)
        &&& self.saved().len() == self.saved_depth
        &&& forall|i: int| 0 <= i < self.saved().len() ==> clip_ok(#[trigger] self.saved()[i], self.buffer.width, self.buffer.height)
        &&& forall|i: int| 0 < i < self.saved().len() ==> (#[trigger] self.saved()[i]).within(self.saved()[i - 1])
        &&& self.saved().len() > 0 ==> self.clip.within(self.saved().last())
    }

    /// The borrowed buffer.
    pub closed spec fn target(self) -> &'a mut WindowBuffer {
        self.buffer
    }

    /// Width of the borrowed buffer.
    pub closed spec fn buffer_width(&self) -> u32 {
        self.buffer.width
    }

    /// Height of the borrowed buffer.
    pub closed spec fn buffer_height(&self) -> u32 {
        self.buffer.height
    }

    /// The pixels of the borrowed buffer.
    pub closed spec fn pixels(&self) -> Seq<u32> {
        self.buffer.pixels@
    }

    /// Everything but the pixels is as it was.
    pub open spec fn same_frame(&self, other: &Painter) -> bool {
        &&& self.buffer_width() == other.buffer_width()
        &&& self.buffer_height() == other.buffer_height()
        &&& self.clip_rect() == other.clip_rect()
        &&& self.saved() == other.saved()
    }

    /// A painter over the whole buffer, with nothing pushed.
    pub fn new(buffer: &'a mut WindowBuffer) -> (result: Painter<'a>)
        requires
            old(buffer).wf(),
            old(buffer).width <= i32::MAX,
            old(buffer).height <= i32::MAX,
        ensures
            result.wf(),
            result.pixels() == old(buffer).pixels@,
            result.buffer_width() == old(buffer).width,
            result.buffer_height() == old(buffer).height,
            *final(buffer) == *final(result.target()),
            result.clip_rect() == (Rect { x: 0, y: 0, w: old(buffer).width as i32, h: old(buffer).height as i32 }),
            result.saved().len() == 0,
    {
        let clip = Rect::new(0, 0, buffer.width as i32, buffer.height as i32);
        let z = Rect::new(0, 0, 0, 0);
        let p = Painter {
            buffer,
            clip,
            saved_inline: [z, z, z, z, z, z, z, z],
            saved_overflow: Vec::new(),
            saved_depth: 0,
        };
        assert(p.saved() =~= Seq::<Rect>::empty());
        p
    }

    /// Confine drawing to the intersection of `rect` and the current clip,
    /// remembering the current clip so that `pop_clip` restores it.
    pub fn push_clip(&mut self, rect: Rect)
        requires
            old(self).wf(),
            rect.fits(),
            old(self).clip_rect().intersect_ok(rect),
            old(self).saved().len() < usize::MAX,
        ensures
            final(self).wf(),
            *final(final(self).target()) == *final(old(self).target()),
            final(self).pixels() == old(self).pixels(),
            final(self).buffer_width() == old(self).buffer_width(),
            final(self).buffer_height() == old(self).buffer_height(),
            final(self).clip_rect() == old(self).clip_rect().intersect_spec(rect),
            final(self).clip_rect().within(old(self).clip_rect()),
            final(self).clip_rect().within(rect),
            final(self).saved() == old(self).saved().push(old(self).clip_rect()),
            (final(self).clip_rect(), final(self).saved()) == push_step((old(self).clip_rect(), old(self).saved()), rect),
    {
        let ghost before = self.saved();
        let current = self.clip;
        if self.saved_depth < INLINE_CLIP_DEPTH {
            self.saved_inline[self.saved_depth] = current;
        } else {
            self.saved_overflow.push(current);
        }
        self.saved_depth += 1;
        self.clip = current.intersect(rect);
        assert(self.saved() =~= before.push(current));
        assert(self.clip.within(current));
    }

    /// Restore the clip that was current before the matching `push_clip`.
    /// With nothing pushed, nothing changes.
    pub fn pop_clip(&mut self)
        requires
            old(self).wf(),
        ensures
            final(self).wf(),
            *final(final(self).target()) == *final(old(self).target()),
            final(self).pixels() == old(self).pixels(),
            final(self).buffer_width() == old(self).buffer_width(),
            final(self).buffer_height() == old(self).buffer_height(),
            old(self).saved().len() == 0 ==> final(self).clip_rect() == old(self).clip_rect() && final(self).saved() == old(self).saved(),
            old(self).saved().len() > 0 ==> final(self).clip_rect() == old(self).saved().last()
                && final(self).saved() == old(self).saved().drop_last(),
            (final(self).clip_rect(), final(self).saved()) == pop_step((old(self).clip_rect(), old(self).saved())),
    {
        if self.saved_depth == 0 {
            return;
        }
        let ghost before = self.saved();
        self.saved_depth -= 1;
        if self.saved_depth < INLINE_CLIP_DEPTH {
            self.clip = self.saved_inline[self.saved_depth];
        } else {
            let top = self.saved_overflow.pop();
            match top {
                Some(r) => { self.clip = r; }
                None => {}
            }
        }
        assert(self.saved() =~= before.drop_last());
    }

    /// The region currently being drawn into.
    pub fn clip(&self) -> (result: Rect)
        ensures
            result == self.clip_rect(),
    {
        self.clip
    }

    /// How many clips are saved below the current one.
    pub fn saved_depth(&self) -> (result: usize)
        requires
            self.wf(),
        ensures
            result == self.saved().len(),
    {
        self.saved_depth
    }

    /// How many saved clips spilled past the fixed inline slots.
    pub fn overflow_len(&self) -> (result: usize)
        requires
            self.wf(),
        ensures
            result == if self.saved().len() > INLINE_CLIP_DEPTH { self.saved().len() - INLINE_CLIP_DEPTH } else { 0 },
    {
        self.saved_overflow.len()
    }

    /// `Vec::capacity` of the spill storage for saved clips: how much the
    /// allocator set aside, which depends on the allocator and is left
    /// unstated.
    #[verifier::external_body]
    pub fn overflow_capacity(&self) -> usize {
        self.saved_overflow.capacity()
    }

    /// Whether anything drawn in `rect` could be visible.
    pub fn is_visible(&self, rect: Rect) -> (result: bool)
        requires
            self.wf(),
            rect.fits(),
            self.clip_rect().intersect_ok(rect),
        ensures
            result == !self.clip_rect().intersect_spec(rect).empty_spec(),
            result == exists|x: int, y: int| self.clip_rect().has(x, y) && rect.has(x, y),
    {
        let overlap = self.clip.intersect(rect);
        let r = !overlap.is_empty();
        if r {
            assert(overlap.has(overlap.x as int, overlap.y as int));
        }
        r
    }

    pub fn width(&self) -> (result: i32)
        ensures
            result == self.buffer_width() as i32,
    {
        self.buffer.width as i32
    }

    pub fn height(&self) -> (result: i32)
        ensures
            result == self.buffer_height() as i32,
    {
        self.buffer.height as i32
    }

    pub fn bounds(&self) -> (result: Rect)
        ensures
            result == (Rect { x: 0, y: 0, w: self.buffer_width() as i32, h: self.buffer_height() as i32 }),
    {
        Rect::new(0, 0, self.width(), self.height())
    }

    /// Set one pixel, if it lies inside the clip.
    pub fn put(&mut self, x: i32, y: i32, color: u32)
        requires
            old(self).wf(),
        ensures
            final(self).wf(),
            final(self).same_frame(old(self)),
            *final(final(self).target()) == *final(old(self).target()),
            painted(old(self).pixels(), final(self).pixels(), old(self).buffer_width(),
                Rect { x, y, w: 1, h: 1 }.intersect_spec(old(self).clip_rect()), color),
    {
        let ghost before = self.buffer.pixels@;
        let ghost w = self.buffer.width as int;
        if self.clip.contains(x, y) {
            let ghost c = self.clip;
            let _len = self.buffer.pixels.len();
            proof {
                lemma_index_in_bounds(w, self.buffer.height as int, x as int, y as int);
                assert(0 <= y * w <= y * w + x);
            }
            let index = y as usize * self.buffer.width as usize + x as usize;
            self.buffer.pixels.set(index, color);
            proof {
                assert forall|k: int| 0 <= k < before.len() implies #[trigger] self.buffer.pixels@[k] == if (Rect { x, y, w: 1, h: 1 }).intersect_spec(c).has(col(k, self.buffer.width), row(k, self.buffer.width)) {
                    color
                } else {
                    before[k]
                } by {
                    lemma_index(k, w, x as int, y as int);
                }
            }
        } else {
            assert forall|k: int| 0 <= k < before.len() implies !(#[trigger] (Rect { x, y, w: 1, h: 1 }).intersect_spec(self.clip).has(col(k, self.buffer.width), row(k, self.buffer.width))) by {}
        }
    }
    /// Set every pixel of `area`, which lies inside the buffer, to `color`.
    fn fill_area(&mut self, area: Rect, color: u32)
        requires
            old(self).wf(),
            area.fits(),
            area.w >= 0,
            area.h >= 0,
            area.empty_spec() || (0 <= area.x && 0 <= area.y && area.x + area.w <= old(self).buffer_width()
                && area.y + area.h <= old(self).buffer_height()),
        ensures
            final(self).wf(),
            final(self).same_frame(old(self)),
            *final(final(self).target()) == *final(old(self).target()),
            painted(old(self).pixels(), final(self).pixels(), old(self).buffer_width(), area, color),
    {
        let ghost before = self.buffer.pixels@;
        let ghost w = self.buffer.width as int;
        let ghost h = self.buffer.height as int;
        let ghost width_u = self.buffer.width;
        if area.w <= 0 || area.h <= 0 {
            assert forall|k: int| 0 <= k < before.len() implies !#[trigger] area.has(col(k, width_u), row(k, width_u)) by {}
            return;
        }
        let width = self.buffer.width as usize;
        let _len = self.buffer.pixels.len();
        let bottom = area.y + area.h;
        let right = area.x + area.w;
        let mut y = area.y;
        while y < bottom
            invariant
                self.wf(),
                self.same_frame(old(self)),
                *final(self.target()) == *final(old(self).target()),
                before == old(self).pixels(),
                w == self.buffer.width, h == self.buffer.height, width_u == self.buffer.width,
                width == w,
                _len == w * h,
                0 <= area.x, 0 <= area.y, area.w > 0, area.h > 0,
                bottom == area.y + area.h, right == area.x + area.w,
                right <= w, bottom <= h,
                area.y <= y <= bottom,
                self.buffer.pixels@.len() == before.len(),
                forall|k: int| 0 <= k < before.len() ==> #[trigger] self.buffer.pixels@[k] == if area.has(col(k, width_u), row(k, width_u)) && row(k, width_u) < y {
                    color
                } else {
                    before[k]
                },
            decreases bottom - y,
        {
            proof {
                lemma_index_in_bounds(w, h, 0, y as int);
                assert(0 <= y * w);
            }
            let row_start = y as usize * width;
            let mut x = area.x;
            while x < right
                invariant
                    self.wf(),
                    self.same_frame(old(self)),
                    *final(self.target()) == *final(old(self).target()),
                    before == old(self).pixels(),
                    w == self.buffer.width, h == self.buffer.height, width_u == self.buffer.width,
                    width == w,
                    _len == w * h,
                    0 <= area.x, 0 <= area.y, area.w > 0, area.h > 0,
                    bottom == area.y + area.h, right == area.x + area.w,
                    right <= w, bottom <= h,
                    area.y <= y < bottom,
                    area.x <= x <= right,
                    row_start == y * w,
                    self.buffer.pixels@.len() == before.len(),
                    forall|k: int| 0 <= k < before.len() ==> #[trigger] self.buffer.pixels@[k] == if area.has(col(k, width_u), row(k, width_u))
                        && (row(k, width_u) < y || (row(k, width_u) == y && col(k, width_u) < x)) {
                        color
                    } else {
                        before[k]
                    },
                decreases right - x,
            {
                proof {
                    lemma_index_in_bounds(w, h, x as int, y as int);
                }
                let index = row_start + x as usize;
                let ghost prev = self.buffer.pixels@;
                self.buffer.pixels.set(index, color);
                proof {
                    assert forall|k: int| 0 <= k < before.len() implies #[trigger] self.buffer.pixels@[k] == if area.has(col(k, width_u), row(k, width_u))
                        && (row(k, width_u) < y || (row(k, width_u) == y && col(k, width_u) < x + 1)) {
                        color
                    } else {
                        before[k]
                    } by {
                        lemma_index(k, w, x as int, y as int);
                        assert(prev[k] == if area.has(col(k, width_u), row(k, width_u))
                            && (row(k, width_u) < y || (row(k, width_u) == y && col(k, width_u) < x)) {
                            color
                        } else {
                            before[k]
                        });
                    }
                }
                x += 1;
            }
            y += 1;
        }
    }

    /// The part of `rect` inside the clip, computed without overflow; empty
    /// (all zero) when they do not meet.
    pub(crate) fn visible_part(&self, rect: Rect) -> (result: Rect)
        requires
            self.wf(),
        ensures
            result.fits(),
            result.w >= 0,
            result.h >= 0,
            result.empty_spec() || (0 <= result.x && 0 <= result.y && result.x + result.w <= self.buffer_width()
                && result.y + result.h <= self.buffer_height()),
            forall|x: int, y: int| #[trigger] result.has(x, y) <==> (rect.has(x, y) && self.clip_rect().has(x, y)),
    {
        let c = self.clip;
        let x: i64 = if (rect.x as i64) > (c.x as i64) { rect.x as i64 } else { c.x as i64 };
        let y: i64 = if (rect.y as i64) > (c.y as i64) { rect.y as i64 } else { c.y as i64 };
        let r1 = rect.x as i64 + rect.w as i64;
        let r2 = c.x as i64 + c.w as i64;
        let b1 = rect.y as i64 + rect.h as i64;
        let b2 = c.y as i64 + c.h as i64;
        let right: i64 = if r1 < r2 { r1 } else { r2 };
        let bottom: i64 = if b1 < b2 { b1 } else { b2 };
        if right <= x || bottom <= y {
            let e = Rect::new(0, 0, 0, 0);
            assert forall|px: int, py: int| #[trigger] e.has(px, py) <==> (rect.has(px, py) && c.has(px, py)) by {}
            return e;
        }
        Rect::new(x as i32, y as i32, (right - x) as i32, (bottom - y) as i32)
    }

    /// Fill the part of `rect` inside the clip with one colour.
    pub fn fill_rect(&mut self, rect: Rect, color: u32)
        requires
            old(self).wf(),
        ensures
            final(self).wf(),
            final(self).same_frame(old(self)),
            *final(final(self).target()) == *final(old(self).target()),
            painted_in(old(self).pixels(), final(self).pixels(), old(self).buffer_width(), rect, old(self).clip_rect(), color),
    {
        let visible = self.visible_part(rect);
        self.fill_area(visible, color);
    }

    /// Fill the whole clip with one colour.
    pub fn clear(&mut self, color: u32)
        requires
            old(self).wf(),
        ensures
            final(self).wf(),
            final(self).same_frame(old(self)),
            *final(final(self).target()) == *final(old(self).target()),
            painted_in(old(self).pixels(), final(self).pixels(), old(self).buffer_width(), old(self).clip_rect(), old(self).clip_rect(), color),
    {
        let clip = self.clip;
        self.fill_area(clip, color);
    }

    /// Blend a colour over one pixel by coverage, if it lies inside the clip.
    pub fn blend(&mut self, x: i32, y: i32, color: u32, alpha: u8)
        requires
            old(self).wf(),
        ensures
            final(self).wf(),
            final(self).same_frame(old(self)),
            *final(final(self).target()) == *final(old(self).target()),
            blended(old(self).pixels(), final(self).pixels(), old(self).buffer_width(),
                Rect { x, y, w: 1, h: 1 }.intersect_spec(old(self).clip_rect()), color, alpha),
    {
        let ghost before = self.buffer.pixels@;
        let ghost w = self.buffer.width as int;
        let ghost width_u = self.buffer.width;
        let ghost area = Rect { x, y, w: 1, h: 1 }.intersect_spec(self.clip);
        if alpha == 0 || !self.clip.contains(x, y) {
            assert forall|k: int| 0 <= k < before.len() implies #[trigger] self.buffer.pixels@[k] == if area.has(col(k, width_u), row(k, width_u)) {
                blend_pixel_spec(before[k], color, alpha)
            } else {
                before[k]
            } by {}
            return;
        }
        let _len = self.buffer.pixels.len();
        proof {
            lemma_index_in_bounds(w, self.buffer.height as int, x as int, y as int);
            assert(0 <= y * w <= y * w + x);
        }
        let index = y as usize * self.buffer.width as usize + x as usize;
        let p = crate::raster::blend::blend_pixel(self.buffer.pixels[index], color, alpha);
        self.buffer.pixels.set(index, p);
        proof {
            assert forall|k: int| 0 <= k < before.len() implies #[trigger] self.buffer.pixels@[k] == if area.has(col(k, width_u), row(k, width_u)) {
                blend_pixel_spec(before[k], color, alpha)
            } else {
                before[k]
            } by {
                lemma_index(k, w, x as int, y as int);
            }
        }
    }
    /// Blend one colour along row `y` from column `x`, weighted per pixel by
    /// `coverage`; whatever falls outside the clip is cut from the ends.
    pub fn blend_coverage_row(&mut self, x: i32, y: i32, color: u32, coverage: &[u8])
        requires
            old(self).wf(),
        ensures
            final(self).wf(),
            final(self).same_frame(old(self)),
            *final(final(self).target()) == *final(old(self).target()),
            row_blended(old(self).pixels(), final(self).pixels(), old(self).buffer_width(), old(self).clip_rect(),
                x as int, y as int, color, coverage@),
    {
        let ghost before = self.buffer.pixels@;
        let ghost w = self.buffer.width as int;
        let ghost h = self.buffer.height as int;
        let ghost width_u = self.buffer.width;
        let clip = self.clip;
        let ghost n = coverage@.len() as int;
        if y < clip.y || y >= clip.bottom() {
            assert forall|k: int| 0 <= k < before.len() implies !(#[trigger] clip.has(col(k, width_u), row(k, width_u)) && row(k, width_u) == y) by {}
            return;
        }
        let start0: i64 = clip.x as i64 - x as i64;
        let start: i64 = if start0 > 0 { start0 } else { 0 };
        let end0: i64 = clip.x as i64 + clip.w as i64 - x as i64;
        let end: i64 = if end0 <= 0 { end0 } else if (coverage.len() as u64) < (end0 as u64) { coverage.len() as i64 } else { end0 };
        if end <= start {
            assert forall|k: int| 0 <= k < before.len() implies !(#[trigger] clip.has(col(k, width_u), row(k, width_u)) && row(k, width_u) == y
                && x <= col(k, width_u) < x + n) by {}
            return;
        }
        let width = self.buffer.width as usize;
        let _plen = self.buffer.pixels.len();
        proof {
            lemma_index_in_bounds(w, h, 0, y as int);
            assert(0 <= y * w);
        }
        let row_start = y as usize * width;
        let mut i = start;
        while i < end
            invariant
                self.wf(),
                self.same_frame(old(self)),
                *final(self.target()) == *final(old(self).target()),
                before == old(self).pixels(),
                clip == old(self).clip_rect(),
                w == self.buffer.width, h == self.buffer.height, width_u == self.buffer.width,
                width == w, _plen == w * h, n == coverage@.len(),
                clip.y <= y < clip.y + clip.h,
                !clip.empty_spec(),
                0 <= clip.x, clip.x + clip.w <= w, clip.y + clip.h <= h,
                start == max_int(clip.x - x, 0), end == min_int(clip.x + clip.w - x, n),
                start <= i <= end,
                row_start == y * w,
                self.buffer.pixels@.len() == before.len(),
                forall|k: int| 0 <= k < before.len() ==> #[trigger] self.buffer.pixels@[k] == if clip.has(col(k, width_u), row(k, width_u))
                    && row(k, width_u) == y && x <= col(k, width_u) < x + i {
                    blend_pixel_spec(before[k], color, coverage@[col(k, width_u) - x])
                } else {
                    before[k]
                },
            decreases end - i,
        {
            let px = (x as i64 + i) as i32;
            proof {
                lemma_index_in_bounds(w, h, px as int, y as int);
            }
            let index = row_start + px as usize;
            let ghost prev = self.buffer.pixels@;
            let p = crate::raster::blend::blend_pixel(self.buffer.pixels[index], color, coverage[i as usize]);
            self.buffer.pixels.set(index, p);
            proof {
                assert forall|k: int| 0 <= k < before.len() implies #[trigger] self.buffer.pixels@[k] == if clip.has(col(k, width_u), row(k, width_u))
                    && row(k, width_u) == y && x <= col(k, width_u) < x + i + 1 {
                    blend_pixel_spec(before[k], color, coverage@[col(k, width_u) - x])
                } else {
                    before[k]
                } by {
                    lemma_index(k, w, px as int, y as int);
                    assert(prev[k] == if clip.has(col(k, width_u), row(k, width_u))
                        && row(k, width_u) == y && x <= col(k, width_u) < x + i {
                        blend_pixel_spec(before[k], color, coverage@[col(k, width_u) - x])
                    } else {
                        before[k]
                    });
                }
            }
            i += 1;
        }
        proof {
            assert forall|k: int| 0 <= k < before.len() && #[trigger] clip.has(col(k, width_u), row(k, width_u)) && row(k, width_u) == y
                && x <= col(k, width_u) < x + n implies col(k, width_u) < x + end by {}
        }
    }
}

/// `new` is `old` with the pixels of row `y` from column `x` on, inside
/// `clip`, blended toward `color` by the matching coverage byte.
pub open spec fn row_blended(old: Seq<u32>, new: Seq<u32>, width: u32, clip: Rect, x: int, y: int, color: u32, coverage: Seq<u8>) -> bool {
    &&& new.len() == old.len()
    &&& forall|k: int| 0 <= k < old.len() ==> #[trigger] new[k] == if clip.has(col(k, width), row(k, width))
        && row(k, width) == y && x <= col(k, width) < x + coverage.len() {
        blend_pixel_spec(old[k], color, coverage[col(k, width) - x])
    } else {
        old[k]
    }
}

impl<'a> Painter<'a> {
    /// Fill a rectangle with rounded corners using horizontal spans: the two
    /// cross-shaped bands, then one span per corner row.
    pub fn fill_rounded_rect(&mut self, rect: Rect, radius: i32, color: u32)
        requires
            old(self).wf(),
            rect.fits(),
        ensures
            final(self).wf(),
            final(self).same_frame(old(self)),
            *final(final(self).target()) == *final(old(self).target()),
            painted_where(old(self).pixels(), final(self).pixels(), old(self).buffer_width(), old(self).clip_rect(),
                |px: int, py: int| in_rounded(rect, rounded_radius(rect, radius as int), px, py), color),
    {
        let ghost before = self.pixels();
        let ghost width_u = self.buffer_width();
        let ghost clip = self.clip_rect();
        let ghost r_spec = rounded_radius(rect, radius as int);
        if rect.is_empty() {
            assert forall|k: int| 0 <= k < before.len() implies !(#[trigger] in_rounded(rect, r_spec, col(k, width_u), row(k, width_u))) by {}
            return;
        }
        let smaller = if rect.w < rect.h { rect.w } else { rect.h };
        let most = smaller / 2;
        let r = if radius < 0 { 0 } else if radius > most { most } else { radius };
        assert(r == r_spec);
        if r == 0 {
            self.fill_rect(rect, color);
            proof {
                assert forall|k: int| 0 <= k < before.len() implies
                    (#[trigger] rect.has(col(k, width_u), row(k, width_u))) == in_rounded(rect, r_spec, col(k, width_u), row(k, width_u)) by {}
            }
            return;
        }
        let band_a = Rect::new(rect.x + r, rect.y, rect.w - r * 2, rect.h);
        let band_b = Rect::new(rect.x, rect.y + r, rect.w, rect.h - r * 2);
        self.fill_rect(band_a, color);
        self.fill_rect(band_b, color);
        let ghost rx = rect.x as int;
        let ghost ry = rect.y as int;
        let ghost rw = rect.w as int;
        let ghost rh = rect.h as int;
        let mut row_index: i32 = 0;
        while row_index < r
            invariant
                self.wf(),
                self.same_frame(old(self)),
                *final(self.target()) == *final(old(self).target()),
                before == old(self).pixels(),
                width_u == self.buffer_width(),
                clip == self.clip_rect(),
                rect.fits(), rect.w > 0, rect.h > 0,
                rx == rect.x, ry == rect.y, rw == rect.w, rh == rect.h,
                0 < r <= rw / 2, r <= rh / 2,
                r == r_spec,
                band_a == (Rect { x: (rx + r) as i32, y: rect.y, w: (rw - 2 * r) as i32, h: rect.h }),
                band_b == (Rect { x: rect.x, y: (ry + r) as i32, w: rect.w, h: (rh - 2 * r) as i32 }),
                0 <= row_index <= r,
                self.pixels().len() == before.len(),
                forall|k: int| 0 <= k < before.len() ==> #[trigger] self.pixels()[k] == if clip.has(col(k, width_u), row(k, width_u))
                    && (band_a.has(col(k, width_u), row(k, width_u)) || band_b.has(col(k, width_u), row(k, width_u))
                        || (rect.has(col(k, width_u), row(k, width_u))
                            && min_int(row(k, width_u) - ry, ry + rh - 1 - row(k, width_u)) < row_index
                            && rx + corner_inset(r as int, min_int(row(k, width_u) - ry, ry + rh - 1 - row(k, width_u))) <= col(k, width_u)
                            && col(k, width_u) < rx + rw - corner_inset(r as int, min_int(row(k, width_u) - ry, ry + rh - 1 - row(k, width_u))))) {
                    color
                } else {
                    before[k]
                },
            decreases r - row_index,
        {
            let e: i64 = 2 * (r as i64) - 2 * (row_index as i64) - 1;
            let ghost ei = 2 * (r as int) - 2 * (row_index as int) - 1;
            assert(0 < e < 2 * r);
            assert(e * e < 4 * (r as i64) * (r as i64)) by (nonlinear_arith) requires 0 < e < 2 * r;
            assert((4 * (r as int)) * (r as int) <= 0x4000_0000_0000_0000) by (nonlinear_arith) requires 0 < r <= 0x4000_0000;
            let n: i64 = 4 * (r as i64) * (r as i64) - e * e;
            let root = isqrt(n as u64);
            proof {
                lemma_corner_inset_bounds(r as int, row_index as int);
            }
            let half = (root / 2) as i32;
            let inset = r - half;
            assert(inset == corner_inset(r as int, row_index as int));
            let span = rect.w - inset * 2;
            let top = Rect::new(rect.x + inset, rect.y + row_index, span, 1);
            let bottom = Rect::new(rect.x + inset, rect.y + rect.h - row_index - 1, span, 1);
            let ghost mid0 = self.pixels();
            self.fill_rect(top, color);
            let ghost mid1 = self.pixels();
            self.fill_rect(bottom, color);
            proof {
                let ri = row_index as int;
                assert forall|k: int| 0 <= k < before.len() implies #[trigger] self.pixels()[k] == if clip.has(col(k, width_u), row(k, width_u))
                    && (band_a.has(col(k, width_u), row(k, width_u)) || band_b.has(col(k, width_u), row(k, width_u))
                        || (rect.has(col(k, width_u), row(k, width_u))
                            && min_int(row(k, width_u) - ry, ry + rh - 1 - row(k, width_u)) < ri + 1
                            && rx + corner_inset(r as int, min_int(row(k, width_u) - ry, ry + rh - 1 - row(k, width_u))) <= col(k, width_u)
                            && col(k, width_u) < rx + rw - corner_inset(r as int, min_int(row(k, width_u) - ry, ry + rh - 1 - row(k, width_u))))) {
                    color
                } else {
                    before[k]
                } by {
                    let px = col(k, width_u);
                    let py = row(k, width_u);
                    assert(mid1[k] == if top.has(px, py) && clip.has(px, py) { color } else { mid0[k] });
                    assert(self.pixels()[k] == if bottom.has(px, py) && clip.has(px, py) { color } else { mid1[k] });
                    let d = min_int(py - ry, ry + rh - 1 - py);
                    if rect.has(px, py) && d == ri {
                        assert(py == ry + ri || py == ry + rh - 1 - ri);
                    }
                }
            }
            row_index += 1;
        }
        proof {
            assert forall|k: int| 0 <= k < before.len() implies #[trigger] self.pixels()[k] == if clip.has(col(k, width_u), row(k, width_u))
                && in_rounded(rect, r_spec, col(k, width_u), row(k, width_u)) {
                color
            } else {
                before[k]
            } by {
                let px = col(k, width_u);
                let py = row(k, width_u);
                let d = min_int(py - ry, ry + rh - 1 - py);
                if rect.has(px, py) && 0 <= d < r {
                    lemma_corner_inset_bounds(r as int, d);
                }
            }
        }
    }
}

/// The inside of a bordered surface: `rect` inset by the border on every side.
pub open spec fn inner_rect(rect: Rect, border: int) -> Rect {
    Rect {
        x: (rect.x + border) as i32,
        y: (rect.y + border) as i32,
        w: max_int(rect.w - 2 * border, 0) as i32,
        h: max_int(rect.h - 2 * border, 0) as i32,
    }
}

impl<'a> Painter<'a> {
    /// A filled rounded surface with its border drawn underneath: the whole
    /// shape in `edge`, then the inset shape in `fill`.
    pub fn rounded_rect(&mut self, rect: Rect, radius: i32, border: i32, fill: u32, edge: u32)
        requires
            old(self).wf(),
            rect.fits(),
            in_i32(2 * max_int(border as int, 0)),
            in_i32(rect.x + max_int(border as int, 0)),
            in_i32(rect.y + max_int(border as int, 0)),
            in_i32(rect.w - 2 * max_int(border as int, 0)),
            in_i32(rect.h - 2 * max_int(border as int, 0)),
            in_i32(radius - max_int(border as int, 0)),
            inner_rect(rect, max_int(border as int, 0)).fits(),
        ensures
            final(self).wf(),
            final(self).same_frame(old(self)),
            *final(final(self).target()) == *final(old(self).target()),
            final(self).pixels().len() == old(self).pixels().len(),
            forall|k: int| 0 <= k < old(self).pixels().len() ==> #[trigger] final(self).pixels()[k] == ({
                let px = col(k, old(self).buffer_width());
                let py = row(k, old(self).buffer_width());
                let b = max_int(border as int, 0);
                let inner = inner_rect(rect, b);
                if old(self).clip_rect().has(px, py) && b > 0 && in_rounded(inner, rounded_radius(inner, max_int(radius - b, 0)), px, py) {
                    fill
                } else if old(self).clip_rect().has(px, py) && in_rounded(rect, rounded_radius(rect, radius as int), px, py) {
                    if b == 0 { fill } else { edge }
                } else {
                    old(self).pixels()[k]
                }
            }),
    {
        let ghost before = self.pixels();
        let ghost width_u = self.buffer_width();
        let ghost clip = self.clip_rect();
        let border = if border > 0 { border } else { 0 };
        if border == 0 {
            self.fill_rounded_rect(rect, radius, fill);
            return;
        }
        self.fill_rounded_rect(rect, radius, edge);
        let ghost mid = self.pixels();
        let inner = rect.inset(border);
        assert(inner == inner_rect(rect, border as int));
        if !inner.is_empty() {
            let inner_radius = if radius - border > 0 { radius - border } else { 0 };
            self.fill_rounded_rect(inner, inner_radius, fill);
        } else {
            assert forall|k: int| 0 <= k < before.len() implies !#[trigger] in_rounded(inner, rounded_radius(inner, max_int(radius - border, 0)), col(k, width_u), row(k, width_u)) by {}
        }
    }

    /// Draw a rectangle's border, `thickness` pixels wide, inside its bounds.
    pub fn stroke_rect(&mut self, rect: Rect, thickness: i32, color: u32)
        requires
            old(self).wf(),
            rect.fits(),
            in_i32(rect.x + rect.w - min_int(min_int(thickness as int, rect.w as int), rect.h as int)),
            in_i32(rect.y + rect.h - min_int(min_int(thickness as int, rect.w as int), rect.h as int)),
        ensures
            final(self).wf(),
            final(self).same_frame(old(self)),
            *final(final(self).target()) == *final(old(self).target()),
            painted_where(old(self).pixels(), final(self).pixels(), old(self).buffer_width(), old(self).clip_rect(),
                |px: int, py: int| {
                    let t = min_int(min_int(thickness as int, rect.w as int), rect.h as int);
                    rect.w > 0 && rect.h > 0 && rect.has(px, py)
                        && (py < rect.y + t || py >= rect.y + rect.h - t || px < rect.x + t || px >= rect.x + rect.w - t)
                }, color),
    {
        let ghost before = self.pixels();
        let ghost width_u = self.buffer_width();
        let ghost clip = self.clip_rect();
        if rect.w <= 0 || rect.h <= 0 {
            return;
        }
        let t0 = if thickness < rect.w { thickness } else { rect.w };
        let t = if t0 < rect.h { t0 } else { rect.h };
        let a = Rect::new(rect.x, rect.y, rect.w, t);
        let b = Rect::new(rect.x, rect.bottom() - t, rect.w, t);
        let c = Rect::new(rect.x, rect.y, t, rect.h);
        let d = Rect::new(rect.right() - t, rect.y, t, rect.h);
        let ghost m0 = self.pixels();
        self.fill_rect(a, color);
        let ghost m1 = self.pixels();
        self.fill_rect(b, color);
        let ghost m2 = self.pixels();
        self.fill_rect(c, color);
        let ghost m3 = self.pixels();
        self.fill_rect(d, color);
        proof {
            assert forall|k: int| 0 <= k < before.len() implies #[trigger] self.pixels()[k] == if clip.has(col(k, width_u), row(k, width_u))
                && ({
                    let px = col(k, width_u);
                    let py = row(k, width_u);
                    let tt = min_int(min_int(thickness as int, rect.w as int), rect.h as int);
                    rect.w > 0 && rect.h > 0 && rect.has(px, py)
                        && (py < rect.y + tt || py >= rect.y + rect.h - tt || px < rect.x + tt || px >= rect.x + rect.w - tt)
                }) {
                color
            } else {
                before[k]
            } by {
                assert(m1[k] == if a.has(col(k, width_u), row(k, width_u)) && clip.has(col(k, width_u), row(k, width_u)) { color } else { m0[k] });
                assert(m2[k] == if b.has(col(k, width_u), row(k, width_u)) && clip.has(col(k, width_u), row(k, width_u)) { color } else { m1[k] });
                assert(m3[k] == if c.has(col(k, width_u), row(k, width_u)) && clip.has(col(k, width_u), row(k, width_u)) { color } else { m2[k] });
            }
        }
    }

    /// A one-pixel horizontal rule covering `[x, x + width)`.
    pub fn horizontal_rule(&mut self, x: i32, y: i32, width: i32, color: u32)
        requires
            old(self).wf(),
        ensures
            final(self).wf(),
            final(self).same_frame(old(self)),
            *final(final(self).target()) == *final(old(self).target()),
            painted_in(old(self).pixels(), final(self).pixels(), old(self).buffer_width(), Rect { x, y, w: width, h: 1 }, old(self).clip_rect(), color),
    {
        self.fill_rect(Rect::new(x, y, width, 1), color);
    }
}

} // verus!
