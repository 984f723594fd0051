//! Alpha fills, hairlines and soft shadows for [`Painter`].

use vstd::prelude::*;
use crate::raster::blend::blend_pixel_spec;
use crate::raster::painter::{Painter, Rect, col, row, lemma_index, painted_in, in_i32, min_int, max_int};

verus! {

/// `new` is `old` with every pixel inside both `area` and `clip` blended
/// toward `color` at `alpha`.
pub open spec fn blended_in(old: Seq<u32>, new: Seq<u32>, width: u32, area: Rect, clip: Rect, color: u32, alpha: u8) -> bool {
    &&& new.len() == old.len()
    &&& forall|k: int| 0 <= k < old.len() ==> #[trigger] new[k] == if area.has(col(k, width), row(k, width))
        && clip.has(col(k, width), row(k, width)) {
        blend_pixel_spec(old[k], color, alpha)
    } else {
        old[k]
    }
}

/// The opacity of shadow layer `i` (of `spread`): layers further out are
/// fainter, in proportion `spread - i + 1` of the triangular total.
pub open spec fn shadow_alpha(alpha: u8, spread: int, i: int) -> u8 {
    let total = max_int(spread * (spread + 1) / 2, 1);
    min_int((alpha * (spread - i + 1)) / total, 255) as u8
}

/// Shadow layer `i`: the rectangle grown by `i` on every side and moved
/// down by `offset_y`.
pub open spec fn shadow_layer(rect: Rect, offset_y: int, i: int) -> Rect {
    Rect { x: (rect.x - i) as i32, y: (rect.y - i + offset_y) as i32, w: (rect.w + 2 * i) as i32, h: (rect.h + 2 * i) as i32 }
}

/// A pixel after shadow layers `i`, `i - 1`, ..., `1` have been blended over
/// it, in that order.
pub open spec fn shadow_pixel(p: u32, px: int, py: int, rect: Rect, offset_y: int, spread: int, color: u32,
    alpha: u8, clip: Rect, i: int) -> u32
    decreases i,
{
    if i < 1 {
        p
    } else {
        let q = if shadow_layer(rect, offset_y, i).has(px, py) && clip.has(px, py) {
            blend_pixel_spec(p, color, shadow_alpha(alpha, spread, i))
        } else {
            p
        };
        shadow_pixel(q, px, py, rect, offset_y, spread, color, alpha, clip, i - 1)
    }
}

impl<'a> Painter<'a> {
    /// Blend a rectangle, cut by the clip, toward a colour at a constant
    /// opacity. Full opacity stores the colour; zero leaves everything.
    pub fn blend_rect(&mut self, rect: Rect, color: u32, alpha: u8)
        requires
            old(self).wf(),
        ensures
            final(self).wf(),
            final(self).same_frame(old(self)),
            *final(final(self).target()) == *final(old(self).target()),
            blended_in(old(self).pixels(), final(self).pixels(), old(self).buffer_width(), rect, old(self).clip_rect(), color, alpha),
    {
        let ghost before = self.pixels();
        let ghost width_u = self.buffer_width();
        let ghost clip = self.clip_rect();
        if alpha == 255 {
            self.fill_rect(rect, color);
            return;
        }
        let visible = self.visible_part(rect);
        if visible.is_empty() || alpha == 0 {
            assert forall|k: int| 0 <= k < before.len() implies #[trigger] self.pixels()[k] == if rect.has(col(k, width_u), row(k, width_u))
                && clip.has(col(k, width_u), row(k, width_u)) {
                blend_pixel_spec(before[k], color, alpha)
            } else {
                before[k]
            } by {
                assert(visible.has(col(k, width_u), row(k, width_u)) == (rect.has(col(k, width_u), row(k, width_u)) && clip.has(col(k, width_u), row(k, width_u))));
            }
            return;
        }
        let bottom = visible.y + visible.h;
        let right = visible.x + visible.w;
        let mut y = visible.y;
        while y < bottom
            invariant
                self.wf(),
                self.same_frame(old(self)),
                *final(self.target()) == *final(old(self).target()),
                before == old(self).pixels(),
                width_u == self.buffer_width(),
                clip == self.clip_rect(),
                visible.fits(), visible.w > 0, visible.h > 0,
                0 <= visible.x, 0 <= visible.y,
                visible.x + visible.w <= width_u,
                bottom == visible.y + visible.h, right == visible.x + visible.w,
                forall|px: int, py: int| #[trigger] visible.has(px, py) <==> (rect.has(px, py) && clip.has(px, py)),
                visible.y <= y <= bottom,
                self.pixels().len() == before.len(),
                forall|k: int| 0 <= k < before.len() ==> #[trigger] self.pixels()[k] == if visible.has(col(k, width_u), row(k, width_u)) && row(k, width_u) < y {
                    blend_pixel_spec(before[k], color, alpha)
                } else {
                    before[k]
                },
            decreases bottom - y,
        {
            let mut x = visible.x;
            while x < right
                invariant
                    self.wf(),
                    self.same_frame(old(self)),
                    *final(self.target()) == *final(old(self).target()),
                    before == old(self).pixels(),
                    width_u == self.buffer_width(),
                    clip == self.clip_rect(),
                    visible.fits(), visible.w > 0, visible.h > 0,
                    0 <= visible.x, 0 <= visible.y,
                    visible.x + visible.w <= width_u,
                    bottom == visible.y + visible.h, right == visible.x + visible.w,
                    forall|px: int, py: int| #[trigger] visible.has(px, py) <==> (rect.has(px, py) && clip.has(px, py)),
                    visible.y <= y < bottom,
                    visible.x <= x <= right,
                    self.pixels().len() == before.len(),
                    forall|k: int| 0 <= k < before.len() ==> #[trigger] self.pixels()[k] == if visible.has(col(k, width_u), row(k, width_u))
                        && (row(k, width_u) < y || (row(k, width_u) == y && col(k, width_u) < x)) {
                        blend_pixel_spec(before[k], color, alpha)
                    } else {
                        before[k]
                    },
                decreases right - x,
            {
                let ghost prev = self.pixels();
                self.blend(x, y, color, alpha);
                proof {
                    assert forall|k: int| 0 <= k < before.len() implies #[trigger] self.pixels()[k] == if visible.has(col(k, width_u), row(k, width_u))
                        && (row(k, width_u) < y || (row(k, width_u) == y && col(k, width_u) < x + 1)) {
                        blend_pixel_spec(before[k], color, alpha)
                    } else {
                        before[k]
                    } by {
                        let px = col(k, width_u);
                        let py = row(k, width_u);
                        assert(self.pixels()[k] == if (Rect { x, y, w: 1, h: 1 }).intersect_spec(clip).has(px, py) {
                            blend_pixel_spec(prev[k], color, alpha)
                        } else {
                            prev[k]
                        });
                        assert(prev[k] == if visible.has(px, py) && (py < y || (py == y && px < x)) {
                            blend_pixel_spec(before[k], color, alpha)
                        } else {
                            before[k]
                        });
                        assert(visible.has(x as int, y as int));
                    }
                }
                x += 1;
            }
            y += 1;
        }
        proof {
            assert forall|k: int| 0 <= k < before.len() implies #[trigger] self.pixels()[k] == if rect.has(col(k, width_u), row(k, width_u))
                && clip.has(col(k, width_u), row(k, width_u)) {
                blend_pixel_spec(before[k], color, alpha)
            } else {
                before[k]
            } by {
                assert(visible.has(col(k, width_u), row(k, width_u)) == (rect.has(col(k, width_u), row(k, width_u)) && clip.has(col(k, width_u), row(k, width_u))));
            }
        }
    }

    /// A one-pixel horizontal hairline covering `[x, x + width)`.
    pub fn hline(&mut self, x: i32, y: i32, width: i32, color: u32)
        requires
            old(self).wf(),
        ensures
            final(self).wf(),
            final(self).same_frame(old(self)),
            *final(final(self).target()) == *final(old(self).target()),
            painted_in(old(self).pixels(), final(self).pixels(), old(self).buffer_width(), Rect { x, y, w: width, h: 1 }, old(self).clip_rect(), color),
    {
        self.fill_rect(Rect::new(x, y, width, 1), color);
    }

    /// A one-pixel vertical hairline covering `[y, y + height)`.
    pub fn vline(&mut self, x: i32, y: i32, height: i32, color: u32)
        requires
            old(self).wf(),
        ensures
            final(self).wf(),
            final(self).same_frame(old(self)),
            *final(final(self).target()) == *final(old(self).target()),
            painted_in(old(self).pixels(), final(self).pixels(), old(self).buffer_width(), Rect { x, y, w: 1, h: height }, old(self).clip_rect(), color),
    {
        self.fill_rect(Rect::new(x, y, 1, height), color);
    }

    /// A cheap soft shadow: `spread` offset, progressively fainter alpha
    /// rectangles under `rect`, outermost first.
    pub fn shadow_rect(&mut self, rect: Rect, offset_y: i32, spread: i32, color: u32, alpha: u8)
        requires
            old(self).wf(),
            spread <= 0 || (spread * (spread + 1) <= u32::MAX
                && in_i32(rect.x - spread) && in_i32(rect.y - spread) && in_i32(rect.y - spread + offset_y) && in_i32(rect.y + offset_y)
                && in_i32(rect.w + 2 * spread) && in_i32(rect.h + 2 * spread)
                && in_i32(rect.x - 1) && in_i32(rect.y - 1) && in_i32(rect.y - 1 + offset_y)
                && in_i32(rect.w + 2) && in_i32(rect.h + 2)),
        ensures
            final(self).wf(),
            final(self).same_frame(old(self)),
            *final(final(self).target()) == *final(old(self).target()),
            final(self).pixels().len() == old(self).pixels().len(),
            forall|k: int| 0 <= k < old(self).pixels().len() ==> #[trigger] final(self).pixels()[k] == shadow_pixel(old(self).pixels()[k],
                col(k, old(self).buffer_width()), row(k, old(self).buffer_width()), rect, offset_y as int, spread as int, color, alpha,
                old(self).clip_rect(), spread as int),
    {
        let ghost before = self.pixels();
        let ghost width_u = self.buffer_width();
        let ghost clip = self.clip_rect();
        if spread <= 0 || alpha == 0 {
            proof {
                assert forall|k: int| 0 <= k < before.len() implies #[trigger] self.pixels()[k] == shadow_pixel(before[k],
                    col(k, width_u), row(k, width_u), rect, offset_y as int, spread as int, color, alpha, clip, spread as int) by {
                    lemma_shadow_zero(before[k], col(k, width_u), row(k, width_u), rect, offset_y as int, spread as int, color, alpha, clip, spread as int);
                }
            }
            return;
        }
        let total0 = (spread as u32) * (spread as u32 + 1) / 2;
        let total = if total0 > 1 { total0 } else { 1 };
        let mut i = spread;
        while i >= 1
            invariant
                self.wf(),
                self.same_frame(old(self)),
                *final(self.target()) == *final(old(self).target()),
                before == old(self).pixels(),
                width_u == self.buffer_width(),
                clip == self.clip_rect(),
                spread > 0,
                spread * (spread + 1) <= u32::MAX,
                total == max_int(spread * (spread + 1) / 2, 1),
                in_i32(rect.x - spread), in_i32(rect.y - spread), in_i32(rect.y - spread + offset_y), in_i32(rect.y + offset_y),
                in_i32(rect.w + 2 * spread), in_i32(rect.h + 2 * spread),
                in_i32(rect.x - 1), in_i32(rect.y - 1), in_i32(rect.y - 1 + offset_y), in_i32(rect.w + 2), in_i32(rect.h + 2),
                0 <= i <= spread,
                self.pixels().len() == before.len(),
                forall|k: int| 0 <= k < before.len() ==> #[trigger] shadow_pixel(self.pixels()[k], col(k, width_u), row(k, width_u), rect,
                    offset_y as int, spread as int, color, alpha, clip, i as int)
                    == shadow_pixel(before[k], col(k, width_u), row(k, width_u), rect, offset_y as int, spread as int, color, alpha, clip, spread as int),
            decreases i,
        {
            assert((alpha as int) * (spread - i + 1) <= 255 * spread) by (nonlinear_arith)
                requires 1 <= i <= spread, alpha <= 255;
            assert(spread <= 65535) by (nonlinear_arith) requires spread * (spread + 1) <= u32::MAX, spread > 0;
            let scaled = (alpha as u32) * ((spread - i + 1) as u32) / total;
            let a = if scaled < 255 { scaled as u8 } else { 255u8 };
            assert(a == shadow_alpha(alpha, spread as int, i as int));
            let layer = Rect::new(rect.x - i, rect.y - i + offset_y, rect.w + 2 * i, rect.h + 2 * i);
            assert(layer == shadow_layer(rect, offset_y as int, i as int));
            let ghost prev = self.pixels();
            self.blend_rect(layer, color, a);
            proof {
                assert forall|k: int| 0 <= k < before.len() implies #[trigger] shadow_pixel(self.pixels()[k], col(k, width_u), row(k, width_u), rect,
                    offset_y as int, spread as int, color, alpha, clip, (i - 1) as int)
                    == shadow_pixel(before[k], col(k, width_u), row(k, width_u), rect, offset_y as int, spread as int, color, alpha, clip, spread as int) by {
                    assert(shadow_pixel(prev[k], col(k, width_u), row(k, width_u), rect, offset_y as int, spread as int, color, alpha, clip, i as int)
                        == shadow_pixel(before[k], col(k, width_u), row(k, width_u), rect, offset_y as int, spread as int, color, alpha, clip, spread as int));
                }
            }
            i -= 1;
        }
        proof {
            assert forall|k: int| 0 <= k < before.len() implies #[trigger] self.pixels()[k] == shadow_pixel(before[k],
                col(k, width_u), row(k, width_u), rect, offset_y as int, spread as int, color, alpha, clip, spread as int) by {
                assert(shadow_pixel(self.pixels()[k], col(k, width_u), row(k, width_u), rect,
                    offset_y as int, spread as int, color, alpha, clip, 0) == self.pixels()[k]);
            }
        }
    }
}

/// With no spread, or a transparent shadow, every layer leaves a pixel alone.
proof fn lemma_shadow_zero(p: u32, px: int, py: int, rect: Rect, offset_y: int, spread: int, color: u32, alpha: u8, clip: Rect, i: int)
    requires
        spread <= 0 || alpha == 0,
        i <= spread || i < 1,
    ensures
        shadow_pixel(p, px, py, rect, offset_y, spread, color, alpha, clip, i) == p,
    decreases i,
{
    if i >= 1 {
        assert(shadow_alpha(alpha, spread, i) == 0) by (nonlinear_arith)
            requires alpha == 0, spread >= i, i >= 1,
                shadow_alpha(alpha, spread, i) == min_int((alpha * (spread - i + 1)) / max_int(spread * (spread + 1) / 2, 1), 255) as u8;
        lemma_shadow_zero(p, px, py, rect, offset_y, spread, color, alpha, clip, i - 1);
    }
}

} // verus!
