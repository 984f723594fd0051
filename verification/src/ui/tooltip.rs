//! The look of the tooltip surface, and where it goes: next to the pointer,
//! flipped to the other side where it would run out of bounds.

use vstd::prelude::*;
use crate::raster::painter::{in_i32, Rect};

verus! {

/// How a tooltip is drawn.
#[derive(Debug, Clone, Copy)]
pub struct TooltipStyle {
    pub fill: u32,
    pub edge: u32,
    /// Logical padding.
    pub padding: i32,
    /// Logical max width; lines are truncated with an ellipsis beyond it.
    pub max_width: i32,
    /// Logical offset from the anchor.
    pub offset: (i32, i32),
}

/// Where one axis of a tooltip `size` long starts, for an anchor, an offset
/// and the span `[low, high)` it must stay in: past the anchor by the offset,
/// or, when that runs past `high`, flipped to end the offset before the
/// anchor, but never starting before `low`.
pub open spec fn flip_axis(anchor: int, offset: int, size: int, low: int, high: int) -> int {
    if anchor + offset + size > high {
        if anchor - offset - size >= low { anchor - offset - size } else { low }
    } else {
        anchor + offset
    }
}

/// Where a tooltip `size` (width, height) goes for a pointer at `anchor`,
/// shifted by `offset`, kept inside `bounds`: it flips to the left of (or
/// above) the anchor when it would overflow the right (or bottom) edge.
pub fn tooltip_origin(anchor: (i32, i32), offset: (i32, i32), size: (i32, i32), bounds: Rect) -> (result: (i32, i32))
    requires
        bounds.fits(),
        in_i32(anchor.0 + offset.0),
        in_i32(anchor.0 + offset.0 + size.0),
        in_i32(anchor.0 - offset.0),
        in_i32(anchor.0 - offset.0 - size.0),
        in_i32(anchor.1 + offset.1),
        in_i32(anchor.1 + offset.1 + size.1),
        in_i32(anchor.1 - offset.1),
        in_i32(anchor.1 - offset.1 - size.1),
    ensures
        result.0 == flip_axis(anchor.0 as int, offset.0 as int, size.0 as int, bounds.x as int, bounds.x + bounds.w),
        result.1 == flip_axis(anchor.1 as int, offset.1 as int, size.1 as int, bounds.y as int, bounds.y + bounds.h),
{
    let mut x = anchor.0 + offset.0;
    let mut y = anchor.1 + offset.1;
    if x + size.0 > bounds.right() {
        let flipped = anchor.0 - offset.0 - size.0;
        x = if flipped >= bounds.x { flipped } else { bounds.x };
    }
    if y + size.1 > bounds.bottom() {
        let flipped = anchor.1 - offset.1 - size.1;
        y = if flipped >= bounds.y { flipped } else { bounds.y };
    }
    (x, y)
}

} // verus!
