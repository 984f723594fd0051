//! What a scroll list laid out in a frame.

use vstd::prelude::*;
use crate::raster::painter::Rect;

verus! {

/// The result of laying out a scroll list this frame.
#[derive(Debug, Clone, Copy, PartialEq, Eq)]
pub struct ScrollList {
    /// The viewport rows are drawn into (excludes the scrollbar gutter).
    pub viewport: Rect,
    /// Total content height.
    pub content: i32,
    /// First and one-past-last row indices that were visible.
    pub visible: (usize, usize),
}

/// Scrollbar gutter width in logical pixels.
pub const GUTTER: i32 = 6;

} // verus!
