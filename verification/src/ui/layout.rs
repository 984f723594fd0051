//! Grid/flow layout: equally sized items placed left to right, wrapping to
//! a new row when the next would not fit. Pure arithmetic over rects.
//!
//! A grid's height never bounds the layout: items keep flowing downward for
//! as many rows as the item count needs.

use vstd::prelude::*;
use crate::raster::painter::{in_i32, max_int, min_int, Rect};

verus! {

/// How many `item_w`-wide items, `gap` apart (a negative gap counts as
/// none), fit across `width`: at least one, even when a single item does
/// not fit, and none for a non-positive item width.
pub open spec fn columns_spec(width: int, item_w: int, gap: int) -> int {
    if item_w <= 0 {
        0
    } else {
        let g = max_int(gap, 0);
        let step = item_w + g;
        if width + g < step { 1 } else { (width + g) / step }
    }
}

/// The arithmetic of [`columns_per_row`] stays within `i32`.
pub open spec fn columns_fit(width: i32, item_w: i32, gap: i32) -> bool {
    item_w > 0 ==> in_i32(item_w + max_int(gap as int, 0)) && in_i32(width + max_int(gap as int, 0))
}

/// How many items fit across a row.
pub fn columns_per_row(width: i32, item_w: i32, gap: i32) -> (result: usize)
    requires
        columns_fit(width, item_w, gap),
    ensures
        result == columns_spec(width as int, item_w as int, gap as int),
{
    if item_w <= 0 {
        return 0;
    }
    let g = if gap > 0 { gap } else { 0 };
    let step = item_w + g;
    let total = width + g;
    if total < step {
        1
    } else {
        (total / step) as usize
    }
}

/// The rect of item `index` in a flow of `item`-sized cells `gap` apart
/// (negative gaps count as none), `columns` per row (at least one), from
/// `origin`.
pub open spec fn grid_rect(origin: (i32, i32), item: (i32, i32), gap: (i32, i32), columns: int, index: int) -> (int, int, int, int) {
    let cols = if columns < 1 { 1 } else { columns };
    let row = index / cols;
    let col = index % cols;
    (
        origin.0 + col * (item.0 + max_int(gap.0 as int, 0)),
        origin.1 + row * (item.1 + max_int(gap.1 as int, 0)),
        item.0 as int,
        item.1 as int,
    )
}

/// The arithmetic of [`grid_item`] stays within `i32` for item `index`.
pub open spec fn grid_item_fits(origin: (i32, i32), item: (i32, i32), gap: (i32, i32), columns: int, index: int) -> bool {
    let cols = if columns < 1 { 1 } else { columns };
    let row = index / cols;
    let col = index % cols;
    let r = grid_rect(origin, item, gap, columns, index);
    &&& row <= i32::MAX
    &&& col <= i32::MAX
    &&& in_i32(item.0 + max_int(gap.0 as int, 0))
    &&& in_i32(item.1 + max_int(gap.1 as int, 0))
    &&& in_i32(col * (item.0 + max_int(gap.0 as int, 0)))
    &&& in_i32(row * (item.1 + max_int(gap.1 as int, 0)))
    &&& in_i32(r.0)
    &&& in_i32(r.1)
}

/// The rect of item `index` in a left-to-right, top-to-bottom flow.
pub fn grid_item(origin: (i32, i32), item: (i32, i32), gap: (i32, i32), columns: usize, index: usize) -> (result: Rect)
    requires
        grid_item_fits(origin, item, gap, columns as int, index as int),
    ensures
        (result.x as int, result.y as int, result.w as int, result.h as int) == grid_rect(origin, item, gap, columns as int, index as int),
{
    let cols = if columns < 1 { 1 } else { columns };
    let gx = if gap.0 > 0 { gap.0 } else { 0 };
    let gy = if gap.1 > 0 { gap.1 } else { 0 };
    let row = (index / cols) as i32;
    let col = (index % cols) as i32;
    let x = origin.0 + col * (item.0 + gx);
    let y = origin.1 + row * (item.1 + gy);
    Rect::new(x, y, item.0, item.1)
}

/// Every item's rect for a grid of `count` items wrapped to `area`'s width
/// from its top-left corner; empty when no column fits an item.
pub fn grid(area: Rect, item: (i32, i32), gap: (i32, i32), count: usize) -> (result: Vec<Rect>)
    requires
        columns_fit(area.w, item.0, gap.0),
        forall|i: int| 0 <= i < count ==> #[trigger] grid_item_fits((area.x, area.y), item, gap, columns_spec(area.w as int, item.0 as int, gap.0 as int), i),
    ensures
        result@.len() == if columns_spec(area.w as int, item.0 as int, gap.0 as int) == 0 { 0 } else { count as int },
        forall|i: int| 0 <= i < result@.len() ==> (#[trigger] result@[i].x as int, result@[i].y as int, result@[i].w as int, result@[i].h as int)
            == grid_rect((area.x, area.y), item, gap, columns_spec(area.w as int, item.0 as int, gap.0 as int), i),
{
    let columns = columns_per_row(area.w, item.0, gap.0);
    if columns == 0 {
        return Vec::new();
    }
    let mut rects: Vec<Rect> = Vec::new();
    let mut index: usize = 0;
    while index < count
        invariant
            columns == columns_spec(area.w as int, item.0 as int, gap.0 as int),
            forall|i: int| 0 <= i < count ==> #[trigger] grid_item_fits((area.x, area.y), item, gap, columns as int, i),
            index <= count,
            rects@.len() == index,
            forall|i: int| 0 <= i < index ==> (#[trigger] rects@[i].x as int, rects@[i].y as int, rects@[i].w as int, rects@[i].h as int)
                == grid_rect((area.x, area.y), item, gap, columns as int, i),
        decreases count - index,
    {
        assert(grid_item_fits((area.x, area.y), item, gap, columns as int, index as int));
        let rect = grid_item((area.x, area.y), item, gap, columns, index);
        rects.push(rect);
        index = index + 1;
    }
    rects
}

/// Rows needed for `count` items at `columns` per row.
pub open spec fn rows_for(columns: int, count: int) -> int {
    (count + columns - 1) / columns
}

/// The height a grid of `count` items needs: exactly enough rows, with no
/// gap after the last; zero for no items or no columns.
pub open spec fn content_height_spec(item_h: int, gap_y: int, columns: int, count: int) -> int {
    if columns == 0 || count == 0 {
        0
    } else {
        let rows = rows_for(columns, count);
        rows * item_h + (rows - 1) * max_int(gap_y, 0)
    }
}

/// The total height a grid of `count` items needs.
pub fn grid_content_height(item_h: i32, gap_y: i32, columns: usize, count: usize) -> (result: i32)
    requires
        columns > 0 && count > 0 ==> {
            let rows = rows_for(columns as int, count as int);
            &&& rows <= i32::MAX
            &&& in_i32(rows * item_h)
            &&& in_i32((rows - 1) * max_int(gap_y as int, 0))
            &&& in_i32(content_height_spec(item_h as int, gap_y as int, columns as int, count as int))
        },
    ensures
        result == content_height_spec(item_h as int, gap_y as int, columns as int, count as int),
{
    if columns == 0 || count == 0 {
        return 0;
    }
    let g = if gap_y > 0 { gap_y } else { 0 };
    let q = count / columns;
    let r = count % columns;
    proof {
        vstd::arithmetic::div_mod::lemma_fundamental_div_mod(count as int, columns as int);
        assert(q <= count) by (nonlinear_arith) requires q == count / columns, columns >= 1, count >= 0;
        assert(q == 0 ==> r == count) by (nonlinear_arith) requires count == columns * q + r;
        if r != 0 {
            assert(q * columns >= q) by (nonlinear_arith) requires columns >= 1, q >= 0;
        }
    }
    let rows_usize = q + if r != 0 { 1 } else { 0 };
    proof {
        assert(columns * q == q * columns) by (nonlinear_arith);
        assert((q + 1) * columns == q * columns + columns) by (nonlinear_arith);
        if r == 0 {
            vstd::arithmetic::div_mod::lemma_fundamental_div_mod_converse(count + columns - 1, columns as int, q as int, columns - 1);
        } else {
            vstd::arithmetic::div_mod::lemma_fundamental_div_mod_converse(count + columns - 1, columns as int, q + 1, r - 1);
        }
        assert(rows_usize >= 1);
    }
    let rows = rows_usize as i32;
    rows * item_h + (rows - 1) * g
}

/// The visible index range `first..last` of a grid scrolled `offset` pixels
/// in a `viewport_h` window: whole rows from the one at the top edge to the
/// one past the bottom edge, capped at `count`.
pub open spec fn visible_range_spec(viewport_h: int, offset: int, item_h: int, gap_y: int, columns: int, count: int) -> (int, int) {
    if columns == 0 || count == 0 {
        (0, 0)
    } else {
        let row_h = max_int(item_h + max_int(gap_y, 0), 1);
        let first_row = if offset < 0 { 0 } else { offset / row_h };
        let bottom = offset + viewport_h;
        let last_row = (if bottom < 0 { 0 } else { bottom / row_h }) + 1;
        (min_int(first_row * columns, count), min_int(last_row * columns, count))
    }
}

/// Which item indices could be visible in a `viewport_h`-tall window
/// scrolled `offset` pixels into a grid.
pub fn grid_visible_range(viewport_h: i32, offset: i32, item_h: i32, gap_y: i32, columns: usize, count: usize) -> (result: (usize, usize))
    requires
        in_i32(item_h + max_int(gap_y as int, 0)),
        in_i32(offset + viewport_h),
        offset + viewport_h > -max_int(item_h + max_int(gap_y as int, 0), 1),
        columns > 0 ==> (i32::MAX as int + 1) * columns <= usize::MAX,
    ensures
        (result.0 as int, result.1 as int) == visible_range_spec(viewport_h as int, offset as int, item_h as int, gap_y as int, columns as int, count as int),
{
    if columns == 0 || count == 0 {
        return (0, 0);
    }
    let g = if gap_y > 0 { gap_y } else { 0 };
    let sum = item_h + g;
    let row_h = if sum > 1 { sum } else { 1 };
    let first_row: usize = if offset < 0 { 0 } else { (offset / row_h) as usize };
    let bottom = offset + viewport_h;
    let last_row: usize = (if bottom < 0 { 0 } else { (bottom / row_h) as usize }) + 1;
    proof {
        assert(first_row <= i32::MAX);
        assert(last_row <= i32::MAX as int + 1);
        assert(first_row * columns <= (i32::MAX as int + 1) * columns) by (nonlinear_arith)
            requires first_row <= i32::MAX as int + 1;
        assert(last_row * columns <= (i32::MAX as int + 1) * columns) by (nonlinear_arith)
            requires last_row <= i32::MAX as int + 1;
    }
    let first_cells = first_row * columns;
    let last_cells = last_row * columns;
    let first = if first_cells < count { first_cells } else { count };
    let last = if last_cells < count { last_cells } else { count };
    (first, last)
}

/// When at least one item fits across `width`, every column of the grid
/// ends within it.
pub proof fn lemma_grid_within_width(width: i32, item_w: i32, gap: i32, col: int)
    requires
        item_w > 0,
        width >= item_w,
        0 <= col < columns_spec(width as int, item_w as int, gap as int),
    ensures
        col * (item_w + max_int(gap as int, 0)) + item_w <= width,
{
    let g = max_int(gap as int, 0);
    let step = item_w + g;
    let cols = (width + g) / step;
    vstd::arithmetic::div_mod::lemma_fundamental_div_mod(width + g, step);
    assert(step * cols == cols * step) by (nonlinear_arith);
    assert(col * step + step <= cols * step) by (nonlinear_arith) requires col < cols, step > 0;
}

/// No two items of a grid share a cell: distinct indices give distinct
/// positions when items have size.
pub proof fn lemma_grid_distinct(origin: (i32, i32), item: (i32, i32), gap: (i32, i32), columns: int, i: int, j: int)
    requires
        0 <= i < j,
        item.0 > 0,
        item.1 > 0,
    ensures
        grid_rect(origin, item, gap, columns, i) != grid_rect(origin, item, gap, columns, j),
{
    let cols = if columns < 1 { 1 } else { columns };
    let sx = item.0 + max_int(gap.0 as int, 0);
    let sy = item.1 + max_int(gap.1 as int, 0);
    vstd::arithmetic::div_mod::lemma_fundamental_div_mod(i, cols);
    vstd::arithmetic::div_mod::lemma_fundamental_div_mod(j, cols);
    let (ri, ci) = (i / cols, i % cols);
    let (rj, cj) = (j / cols, j % cols);
    if ri == rj && ci == cj {
        assert(false);
    }
    if ci != cj {
        assert(ci * sx != cj * sx) by (nonlinear_arith) requires ci != cj, sx > 0;
    } else {
        assert(ri * sy != rj * sy) by (nonlinear_arith) requires ri != rj, sy > 0;
    }
}

/// Every item of a grid that shows in the window is in the visible range:
/// with the grid scrolled `offset` pixels (not above its top), an item
/// whose rect reaches into the band `offset..offset + viewport_h` below the
/// grid's origin has an index in `first..last`, and the range starts at the
/// first item of the row the window's top edge falls in.
pub proof fn lemma_visible_range_covers(
    viewport_h: int,
    offset: int,
    origin: (i32, i32),
    item: (i32, i32),
    gap: (i32, i32),
    columns: int,
    count: int,
    index: int,
)
    requires
        offset >= 0,
        item.1 >= 1,
        columns >= 1,
        0 <= index < count,
        grid_rect(origin, item, gap, columns, index).1 - origin.1 < offset + viewport_h,
        grid_rect(origin, item, gap, columns, index).1 - origin.1 + grid_rect(origin, item, gap, columns, index).3 > offset,
    ensures
        visible_range_spec(viewport_h, offset, item.1 as int, gap.1 as int, columns, count).0 <= index,
        index < visible_range_spec(viewport_h, offset, item.1 as int, gap.1 as int, columns, count).1,
        visible_range_spec(viewport_h, offset, item.1 as int, gap.1 as int, columns, count).0
            == min_int(columns * (offset / (item.1 + max_int(gap.1 as int, 0))), count),
{
    let row_h = item.1 + max_int(gap.1 as int, 0);
    let r = index / columns;
    let c = index % columns;
    vstd::arithmetic::div_mod::lemma_fundamental_div_mod(index, columns);
    assert(r >= 0) by (nonlinear_arith)
        requires
            index == columns * r + c,
            0 <= c < columns,
            index >= 0;
    let top = r * row_h;
    assert(grid_rect(origin, item, gap, columns, index).1 - origin.1 == top);
    let q = offset / row_h;
    vstd::arithmetic::div_mod::lemma_fundamental_div_mod(offset, row_h);
    assert(q <= r) by (nonlinear_arith)
        requires
            offset == row_h * q + offset % row_h,
            0 <= offset % row_h < row_h,
            r * row_h + item.1 > offset,
            item.1 <= row_h,
            row_h >= 1;
    assert(q >= 0) by (nonlinear_arith)
        requires
            offset == row_h * q + offset % row_h,
            0 <= offset % row_h < row_h,
            offset >= 0,
            row_h >= 1;
    let bottom = offset + viewport_h;
    let qb = bottom / row_h;
    assert(bottom >= 0) by (nonlinear_arith)
        requires
            top == r * row_h,
            r >= 0,
            row_h >= 1,
            top < bottom;
    vstd::arithmetic::div_mod::lemma_fundamental_div_mod(bottom, row_h);
    assert(r <= qb) by (nonlinear_arith)
        requires
            bottom == row_h * qb + bottom % row_h,
            0 <= bottom % row_h < row_h,
            r * row_h < bottom,
            row_h >= 1;
    assert(q * columns <= index) by (nonlinear_arith)
        requires
            q <= r,
            index == columns * r + c,
            c >= 0,
            columns >= 1;
    assert(index < (qb + 1) * columns) by (nonlinear_arith)
        requires
            r <= qb,
            index == columns * r + c,
            c < columns,
            columns >= 1;
    assert(q * columns == columns * q) by (nonlinear_arith);
}

/// Nothing far from the window is in the visible range: with the grid
/// scrolled `offset` pixels (not above its top) in a window `viewport_h`
/// tall, every index in `first..last` is an item whose row starts no lower
/// than the window's bottom edge and ends below its top edge, gap
/// included.
pub proof fn lemma_visible_range_near(
    viewport_h: int,
    offset: int,
    origin: (i32, i32),
    item: (i32, i32),
    gap: (i32, i32),
    columns: int,
    count: int,
    index: int,
)
    requires
        offset >= 0,
        viewport_h >= 0,
        item.1 >= 1,
        columns >= 1,
        count >= 0,
        visible_range_spec(viewport_h, offset, item.1 as int, gap.1 as int, columns, count).0 <= index,
        index < visible_range_spec(viewport_h, offset, item.1 as int, gap.1 as int, columns, count).1,
    ensures
        0 <= index < count,
        grid_rect(origin, item, gap, columns, index).1 - origin.1 <= offset + viewport_h,
        grid_rect(origin, item, gap, columns, index).1 - origin.1 + item.1 + max_int(gap.1 as int, 0) > offset,
{
    let row_h = item.1 + max_int(gap.1 as int, 0);
    let r = index / columns;
    let c = index % columns;
    vstd::arithmetic::div_mod::lemma_fundamental_div_mod(index, columns);
    let q = offset / row_h;
    vstd::arithmetic::div_mod::lemma_fundamental_div_mod(offset, row_h);
    let bottom = offset + viewport_h;
    let qb = bottom / row_h;
    vstd::arithmetic::div_mod::lemma_fundamental_div_mod(bottom, row_h);
    assert(q >= 0 && qb >= 0) by (nonlinear_arith)
        requires
            offset == row_h * q + offset % row_h,
            0 <= offset % row_h < row_h,
            bottom == row_h * qb + bottom % row_h,
            0 <= bottom % row_h < row_h,
            offset >= 0,
            bottom >= 0,
            row_h >= 1;
    assert(q * columns == columns * q && (qb + 1) * columns == columns * (qb + 1)) by (nonlinear_arith);
    assert(index >= 0);
    assert(r >= q) by (nonlinear_arith)
        requires
            columns * q <= index,
            index == columns * r + c,
            0 <= c < columns,
            columns >= 1;
    assert(r <= qb) by (nonlinear_arith)
        requires
            index < columns * (qb + 1),
            index == columns * r + c,
            0 <= c < columns,
            columns >= 1;
    assert(r * row_h <= bottom) by (nonlinear_arith)
        requires
            r <= qb,
            bottom == row_h * qb + bottom % row_h,
            bottom % row_h >= 0,
            row_h >= 1;
    assert(r * row_h + row_h > offset) by (nonlinear_arith)
        requires
            r >= q,
            offset == row_h * q + offset % row_h,
            offset % row_h < row_h,
            row_h >= 1;
    assert(grid_rect(origin, item, gap, columns, index).1 - origin.1 == r * row_h);
}

} // verus!
