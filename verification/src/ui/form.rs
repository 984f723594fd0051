//! The arithmetic behind the settings-form controls: checkbox, toggle switch
//! and radio group. A radio group lays its options out in equal rows, moves
//! its selection with Up/Down, and wraps at both ends: a radio group's arrow
//! keys move among its own options, which is a different thing from focus
//! moving between widgets.

use vstd::prelude::*;
use crate::raster::painter::{in_i32, Rect};
use crate::shell::keys::KeyInput;

verus! {

/// Logical size of a checkbox's box.
pub const CHECKBOX_SIZE: i32 = 18;
/// Logical size of a radio button's dot.
pub const RADIO_SIZE: i32 = 16;
/// Logical `(width, height)` of a toggle switch's track.
pub const TOGGLE_SIZE: (i32, i32) = (36, 20);

/// Integer division rounding toward zero, as Rust's `/` on signed integers.
pub open spec fn div_toward_zero(a: int, b: int) -> int {
    if a >= 0 {
        a / b
    } else {
        -((-a) / b)
    }
}

/// The height of each of `count` rows sharing `height`.
pub open spec fn row_height(height: int, count: int) -> int {
    div_toward_zero(height, count)
}

/// Down presses minus Up presses among the first `n` keys.
pub open spec fn arrow_sum(keys: Seq<KeyInput>, n: int) -> int
    decreases n,
{
    if n <= 0 {
        0
    } else {
        arrow_sum(keys, n - 1) + match keys[n - 1] {
            KeyInput::Down => 1int,
            KeyInput::Up => -1int,
            _ => 0int,
        }
    }
}

proof fn lemma_arrow_sum_bounded(keys: Seq<KeyInput>, n: int)
    requires
        0 <= n,
    ensures
        -n <= arrow_sum(keys, n) <= n,
    decreases n,
{
    if n > 0 {
        lemma_arrow_sum_bounded(keys, n - 1);
    }
}

/// The rows of a radio group with `count` options in `area`: full width,
/// each `area.h / count` high (rounded toward zero), stacked from the top.
pub fn radio_rows(area: Rect, count: usize) -> (result: Vec<Rect>)
    requires
        area.fits(),
        0 < count <= i32::MAX,
    ensures
        result@.len() == count,
        forall|i: int| 0 <= i < count ==> #[trigger] result@[i] == (Rect {
            x: area.x,
            y: (area.y + row_height(area.h as int, count as int) * i) as i32,
            w: area.w,
            h: row_height(area.h as int, count as int) as i32,
        }),
{
    let n = count as i64;
    let h = area.h as i64;
    let row_h: i64 = if h >= 0 { h / n } else { -((-h) / n) };
    let mut rows: Vec<Rect> = Vec::new();
    let mut i: usize = 0;
    while i < count
        invariant
            area.fits(),
            0 < count <= i32::MAX,
            n == count,
            h == area.h,
            row_h == row_height(area.h as int, count as int),
            i <= count,
            rows@.len() == i,
            forall|j: int| 0 <= j < i ==> #[trigger] rows@[j] == (Rect {
                x: area.x,
                y: (area.y + row_height(area.h as int, count as int) * j) as i32,
                w: area.w,
                h: row_height(area.h as int, count as int) as i32,
            }),
        decreases count - i,
    {
        proof {
            // The row's top lies between the area's top and bottom edge.
            let hi = h as int;
            let ni = n as int;
            let ri = row_h as int;
            let ii = i as int;
            if hi >= 0 {
                assert(0 <= ri * ii <= hi) by (nonlinear_arith)
                    requires ri == hi / ni, hi >= 0, ni >= 1, 0 <= ii < ni;
            } else {
                assert(hi <= ri * ii <= 0) by (nonlinear_arith)
                    requires ri == -((-hi) / ni), hi < 0, ni >= 1, 0 <= ii < ni;
            }
        }
        let offset = row_h * (i as i64);
        let y = area.y as i64 + offset;
        rows.push(Rect { x: area.x, y: y as i32, w: area.w, h: row_h as i32 });
        i = i + 1;
    }
    rows
}

/// Down presses minus Up presses: how far the arrow keys move a radio
/// group's selection.
pub fn arrow_delta(keys: &[KeyInput]) -> (result: i128)
    ensures
        result == arrow_sum(keys@, keys@.len() as int),
{
    let mut delta: i128 = 0;
    let mut i: usize = 0;
    while i < keys.len()
        invariant
            i <= keys@.len(),
            delta == arrow_sum(keys@, i as int),
        decreases keys@.len() - i,
    {
        proof {
            lemma_arrow_sum_bounded(keys@, i as int);
        }
        match keys[i] {
            KeyInput::Down => delta = delta + 1,
            KeyInput::Up => delta = delta - 1,
            _ => {},
        }
        i = i + 1;
    }
    delta
}

/// Move a selection among `count` options by `delta`, wrapping at both ends.
pub fn step_selection(selected: usize, delta: i128, count: usize) -> (result: usize)
    requires
        0 < count <= i32::MAX,
        selected < count,
        in_i32(delta as int),
        in_i32(selected + delta),
    ensures
        result < count,
        result == (selected + delta) % (count as int),
{
    let moved = selected as i128 + delta;
    let n = count as u64;
    if moved >= 0 {
        let r = (moved as u64) % n;
        proof {
            assert(r == (selected + delta) % (count as int));
        }
        r as usize
    } else {
        let back = (-moved) as u64;
        let k = back % n;
        let r = if k == 0 { 0 } else { n - k };
        proof {
            let m = selected + delta;
            let q = (back as int) / (n as int);
            vstd::arithmetic::div_mod::lemma_fundamental_div_mod(back as int, n as int);
            if k == 0 {
                assert(m == (-q) * (n as int) + 0) by (nonlinear_arith)
                    requires back == q * n + k, m == -back, k == 0;
                vstd::arithmetic::div_mod::lemma_fundamental_div_mod_converse(m, n as int, -q, 0);
            } else {
                assert(m == (-q - 1) * (n as int) + (n - k)) by (nonlinear_arith)
                    requires back == q * n + k, m == -back;
                vstd::arithmetic::div_mod::lemma_fundamental_div_mod_converse(m, n as int, -q - 1, (n - k) as int);
            }
        }
        r as usize
    }
}

/// The option a radio group shows before this frame's input: the old
/// selection, kept within the group.
pub open spec fn radio_start(selected: usize, count: usize) -> int {
    if selected < count { selected as int } else { count - 1 }
}

/// The option after a click: the clicked row, if a row of the group was
/// clicked; otherwise the starting one.
pub open spec fn radio_clicked(selected: usize, count: usize, clicked: Option<usize>) -> int {
    match clicked {
        Some(row) => if row < count { row as int } else { radio_start(selected, count) },
        None => radio_start(selected, count),
    }
}

/// Where a radio group's selection ends up and whether it changed, given the
/// row clicked this frame (if any) and the net arrow movement. An empty
/// group keeps the selection and reports no change. Otherwise the old
/// selection is first kept within the group; a click selects its row (a
/// change unless it was already selected); then, for a non-zero movement,
/// the selection steps by it, wrapping at both ends, which always counts
/// as a change.
pub fn radio_select(selected: usize, count: usize, clicked: Option<usize>, delta: i128) -> (result: (usize, bool))
    requires
        count <= i32::MAX,
        count > 0 && delta != 0 ==> in_i32(delta as int) && in_i32(radio_clicked(selected, count, clicked) + delta),
    ensures
        count == 0 ==> result == (selected, false),
        count > 0 ==> ({
            let s0 = radio_start(selected, count);
            let s1 = radio_clicked(selected, count, clicked);
            &&& result.0 == (if delta != 0 { (s1 + delta) % (count as int) } else { s1 })
            &&& result.1 == (s1 != s0 || delta != 0)
            &&& result.0 < count
        }),
{
    if count == 0 {
        return (selected, false);
    }
    let start = if selected < count { selected } else { count - 1 };
    let mut current = start;
    let mut changed = false;
    if let Some(row) = clicked {
        if row < count && row != start {
            current = row;
            changed = true;
        }
    }
    if delta != 0 {
        current = step_selection(current, delta, count);
        changed = true;
    }
    (current, changed)
}

} // verus!
