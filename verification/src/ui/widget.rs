//! Widget state a screen owns: scrolling, table selection by key, and
//! column widths.

use vstd::prelude::*;
use crate::raster::painter::{in_i32, max_int, min_int, Rect};
use crate::ui::form::div_toward_zero;
use crate::shell::keys::KeyInput;
use crate::text::align::Align;

verus! {

/// The furthest a region can scroll: zero when everything fits.
pub open spec fn max_offset_spec(viewport: int, content: int) -> int {
    max_int(content - viewport, 0)
}

/// `v` clamped into `lo..=hi`.
pub open spec fn clamp_spec(v: int, lo: int, hi: int) -> int {
    if v < lo { lo } else if v > hi { hi } else { v }
}

/// How far a region has been scrolled.
#[derive(Debug, Clone, Copy, PartialEq, Eq)]
pub struct ScrollState {
    offset: i32,
}

impl ScrollState {
    /// Pixels hidden above the top of the viewport.
    pub closed spec fn scrolled(&self) -> int {
        self.offset as int
    }

    /// Never scrolled past the top.
    pub closed spec fn wf(&self) -> bool {
        self.offset >= 0
    }

    /// Not scrolled at all.
    pub fn new() -> (result: ScrollState)
        ensures
            result.wf(),
            result.scrolled() == 0,
    {
        ScrollState { offset: 0 }
    }

    /// Pixels hidden above the top of the viewport.
    pub fn offset(&self) -> (result: i32)
        ensures
            result == self.scrolled(),
    {
        self.offset
    }

    /// The furthest this can scroll given a viewport and its content: zero
    /// when everything fits, so a short list cannot be scrolled at all.
    pub fn max_offset(viewport: i32, content: i32) -> (result: i32)
        requires
            in_i32(content - viewport),
        ensures
            result == max_offset_spec(viewport as int, content as int),
    {
        let d = content - viewport;
        if d > 0 { d } else { 0 }
    }

    /// Move by a delta and clamp between the top and the furthest offset.
    /// Returns the offset actually applied.
    pub fn scroll_by(&mut self, delta: i32, viewport: i32, content: i32) -> (result: i32)
        requires
            old(self).wf(),
            in_i32(old(self).scrolled() + delta),
            in_i32(content - viewport),
        ensures
            final(self).scrolled() == clamp_spec(old(self).scrolled() + delta, 0, max_offset_spec(viewport as int, content as int)),
            final(self).wf(),
            result == final(self).scrolled() - old(self).scrolled(),
    {
        let before = self.offset;
        let max = ScrollState::max_offset(viewport, content);
        let moved = self.offset + delta;
        self.offset = if moved < 0 { 0 } else if moved > max { max } else { moved };
        proof {
            assert(in_i32(self.offset - before));
        }
        self.offset - before
    }

    /// Bring the band `top..top + height` into view, moving as little as
    /// possible, then clamp.
    pub fn bring_into_view(&mut self, top: i32, height: i32, viewport: i32, content: i32)
        requires
            in_i32(top + height),
            in_i32(old(self).scrolled() + viewport),
            in_i32(top + height - viewport),
            in_i32(content - viewport),
        ensures
            final(self).wf(),
            final(self).scrolled() == clamp_spec(
                if top < old(self).scrolled() {
                    top as int
                } else if top + height > old(self).scrolled() + viewport {
                    top + height - viewport
                } else {
                    old(self).scrolled()
                },
                0,
                max_offset_spec(viewport as int, content as int),
            ),
    {
        let max = ScrollState::max_offset(viewport, content);
        let wanted = if top < self.offset {
            top
        } else if top + height > self.offset + viewport {
            top + height - viewport
        } else {
            self.offset
        };
        self.offset = if wanted < 0 { 0 } else if wanted > max { max } else { wanted };
    }

    /// Clamp after the content changed underneath.
    pub fn clamp_to(&mut self, viewport: i32, content: i32)
        requires
            in_i32(content - viewport),
        ensures
            final(self).wf(),
            final(self).scrolled() == clamp_spec(old(self).scrolled(), 0, max_offset_spec(viewport as int, content as int)),
    {
        let max = ScrollState::max_offset(viewport, content);
        self.offset = if self.offset < 0 { 0 } else if self.offset > max { max } else { self.offset };
    }
}

impl Default for ScrollState {
    fn default() -> (result: ScrollState)
        ensures
            result.wf(),
            result.scrolled() == 0,
    {
        ScrollState::new()
    }
}

/// How wide a column is.
#[derive(Debug, Clone, Copy, PartialEq, Eq, Structural)]
pub enum Width {
    /// Exactly this many pixels.
    Fixed(i32),
    /// A share of whatever is left, by weight.
    Flex(i32),
}

/// A table column: its title, width rule and alignment.
#[derive(Debug, Clone, Copy)]
pub struct Column {
    pub title: &'static str,
    pub width: Width,
    pub align: Align,
}

impl Column {
    /// A column exactly `width` pixels wide.
    pub fn fixed(title: &'static str, width: i32, align: Align) -> (result: Column)
        ensures
            result.title == title,
            result.width == Width::Fixed(width),
            result.align == align,
    {
        Column { title, width: Width::Fixed(width), align }
    }

    /// A column taking a `weight` share of the space fixed columns leave.
    pub fn flex(title: &'static str, weight: i32, align: Align) -> (result: Column)
        ensures
            result.title == title,
            result.width == Width::Flex(weight),
            result.align == align,
    {
        Column { title, width: Width::Flex(weight), align }
    }
}

/// The gap between one column and the next.
pub const COLUMN_GAP: i32 = 8;

/// Reserved down a table's right edge for the scrollbar, always, so columns
/// never shift when a bar appears and a bar never covers the last column.
pub const TABLE_GUTTER: i32 = 10;

/// What a table did this frame.
#[derive(Debug, Clone, PartialEq, Eq)]
pub struct TableOutcome {
    /// A row was clicked, and is now selected.
    pub activated: Option<String>,
    /// How many rows the viewport can show.
    pub visible_rows: i32,
}

impl Default for TableOutcome {
    fn default() -> (result: TableOutcome)
        ensures
            result.activated is None,
            result.visible_rows == 0,
    {
        TableOutcome { activated: None, visible_rows: 0 }
    }
}


/// The text of each key, in order.
pub open spec fn key_texts(keys: Seq<String>) -> Seq<Seq<char>> {
    keys.map_values(|k: String| k@)
}

/// The first position at or after `from` whose key is `key`, if any.
pub open spec fn position_from(keys: Seq<Seq<char>>, key: Seq<char>, from: int) -> Option<int>
    decreases keys.len() - from,
{
    if from < 0 || from >= keys.len() {
        None
    } else if keys[from] == key {
        Some(from)
    } else {
        position_from(keys, key, from + 1)
    }
}

/// The first position whose key is `key`, if any.
pub open spec fn position_of(keys: Seq<Seq<char>>, key: Seq<char>) -> Option<int> {
    position_from(keys, key, 0)
}

/// Where a selection sits among `keys`, if it is selected and present.
pub open spec fn selected_position(keys: Seq<Seq<char>>, selected: Option<Seq<char>>) -> Option<int> {
    match selected {
        Some(key) => position_of(keys, key),
        None => None,
    }
}

/// The selection after moving it by `delta` rows among `keys`.
pub open spec fn moved_selection(selected: Option<Seq<char>>, keys: Seq<Seq<char>>, delta: int) -> Option<Seq<char>> {
    if keys.len() == 0 {
        None
    } else {
        let next = match selected_position(keys, selected) {
            Some(index) => clamp_spec(index + delta, 0, keys.len() - 1),
            None => if delta >= 0 { 0 } else { keys.len() - 1 },
        };
        Some(keys[next])
    }
}

/// The selection after dropping it if its row is gone.
pub open spec fn pruned_selection(selected: Option<Seq<char>>, keys: Seq<Seq<char>>) -> Option<Seq<char>> {
    match selected {
        Some(key) => if keys.contains(key) { selected } else { None },
        None => None,
    }
}

/// Whether moving by `delta` from wherever the selection sits stays in `i32`.
pub open spec fn move_fits(selected: Option<Seq<char>>, keys: Seq<Seq<char>>, delta: int) -> bool {
    &&& keys.len() <= i32::MAX
    &&& match selected_position(keys, selected) {
        Some(index) => in_i32(index + delta),
        None => true,
    }
}

/// A table's scroll and selection, owned by the screen that draws it.
///
/// The selection is the selected row's key, not its index: an index is wrong
/// the moment the table is re-sorted or filtered, while a key follows its row.
#[derive(Debug, Clone)]
pub struct TableState {
    pub scroll: ScrollState,
    selected: Option<String>,
}

impl TableState {
    /// The selected key's text, if any.
    pub closed spec fn selection(&self) -> Option<Seq<char>> {
        match self.selected {
            Some(key) => Some(key@),
            None => None,
        }
    }

    /// How the table is scrolled.
    pub closed spec fn scroll_state(&self) -> ScrollState {
        self.scroll
    }

    /// Nothing selected, not scrolled.
    pub fn new() -> (result: TableState)
        ensures
            result.selection() is None,
            result.scroll_state().wf(),
            result.scroll_state().scrolled() == 0,
    {
        TableState { scroll: ScrollState::new(), selected: None }
    }

    /// The selected key.
    pub fn selected(&self) -> (result: Option<&str>)
        ensures
            match result {
                Some(key) => self.selection() == Some(key@),
                None => self.selection() is None,
            },
    {
        match &self.selected {
            Some(key) => Some(key.as_str()),
            None => None,
        }
    }

    /// Select a key, or nothing.
    pub fn select(&mut self, key: Option<String>)
        ensures
            final(self).selection() == (match key {
                Some(k) => Some(k@),
                None => None::<Seq<char>>,
            }),
            final(self).scroll_state() == old(self).scroll_state(),
    {
        self.selected = key;
    }

    /// Whether `key` is the selected one.
    pub fn is_selected(&self, key: &str) -> (result: bool)
        ensures
            result == (self.selection() == Some(key@)),
    {
        match &self.selected {
            Some(selected) => {
                let wanted = key.to_owned();
                *selected == wanted
            },
            None => false,
        }
    }

    /// Which row is selected, by position, if it is still present.
    pub fn selected_index(&self, keys: &[String]) -> (result: Option<usize>)
        ensures
            match selected_position(key_texts(keys@), self.selection()) {
                Some(index) => result == Some(index as usize),
                None => result is None,
            },
    {
        match &self.selected {
            Some(selected) => first_position(keys, selected),
            None => None,
        }
    }

    /// Move the selection by `delta` rows, clamped to the ends.
    ///
    /// With nothing selected, a downward move selects the first row and an
    /// upward move the last, so arrowing into an unfocused table does
    /// something obvious from either direction.
    pub fn move_by(&mut self, delta: i32, keys: &[String])
        requires
            move_fits(old(self).selection(), key_texts(keys@), delta as int),
        ensures
            final(self).selection() == moved_selection(old(self).selection(), key_texts(keys@), delta as int),
            final(self).scroll_state() == old(self).scroll_state(),
    {
        let count = keys.len();
        if count == 0 {
            self.selected = None;
            return;
        }
        proof {
            if let Some(key) = old(self).selection() {
                lemma_position_range(key_texts(keys@), key, 0);
            }
        }
        let next: usize = match self.selected_index(keys) {
            Some(index) => {
                let last: i32 = count as i32 - 1;
                let moved: i32 = index as i32 + delta;
                let clamped: i32 = if moved < 0 { 0 } else if moved > last { last } else { moved };
                clamped as usize
            },
            None => if delta >= 0 { 0 } else { count - 1 },
        };
        let chosen = keys[next].clone();
        self.selected = Some(chosen);
    }

    /// Forget a selection whose row is gone: a filter typed, a day changed.
    pub fn prune(&mut self, keys: &[String])
        ensures
            final(self).selection() == pruned_selection(old(self).selection(), key_texts(keys@)),
            final(self).scroll_state() == old(self).scroll_state(),
    {
        let found = match &self.selected {
            Some(selected) => {
                let at = first_position(keys, selected);
                proof {
                    lemma_position_contains(key_texts(keys@), selected@, 0);
                }
                at.is_some()
            },
            None => true,
        };
        if !found {
            self.selected = None;
        }
    }
}

impl Default for TableState {
    fn default() -> (result: TableState)
        ensures
            result.selection() is None,
            result.scroll_state().wf(),
            result.scroll_state().scrolled() == 0,
    {
        TableState::new()
    }
}

/// A search from `from` finds something exactly when the key occurs at or
/// after `from`.
pub proof fn lemma_position_contains(keys: Seq<Seq<char>>, key: Seq<char>, from: int)
    requires
        0 <= from <= keys.len(),
    ensures
        position_from(keys, key, from) is Some <==> exists|i: int| from <= i < keys.len() && keys[i] == key,
        position_from(keys, key, 0) is Some <==> keys.contains(key),
    decreases keys.len() - from,
{
    if from < keys.len() {
        lemma_position_contains(keys, key, from + 1);
        if keys[from] != key {
            assert forall|i: int| from <= i < keys.len() && keys[i] == key implies from + 1 <= i by {}
        }
    }
    if keys.contains(key) {
        let i = choose|i: int| 0 <= i < keys.len() && keys[i] == key;
        lemma_position_bounds(keys, key, 0, i);
    } else {
        lemma_position_absent(keys, key, 0);
    }
}

/// What a search finds is an occurrence of the key, at or after `from`.
pub proof fn lemma_position_range(keys: Seq<Seq<char>>, key: Seq<char>, from: int)
    ensures
        position_from(keys, key, from) matches Some(p) ==> (from <= p < keys.len() && keys[p] == key),
    decreases keys.len() - from,
{
    if 0 <= from < keys.len() && keys[from] != key {
        lemma_position_range(keys, key, from + 1);
    }
}

/// A search from `from` stops no later than any occurrence at or after `from`.
proof fn lemma_position_bounds(keys: Seq<Seq<char>>, key: Seq<char>, from: int, at: int)
    requires
        0 <= from <= at < keys.len(),
        keys[at] == key,
    ensures
        position_from(keys, key, from) matches Some(p) && from <= p <= at && keys[p] == key,
    decreases at - from,
{
    if keys[from] != key {
        lemma_position_bounds(keys, key, from + 1, at);
    }
}

/// A search finds nothing where the key does not occur.
proof fn lemma_position_absent(keys: Seq<Seq<char>>, key: Seq<char>, from: int)
    requires
        0 <= from <= keys.len(),
        !keys.contains(key),
    ensures
        position_from(keys, key, from) is None,
    decreases keys.len() - from,
{
    if from < keys.len() {
        assert(keys[from] != key);
        lemma_position_absent(keys, key, from + 1);
    }
}

/// The first position of `key` among `keys`.
fn first_position(keys: &[String], key: &String) -> (result: Option<usize>)
    ensures
        match position_of(key_texts(keys@), key@) {
            Some(index) => result == Some(index as usize),
            None => result is None,
        },
{
    let mut i: usize = 0;
    while i < keys.len()
        invariant
            i <= keys.len(),
            position_of(key_texts(keys@), key@) == position_from(key_texts(keys@), key@, i as int),
        decreases keys.len() - i,
    {
        let ghost texts = key_texts(keys@);
        if keys[i] == *key {
            assert(texts[i as int] == key@);
            return Some(i);
        }
        assert(texts[i as int] != key@);
        i = i + 1;
    }
    None
}


/// How far an arrow or page key moves a list's selection; `None` for any
/// other key.
pub open spec fn key_step(key: KeyInput, page: int) -> Option<int> {
    match key {
        KeyInput::Up => Some(-1),
        KeyInput::Down => Some(1),
        KeyInput::PageUp => Some(-max_int(page, 1)),
        KeyInput::PageDown => Some(max_int(page, 1)),
        _ => None,
    }
}

/// The selection at one end of the list: its first row, or its last; none
/// in an empty list.
pub open spec fn end_selection(keys: Seq<Seq<char>>, last: bool) -> Option<Seq<char>> {
    if keys.len() == 0 {
        None
    } else if last {
        Some(keys[keys.len() - 1])
    } else {
        Some(keys[0])
    }
}

/// What one key does to a list's selection: arrows and page keys move it,
/// Home and End select the first and the last row, other keys leave it.
pub open spec fn navigated_by(selected: Option<Seq<char>>, keys: Seq<Seq<char>>, page: int, key: KeyInput) -> Option<Seq<char>> {
    match key {
        KeyInput::Home => end_selection(keys, false),
        KeyInput::End => end_selection(keys, true),
        _ => match key_step(key, page) {
            Some(delta) => moved_selection(selected, keys, delta),
            None => selected,
        },
    }
}

/// The selection after the first `count` of `pressed`, one after another.
pub open spec fn navigated(
    selected: Option<Seq<char>>,
    keys: Seq<Seq<char>>,
    page: int,
    pressed: Seq<KeyInput>,
    count: int,
) -> Option<Seq<char>>
    decreases count,
{
    if count <= 0 {
        selected
    } else {
        navigated_by(navigated(selected, keys, page, pressed, count - 1), keys, page, pressed[count - 1])
    }
}

/// Any move of `delta` fits once the list is short enough for it.
proof fn lemma_move_fits(selected: Option<Seq<char>>, keys: Seq<Seq<char>>, delta: int)
    requires
        keys.len() <= i32::MAX,
        in_i32(delta),
        in_i32(keys.len() - 1 + delta),
    ensures
        move_fits(selected, keys, delta),
{
    if let Some(key) = selected {
        lemma_position_range(keys, key, 0);
    }
}

/// Whether two selections name the same key.
fn same_selection(a: &Option<String>, b: &Option<String>) -> (result: bool)
    ensures
        result == (match (a, b) {
            (Some(x), Some(y)) => x@ == y@,
            (None, None) => true,
            _ => false,
        }),
{
    match (a, b) {
        (Some(x), Some(y)) => *x == *y,
        (None, None) => true,
        _ => false,
    }
}

/// Keyboard handling shared by any list: arrows, page keys, home and end,
/// applied in order. Returns whether the selection moved, so a caller can
/// scroll it into view.
pub fn navigate(state: &mut TableState, keys: &[String], page: i32, pressed: &[KeyInput]) -> (result: bool)
    requires
        keys.len() - 1 + max_int(page as int, 1) <= i32::MAX,
    ensures
        final(state).selection() == navigated(old(state).selection(), key_texts(keys@), page as int, pressed@, pressed@.len() as int),
        final(state).scroll_state() == old(state).scroll_state(),
        result == (final(state).selection() != old(state).selection()),
{
    let before = state.selected.clone();
    let ghost texts = key_texts(keys@);
    let step: i32 = if page > 1 { page } else { 1 };
    let mut i: usize = 0;
    while i < pressed.len()
        invariant
            i <= pressed.len(),
            texts == key_texts(keys@),
            keys.len() - 1 + step <= i32::MAX,
            step == max_int(page as int, 1),
            state.selection() == navigated(old(state).selection(), texts, page as int, pressed@, i as int),
            state.scroll_state() == old(state).scroll_state(),
        decreases pressed.len() - i,
    {
        match pressed[i] {
            KeyInput::Home | KeyInput::End => {
                let last = matches!(pressed[i], KeyInput::End);
                if keys.len() == 0 {
                    state.select(None);
                } else if last {
                    state.select(Some(keys[keys.len() - 1].clone()));
                } else {
                    state.select(Some(keys[0].clone()));
                }
            },
            _ => {
                let delta: Option<i32> = match pressed[i] {
                    KeyInput::Up => Some(-1),
                    KeyInput::Down => Some(1),
                    KeyInput::PageUp => Some(-step),
                    KeyInput::PageDown => Some(step),
                    _ => None,
                };
                if let Some(d) = delta {
                    proof {
                        lemma_move_fits(state.selection(), texts, d as int);
                    }
                    state.move_by(d, keys);
                }
            },
        }
        i = i + 1;
    }
    let moved = !same_selection(&before, &state.selected);
    proof {
        assert(before == old(state).selected);
    }
    moved
}


/// What a column asks for in fixed pixels (nothing for a flexible one).
pub open spec fn fixed_part(width: Width) -> int {
    match width {
        Width::Fixed(w) => w as int,
        Width::Flex(_) => 0,
    }
}

/// A flexible column's weight, never below zero (nothing for a fixed one).
pub open spec fn weight_part(width: Width) -> int {
    match width {
        Width::Flex(w) => max_int(w as int, 0),
        Width::Fixed(_) => 0,
    }
}

/// The fixed pixels the first `count` columns ask for.
pub open spec fn fixed_total(columns: Seq<Column>, count: int) -> int
    decreases count,
{
    if count <= 0 {
        0
    } else {
        fixed_total(columns, count - 1) + fixed_part(columns[count - 1].width)
    }
}

/// The weights of the flexible columns among the first `count`.
pub open spec fn weight_total(columns: Seq<Column>, count: int) -> int
    decreases count,
{
    if count <= 0 {
        0
    } else {
        weight_total(columns, count - 1) + weight_part(columns[count - 1].width)
    }
}

/// The gaps between `count` columns.
pub open spec fn gaps_of(count: int, gap: int) -> int {
    gap * (count - 1)
}

/// What the fixed columns and gaps leave for the flexible ones.
pub open spec fn spare_of(columns: Seq<Column>, total: int, gap: int) -> int {
    max_int(total - gaps_of(columns.len() as int, gap) - fixed_total(columns, columns.len() as int), 0)
}

/// A column's width before the remainder is handed out: a fixed column's own
/// width (never below zero), a flexible column's share of `spare` by weight.
pub open spec fn base_width(width: Width, spare: int, weights: int) -> int {
    match width {
        Width::Fixed(w) => max_int(w as int, 0),
        Width::Flex(w) => if weights > 0 { spare * max_int(w as int, 0) / weights } else { 0 },
    }
}

/// The base widths of the first `count` columns, added up.
pub open spec fn base_total(columns: Seq<Column>, count: int, spare: int, weights: int) -> int
    decreases count,
{
    if count <= 0 {
        0
    } else {
        base_total(columns, count - 1, spare, weights) + base_width(columns[count - 1].width, spare, weights)
    }
}

/// The last flexible column among the first `count`, or -1.
pub open spec fn last_flex(columns: Seq<Column>, count: int) -> int
    decreases count,
{
    if count <= 0 {
        -1
    } else if columns[count - 1].width is Flex {
        count - 1
    } else {
        last_flex(columns, count - 1)
    }
}

/// The width column `index` gets when `columns` are laid across `total`
/// pixels with `gap` between them: its base width, except that the last
/// flexible column also takes whatever rounding left over (never going
/// below zero), so the row ends exactly at the right edge.
pub open spec fn column_width(columns: Seq<Column>, total: int, gap: int, index: int) -> int {
    let count = columns.len() as int;
    let weights = weight_total(columns, count);
    let spare = spare_of(columns, total, gap);
    let base = base_width(columns[index].width, spare, weights);
    if weights > 0 && index == last_flex(columns, count) {
        max_int(base + total - (base_total(columns, count, spare, weights) + gaps_of(count, gap)), 0)
    } else {
        base
    }
}

/// Every sum and product the layout takes stays within `i32`.
pub open spec fn widths_fit(columns: Seq<Column>, total: int, gap: int) -> bool {
    let count = columns.len() as int;
    let weights = weight_total(columns, count);
    let spare = spare_of(columns, total, gap);
    let assigned = base_total(columns, count, spare, weights) + gaps_of(count, gap);
    &&& count <= i32::MAX
    &&& count > 0 ==> {
        &&& in_i32(gaps_of(count, gap))
        &&& forall|k: int| 0 <= k <= count ==> #[trigger] in_i32(fixed_total(columns, k))
        &&& forall|k: int| 0 <= k <= count ==> #[trigger] in_i32(weight_total(columns, k))
        &&& in_i32(total - gaps_of(count, gap))
        &&& in_i32(total - gaps_of(count, gap) - fixed_total(columns, count))
        &&& weights > 0 ==> {
            &&& forall|i: int| 0 <= i < count ==> #[trigger] in_i32(spare * weight_part(columns[i].width))
            &&& forall|k: int| 0 <= k <= count ==> #[trigger] in_i32(base_total(columns, k, spare, weights))
            &&& in_i32(assigned)
            &&& in_i32(base_width(columns[last_flex(columns, count)].width, spare, weights) + total)
            &&& in_i32(base_width(columns[last_flex(columns, count)].width, spare, weights) + total - assigned)
        }
    }
}

/// The last flexible column is one, and is the last.
proof fn lemma_last_flex(columns: Seq<Column>, count: int)
    requires
        0 <= count <= columns.len(),
    ensures
        -1 <= last_flex(columns, count) < count,
        last_flex(columns, count) >= 0 ==> columns[last_flex(columns, count)].width is Flex,
        forall|i: int| last_flex(columns, count) < i < count ==> !(#[trigger] columns[i].width is Flex),
        weight_total(columns, count) > 0 ==> last_flex(columns, count) >= 0,
    decreases count,
{
    if count > 0 {
        lemma_last_flex(columns, count - 1);
    }
}

/// Whether a column shares the spare width.
fn flexible(width: Width) -> (result: bool)
    ensures
        result == (width is Flex),
{
    match width {
        Width::Flex(_) => true,
        Width::Fixed(_) => false,
    }
}

/// Whether `v` is an `i32`.
fn fits32(v: i128) -> (result: bool)
    ensures
        result == in_i32(v as int),
{
    -2147483648 <= v && v <= 2147483647
}

/// Whether laying `columns` across `total` pixels with `gap` between them
/// stays within `i32` throughout: what [`column_widths`] needs.
pub fn widths_fit_check(columns: &[Column], total: i32, gap: i32) -> (result: bool)
    ensures
        result == widths_fit(columns@, total as int, gap as int),
{
    let count = columns.len();
    let ghost cols = columns@;
    if count > 2147483647 {
        return false;
    }
    if count == 0 {
        return true;
    }
    proof {
        assert(-0x8000_0000 * 0x8000_0000 <= (gap as int) * (count as int - 1) <= 0x8000_0000 * 0x8000_0000) by (nonlinear_arith)
            requires -0x8000_0000 <= gap < 0x8000_0000, 0 <= count - 1 < 0x8000_0000;
    }
    let gaps: i128 = gap as i128 * (count as i128 - 1);
    if !fits32(gaps) {
        return false;
    }
    let mut fixed: i128 = 0;
    let mut weights: i128 = 0;
    let mut k: usize = 0;
    while k < count
        invariant
            count == cols.len(),
            cols == columns@,
            0 < count <= i32::MAX,
            k <= count,
            fixed == fixed_total(cols, k as int),
            weights == weight_total(cols, k as int),
            in_i32(fixed as int),
            in_i32(weights as int),
            forall|j: int| 0 <= j <= k ==> #[trigger] in_i32(fixed_total(cols, j)),
            forall|j: int| 0 <= j <= k ==> #[trigger] in_i32(weight_total(cols, j)),
        decreases count - k,
    {
        match columns[k].width {
            Width::Fixed(w) => { fixed = fixed + w as i128; },
            Width::Flex(w) => { weights = weights + if w > 0 { w as i128 } else { 0 }; },
        }
        k = k + 1;
        if !fits32(fixed) || !fits32(weights) {
            proof {
                assert(!in_i32(fixed_total(cols, k as int)) || !in_i32(weight_total(cols, k as int)));
            }
            return false;
        }
    }
    let left: i128 = total as i128 - gaps;
    if !fits32(left) || !fits32(left - fixed) {
        return false;
    }
    if weights <= 0 {
        return true;
    }
    let spare: i128 = if left - fixed > 0 { left - fixed } else { 0 };
    proof {
        assert(spare == spare_of(cols, total as int, gap as int));
    }
    let mut base: i128 = 0;
    let mut last: usize = 0;
    let mut i: usize = 0;
    while i < count
        invariant
            count == cols.len(),
            cols == columns@,
            0 < count <= i32::MAX,
            i <= count,
            0 <= spare <= 0x1_0000_0000,
            0 < weights <= i32::MAX,
            weights == weight_total(cols, count as int),
            spare == spare_of(cols, total as int, gap as int),
            base == base_total(cols, i as int, spare as int, weights as int),
            in_i32(base as int),
            forall|j: int| 0 <= j < i ==> #[trigger] in_i32(spare * weight_part(cols[j].width)),
            forall|j: int| 0 <= j <= i ==> #[trigger] in_i32(base_total(cols, j, spare as int, weights as int)),
            last as int == if last_flex(cols, i as int) >= 0 { last_flex(cols, i as int) } else { 0 },
            last < count,
        decreases count - i,
    {
        let width: i128 = match columns[i].width {
            Width::Fixed(w) => if w > 0 { w as i128 } else { 0 },
            Width::Flex(w) => {
                let weight: i128 = if w > 0 { w as i128 } else { 0 };
                proof {
                    assert(0 <= spare * weight <= 0x1_0000_0000 * 0x8000_0000) by (nonlinear_arith)
                        requires 0 <= spare <= 0x1_0000_0000, 0 <= weight <= 0x8000_0000;
                }
                if !fits32(spare * weight) {
                    proof {
                        assert(!in_i32(spare * weight_part(cols[i as int].width)));
                    }
                    return false;
                }
                last = i;
                proof {
                    assert(0 <= (spare * weight) / (weights as int) <= spare * weight) by (nonlinear_arith)
                        requires spare * weight >= 0, weights > 0;
                }
                (spare * weight) / weights
            },
        };
        proof {
            assert(in_i32(spare * weight_part(cols[i as int].width)));
        }
        base = base + width;
        i = i + 1;
        if !fits32(base) {
            proof {
                assert(!in_i32(base_total(cols, i as int, spare as int, weights as int)));
            }
            return false;
        }
    }
    let assigned: i128 = base + gaps;
    if !fits32(assigned) {
        return false;
    }
    proof {
        lemma_last_flex(cols, count as int);
    }
    let last_base: i128 = match columns[last].width {
        Width::Fixed(w) => if w > 0 { w as i128 } else { 0 },
        Width::Flex(w) => {
            let weight: i128 = if w > 0 { w as i128 } else { 0 };
            proof {
                assert(0 <= spare * weight <= 0x1_0000_0000 * 0x8000_0000) by (nonlinear_arith)
                    requires 0 <= spare <= 0x1_0000_0000, 0 <= weight <= 0x8000_0000;
                assert(0 <= (spare * weight) / (weights as int) <= spare * weight) by (nonlinear_arith)
                    requires spare * weight >= 0, weights > 0;
            }
            (spare * weight) / weights
        },
    };
    fits32(last_base + total as i128) && fits32(last_base + total as i128 - assigned)
}

/// Lay columns out across a width.
///
/// Fixed columns take what they ask for; flexible columns share what is left
/// in proportion to their weights, with the remainder going to the last one
/// so the row ends exactly at the right edge rather than a pixel short.
/// No column is ever given a negative width.
pub fn column_widths(columns: &[Column], total: i32, gap: i32) -> (result: Vec<i32>)
    requires
        widths_fit(columns@, total as int, gap as int),
    ensures
        result@.len() == columns@.len(),
        forall|i: int| 0 <= i < result@.len() ==> result@[i] == column_width(columns@, total as int, gap as int, i),
        forall|i: int| 0 <= i < result@.len() ==> result@[i] >= 0,
{
    let count = columns.len();
    if count == 0 {
        return Vec::new();
    }
    let ghost cols = columns@;
    let gaps: i32 = gap * (count as i32 - 1);
    let mut fixed: i32 = 0;
    let mut weights: i32 = 0;
    let mut i: usize = 0;
    while i < count
        invariant
            count == cols.len(),
            cols == columns@,
            i <= count,
            widths_fit(cols, total as int, gap as int),
            fixed == fixed_total(cols, i as int),
            weights == weight_total(cols, i as int),
        decreases count - i,
    {
        assert(in_i32(fixed_total(cols, i + 1)));
        assert(in_i32(weight_total(cols, i + 1)));
        match columns[i].width {
            Width::Fixed(w) => { fixed = fixed + w; },
            Width::Flex(w) => { weights = weights + if w > 0 { w } else { 0 }; },
        }
        i = i + 1;
    }
    let remaining: i32 = total - gaps - fixed;
    let spare: i32 = if remaining > 0 { remaining } else { 0 };
    proof {
        assert(spare == spare_of(cols, total as int, gap as int));
    }

    let mut widths: Vec<i32> = Vec::new();
    let mut j: usize = 0;
    while j < count
        invariant
            count == cols.len(),
            cols == columns@,
            j <= count,
            widths_fit(cols, total as int, gap as int),
            weights == weight_total(cols, count as int),
            spare == spare_of(cols, total as int, gap as int),
            spare >= 0,
            widths@.len() == j,
            forall|k: int| 0 <= k < j ==> widths@[k] == base_width(cols[k].width, spare as int, weights as int),
            forall|k: int| 0 <= k < j ==> widths@[k] >= 0,
        decreases count - j,
    {
        let width: i32 = match columns[j].width {
            Width::Fixed(w) => if w > 0 { w } else { 0 },
            Width::Flex(w) => if weights > 0 {
                assert(in_i32(spare * weight_part(cols[j as int].width)));
                let share: i32 = spare * (if w > 0 { w } else { 0 });
                share / weights
            } else {
                0
            },
        };
        widths.push(width);
        j = j + 1;
    }

    if weights > 0 {
        let mut assigned: i32 = 0;
        let mut k: usize = 0;
        while k < count
            invariant
                count == cols.len(),
                cols == columns@,
                k <= count,
                widths_fit(cols, total as int, gap as int),
                weights == weight_total(cols, count as int),
                weights > 0,
                spare == spare_of(cols, total as int, gap as int),
                widths@.len() == count,
                forall|m: int| 0 <= m < count ==> widths@[m] == base_width(cols[m].width, spare as int, weights as int),
                assigned == base_total(cols, k as int, spare as int, weights as int),
            decreases count - k,
        {
            assert(in_i32(base_total(cols, k + 1, spare as int, weights as int)));
            assigned = assigned + widths[k];
            k = k + 1;
        }
        assigned = assigned + gaps;
        proof {
            lemma_last_flex(cols, count as int);
        }
        let mut last: usize = count;
        while last > 0 && !flexible(columns[last - 1].width)
            invariant
                count == cols.len(),
                cols == columns@,
                last <= count,
                last_flex(cols, count as int) < last as int,
                forall|m: int| last_flex(cols, count as int) < m < count ==> !(#[trigger] cols[m].width is Flex),
                last_flex(cols, count as int) >= 0,
                cols[last_flex(cols, count as int)].width is Flex,
            decreases last,
        {
            last = last - 1;
        }
        let index = last - 1;
        let corrected: i32 = widths[index] + total - assigned;
        let value: i32 = if corrected > 0 { corrected } else { 0 };
        widths.set(index, value);
    }
    widths
}


/// The widths of the first `count` columns, added up.
pub open spec fn width_sum(columns: Seq<Column>, total: int, gap: int, count: int) -> int
    decreases count,
{
    if count <= 0 {
        0
    } else {
        width_sum(columns, total, gap, count - 1) + column_width(columns, total, gap, count - 1)
    }
}

/// The flexible columns' shares among the first `count`, added up.
spec fn share_total(columns: Seq<Column>, count: int, spare: int, weights: int) -> int
    decreases count,
{
    if count <= 0 {
        0
    } else {
        share_total(columns, count - 1, spare, weights) + match columns[count - 1].width {
            Width::Flex(_) => base_width(columns[count - 1].width, spare, weights),
            Width::Fixed(_) => 0,
        }
    }
}

/// With no negative fixed width, the base widths are the fixed widths plus
/// the shares, and the shares never give out more than their weights allow.
proof fn lemma_base_split(columns: Seq<Column>, count: int, spare: int, weights: int)
    requires
        0 <= count <= columns.len(),
        spare >= 0,
        weights > 0,
        forall|i: int| 0 <= i < columns.len() ==> fixed_part(#[trigger] columns[i].width) >= 0,
    ensures
        base_total(columns, count, spare, weights) == fixed_total(columns, count) + share_total(columns, count, spare, weights),
        weights * share_total(columns, count, spare, weights) <= spare * weight_total(columns, count),
        share_total(columns, count, spare, weights) >= 0,
    decreases count,
{
    if count > 0 {
        lemma_base_split(columns, count - 1, spare, weights);
        let width = columns[count - 1].width;
        assert(fixed_part(width) >= 0);
        if let Width::Flex(w) = width {
            let x = spare * max_int(w as int, 0);
            assert(x >= 0) by (nonlinear_arith)
                requires
                    spare >= 0,
                    max_int(w as int, 0) >= 0,
                    x == spare * max_int(w as int, 0);
            vstd::arithmetic::div_mod::lemma_fundamental_div_mod(x, weights);
            vstd::arithmetic::div_mod::lemma_mod_pos_bound(x, weights);
            assert(x / weights >= 0) by (nonlinear_arith)
                requires
                    x >= 0,
                    weights > 0;
            assert(weights * (spare * weight_total(columns, count - 1)) == weights * spare * weight_total(columns, count - 1)) by (nonlinear_arith);
            assert(spare * weight_total(columns, count) == spare * weight_total(columns, count - 1) + x) by (nonlinear_arith)
                requires
                    weight_total(columns, count) == weight_total(columns, count - 1) + max_int(w as int, 0),
                    x == spare * max_int(w as int, 0);
            assert(weights * share_total(columns, count, spare, weights)
                == weights * share_total(columns, count - 1, spare, weights) + weights * (x / weights)) by (nonlinear_arith)
                requires
                    share_total(columns, count, spare, weights) == share_total(columns, count - 1, spare, weights) + x / weights;
        }
    }
}

/// The widths handed out, added up, are the base widths with the last
/// flexible column's correction in place of its base.
proof fn lemma_width_sum(columns: Seq<Column>, total: int, gap: int, count: int)
    requires
        0 <= count <= columns.len(),
    ensures
        ({
            let n = columns.len() as int;
            let weights = weight_total(columns, n);
            let spare = spare_of(columns, total, gap);
            let last = last_flex(columns, n);
            width_sum(columns, total, gap, count) == base_total(columns, count, spare, weights) + if weights > 0 && 0 <= last < count {
                column_width(columns, total, gap, last) - base_width(columns[last].width, spare, weights)
            } else {
                0
            }
        }),
    decreases count,
{
    if count > 0 {
        lemma_width_sum(columns, total, gap, count - 1);
    }
}

/// Columns fill their width exactly: where there is weight to share, no
/// fixed column asks for a negative width, and the fixed columns and gaps
/// fit, the widths and the gaps between them add up to the whole width.
pub proof fn lemma_columns_fill_width(columns: Seq<Column>, total: int, gap: int)
    requires
        columns.len() > 0,
        weight_total(columns, columns.len() as int) > 0,
        forall|i: int| 0 <= i < columns.len() ==> fixed_part(#[trigger] columns[i].width) >= 0,
        total - gaps_of(columns.len() as int, gap) - fixed_total(columns, columns.len() as int) >= 0,
    ensures
        width_sum(columns, total, gap, columns.len() as int) + gaps_of(columns.len() as int, gap) == total,
{
    let n = columns.len() as int;
    let weights = weight_total(columns, n);
    let spare = spare_of(columns, total, gap);
    lemma_last_flex(columns, n);
    lemma_base_split(columns, n, spare, weights);
    lemma_width_sum(columns, total, gap, n);
    let shares = share_total(columns, n, spare, weights);
    assert(shares <= spare) by (nonlinear_arith)
        requires
            weights * shares <= spare * weights,
            weights > 0;
    let last = last_flex(columns, n);
    let base = base_width(columns[last].width, spare, weights);
    assert(base >= 0) by (nonlinear_arith)
        requires
            spare >= 0,
            weights > 0,
            columns[last].width is Flex,
            base == base_width(columns[last].width, spare, weights);
}

/// The rows a table viewport `viewport` high, scrolled by `offset`, can
/// show: from the row at its top edge to one past the row at its bottom edge,
/// but no further than the last row.
pub fn visible_rows(offset: i32, viewport: i32, row_height: i32, row_count: usize) -> (result: (usize, usize))
    requires
        row_height > 0,
        offset >= 0,
        viewport >= 0,
        in_i32(offset + viewport),
    ensures
        result.0 == offset / row_height,
        result.1 == min_int((offset + viewport) / (row_height as int) + 1, row_count as int),
{
    let first = (offset / row_height) as usize;
    let below = ((offset + viewport) / row_height) as usize + 1;
    let last = if below < row_count { below } else { row_count };
    (first, last)
}

/// The minimum height of a table's scrollbar thumb.
pub const THUMB_MIN: i32 = 20;

/// A table's scrollbar beside a body `body` holding `content` pixels of rows
/// scrolled by `offset`: the track in the gutter, and the thumb, as long as
/// the body is to the content (at least [`THUMB_MIN`]) and as far down the
/// track as the offset is to the furthest offset. `None` when there is
/// nowhere to scroll.
pub fn table_scrollbar(body: Rect, content: i32, offset: i32) -> (result: Option<(Rect, Rect)>)
    requires
        body.fits(),
        body.h >= 0,
        0 <= offset <= max_offset_spec(body.h as int, content as int),
        in_i32(content - body.h),
        in_i32(body.x + body.w - TABLE_GUTTER),
        in_i32(body.x + body.w - TABLE_GUTTER + 3),
        in_i32(body.y - THUMB_MIN),
        body.h * body.h <= i32::MAX,
        in_i32(body.y + body.h),
    ensures
        max_offset_spec(body.h as int, content as int) <= 0 ==> result is None,
        max_offset_spec(body.h as int, content as int) > 0 ==> ({
            let max = content - body.h;
            let thumb_h = max_int(body.h * body.h / (content as int), THUMB_MIN as int);
            let track = Rect { x: (body.x + body.w - TABLE_GUTTER + 3) as i32, y: body.y, w: 4, h: body.h };
            result == Some((track, Rect {
                x: track.x,
                y: (body.y + div_toward_zero((body.h - thumb_h) * offset, max)) as i32,
                w: 4,
                h: thumb_h as i32,
            }))
        }),
{
    let max = ScrollState::max_offset(body.h, content);
    if max <= 0 {
        return None;
    }
    let track = Rect::new(body.right() - TABLE_GUTTER + 3, body.y, 4, body.h);
    let ratio = body.h * body.h / content;
    let thumb_height = if ratio > THUMB_MIN { ratio } else { THUMB_MIN };
    let travel = body.h as i64 - thumb_height as i64;
    proof {
        assert(0 <= body.h * body.h / (content as int) <= body.h) by (nonlinear_arith)
            requires content > body.h, body.h >= 0;
        assert(-(THUMB_MIN as int) <= travel <= body.h);
        assert(-(THUMB_MIN as int) * offset <= travel * offset <= body.h * offset) by (nonlinear_arith)
            requires -(THUMB_MIN as int) <= travel <= body.h, offset >= 0;
        assert(body.h * offset <= 0x4000_0000_0000_0000) by (nonlinear_arith)
            requires 0 <= body.h <= i32::MAX, 0 <= offset <= i32::MAX;
    }
    let scaled = travel * offset as i64;
    let step: i64 = if scaled >= 0 { scaled / max as i64 } else { -((-scaled) / max as i64) };
    proof {
        let s = scaled as int;
        let m = max as int;
        if s >= 0 {
            assert(s <= body.h * m) by (nonlinear_arith)
                requires s == travel * offset, 0 <= offset <= m, m > 0, s >= 0, travel <= body.h, body.h >= 0;
            vstd::arithmetic::div_mod::lemma_div_is_ordered(s, body.h * m, m);
            vstd::arithmetic::div_mod::lemma_div_pos_is_pos(s, m);
            vstd::arithmetic::div_mod::lemma_fundamental_div_mod_converse(body.h * m, m, body.h as int, 0);
        } else {
            assert(0 <= (-s) / m <= THUMB_MIN) by (nonlinear_arith)
                requires s == travel * offset, 0 <= offset <= m, m > 0, s < 0, travel >= -(THUMB_MIN as int);
        }
    }
    Some((track, Rect::new(track.x, (body.y as i64 + step) as i32, track.w, thumb_height)))
}

} // verus!
