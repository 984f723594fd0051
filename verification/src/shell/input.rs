//! A frame's worth of input.
//!
//! The shell delivers events one at a time as they arrive; a screen wants to
//! know, while it is drawing, what happened since it last drew. This collects
//! the one into the other.
//!
//! The distinction that matters is between **state** and **edges**. Whether a
//! button is held down is state: it stays true across frames and is true for
//! whoever asks. That the button went down *this frame* is an edge, and it must
//! be consumed by exactly one widget or a single click activates every button
//! it happens to be over. So [`Input::take_click`] takes the click rather than
//! reading it, and [`Input::end_frame`] clears whatever nothing took.
//!
//! Positions are whole buffer pixels; the shell rounds what the window system
//! reports before handing it over.

use vstd::prelude::*;
use crate::raster::painter::Rect;
use crate::shell::keys::{KeyInput, Modifiers, MouseButton};

verus! {

/// What the input of a frame amounts to.
pub struct InputView {
    /// Where the cursor is, in buffer pixels; `None` once it left the window.
    pub cursor: Option<(i32, i32)>,
    /// Whether the left button is down.
    pub held: bool,
    /// A left press no widget has claimed yet, where it landed.
    pub pending_click: Option<(i32, i32)>,
    /// A right press no widget has claimed yet, where it landed.
    pub pending_context: Option<(i32, i32)>,
    /// Keys pressed this frame, in order.
    pub keys: Seq<KeyInput>,
    pub modifiers: Modifiers,
}

/// Whether a pending press lies inside `area`, so that a widget there may
/// claim it.
pub open spec fn lands_in(press: Option<(i32, i32)>, area: Rect) -> bool {
    match press {
        Some((x, y)) => area.has(x as int, y as int),
        None => false,
    }
}

/// What is left of a pending press after a widget over `area` asked for it.
pub open spec fn after_claim(press: Option<(i32, i32)>, area: Rect) -> Option<(i32, i32)> {
    if lands_in(press, area) {
        None
    } else {
        press
    }
}

/// What happened since the last frame.
#[derive(Debug, Clone)]
pub struct Input {
    cursor: Option<(i32, i32)>,
    held: bool,
    pending_click: Option<(i32, i32)>,
    pending_context: Option<(i32, i32)>,
    keys: Vec<KeyInput>,
    modifiers: Modifiers,
}

impl View for Input {
    type V = InputView;

    closed spec fn view(&self) -> InputView {
        InputView {
            cursor: self.cursor,
            held: self.held,
            pending_click: self.pending_click,
            pending_context: self.pending_context,
            keys: self.keys@,
            modifiers: self.modifiers,
        }
    }
}

impl Default for Input {
    fn default() -> (result: Input)
        ensures
            result@ == (InputView {
                cursor: None,
                held: false,
                pending_click: None,
                pending_context: None,
                keys: Seq::empty(),
                modifiers: Modifiers { shift: false, control: false, alt: false, logo: false },
            }),
    {
        Input::new()
    }
}

impl Input {
    /// Nothing has happened: no cursor, nothing held, pending or typed.
    pub fn new() -> (result: Input)
        ensures
            result@ == (InputView {
                cursor: None,
                held: false,
                pending_click: None,
                pending_context: None,
                keys: Seq::empty(),
                modifiers: Modifiers { shift: false, control: false, alt: false, logo: false },
            }),
    {
        let input = Input {
            cursor: None,
            held: false,
            pending_click: None,
            pending_context: None,
            keys: Vec::new(),
            modifiers: Modifiers { shift: false, control: false, alt: false, logo: false },
        };
        assert(input@.keys =~= Seq::<KeyInput>::empty());
        input
    }

    /// The cursor moved to `(x, y)`, in buffer pixels.
    pub fn cursor_moved(&mut self, x: i32, y: i32)
        ensures
            final(self)@ == (InputView { cursor: Some((x, y)), ..old(self)@ }),
    {
        self.cursor = Some((x, y));
    }

    /// The cursor left the window. A drag that ends outside the window never
    /// sends a release, so the button stops counting as held.
    pub fn cursor_left(&mut self)
        ensures
            final(self)@ == (InputView { cursor: None, held: false, ..old(self)@ }),
    {
        self.cursor = None;
        self.held = false;
    }

    /// A mouse button went down or up. A left press is held and becomes a
    /// click at the cursor; a right press becomes a context click at the
    /// cursor; a left release ends the hold. Nothing else is recorded.
    pub fn mouse(&mut self, button: MouseButton, pressed: bool)
        ensures
            final(self)@ == (match (button, pressed) {
                (MouseButton::Left, true) => InputView { held: true, pending_click: old(self)@.cursor, ..old(self)@ },
                (MouseButton::Left, false) => InputView { held: false, ..old(self)@ },
                (MouseButton::Right, true) => InputView { pending_context: old(self)@.cursor, ..old(self)@ },
                _ => old(self)@,
            }),
    {
        match (button, pressed) {
            (MouseButton::Left, true) => {
                self.held = true;
                self.pending_click = self.cursor;
            },
            (MouseButton::Left, false) => {
                self.held = false;
            },
            (MouseButton::Right, true) => {
                self.pending_context = self.cursor;
            },
            _ => {},
        }
    }

    /// A key was pressed; it joins this frame's keys, in order.
    pub fn key(&mut self, key: KeyInput)
        ensures
            final(self)@ == (InputView { keys: old(self)@.keys.push(key), ..old(self)@ }),
    {
        self.keys.push(key);
    }

    /// The modifier keys changed.
    pub fn modifiers_changed(&mut self, modifiers: Modifiers)
        ensures
            final(self)@ == (InputView { modifiers, ..old(self)@ }),
    {
        self.modifiers = modifiers;
    }

    /// Drop anything no widget claimed: presses and keys. Called after each
    /// frame is drawn. What is held and where the cursor is carry over.
    pub fn end_frame(&mut self)
        ensures
            final(self)@ == (InputView { pending_click: None, pending_context: None, keys: Seq::empty(), ..old(self)@ }),
    {
        self.pending_click = None;
        self.pending_context = None;
        self.keys.clear();
        assert(self@.keys =~= Seq::<KeyInput>::empty());
    }

    /// Where the cursor is.
    pub fn cursor(&self) -> (result: Option<(i32, i32)>)
        ensures
            result == self@.cursor,
    {
        self.cursor
    }

    /// The modifier keys held.
    pub fn modifiers(&self) -> (result: Modifiers)
        ensures
            result == self@.modifiers,
    {
        self.modifiers
    }

    /// Whether the cursor is inside a rectangle.
    pub fn hovering(&self, area: Rect) -> (result: bool)
        requires
            area.fits(),
        ensures
            result == lands_in(self@.cursor, area),
    {
        match self.cursor {
            Some((x, y)) => area.contains(x, y),
            None => false,
        }
    }

    /// Whether the button is held with the cursor inside a rectangle, for a
    /// widget that wants to look pressed.
    pub fn pressing(&self, area: Rect) -> (result: bool)
        requires
            area.fits(),
        ensures
            result == (self@.held && lands_in(self@.cursor, area)),
    {
        self.held && self.hovering(area)
    }

    /// Claim a click inside `area`, if there is one to claim. Taking rather
    /// than reading is the whole design: a click belongs to one widget.
    pub fn take_click(&mut self, area: Rect) -> (result: bool)
        requires
            area.fits(),
        ensures
            result == lands_in(old(self)@.pending_click, area),
            final(self)@ == (InputView { pending_click: after_claim(old(self)@.pending_click, area), ..old(self)@ }),
    {
        let hit = match self.pending_click {
            Some((x, y)) => area.contains(x, y),
            None => false,
        };
        if hit {
            self.pending_click = None;
        }
        hit
    }

    /// Claim a click inside `area` for an on/off control: a claimed click
    /// flips `value`. Returns whether it did.
    pub fn take_toggle(&mut self, area: Rect, value: &mut bool) -> (result: bool)
        requires
            area.fits(),
        ensures
            result == lands_in(old(self)@.pending_click, area),
            *final(value) == (*old(value) != result),
            final(self)@ == (InputView { pending_click: after_claim(old(self)@.pending_click, area), ..old(self)@ }),
    {
        let clicked = self.take_click(area);
        if clicked {
            *value = !*value;
        }
        clicked
    }

    /// Claim a right-click inside `area`, if there is one to claim.
    pub fn take_context_click(&mut self, area: Rect) -> (result: bool)
        requires
            area.fits(),
        ensures
            result == lands_in(old(self)@.pending_context, area),
            final(self)@ == (InputView { pending_context: after_claim(old(self)@.pending_context, area), ..old(self)@ }),
    {
        let hit = match self.pending_context {
            Some((x, y)) => area.contains(x, y),
            None => false,
        };
        if hit {
            self.pending_context = None;
        }
        hit
    }

    /// Keys pressed this frame, for whatever has focus.
    pub fn keys(&self) -> (result: &[KeyInput])
        ensures
            result@ == self@.keys,
    {
        self.keys.as_slice()
    }

    /// Claim the keys, so only the focused widget sees them.
    pub fn take_keys(&mut self) -> (result: Vec<KeyInput>)
        ensures
            result@ == old(self)@.keys,
            final(self)@ == (InputView { keys: Seq::empty(), ..old(self)@ }),
    {
        let mut taken: Vec<KeyInput> = Vec::new();
        std::mem::swap(&mut taken, &mut self.keys);
        assert(self@.keys =~= Seq::<KeyInput>::empty());
        taken
    }

    /// Let the focused widget read the keys and claim them all, keeping the
    /// collector's allocation for the next frame.
    pub fn consume_keys<R, F: FnOnce(&[KeyInput]) -> R>(&mut self, consume: F) -> (result: R)
        requires
            forall|keys: &[KeyInput]| keys@ == old(self)@.keys ==> #[trigger] consume.requires((keys,)),
        ensures
            exists|keys: &[KeyInput]| keys@ == old(self)@.keys && #[trigger] consume.ensures((keys,), result),
            final(self)@ == (InputView { keys: Seq::empty(), ..old(self)@ }),
    {
        let result = consume(self.keys.as_slice());
        self.keys.clear();
        assert(self@.keys =~= Seq::<KeyInput>::empty());
        result
    }
}

/// A click belongs to exactly one widget: once one widget has claimed it, no
/// other widget asking afterwards, wherever it is, gets it too; and a widget
/// that did not contain it leaves it for the next.
pub proof fn lemma_click_claimed_once(press: Option<(i32, i32)>, first: Rect, second: Rect)
    ensures
        lands_in(press, first) ==> !lands_in(after_claim(press, first), second),
        !lands_in(press, first) ==> after_claim(press, first) == press,
{
}

} // verus!
