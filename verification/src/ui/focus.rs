//! Keyboard focus: which registered widget (by draw order) has it, and how
//! Tab, Shift-Tab and, where a screen opts in, arrow keys move it.
//!
//! Movement is resolved against the previous frame's count of registered
//! widgets, since this frame's is not known until its last one registers.

use vstd::prelude::*;
use crate::shell::keys::{KeyInput, Modifiers};

verus! {

/// `delta` steps from `current` among `count` widgets, wrapping at both
/// ends; from nothing focused, forward lands on the first and backward on
/// the last. Nothing can be focused among no widgets.
pub open spec fn advanced(current: Option<usize>, count: usize, delta: int) -> Option<usize> {
    if count == 0 {
        None
    } else {
        match current {
            Some(i) => Some(((i + delta) % (count as int)) as usize),
            None => if delta >= 0 { Some(0usize) } else { Some((count - 1) as usize) },
        }
    }
}

/// Focus that moves always lands on a widget that exists.
pub proof fn lemma_advance_in_range(current: Option<usize>, count: usize, delta: int)
    ensures
        advanced(current, count, delta) matches Some(j) ==> j < count,
{
}

/// Moving focus `delta` steps and then `delta` steps back returns it to the
/// widget it started on.
pub proof fn lemma_advance_undo(i: usize, count: usize, delta: int)
    requires
        i < count,
    ensures
        advanced(advanced(Some(i), count, delta), count, -delta) == Some(i),
{
    let c = count as int;
    let a = (i + delta) % c;
    vstd::arithmetic::div_mod::lemma_fundamental_div_mod(i + delta, c);
    let q = (i + delta) / c;
    assert(c * q == q * c) by (nonlinear_arith);
    assert((-q) * c == -(q * c)) by (nonlinear_arith);
    vstd::arithmetic::div_mod::lemma_fundamental_div_mod_converse(a - delta, c, -q, i as int);
}

/// A stale focus index pulled back inside `count` widgets.
pub open spec fn clamped(current: Option<usize>, count: usize) -> Option<usize> {
    if count == 0 {
        None
    } else {
        match current {
            Some(i) => Some(if i < count { i } else { (count - 1) as usize }),
            None => None,
        }
    }
}

/// Focus after each key of `keys` that equals `forward` moves it one on and
/// each that equals `backward` moves it one back, in order.
pub open spec fn after_keys(current: Option<usize>, count: usize, keys: Seq<KeyInput>, forward: KeyInput, backward: KeyInput) -> Option<usize>
    decreases keys.len(),
{
    if keys.len() == 0 {
        current
    } else {
        let before = after_keys(current, count, keys.drop_last(), forward, backward);
        if keys.last() == forward {
            advanced(before, count, 1)
        } else if keys.last() == backward {
            advanced(before, count, -1)
        } else {
            before
        }
    }
}

/// Focus after the Tab presses among `keys`: each moves it one on, or one
/// back with Shift held.
pub open spec fn after_tabs(current: Option<usize>, count: usize, keys: Seq<KeyInput>, shift: bool) -> Option<usize>
    decreases keys.len(),
{
    if keys.len() == 0 {
        current
    } else {
        let before = after_tabs(current, count, keys.drop_last(), shift);
        if keys.last() == KeyInput::Tab { advanced(before, count, if shift { -1 } else { 1 }) } else { before }
    }
}

/// Which registered widget currently holds keyboard focus.
#[derive(Debug, Clone, Copy, PartialEq, Eq)]
pub struct Focus {
    current: Option<usize>,
    count: usize,
    registered: usize,
}

impl Focus {
    /// The focused index, if any.
    pub closed spec fn focused(&self) -> Option<usize> {
        self.current
    }

    /// The previous frame's total registrations, which movement is
    /// resolved against.
    pub closed spec fn widgets(&self) -> usize {
        self.count
    }

    /// This frame's registrations so far.
    pub closed spec fn registrations(&self) -> usize {
        self.registered
    }

    /// Nothing focused and nothing registered.
    pub fn new() -> (result: Focus)
        ensures
            result.focused() is None,
            result.widgets() == 0,
            result.registrations() == 0,
    {
        Focus { current: None, count: 0, registered: 0 }
    }

    /// The index that currently has focus, if any.
    pub fn current(&self) -> (result: Option<usize>)
        ensures
            result == self.focused(),
    {
        self.current
    }

    /// Move focus by `delta` registrations, wrapping at both ends.
    pub fn advance(&mut self, delta: i32)
        requires
            old(self).widgets() <= i32::MAX,
            old(self).focused() matches Some(i) ==> i <= i32::MAX,
        ensures
            final(self).focused() == advanced(old(self).focused(), old(self).widgets(), delta as int),
            final(self).widgets() == old(self).widgets(),
            final(self).registrations() == old(self).registrations(),
    {
        if self.count == 0 {
            self.current = None;
            return;
        }
        let count = self.count as u64;
        let next: u64 = match self.current {
            Some(index) => {
                let sum = index as i64 + delta as i64;
                if sum >= 0 {
                    (sum as u64) % count
                } else {
                    let m = ((-sum) as u64) % count;
                    proof {
                        let q = ((-sum) as u64) / count;
                        vstd::arithmetic::div_mod::lemma_fundamental_div_mod((-sum) as int, count as int);
                        assert(count * q == q * count) by (nonlinear_arith);
                        assert(count * (-(q as int) - 1) == -(q * count) - count) by (nonlinear_arith);
                        assert(count * (-(q as int)) == -(q * count)) by (nonlinear_arith);
                        assert((-(q as int) - 1) * count == -(q * count) - count) by (nonlinear_arith);
                        assert((-(q as int)) * count == -(q * count)) by (nonlinear_arith);
                        if m == 0 {
                            vstd::arithmetic::div_mod::lemma_fundamental_div_mod_converse(sum as int, count as int, -(q as int), 0);
                        } else {
                            vstd::arithmetic::div_mod::lemma_fundamental_div_mod_converse(sum as int, count as int, -(q as int) - 1, count - m);
                        }
                        assert(count * q == q * count) by (nonlinear_arith);
                        assert(count * (-(q as int) - 1) == -(q * count) - count) by (nonlinear_arith);
                        assert(count * (-(q as int)) == -(q * count)) by (nonlinear_arith);
                    }
                    if m == 0 { 0 } else { count - m }
                }
            },
            None => if delta >= 0 { 0 } else { count - 1 },
        };
        self.current = Some(next as usize);
    }

    /// Apply a frame's Tab and Shift-Tab presses and start counting this
    /// frame's registrations. A stale focus index is first pulled back
    /// inside the previous frame's count.
    pub fn handle_tab(&mut self, keys: &[KeyInput], modifiers: Modifiers)
        requires
            old(self).widgets() <= i32::MAX,
        ensures
            final(self).focused() == after_tabs(clamped(old(self).focused(), old(self).widgets()), old(self).widgets(), keys@, modifiers.shift),
            final(self).widgets() == old(self).widgets(),
            final(self).registrations() == 0,
    {
        if self.count == 0 {
            self.current = None;
        } else if let Some(index) = self.current {
            self.current = Some(if index < self.count { index } else { self.count - 1 });
        }
        let ghost start = self.current;
        let mut k: usize = 0;
        while k < keys.len()
            invariant
                self.count == old(self).widgets(),
                self.count <= i32::MAX,
                self.registered == old(self).registrations(),
                start == clamped(old(self).focused(), old(self).widgets()),
                k <= keys@.len(),
                self.current matches Some(i) ==> i < self.count,
                self.current == after_tabs(start, self.count, keys@.take(k as int), modifiers.shift),
            decreases keys@.len() - k,
        {
            assert(keys@.take(k + 1).drop_last() == keys@.take(k as int));
            if keys[k] == KeyInput::Tab {
                self.advance(if modifiers.shift { -1 } else { 1 });
            }
            k = k + 1;
        }
        assert(keys@.take(keys@.len() as int) == keys@);
        self.registered = 0;
    }

    /// Move focus for arrow keys, for a screen where they mean the next or
    /// previous control: each `next` moves it one on, each `previous` one
    /// back.
    pub fn handle_arrows(&mut self, keys: &[KeyInput], next: KeyInput, previous: KeyInput)
        requires
            old(self).widgets() <= i32::MAX,
            old(self).focused() matches Some(i) ==> i < i32::MAX,
        ensures
            final(self).focused() == after_keys(old(self).focused(), old(self).widgets(), keys@, next, previous),
            final(self).widgets() == old(self).widgets(),
            final(self).registrations() == old(self).registrations(),
    {
        let ghost start = self.current;
        let mut k: usize = 0;
        while k < keys.len()
            invariant
                self.count == old(self).widgets(),
                self.count <= i32::MAX,
                self.registered == old(self).registrations(),
                start == old(self).focused(),
                k <= keys@.len(),
                self.current matches Some(i) ==> i < i32::MAX,
                self.current == after_keys(start, self.count, keys@.take(k as int), next, previous),
            decreases keys@.len() - k,
        {
            assert(keys@.take(k + 1).drop_last() == keys@.take(k as int));
            if keys[k] == next {
                self.advance(1);
            } else if keys[k] == previous {
                self.advance(-1);
            }
            k = k + 1;
        }
        assert(keys@.take(keys@.len() as int) == keys@);
    }

    /// Register one focusable widget for this frame, in draw order, and
    /// report whether it has focus.
    pub fn register(&mut self) -> (result: bool)
        requires
            old(self).registrations() < usize::MAX,
        ensures
            result == (old(self).focused() == Some(old(self).registrations())),
            final(self).registrations() == old(self).registrations() + 1,
            final(self).widgets() == old(self).registrations() + 1,
            final(self).focused() == old(self).focused(),
    {
        let index = self.registered;
        self.registered = self.registered + 1;
        self.count = self.registered;
        self.current == Some(index)
    }

    /// Give a registration focus outright.
    pub fn set(&mut self, index: usize)
        ensures
            final(self).focused() == Some(index),
            final(self).widgets() == old(self).widgets(),
            final(self).registrations() == old(self).registrations(),
    {
        self.current = Some(index);
    }

    /// Drop focus entirely.
    pub fn clear(&mut self)
        ensures
            final(self).focused() is None,
            final(self).widgets() == old(self).widgets(),
            final(self).registrations() == old(self).registrations(),
    {
        self.current = None;
    }
}

impl Default for Focus {
    fn default() -> (result: Focus)
        ensures
            result.focused() is None,
            result.widgets() == 0,
            result.registrations() == 0,
    {
        Focus::new()
    }
}

} // verus!
