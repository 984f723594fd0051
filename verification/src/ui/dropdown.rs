//! A dropdown's open or closed state, owned by the screen alongside whatever
//! index holds the selected option.
//!
//! Immediate mode has no z-order, so a dropdown cannot draw its popup inline:
//! whatever the screen draws next would cover it. The closed field records
//! what to show, and the open list is drawn once, after everything else.

use vstd::prelude::*;
use crate::raster::painter::{in_i32, Rect};

verus! {

/// An open dropdown: where its closed field sits, so the popup knows where
/// to hang, and the options it lists.
#[derive(Debug)]
struct Open {
    field: Rect,
    options: Vec<String>,
}

/// A dropdown's open or closed state.
#[derive(Debug)]
pub struct Dropdown {
    open: Option<Open>,
}

impl Dropdown {
    /// Whether the popup is showing.
    pub closed spec fn showing(&self) -> bool {
        self.open is Some
    }

    /// A closed dropdown.
    pub fn new() -> (result: Dropdown)
        ensures
            !result.showing(),
    {
        Dropdown { open: None }
    }

    /// Whether the popup is showing.
    pub fn is_open(&self) -> (result: bool)
        ensures
            result == self.showing(),
    {
        self.open.is_some()
    }

    /// Put the popup away.
    pub fn close(&mut self)
        ensures
            !final(self).showing(),
    {
        self.open = None;
    }

    /// Where the closed field of an open dropdown sits.
    pub closed spec fn field_spec(&self) -> Option<Rect> {
        match self.open {
            Some(open) => Some(open.field),
            None => None,
        }
    }

    /// The options an open dropdown lists, as text; none when closed.
    pub closed spec fn option_views(&self) -> Seq<Seq<char>> {
        match self.open {
            Some(open) => open.options@.map_values(|o: String| o@),
            None => Seq::empty(),
        }
    }

    /// The closed field at `field` was clicked: an open popup closes, and a
    /// closed one opens there, listing `options`.
    pub fn toggle(&mut self, field: Rect, options: Vec<String>)
        ensures
            old(self).showing() ==> !final(self).showing(),
            !old(self).showing() ==> final(self).showing() && final(self).field_spec() == Some(field)
                && final(self).option_views() == options@.map_values(|o: String| o@),
    {
        if self.open.is_some() {
            self.open = None;
        } else {
            self.open = Some(Open { field, options });
        }
    }

    /// Where the closed field sits, while the popup is open.
    pub fn field(&self) -> (result: Option<Rect>)
        ensures
            result == self.field_spec(),
    {
        match &self.open {
            Some(open) => Some(open.field),
            None => None,
        }
    }

    /// The options the open popup lists (none when closed).
    pub fn options(&self) -> (result: &[String])
        ensures
            result@.map_values(|o: String| o@) == self.option_views(),
    {
        match &self.open {
            Some(open) => open.options.as_slice(),
            None => &[],
        }
    }

    /// Where the open popup goes inside `bounds`, with rows `row_height`
    /// high: below the field, unless it would run past the bottom of
    /// `bounds` and fits above the field instead.
    pub fn popup_rect(&self, row_height: i32, bounds: Rect) -> (result: Option<Rect>)
        requires
            bounds.fits(),
            self.field_spec() matches Some(field) ==> ({
                let total = row_height * self.option_views().len();
                &&& self.option_views().len() <= i32::MAX
                &&& field.fits()
                &&& in_i32(total)
                &&& in_i32(field.y + field.h + total)
                &&& in_i32(field.y - total)
            }),
        ensures
            match self.field_spec() {
                None => result is None,
                Some(field) => result == Some(popup_placement(field, row_height * self.option_views().len(), bounds)),
            },
    {
        match &self.open {
            None => None,
            Some(open) => {
                let field = open.field;
                assert(open.options@.len() == self.option_views().len());
                let total = row_height * (open.options.len() as i32);
                let below = Rect::new(field.x, field.bottom(), field.w, total);
                let fits_above = field.y - total >= bounds.y;
                if below.bottom() > bounds.bottom() && fits_above {
                    Some(Rect::new(field.x, field.y - total, field.w, total))
                } else {
                    Some(below)
                }
            },
        }
    }

    /// Settle the popup after it was drawn: it closes when an option was
    /// picked, a click landed inside the bounds but on no option, or Escape
    /// was pressed; otherwise it stays as it is.
    pub fn settle(&mut self, picked: bool, clicked_elsewhere: bool, escape: bool)
        ensures
            (picked || clicked_elsewhere || escape) ==> !final(self).showing(),
            !(picked || clicked_elsewhere || escape) ==> final(self).showing() == old(self).showing()
                && final(self).field_spec() == old(self).field_spec()
                && final(self).option_views() == old(self).option_views(),
    {
        if picked || clicked_elsewhere || escape {
            self.open = None;
        }
    }
}

/// Where a popup `total` high hangs from a field inside `bounds`: below the
/// field, unless that runs past the bottom of `bounds` and there is room
/// above the field.
pub open spec fn popup_placement(field: Rect, total: int, bounds: Rect) -> Rect {
    if field.y + field.h + total > bounds.y + bounds.h && field.y - total >= bounds.y {
        Rect { x: field.x, y: (field.y - total) as i32, w: field.w, h: total as i32 }
    } else {
        Rect { x: field.x, y: (field.y + field.h) as i32, w: field.w, h: total as i32 }
    }
}

impl Default for Dropdown {
    fn default() -> (result: Dropdown)
        ensures
            !result.showing(),
    {
        Dropdown::new()
    }
}

} // verus!
