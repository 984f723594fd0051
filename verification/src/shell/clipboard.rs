//! Plain text on a process-local clipboard. Reads give `None`, never an
//! error, when there is no text.

use vstd::prelude::*;

verus! {

/// A process-local clipboard for plain text.
#[derive(Debug, Clone)]
pub struct Clipboard {
    text: Option<String>,
}

impl Clipboard {
    /// What the clipboard holds.
    pub closed spec fn contents(&self) -> Option<Seq<char>> {
        match self.text {
            Some(t) => Some(t@),
            None => None,
        }
    }

    /// An empty clipboard.
    pub fn new() -> (result: Clipboard)
        ensures
            result.contents() is None,
    {
        Clipboard { text: None }
    }

    /// Copy `text` onto the clipboard, replacing whatever was there.
    /// Returns whether the text reached the clipboard, which it always does.
    pub fn set_text(&mut self, text: &str) -> (result: bool)
        ensures
            result,
            final(self).contents() == Some(text@),
    {
        self.text = Some(text.to_owned());
        true
    }

    /// The clipboard's text, or `None` when there is none.
    pub fn text(&self) -> (result: Option<String>)
        ensures
            match self.contents() {
                Some(t) => result matches Some(s) && s@ == t,
                None => result is None,
            },
    {
        match &self.text {
            Some(t) => Some(t.clone()),
            None => None,
        }
    }

    /// Forget the clipboard's contents.
    pub fn clear(&mut self)
        ensures
            final(self).contents() is None,
    {
        self.text = None;
    }
}

impl Default for Clipboard {
    fn default() -> (result: Clipboard)
        ensures
            result.contents() is None,
    {
        Clipboard::new()
    }
}

} // verus!
