//! Input as the application sees it, after the host has translated it.

use vstd::prelude::*;

verus! {

/// A key the host recognised.
#[derive(Debug, Clone, Copy, PartialEq, Eq, Structural)]
pub enum KeyInput {
    /// A printable character, already normalised: numpad and top-row digits
    /// arrive identically.
    Character(char),
    Enter,
    Escape,
    Backspace,
    /// A function key, by number.
    Function(u8),
    Left,
    Right,
    Up,
    Down,
    Tab,
    Delete,
    Home,
    End,
    PageUp,
    PageDown,
}

/// Which modifiers were held when an event arrived.
#[derive(Debug, Clone, Copy, Default, PartialEq, Eq, Structural)]
pub struct Modifiers {
    pub shift: bool,
    pub control: bool,
    pub alt: bool,
    /// Cmd on macOS, the Windows/Super key elsewhere.
    pub logo: bool,
}

impl Modifiers {
    /// Nothing held: a plain click.
    pub fn none(self) -> (result: bool)
        ensures
            result == (!self.shift && !self.control && !self.alt && !self.logo),
    {
        !self.shift && !self.control && !self.alt && !self.logo
    }

    /// The platform's accelerator modifier for a keyboard shortcut: Cmd
    /// (`logo`) on macOS, Ctrl everywhere else. `macos` says which platform
    /// the program runs on, so that a screen wiring up Cmd+N/Ctrl+N checks
    /// this instead of `control` and is right on both.
    pub fn accel(self, macos: bool) -> (result: bool)
        ensures
            result == if macos { self.logo } else { self.control },
    {
        if macos {
            self.logo
        } else {
            self.control
        }
    }
}

/// One key transition, including release, the committed string and the
/// physical key.
#[derive(Debug, Clone, PartialEq, Eq)]
pub struct KeyEvent {
    pub key: KeyInput,
    /// The whole string the key committed; empty for navigation keys and
    /// for key-up.
    pub text: String,
    /// Name of the physical key.
    pub physical: String,
    pub pressed: bool,
    pub repeat: bool,
    pub modifiers: Modifiers,
}

/// Touch or gesture phase, forwarded as the platform reports it.
#[derive(Debug, Clone, Copy, PartialEq, Eq, Structural)]
pub enum GesturePhase {
    Started,
    Moved,
    Ended,
    Cancelled,
}

/// Mouse buttons the host forwards.
#[derive(Debug, Clone, Copy, PartialEq, Eq, Structural)]
pub enum MouseButton {
    Left,
    Right,
    Middle,
}

/// What the input method did.
#[derive(Debug, Clone, PartialEq, Eq)]
pub enum ImeEvent {
    /// The input method attached.
    Enabled,
    /// In-progress composition and an optional byte-indexed cursor range;
    /// an empty string clears the composition.
    Preedit(String, Option<(usize, usize)>),
    /// Finished text to insert into the focused field.
    Commit(String),
    /// The input method detached.
    Disabled,
}

/// Pointer shapes an application can ask for.
#[derive(Debug, Clone, Copy, PartialEq, Eq, Structural)]
pub enum CursorShape {
    /// The platform arrow.
    Default,
    /// An I-beam over editable text.
    Text,
    /// A hand over something clickable.
    Pointer,
    /// A left-right arrow over a draggable vertical edge.
    ResizeHorizontal,
}

impl Default for CursorShape {
    fn default() -> (result: CursorShape)
        ensures
            result == CursorShape::Default,
    {
        CursorShape::Default
    }
}

/// The host's one user event: "look again". It carries nothing.
#[derive(Debug, Clone, Copy, PartialEq, Eq, Structural)]
pub struct Wake;

/// The keys the window system names, as far as the shell tells them apart.
#[derive(Debug, Clone, Copy, PartialEq, Eq, Structural)]
pub enum NamedKey {
    Enter,
    Escape,
    Backspace,
    Tab,
    Delete,
    Home,
    End,
    PageUp,
    PageDown,
    ArrowLeft,
    ArrowRight,
    ArrowUp,
    ArrowDown,
    /// F1, F2, ...: the number.
    Function(u8),
    /// Any other named key (Space, Alt, a media key, ...).
    Other,
}

/// A key event's logical key: a named key, the characters it produces, or
/// nothing the window system could identify.
#[derive(Debug, Clone, PartialEq, Eq)]
pub enum LogicalKey {
    Named(NamedKey),
    Character(String),
    Unidentified,
}

/// The buttons a pointing device reports.
#[derive(Debug, Clone, Copy, PartialEq, Eq, Structural)]
pub enum PointerButton {
    Left,
    Right,
    Middle,
    Back,
    Forward,
    Other(u16),
}

/// The first character of a string, if it has one.
pub open spec fn first_char(text: Seq<char>) -> Option<char> {
    if text.len() > 0 { Some(text[0]) } else { None }
}

/// The first character of an optional string.
pub open spec fn first_of(text: Option<Seq<char>>) -> Option<char> {
    match text {
        Some(t) => first_char(t),
        None => None,
    }
}

/// A string's characters, if there is a string.
pub open spec fn text_view(text: Option<&str>) -> Option<Seq<char>> {
    match text {
        Some(t) => Some(t@),
        None => None,
    }
}

/// The function-key number of a named key: F1 to F24; anything else has none.
pub open spec fn function_number(named: NamedKey) -> Option<u8> {
    match named {
        NamedKey::Function(n) => if 1 <= n <= 24 { Some(n) } else { None },
        _ => None,
    }
}

/// What a logical key means to the application, given the text it typed:
/// the editing and navigation keys by name, F1 to F24 as function keys, any
/// other named key by the text it typed (how the numpad reports digits on
/// some platforms), a character key by its first character, and an
/// unidentified key by its text. Nothing when there is nothing to go by.
pub open spec fn translated(logical: LogicalKey, text: Option<Seq<char>>) -> Option<KeyInput> {
    match logical {
        LogicalKey::Named(NamedKey::Enter) => Some(KeyInput::Enter),
        LogicalKey::Named(NamedKey::Escape) => Some(KeyInput::Escape),
        LogicalKey::Named(NamedKey::Backspace) => Some(KeyInput::Backspace),
        LogicalKey::Named(NamedKey::Tab) => Some(KeyInput::Tab),
        LogicalKey::Named(NamedKey::Delete) => Some(KeyInput::Delete),
        LogicalKey::Named(NamedKey::Home) => Some(KeyInput::Home),
        LogicalKey::Named(NamedKey::End) => Some(KeyInput::End),
        LogicalKey::Named(NamedKey::PageUp) => Some(KeyInput::PageUp),
        LogicalKey::Named(NamedKey::PageDown) => Some(KeyInput::PageDown),
        LogicalKey::Named(NamedKey::ArrowLeft) => Some(KeyInput::Left),
        LogicalKey::Named(NamedKey::ArrowRight) => Some(KeyInput::Right),
        LogicalKey::Named(NamedKey::ArrowUp) => Some(KeyInput::Up),
        LogicalKey::Named(NamedKey::ArrowDown) => Some(KeyInput::Down),
        LogicalKey::Named(named) => match function_number(named) {
            Some(n) => Some(KeyInput::Function(n)),
            None => match first_of(text) {
                Some(c) => Some(KeyInput::Character(c)),
                None => None,
            },
        },
        LogicalKey::Character(chars) => match first_char(chars@) {
            Some(c) => Some(KeyInput::Character(c)),
            None => None,
        },
        LogicalKey::Unidentified => match first_of(text) {
            Some(c) => Some(KeyInput::Character(c)),
            None => None,
        },
    }
}

/// The whole string a key committed: the typed text of a character key (its
/// own characters when the text is missing or empty), and nothing for any
/// other key, so Tab stays a key instead of a tab character.
pub open spec fn committed(logical: LogicalKey, text: Option<Seq<char>>) -> Seq<char> {
    match logical {
        LogicalKey::Character(chars) => match text {
            Some(t) => if t.len() > 0 { t } else { chars@ },
            None => chars@,
        },
        _ => Seq::empty(),
    }
}

/// The first character of a string.
fn first_character(text: &str) -> (result: Option<char>)
    ensures
        result == first_char(text@),
{
    let chars = crate::text::utf8::chars_of(text);
    if chars.len() > 0 { Some(chars[0]) } else { None }
}

/// The function-key number of a named key, F1 to F24.
pub fn function_key(named: NamedKey) -> (result: Option<u8>)
    ensures
        result == function_number(named),
{
    match named {
        NamedKey::Function(n) => if 1 <= n && n <= 24 { Some(n) } else { None },
        _ => None,
    }
}

/// What a key means to the application; `None` for a key with no meaning,
/// which is ignored rather than guessed at.
pub fn translate(logical: &LogicalKey, text: Option<&str>) -> (result: Option<KeyInput>)
    ensures
        result == translated(*logical, text_view(text)),
{
    let typed = match text {
        Some(t) => first_character(t),
        None => None,
    };
    match logical {
        LogicalKey::Named(NamedKey::Enter) => Some(KeyInput::Enter),
        LogicalKey::Named(NamedKey::Escape) => Some(KeyInput::Escape),
        LogicalKey::Named(NamedKey::Backspace) => Some(KeyInput::Backspace),
        LogicalKey::Named(NamedKey::Tab) => Some(KeyInput::Tab),
        LogicalKey::Named(NamedKey::Delete) => Some(KeyInput::Delete),
        LogicalKey::Named(NamedKey::Home) => Some(KeyInput::Home),
        LogicalKey::Named(NamedKey::End) => Some(KeyInput::End),
        LogicalKey::Named(NamedKey::PageUp) => Some(KeyInput::PageUp),
        LogicalKey::Named(NamedKey::PageDown) => Some(KeyInput::PageDown),
        LogicalKey::Named(NamedKey::ArrowLeft) => Some(KeyInput::Left),
        LogicalKey::Named(NamedKey::ArrowRight) => Some(KeyInput::Right),
        LogicalKey::Named(NamedKey::ArrowUp) => Some(KeyInput::Up),
        LogicalKey::Named(NamedKey::ArrowDown) => Some(KeyInput::Down),
        LogicalKey::Named(named) => match function_key(*named) {
            Some(n) => Some(KeyInput::Function(n)),
            None => match typed {
                Some(c) => Some(KeyInput::Character(c)),
                None => None,
            },
        },
        LogicalKey::Character(chars) => match first_character(chars.as_str()) {
            Some(c) => Some(KeyInput::Character(c)),
            None => None,
        },
        LogicalKey::Unidentified => match typed {
            Some(c) => Some(KeyInput::Character(c)),
            None => None,
        },
    }
}

/// The whole string a key committed.
pub fn committed_text(logical: &LogicalKey, text: Option<&str>) -> (result: String)
    ensures
        result@ == committed(*logical, text_view(text)),
{
    match logical {
        LogicalKey::Character(chars) => match text {
            Some(t) => if first_character(t).is_some() { t.to_owned() } else { chars.clone() },
            None => chars.clone(),
        },
        _ => String::new(),
    }
}

/// A key transition as the application sees it: what the key means, the
/// string it committed (nothing on release), the physical key's name, and
/// the state of the key and the modifiers. `None` for a key with no meaning.
pub fn interpret_key(
    logical: &LogicalKey,
    text: Option<&str>,
    physical: &str,
    pressed: bool,
    repeat: bool,
    modifiers: Modifiers,
) -> (result: Option<KeyEvent>)
    ensures
        match translated(*logical, text_view(text)) {
            None => result is None,
            Some(key) => result matches Some(event) && event.key == key
                && event.text@ == (if pressed { committed(*logical, text_view(text)) } else { Seq::empty() })
                && event.physical@ == physical@
                && event.pressed == pressed
                && event.repeat == repeat
                && event.modifiers == modifiers,
        },
{
    let key = match translate(logical, text) {
        Some(k) => k,
        None => return None,
    };
    let committed = if pressed { committed_text(logical, text) } else { String::new() };
    Some(KeyEvent { key, text: committed, physical: physical.to_owned(), pressed, repeat, modifiers })
}

/// The pointer buttons the application hears about: the three a mouse has.
/// Back, forward and extra buttons are ignored rather than guessed at.
pub fn translate_button(button: PointerButton) -> (result: Option<MouseButton>)
    ensures
        result == match button {
            PointerButton::Left => Some(MouseButton::Left),
            PointerButton::Right => Some(MouseButton::Right),
            PointerButton::Middle => Some(MouseButton::Middle),
            _ => None::<MouseButton>,
        },
{
    match button {
        PointerButton::Left => Some(MouseButton::Left),
        PointerButton::Right => Some(MouseButton::Right),
        PointerButton::Middle => Some(MouseButton::Middle),
        _ => None,
    }
}

} // verus!
