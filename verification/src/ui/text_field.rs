//! An editable line of text and its caret, which never splits a cluster.
//!
//! Thai stacks marks on their base: ก้ is two characters and one letter. A
//! caret between them is a position no reader recognises, and backspacing
//! from it would remove a tone mark and silently change the word. So the
//! caret moves, and text is deleted, a whole cluster at a time.

use vstd::prelude::*;
use crate::digits::push_char;
use crate::text::utf8::{byte_len, char_width, lemma_byte_len_at_least_len, lemma_byte_len_concat, lemma_byte_len_cut,
    lemma_byte_len_prefix, width_of, chars_of};
use crate::shell::keys::KeyInput;
use crate::text::font::{is_thai_combining, is_thai_combining_spec};

verus! {

/// Whether a character is a control character: U+0000 to U+001F and U+007F
/// to U+009F, which a text field never takes as typing.
pub open spec fn is_control_spec(c: char) -> bool {
    let v = c as u32;
    v <= 0x1f || (0x7f <= v <= 0x9f)
}

/// Whether a character is a control character.
pub fn is_control(c: char) -> (result: bool)
    ensures
        result == is_control_spec(c),
{
    let v = c as u32;
    v <= 0x1f || (0x7f <= v && v <= 0x9f)
}

/// Whether `at` is a place a caret may rest: the start, the end, or just
/// before a character that does not combine with the one before it.
pub open spec fn is_boundary(chars: Seq<char>, at: int) -> bool {
    at == 0 || at == chars.len() || (0 < at < chars.len() && !is_thai_combining_spec(chars[at]))
}

/// The start of the cluster containing `at`: back off over combining marks.
pub open spec fn cluster_start_spec(chars: Seq<char>, at: int) -> int
    decreases at,
{
    if at <= 0 {
        0
    } else if at < chars.len() && is_thai_combining_spec(chars[at]) {
        cluster_start_spec(chars, at - 1)
    } else {
        at
    }
}

/// The first position at or after `at` that is not a combining mark.
pub open spec fn skip_marks(chars: Seq<char>, at: int) -> int
    decreases chars.len() - at,
{
    if 0 <= at < chars.len() && is_thai_combining_spec(chars[at]) {
        skip_marks(chars, at + 1)
    } else {
        at
    }
}

/// The end of the cluster starting at `at`: one base plus its marks.
pub open spec fn cluster_end_spec(chars: Seq<char>, at: int) -> int {
    if at >= chars.len() {
        at
    } else {
        skip_marks(chars, at + 1)
    }
}

/// The text and caret (as a character position) after one key.
pub open spec fn after_key(chars: Seq<char>, caret: int, key: KeyInput) -> (Seq<char>, int) {
    match key {
        KeyInput::Character(c) => if !is_control_spec(c) {
            (chars.insert(caret, c), caret + 1)
        } else {
            (chars, caret)
        },
        KeyInput::Backspace => if caret > 0 {
            let start = cluster_start_spec(chars, caret - 1);
            (chars.take(start) + chars.skip(caret), start)
        } else {
            (chars, caret)
        },
        KeyInput::Delete => if caret < chars.len() {
            (chars.take(caret) + chars.skip(cluster_end_spec(chars, caret)), caret)
        } else {
            (chars, caret)
        },
        KeyInput::Left => if caret > 0 {
            (chars, cluster_start_spec(chars, caret - 1))
        } else {
            (chars, caret)
        },
        KeyInput::Right => if caret < chars.len() {
            (chars, cluster_end_spec(chars, caret))
        } else {
            (chars, caret)
        },
        KeyInput::Home => (chars, 0),
        KeyInput::End => (chars, chars.len() as int),
        _ => (chars, caret),
    }
}

/// Whether a key changes the text.
pub open spec fn key_changes(chars: Seq<char>, caret: int, key: KeyInput) -> bool {
    match key {
        KeyInput::Character(c) => !is_control_spec(c),
        KeyInput::Backspace => caret > 0,
        KeyInput::Delete => caret < chars.len(),
        _ => false,
    }
}

/// The text and caret after the first `count` keys, in order.
pub open spec fn after_keys(chars: Seq<char>, caret: int, keys: Seq<KeyInput>, count: int) -> (Seq<char>, int)
    decreases count,
{
    if count <= 0 {
        (chars, caret)
    } else {
        let (c, k) = after_keys(chars, caret, keys, count - 1);
        after_key(c, k, keys[count - 1])
    }
}

/// Whether any of the first `count` keys changed the text.
pub open spec fn keys_change(chars: Seq<char>, caret: int, keys: Seq<KeyInput>, count: int) -> bool
    decreases count,
{
    if count <= 0 {
        false
    } else {
        let (c, k) = after_keys(chars, caret, keys, count - 1);
        keys_change(chars, caret, keys, count - 1) || key_changes(c, k, keys[count - 1])
    }
}

/// An editable line of text, and where the caret sits in it.
#[derive(Debug, Clone)]
pub struct TextFieldState {
    chars: Vec<char>,
    text: String,
    caret: usize,
}

impl TextFieldState {
    /// The characters of the text.
    pub closed spec fn content(&self) -> Seq<char> {
        self.chars@
    }

    /// The caret, as a character position.
    pub closed spec fn cursor(&self) -> int {
        self.caret as int
    }

    /// The text is held twice in step, the caret lies within it, and its
    /// UTF-8 form fits in memory.
    pub closed spec fn wf(&self) -> bool {
        &&& self.text@ == self.chars@
        &&& self.caret <= self.chars@.len()
        &&& byte_len(self.chars@) <= usize::MAX
    }

    /// Bring the string form back in step with the characters.
    fn sync(&mut self)
        ensures
            final(self).chars@ == old(self).chars@,
            final(self).text@ == old(self).chars@,
            final(self).caret == old(self).caret,
    {
        let mut text = String::new();
        let mut i: usize = 0;
        while i < self.chars.len()
            invariant
                i <= self.chars.len(),
                self.chars@ == old(self).chars@,
                self.caret == old(self).caret,
                text@ == self.chars@.take(i as int),
            decreases self.chars.len() - i,
        {
            push_char(&mut text, self.chars[i]);
            assert(self.chars@.take(i + 1) =~= self.chars@.take(i as int).push(self.chars@[i as int]));
            i = i + 1;
        }
        assert(self.chars@.take(self.chars.len() as int) =~= self.chars@);
        self.text = text;
    }

    /// An empty field.
    pub fn new() -> (result: TextFieldState)
        ensures
            result.wf(),
            result.content() == Seq::<char>::empty(),
            result.cursor() == 0,
    {
        TextFieldState { chars: Vec::new(), text: String::new(), caret: 0 }
    }

    /// A field holding `text`, with the caret at its end.
    pub fn with_text(text: &str) -> (result: TextFieldState)
        ensures
            result.wf(),
            result.content() == text@,
            result.cursor() == text@.len(),
    {
        let chars = chars_of(text);
        let count = chars.len();
        let mut field = TextFieldState { chars, text: String::new(), caret: count };
        field.sync();
        field
    }

    /// The text.
    pub fn text(&self) -> (result: &str)
        requires
            self.wf(),
        ensures
            result@ == self.content(),
    {
        self.text.as_str()
    }

    /// The caret, as a byte offset into the text: the UTF-8 length of what
    /// lies before it.
    pub fn caret(&self) -> (result: usize)
        requires
            self.wf(),
        ensures
            result == byte_len(self.content().take(self.cursor())),
    {
        proof {
            lemma_byte_len_cut(self.chars@, self.caret as int, self.caret as int);
        }
        let mut offset: usize = 0;
        let mut i: usize = 0;
        while i < self.caret
            invariant
                self.wf(),
                i <= self.caret,
                offset == byte_len(self.chars@.take(i as int)),
                byte_len(self.chars@.take(self.caret as int)) <= usize::MAX,
            decreases self.caret - i,
        {
            proof {
                lemma_byte_len_prefix(self.chars@, i as int);
                lemma_byte_len_prefix(self.chars@.take(self.caret as int), i as int);
                assert(self.chars@.take(self.caret as int).take(i + 1) =~= self.chars@.take(i + 1));
                assert(self.chars@.take(self.caret as int).take(i as int) =~= self.chars@.take(i as int));
                lemma_byte_len_cut(self.chars@.take(self.caret as int), i + 1, i + 1);
            }
            offset = offset + width_of(self.chars[i]);
            i = i + 1;
        }
        offset
    }

    /// Whether there is no text.
    pub fn is_empty(&self) -> (result: bool)
        ensures
            result == (self.content().len() == 0),
    {
        self.chars.len() == 0
    }

    /// Empty the field.
    pub fn clear(&mut self)
        ensures
            final(self).wf(),
            final(self).content() == Seq::<char>::empty(),
            final(self).cursor() == 0,
    {
        self.chars = Vec::new();
        self.text = String::new();
        self.caret = 0;
    }

    /// Replace the text, with the caret at its end.
    pub fn set_text(&mut self, text: &str)
        ensures
            final(self).wf(),
            final(self).content() == text@,
            final(self).cursor() == text@.len(),
    {
        *self = TextFieldState::with_text(text);
    }

    /// The start of the cluster containing `at`: back off any combining marks.
    fn cluster_start(&self, at: usize) -> (result: usize)
        requires
            self.wf(),
            at < self.chars@.len(),
        ensures
            result == cluster_start_spec(self.chars@, at as int),
    {
        let ghost from = at as int;
        let mut at = at;
        while at > 0 && is_thai_combining(self.chars[at])
            invariant
                self.wf(),
                at < self.chars@.len(),
                cluster_start_spec(self.chars@, at as int) == cluster_start_spec(self.chars@, from),
            decreases at,
        {
            at = at - 1;
        }
        at
    }

    /// The end of the cluster starting at `at`: one base plus its marks.
    fn cluster_end(&self, at: usize) -> (result: usize)
        requires
            self.wf(),
            at < self.chars@.len(),
        ensures
            result == cluster_end_spec(self.chars@, at as int),
    {
        let count = self.chars.len();
        let mut end = at + 1;
        while end < self.chars.len() && is_thai_combining(self.chars[end])
            invariant
                self.wf(),
                at < end <= self.chars@.len(),
                skip_marks(self.chars@, end as int) == skip_marks(self.chars@, at + 1),
            decreases self.chars@.len() - end,
        {
            end = end + 1;
        }
        end
    }

    /// Move the caret back over one whole cluster.
    pub fn move_left(&mut self)
        requires
            old(self).wf(),
        ensures
            final(self).wf(),
            final(self).content() == old(self).content(),
            final(self).cursor() == if old(self).cursor() > 0 {
                cluster_start_spec(old(self).content(), old(self).cursor() - 1)
            } else {
                old(self).cursor()
            },
    {
        if self.caret == 0 {
            return;
        }
        proof {
            lemma_cluster_start_range(self.chars@, self.caret - 1);
        }
        self.caret = self.cluster_start(self.caret - 1);
    }

    /// Move the caret forward over one whole cluster.
    pub fn move_right(&mut self)
        requires
            old(self).wf(),
        ensures
            final(self).wf(),
            final(self).content() == old(self).content(),
            final(self).cursor() == if old(self).cursor() < old(self).content().len() {
                cluster_end_spec(old(self).content(), old(self).cursor())
            } else {
                old(self).cursor()
            },
    {
        if self.caret >= self.chars.len() {
            return;
        }
        proof {
            lemma_skip_marks_range(self.chars@, self.caret + 1);
        }
        self.caret = self.cluster_end(self.caret);
    }

    /// The caret to the start.
    pub fn home(&mut self)
        requires
            old(self).wf(),
        ensures
            final(self).wf(),
            final(self).content() == old(self).content(),
            final(self).cursor() == 0,
    {
        self.caret = 0;
    }

    /// The caret to the end.
    pub fn end(&mut self)
        requires
            old(self).wf(),
        ensures
            final(self).wf(),
            final(self).content() == old(self).content(),
            final(self).cursor() == old(self).content().len(),
    {
        self.caret = self.chars.len();
    }

    /// Type a character at the caret, and move past it.
    pub fn insert(&mut self, character: char)
        requires
            old(self).wf(),
            byte_len(old(self).content()) + char_width(character) <= isize::MAX,
        ensures
            final(self).wf(),
            final(self).content() == old(self).content().insert(old(self).cursor(), character),
            final(self).cursor() == old(self).cursor() + 1,
    {
        proof {
            lemma_byte_len_insert(self.chars@, self.caret as int, character);
            lemma_byte_len_at_least_len(self.chars@);
        }
        self.chars.insert(self.caret, character);
        self.caret = self.caret + 1;
        self.sync();
    }

    /// Delete backwards: the whole cluster, base and marks together.
    pub fn backspace(&mut self)
        requires
            old(self).wf(),
        ensures
            final(self).wf(),
            final(self).content() == if old(self).cursor() > 0 {
                old(self).content().take(cluster_start_spec(old(self).content(), old(self).cursor() - 1))
                    + old(self).content().skip(old(self).cursor())
            } else {
                old(self).content()
            },
            final(self).cursor() == if old(self).cursor() > 0 {
                cluster_start_spec(old(self).content(), old(self).cursor() - 1)
            } else {
                old(self).cursor()
            },
    {
        if self.caret == 0 {
            return;
        }
        proof {
            lemma_cluster_start_range(self.chars@, self.caret - 1);
        }
        let start = self.cluster_start(self.caret - 1);
        proof {
            lemma_byte_len_cut(self.chars@, start as int, self.caret as int);
        }
        self.chars = cut(&self.chars, start, self.caret);
        self.caret = start;
        self.sync();
    }

    /// Delete forwards: likewise a whole cluster.
    pub fn delete(&mut self)
        requires
            old(self).wf(),
        ensures
            final(self).wf(),
            final(self).content() == if old(self).cursor() < old(self).content().len() {
                old(self).content().take(old(self).cursor())
                    + old(self).content().skip(cluster_end_spec(old(self).content(), old(self).cursor()))
            } else {
                old(self).content()
            },
            final(self).cursor() == old(self).cursor(),
    {
        if self.caret >= self.chars.len() {
            return;
        }
        proof {
            lemma_skip_marks_range(self.chars@, self.caret + 1);
        }
        let end = self.cluster_end(self.caret);
        proof {
            lemma_byte_len_cut(self.chars@, self.caret as int, end as int);
        }
        self.chars = cut(&self.chars, self.caret, end);
        self.sync();
    }

    /// Apply a frame's keys in order: printable characters are typed,
    /// backspace and delete remove clusters, the arrows, home and end move
    /// the caret. Returns whether the text changed.
    pub fn apply(&mut self, keys: &[KeyInput]) -> (result: bool)
        requires
            old(self).wf(),
            byte_len(old(self).content()) + 4 * keys@.len() <= isize::MAX,
        ensures
            final(self).wf(),
            (final(self).content(), final(self).cursor())
                == after_keys(old(self).content(), old(self).cursor(), keys@, keys@.len() as int),
            result == keys_change(old(self).content(), old(self).cursor(), keys@, keys@.len() as int),
    {
        let mut changed = false;
        let mut i: usize = 0;
        while i < keys.len()
            invariant
                self.wf(),
                i <= keys.len(),
                byte_len(old(self).content()) + 4 * keys@.len() <= isize::MAX,
                byte_len(self.content()) <= byte_len(old(self).content()) + 4 * i,
                (self.content(), self.cursor()) == after_keys(old(self).content(), old(self).cursor(), keys@, i as int),
                changed == keys_change(old(self).content(), old(self).cursor(), keys@, i as int),
            decreases keys.len() - i,
        {
            let ghost before = self.content();
            let ghost cur = self.cursor();
            match keys[i] {
                KeyInput::Character(c) => {
                    if !is_control(c) {
                        proof {
                            lemma_byte_len_insert(before, self.cursor(), c);
                        }
                        self.insert(c);
                        changed = true;
                    }
                },
                KeyInput::Backspace => {
                    if self.caret > 0 {
                        self.backspace();
                        changed = true;
                        proof {
                            lemma_cluster_start_range(before, cur - 1);
                            lemma_byte_len_cut(before, cluster_start_spec(before, cur - 1), cur);
                        }
                    }
                },
                KeyInput::Delete => {
                    if self.caret < self.chars.len() {
                        self.delete();
                        changed = true;
                        proof {
                            lemma_skip_marks_range(before, cur + 1);
                            lemma_byte_len_cut(before, cur, cluster_end_spec(before, cur));
                        }
                    }
                },
                KeyInput::Left => self.move_left(),
                KeyInput::Right => self.move_right(),
                KeyInput::Home => self.home(),
                KeyInput::End => self.end(),
                _ => {},
            }
            i = i + 1;
        }
        changed
    }

}

/// `chars` with the positions `from..to` taken out.
fn cut(chars: &Vec<char>, from: usize, to: usize) -> (result: Vec<char>)
    requires
        from <= to <= chars@.len(),
    ensures
        result@ == chars@.take(from as int) + chars@.skip(to as int),
{
    let mut result: Vec<char> = Vec::new();
    let mut i: usize = 0;
    while i < from
        invariant
            from <= to <= chars@.len(),
            i <= from,
            result@ == chars@.take(i as int),
        decreases from - i,
    {
        result.push(chars[i]);
        assert(chars@.take(i + 1) =~= chars@.take(i as int).push(chars@[i as int]));
        i = i + 1;
    }
    let mut j: usize = to;
    while j < chars.len()
        invariant
            from <= to <= j <= chars@.len(),
            result@ == chars@.take(from as int) + chars@.subrange(to as int, j as int),
        decreases chars@.len() - j,
    {
        result.push(chars[j]);
        assert(chars@.subrange(to as int, j + 1) =~= chars@.subrange(to as int, j as int).push(chars@[j as int]));
        j = j + 1;
    }
    assert(chars@.subrange(to as int, chars@.len() as int) =~= chars@.skip(to as int));
    result
}

/// Inserting a character adds its bytes.
pub proof fn lemma_byte_len_insert(chars: Seq<char>, at: int, c: char)
    requires
        0 <= at <= chars.len(),
    ensures
        byte_len(chars.insert(at, c)) == byte_len(chars) + char_width(c),
        char_width(c) <= 4,
{
    assert(chars.insert(at, c) =~= chars.take(at) + seq![c] + chars.skip(at));
    assert(chars =~= chars.take(at) + chars.skip(at));
    lemma_byte_len_concat(chars.take(at) + seq![c], chars.skip(at));
    lemma_byte_len_concat(chars.take(at), seq![c]);
    lemma_byte_len_concat(chars.take(at), chars.skip(at));
    assert(seq![c].drop_last() =~= Seq::<char>::empty());
    assert(byte_len(Seq::<char>::empty()) == 0);
    assert(byte_len(seq![c]) == byte_len(seq![c].drop_last()) + char_width(seq![c].last()));
}

/// Backing off over marks stays within the text and never moves forward.
pub proof fn lemma_cluster_start_range(chars: Seq<char>, at: int)
    requires
        0 <= at < chars.len(),
    ensures
        0 <= cluster_start_spec(chars, at) <= at,
    decreases at,
{
    if at > 0 && is_thai_combining_spec(chars[at]) {
        lemma_cluster_start_range(chars, at - 1);
    }
}

/// Skipping marks stays within the text and never moves back.
pub proof fn lemma_skip_marks_range(chars: Seq<char>, at: int)
    requires
        0 <= at <= chars.len(),
    ensures
        at <= skip_marks(chars, at) <= chars.len(),
    decreases chars.len() - at,
{
    if at < chars.len() && is_thai_combining_spec(chars[at]) {
        lemma_skip_marks_range(chars, at + 1);
    }
}

/// Moving left lands on the nearest boundary before the caret, skipping none.
pub proof fn lemma_left_is_previous_boundary(chars: Seq<char>, caret: int)
    requires
        0 < caret <= chars.len(),
    ensures
        cluster_start_spec(chars, caret - 1) < caret,
        is_boundary(chars, cluster_start_spec(chars, caret - 1)),
        forall|j: int| cluster_start_spec(chars, caret - 1) < j < caret ==> !is_boundary(chars, j),
    decreases caret,
{
    let at = caret - 1;
    if at > 0 && at < chars.len() && is_thai_combining_spec(chars[at]) {
        lemma_left_is_previous_boundary(chars, caret - 1);
    }
}

/// Moving right lands on the nearest boundary after the caret, skipping none.
pub proof fn lemma_right_is_next_boundary(chars: Seq<char>, caret: int)
    requires
        0 <= caret < chars.len(),
    ensures
        caret < cluster_end_spec(chars, caret) <= chars.len(),
        is_boundary(chars, cluster_end_spec(chars, caret)),
        forall|j: int| caret < j < cluster_end_spec(chars, caret) ==> !is_boundary(chars, j),
{
    lemma_skip_marks_next(chars, caret + 1);
}

/// Skipping marks from `at` stops at the first boundary at or after it.
proof fn lemma_skip_marks_next(chars: Seq<char>, at: int)
    requires
        0 < at <= chars.len(),
    ensures
        at <= skip_marks(chars, at) <= chars.len(),
        is_boundary(chars, skip_marks(chars, at)),
        forall|j: int| at <= j < skip_marks(chars, at) ==> !is_boundary(chars, j),
    decreases chars.len() - at,
{
    if at < chars.len() && is_thai_combining_spec(chars[at]) {
        lemma_skip_marks_next(chars, at + 1);
    }
}

/// Backspacing from a boundary leaves the caret on a boundary of what
/// remains, and leaves no mark stranded at the start of the text.
pub proof fn lemma_backspace_keeps_boundaries(chars: Seq<char>, caret: int)
    requires
        0 < caret <= chars.len(),
        is_boundary(chars, caret),
    ensures
        ({
            let start = cluster_start_spec(chars, caret - 1);
            let rest = chars.take(start) + chars.skip(caret);
            &&& is_boundary(rest, start)
            &&& (chars.len() > 0 && !is_thai_combining_spec(chars[0]) && rest.len() > 0)
                ==> !is_thai_combining_spec(rest[0])
        }),
{
    lemma_left_is_previous_boundary(chars, caret);
    lemma_cluster_start_range(chars, caret - 1);
    let start = cluster_start_spec(chars, caret - 1);
    let rest = chars.take(start) + chars.skip(caret);
    if start < rest.len() {
        assert(rest[start] == chars[caret]);
    }
    if start > 0 && rest.len() > 0 {
        assert(rest[0] == chars[0]);
    }
    if start == 0 && rest.len() > 0 {
        assert(rest[0] == chars[caret]);
    }
}

/// Deleting forwards from a boundary leaves the caret on a boundary of what
/// remains.
pub proof fn lemma_delete_keeps_boundaries(chars: Seq<char>, caret: int)
    requires
        0 <= caret < chars.len(),
        is_boundary(chars, caret),
    ensures
        is_boundary(chars.take(caret) + chars.skip(cluster_end_spec(chars, caret)), caret),
{
    lemma_right_is_next_boundary(chars, caret);
    let end = cluster_end_spec(chars, caret);
    let rest = chars.take(caret) + chars.skip(end);
    if caret < rest.len() {
        assert(rest[caret] == chars[end]);
    }
}

} // verus!
