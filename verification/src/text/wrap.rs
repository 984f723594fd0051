//! Where a line of text may break.
//!
//! Thai is written without spaces between words, so proper line breaking
//! needs a dictionary. Until one exists a line breaks anywhere, under two
//! rules that keep the result readable rather than wrong:
//!
//! 1. **Prefer a space if the line has one.** Thai mixed with numbers,
//!    English or punctuation usually does, and a space is always a
//!    legitimate break; the space stays at the end of its line.
//! 2. **Never break before a combining mark.** A tone mark separated from its
//!    consonant lands on whatever starts the next line, which changes the
//!    word. The break walks back off any marks; only if that would leave the
//!    line empty does it fall back to where the line overflowed.

use vstd::prelude::*;
use crate::text::font::{is_thai_combining, is_thai_combining_spec};
use crate::text::utf8::{byte_len, char_width, chars_of, lemma_byte_len_prefix, width_of};

verus! {

/// Whether byte offset `b` falls between two characters of `chars` (or at
/// either end).
pub open spec fn is_boundary(chars: Seq<char>, b: int) -> bool {
    exists|i: int| 0 <= i <= chars.len() && #[trigger] byte_len(chars.take(i)) == b
}

/// The first character index from `i` on whose starting byte is at or past
/// `b` (the length if there is none).
pub open spec fn index_at(chars: Seq<char>, b: int, i: int) -> int
    decreases chars.len() - i,
{
    if i >= chars.len() || byte_len(chars.take(i)) >= b {
        i
    } else {
        index_at(chars, b, i + 1)
    }
}

/// Whether a combining mark starts at character `i`.
pub open spec fn mark_at(chars: Seq<char>, i: int) -> bool {
    0 <= i < chars.len() && is_thai_combining_spec(chars[i])
}

/// Step back from character `i` while a combining mark starts there and the
/// line (which starts at byte `start`) would not be left empty.
pub open spec fn walk_back(chars: Seq<char>, start: int, i: int) -> int
    decreases i,
{
    if i > 0 && byte_len(chars.take(i)) > start && mark_at(chars, i) {
        walk_back(chars, start, i - 1)
    } else {
        i
    }
}

/// Where a line that starts at byte `line_start` and overflows at the
/// cluster starting at byte `offset` breaks, given the last space seen on it.
pub open spec fn break_spec(chars: Seq<char>, line_start: int, offset: int, last_space: Option<usize>) -> int {
    let first = match last_space {
        Some(space) if space > line_start => index_at(chars, space + 1, 0),
        _ => index_at(chars, offset, 0),
    };
    let split = byte_len(chars.take(walk_back(chars, line_start, first)));
    if split <= line_start { offset } else { split }
}

/// Byte lengths of prefixes grow strictly with the prefix.
proof fn lemma_prefix_increasing(chars: Seq<char>, i: int, j: int)
    requires
        0 <= i < j <= chars.len(),
    ensures
        byte_len(chars.take(i)) < byte_len(chars.take(j)),
    decreases j - i,
{
    lemma_byte_len_prefix(chars, j - 1);
    if i < j - 1 {
        lemma_prefix_increasing(chars, i, j - 1);
    }
}

/// Searching for a boundary finds its character index.
proof fn lemma_index_at(chars: Seq<char>, b: int, i: int, k: int)
    requires
        0 <= i <= k <= chars.len(),
        byte_len(chars.take(k)) == b,
    ensures
        index_at(chars, b, i) == k,
    decreases chars.len() - i,
{
    if i < k {
        lemma_prefix_increasing(chars, i, k);
        lemma_index_at(chars, b, i + 1, k);
    }
}

/// Where to break a line that starts at byte `line_start` of `text` and
/// overflows at the cluster starting at byte `offset`; `last_space` is the
/// byte offset of the last space seen on the line, if any. The result is a
/// character boundary after `line_start`, and unless it falls back to
/// `offset`, no combining mark starts there.
pub fn break_at(text: &str, line_start: usize, offset: usize, last_space: Option<usize>) -> (result: usize)
    requires
        is_boundary(text@, line_start as int),
        is_boundary(text@, offset as int),
        line_start < offset,
        last_space matches Some(space) ==> is_boundary(text@, space + 1),
    ensures
        result == break_spec(text@, line_start as int, offset as int, last_space),
        line_start < result,
        is_boundary(text@, result as int),
        result == offset || !mark_at(text@, index_at(text@, result as int, 0)),
{
    let chars = chars_of(text);
    let ghost cs = text@;
    // The starting byte of each character, and the end.
    let mut starts: Vec<usize> = Vec::new();
    let mut at: usize = 0;
    let mut i: usize = 0;
    while i < chars.len()
        invariant
            chars@ == cs,
            byte_len(cs) <= usize::MAX,
            i <= cs.len(),
            at == byte_len(cs.take(i as int)),
            starts@.len() == i,
            forall|k: int| 0 <= k < i ==> #[trigger] starts@[k] == byte_len(cs.take(k)),
        decreases cs.len() - i,
    {
        proof {
            lemma_byte_len_prefix(cs, i as int);
            assert(cs.take(cs.len() as int) =~= cs);
            if i + 1 < cs.len() {
                lemma_prefix_increasing(cs, i as int + 1, cs.len() as int);
            }
        }
        starts.push(at);
        at = at + width_of(chars[i]);
        i = i + 1;
    }
    proof {
        assert(cs.take(cs.len() as int) =~= cs);
    }
    starts.push(at);
    let n = chars.len();
    proof {
        // A space's successor is no further than the end of the text.
        if let Some(space) = last_space {
            let k = choose|k: int| 0 <= k <= cs.len() && #[trigger] byte_len(cs.take(k)) == space + 1;
            if k < cs.len() {
                lemma_prefix_increasing(cs, k, cs.len() as int);
            }
        }
    }
    // Character index of the first candidate.
    let target: usize = match last_space {
        Some(space) if space > line_start => space + 1,
        _ => offset,
    };
    let ghost k_target = choose|k: int| 0 <= k <= cs.len() && #[trigger] byte_len(cs.take(k)) == target;
    let mut index: usize = 0;
    while index < n && starts[index] < target
        invariant
            chars@ == cs,
            n == cs.len(),
            starts@.len() == n + 1,
            forall|k: int| 0 <= k <= n ==> #[trigger] starts@[k] == byte_len(cs.take(k)),
            0 <= k_target <= n,
            byte_len(cs.take(k_target)) == target,
            index <= k_target,
            index_at(cs, target as int, 0) == index_at(cs, target as int, index as int),
        decreases n - index,
    {
        proof {
            if index == k_target {
                assert(starts@[index as int] == target);
            }
        }
        index = index + 1;
    }
    proof {
        lemma_index_at(cs, target as int, 0, k_target);
        if index < n && index < k_target {
            lemma_prefix_increasing(cs, index as int, k_target);
        }
        assert(index == k_target);
    }
    // Walk back off combining marks.
    let ghost first = index as int;
    while index > 0 && starts[index] > line_start && index < n && is_thai_combining(chars[index])
        invariant
            chars@ == cs,
            n == cs.len(),
            starts@.len() == n + 1,
            forall|k: int| 0 <= k <= n ==> #[trigger] starts@[k] == byte_len(cs.take(k)),
            index <= n,
            walk_back(cs, line_start as int, first) == walk_back(cs, line_start as int, index as int),
        decreases index,
    {
        index = index - 1;
    }
    let split = starts[index];
    proof {
        assert(walk_back(cs, line_start as int, first) == index);
    }
    if split <= line_start {
        proof {
            let k = choose|k: int| 0 <= k <= cs.len() && #[trigger] byte_len(cs.take(k)) == offset;
            assert(byte_len(cs.take(k)) == offset);
        }
        offset
    } else {
        proof {
            assert(byte_len(cs.take(index as int)) == split);
            lemma_index_at(cs, split as int, 0, index as int);
        }
        split
    }
}

} // verus!
