//! UTF-8 lengths of characters and runs of characters.

use vstd::prelude::*;
use vstd::utf8::encode_utf8;

verus! {

/// How many bytes a character takes in UTF-8.
pub open spec fn char_width(c: char) -> int {
    let v = c as u32;
    if v <= 0x7f {
        1
    } else if v <= 0x7ff {
        2
    } else if v <= 0xffff {
        3
    } else {
        4
    }
}

/// How many bytes a run of characters takes in UTF-8.
pub open spec fn byte_len(chars: Seq<char>) -> int
    decreases chars.len(),
{
    if chars.len() == 0 {
        0
    } else {
        byte_len(chars.drop_last()) + char_width(chars.last())
    }
}

/// Byte lengths add up across a join.
pub proof fn lemma_byte_len_concat(a: Seq<char>, b: Seq<char>)
    ensures
        byte_len(a + b) == byte_len(a) + byte_len(b),
    decreases b.len(),
{
    if b.len() > 0 {
        lemma_byte_len_concat(a, b.drop_last());
        assert((a + b).drop_last() =~= a + b.drop_last());
    }
}

/// No run of characters takes a negative number of bytes.
pub proof fn lemma_byte_len_nonneg(chars: Seq<char>)
    ensures
        byte_len(chars) >= 0,
    decreases chars.len(),
{
    if chars.len() > 0 {
        lemma_byte_len_nonneg(chars.drop_last());
    }
}

/// Every character takes at least one byte.
pub proof fn lemma_byte_len_at_least_len(chars: Seq<char>)
    ensures
        byte_len(chars) >= chars.len(),
    decreases chars.len(),
{
    if chars.len() > 0 {
        lemma_byte_len_at_least_len(chars.drop_last());
    }
}

/// A prefix one character longer takes that character's bytes more.
pub proof fn lemma_byte_len_prefix(chars: Seq<char>, i: int)
    requires
        0 <= i < chars.len(),
    ensures
        byte_len(chars.take(i + 1)) == byte_len(chars.take(i)) + char_width(chars[i]),
{
    assert(chars.take(i + 1).drop_last() =~= chars.take(i));
}

/// A slice of a run never takes more bytes than the run itself.
pub proof fn lemma_byte_len_cut(chars: Seq<char>, a: int, b: int)
    requires
        0 <= a <= b <= chars.len(),
    ensures
        byte_len(chars.take(a)) + byte_len(chars.skip(b)) <= byte_len(chars),
        byte_len(chars.take(a) + chars.skip(b)) <= byte_len(chars),
        byte_len(chars.take(a)) <= byte_len(chars),
{
    lemma_byte_len_concat(chars.take(a), chars.skip(b));
    assert(chars =~= chars.take(a) + chars.subrange(a, b) + chars.skip(b));
    lemma_byte_len_concat(chars.take(a) + chars.subrange(a, b), chars.skip(b));
    lemma_byte_len_concat(chars.take(a), chars.subrange(a, b));
    lemma_byte_len_nonneg(chars.subrange(a, b));
    lemma_byte_len_nonneg(chars.skip(b));
}

/// The byte length is the length of the UTF-8 encoding.
pub proof fn lemma_byte_len_encoding(chars: Seq<char>)
    ensures
        encode_utf8(chars).len() == byte_len(chars),
    decreases chars.len(),
{
    if chars.len() > 0 {
        lemma_byte_len_encoding(chars.drop_first());
        assert(chars =~= seq![chars[0]] + chars.drop_first());
        lemma_byte_len_concat(seq![chars[0]], chars.drop_first());
        let c = chars[0];
        assert(seq![c].drop_last() =~= Seq::<char>::empty());
        assert(seq![c].last() == c);
        assert(byte_len(Seq::<char>::empty()) == 0);
        assert(byte_len(seq![c]) == byte_len(seq![c].drop_last()) + char_width(seq![c].last()));
        assert(byte_len(seq![c]) == char_width(c));
        vstd::utf8::char_is_scalar(c);
        assert(vstd::utf8::encode_scalar(c as u32).len() == char_width(c));
        assert(encode_utf8(chars) == vstd::utf8::encode_scalar(c as u32) + encode_utf8(chars.drop_first()));
    }
}

/// How many bytes a character takes in UTF-8.
pub fn width_of(c: char) -> (result: usize)
    ensures
        result == char_width(c),
{
    let v = c as u32;
    if v <= 0x7f {
        1
    } else if v <= 0x7ff {
        2
    } else if v <= 0xffff {
        3
    } else {
        4
    }
}

/// The characters of `text`, and their UTF-8 length.
pub fn chars_of(text: &str) -> (result: Vec<char>)
    ensures
        result@ == text@,
        byte_len(text@) <= usize::MAX,
{
    let bytes = text.as_bytes();
    let _count = bytes.len();
    proof {
        lemma_byte_len_encoding(text@);
    }
    let mut chars: Vec<char> = Vec::new();
    for c in it: text.chars()
        invariant
            chars@ == it.seq().take(it.index() as int),
    {
        chars.push(c);
    }
    assert(chars@ == text@);
    chars
}

} // verus!
