//! Byte-length measure of character sequences.
//!
//! Positions and ranges in this crate are byte offsets into the UTF-8
//! encoding of the text. This module defines that measure over `Seq<char>`
//! and ties it to vstd's `encode_utf8`, so that a cursor's byte position
//! agrees with the length of the actual encoded prefix.

use vstd::prelude::*;

verus! {

/// Number of bytes in the UTF-8 encoding of one character.
pub open spec fn utf8_width(c: char) -> nat {
    if (c as u32) < 0x80 {
        1
    } else if (c as u32) < 0x800 {
        2
    } else if (c as u32) < 0x10000 {
        3
    } else {
        4
    }
}

/// Number of bytes in the UTF-8 encoding of a character sequence.
pub open spec fn byte_len(s: Seq<char>) -> nat
    decreases s.len(),
{
    if s.len() == 0 {
        0
    } else {
        utf8_width(s[0]) + byte_len(s.drop_first())
    }
}

/// `byte_len` is the length of vstd's UTF-8 encoding of the sequence.
pub proof fn lemma_byte_len_encodes(s: Seq<char>)
    ensures
        byte_len(s) == vstd::utf8::encode_utf8(s).len(),
    decreases s.len(),
{
    if s.len() == 0 {
    } else {
        vstd::utf8::char_is_scalar(s[0]);
        assert(vstd::utf8::encode_scalar(s[0] as u32).len() == utf8_width(s[0]));
        lemma_byte_len_encodes(s.drop_first());
    }
}

/// The measure is additive over concatenation.
pub proof fn lemma_byte_len_concat(a: Seq<char>, b: Seq<char>)
    ensures
        byte_len(a + b) == byte_len(a) + byte_len(b),
    decreases a.len(),
{
    if a.len() == 0 {
        assert(a + b =~= b);
    } else {
        assert((a + b).drop_first() =~= a.drop_first() + b);
        lemma_byte_len_concat(a.drop_first(), b);
    }
}

/// Splitting a window of `s` at an interior index splits its measure.
pub proof fn lemma_byte_len_split(s: Seq<char>, a: int, b: int, c: int)
    requires
        0 <= a <= b <= c <= s.len(),
    ensures
        byte_len(s.subrange(a, c)) == byte_len(s.subrange(a, b)) + byte_len(s.subrange(b, c)),
{
    assert(s.subrange(a, c) =~= s.subrange(a, b) + s.subrange(b, c));
    lemma_byte_len_concat(s.subrange(a, b), s.subrange(b, c));
}

} // verus!
