//! Text as a sequence of characters: the conversions between the strings that
//! callers hand over and the indexable form that the compiler and the matcher
//! walk.

use vstd::prelude::*;

verus! {

/// The characters of `s`, in order.
pub(crate) fn to_chars(s: &str) -> (chars: Vec<char>)
    ensures
        chars@ == s@,
{
    let mut chars: Vec<char> = Vec::new();
    for c in it: s.chars()
        invariant
            it.seq() == s@,
            chars@ == s@.take(it.index() as int),
    {
        chars.push(c);
    }
    chars
}

/// The character of `text` at index `i`.
pub(crate) fn char_at(text: &[char], i: usize) -> (c: char)
    requires
        i < text.len(),
    ensures
        c == text@[i as int],
{
    text[i]
}

/// Appends `c` to `s`.
///
/// Calls `String::push`, which Verus has no specification for. Trusted: the
/// string afterwards holds the characters it held before, followed by `c`.
#[verifier::external_body]
pub(crate) fn push_char(s: &mut String, c: char)
    ensures
        final(s)@ == old(s)@.push(c),
{
    s.push(c)
}

/// The part of `text` from `from` up to, not including, `to`; empty where the
/// two do not mark a range inside `text`.
pub open spec fn span(text: Seq<char>, from: int, to: int) -> Seq<char> {
    if 0 <= from <= to <= text.len() {
        text.subrange(from, to)
    } else {
        Seq::empty()
    }
}

/// The texts that a vector of strings holds.
pub open spec fn texts(strings: Seq<String>) -> Seq<Seq<char>> {
    Seq::new(strings.len(), |i: int| strings[i]@)
}

} // verus!
