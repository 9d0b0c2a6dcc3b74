//! Characters and texts: what a number literal is made of.

use vstd::prelude::*;

verus! {

/// Whether `c` is one of the ten decimal digits.
pub open spec fn is_digit(c: char) -> bool {
    '0' <= c && c <= '9'
}

/// Whether `c` can stand inside a number literal.
pub open spec fn in_literal(c: char) -> bool {
    is_digit(c) || c == '.'
}

/// Whether `text` is a plain number literal: it starts with a digit, holds
/// digits and at most one decimal point, and nothing else.
pub open spec fn is_literal(text: Seq<char>) -> bool {
    &&& text.len() > 0
    &&& is_digit(text[0])
    &&& forall|i: int| 0 <= i < text.len() ==> in_literal(#[trigger] text[i])
    &&& forall|i: int, j: int|
        #![trigger text[i], text[j]]
        0 <= i < j < text.len() ==> !(text[i] == '.' && text[j] == '.')
}

/// Appends one character to a text.
///
/// Trusted: calls `String::push`, which puts `c` at the end of the string
/// and leaves the characters before it as they were.
#[verifier::external_body]
pub(crate) fn push_char(text: &mut String, c: char)
    ensures
        final(text)@ == old(text)@.push(c),
{
    text.push(c)
}

} // verus!
