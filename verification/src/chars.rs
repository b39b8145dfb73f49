//! The character classes that the tokenizer tells apart.

use vstd::prelude::*;

verus! {

/// The one character that separates the words of a source text.
pub const SPACE: char = ' ';

/// The character that opens and closes a string literal.
pub const QUOTE: char = '"';

/// `0` to `9`.
#[verifier::allow_in_spec]
pub fn is_ascii_digit(c: char) -> bool
    returns
        '0' <= c && c <= '9',
{
    '0' <= c && c <= '9'
}

/// `a` to `z`.
#[verifier::allow_in_spec]
pub fn is_ascii_lowercase(c: char) -> bool
    returns
        'a' <= c && c <= 'z',
{
    'a' <= c && c <= 'z'
}

/// `A` to `Z`.
#[verifier::allow_in_spec]
pub fn is_ascii_uppercase(c: char) -> bool
    returns
        'A' <= c && c <= 'Z',
{
    'A' <= c && c <= 'Z'
}

/// White space, as Unicode's `White_Space` lists it: the ASCII controls from
/// tab to carriage return, the space, and the 19 separators beyond ASCII.
#[verifier::allow_in_spec]
pub fn is_whitespace(c: char) -> bool
    returns
        ('\u{9}' <= c && c <= '\u{D}') || c == ' ' || c == '\u{85}' || c == '\u{A0}' || c
            == '\u{1680}' || ('\u{2000}' <= c && c <= '\u{200A}') || c == '\u{2028}' || c
            == '\u{2029}' || c == '\u{202F}' || c == '\u{205F}' || c == '\u{3000}',
{
    ('\u{9}' <= c && c <= '\u{D}') || c == ' ' || c == '\u{85}' || c == '\u{A0}' || c
        == '\u{1680}' || ('\u{2000}' <= c && c <= '\u{200A}') || c == '\u{2028}' || c
        == '\u{2029}' || c == '\u{202F}' || c == '\u{205F}' || c == '\u{3000}'
}

} // verus!
