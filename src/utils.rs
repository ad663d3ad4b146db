use vstd::prelude::*;

verus! {

/// Whether `c` has the Unicode `White_Space` property.
pub uninterp spec fn unicode_white_space(c: char) -> bool;

/// Relies on `char::is_whitespace`: the answer depends on the character alone.
#[verifier::external_body]
fn char_is_whitespace(c: char) -> (r: bool)
    ensures
        r == unicode_white_space(c),
{
    c.is_whitespace()
}

/// A separator between tokens: white space or a comma.
pub open spec fn separator(c: char) -> bool {
    unicode_white_space(c) || c == ','
}

/// A decimal digit `0` to `9`.
pub open spec fn decimal_digit(c: char) -> bool {
    '0' <= c && c <= '9'
}

/// A character that can begin or continue a number: a sign, a point or a digit.
pub open spec fn number_part(c: char) -> bool {
    c == '+' || c == '-' || c == '.' || decimal_digit(c)
}

pub fn is_separator(ch: char) -> (r: bool)
    ensures
        r == separator(ch),
{
    ch == ',' || char_is_whitespace(ch)
}

pub fn is_digit(ch: char) -> (r: bool)
    ensures
        r == decimal_digit(ch),
{
    '0' <= ch && ch <= '9'
}

pub fn is_number_part(ch: char) -> (r: bool)
    ensures
        r == number_part(ch),
{
    ch == '+' || ch == '-' || ch == '.' || is_digit(ch)
}

} // verus!
