//! Character classification: the Unicode classes the identifier recognizer
//! uses, and the ASCII digits of integer literals.

use vstd::prelude::*;

verus! {

/// What `char::is_alphabetic` returns: whether the character has the Unicode
/// `Alphabetic` property. A function of the character alone.
pub uninterp spec fn alphabetic(c: char) -> bool;

/// What `char::is_alphanumeric` returns: whether the character is alphabetic
/// or in one of the Unicode number categories. A function of the character
/// alone.
pub uninterp spec fn alphanumeric(c: char) -> bool;

/// Relies on `char::is_alphabetic`: the Unicode `Alphabetic` property,
/// depending on the character alone.
#[verifier::external_body]
pub fn char_is_alphabetic(c: char) -> (r: bool)
    ensures
        r == alphabetic(c),
{
    c.is_alphabetic()
}

/// Relies on `char::is_alphanumeric`: alphabetic or numeric per Unicode,
/// depending on the character alone.
#[verifier::external_body]
pub fn char_is_alphanumeric(c: char) -> (r: bool)
    ensures
        r == alphanumeric(c),
{
    c.is_alphanumeric()
}

/// An ASCII decimal digit, `'0'` through `'9'`.
pub open spec fn decimal_digit(c: char) -> bool {
    '0' as int <= c as int && c as int <= '9' as int
}

/// The numeric value of an ASCII decimal digit.
pub open spec fn decimal_digit_val(c: char) -> int {
    c as int - '0' as int
}

/// Tests whether a character is an ASCII decimal digit.
pub fn char_is_decimal_digit(c: char) -> (r: bool)
    ensures
        r == decimal_digit(c),
{
    let u = c as u32;
    '0' as u32 <= u && u <= '9' as u32
}

} // verus!
