//! ASCII byte classification used by the escaping and wrapping engines.

use vstd::prelude::*;

verus! {

/// Whitespace bytes in the C locale sense: space, tab, LF, VT, FF, CR.
pub open spec fn is_space_b(c: u8) -> bool {
    c == 32 || c == 9 || c == 10 || c == 11 || c == 12 || c == 13
}

/// ASCII decimal digit.
pub open spec fn is_digit_b(c: u8) -> bool {
    48 <= c && c <= 57
}

/// ASCII letter.
pub open spec fn is_alpha_b(c: u8) -> bool {
    (65 <= c && c <= 90) || (97 <= c && c <= 122)
}

pub fn is_space(c: u8) -> (r: bool)
    ensures
        r == is_space_b(c),
{
    c == 32 || c == 9 || c == 10 || c == 11 || c == 12 || c == 13
}

pub fn is_digit(c: u8) -> (r: bool)
    ensures
        r == is_digit_b(c),
{
    48 <= c && c <= 57
}

pub fn is_alpha(c: u8) -> (r: bool)
    ensures
        r == is_alpha_b(c),
{
    (65 <= c && c <= 90) || (97 <= c && c <= 122)
}

} // verus!
