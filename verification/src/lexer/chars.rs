//! Character classes that the lexer tells apart.

use vstd::prelude::*;

verus! {

/// What `char::is_numeric` returns for a character outside ASCII: whether
/// the character has one of Unicode's general categories for numbers, as
/// the tables of the standard library have it.
pub uninterp spec fn unicode_numeric(c: char) -> bool;

/// What `char::is_alphabetic` returns for a character outside ASCII:
/// whether the character has Unicode's `Alphabetic` property, as the tables
/// of the standard library have it.
pub uninterp spec fn unicode_alphabetic(c: char) -> bool;

/// A digit `0` to `9`.
pub open spec fn ascii_digit(c: char) -> bool {
    48 <= (c as u32) <= 57
}

/// A letter `a` to `z` or `A` to `Z`.
pub open spec fn ascii_letter(c: char) -> bool {
    65 <= (c as u32) <= 90 || 97 <= (c as u32) <= 122
}

/// A numeric character: within ASCII the ten digits, beyond it what Unicode
/// counts as a number.
pub open spec fn numeric(c: char) -> bool {
    if (c as u32) < 128 {
        ascii_digit(c)
    } else {
        unicode_numeric(c)
    }
}

/// An alphabetic character: within ASCII the letters, beyond it what Unicode
/// counts as alphabetic.
pub open spec fn alphabetic(c: char) -> bool {
    if (c as u32) < 128 {
        ascii_letter(c)
    } else {
        unicode_alphabetic(c)
    }
}

/// An alphabetic or numeric character.
pub open spec fn alphanumeric(c: char) -> bool {
    alphabetic(c) || numeric(c)
}

/// `char::is_numeric` tells whether the character has one of Unicode's
/// general categories for numbers.  Within ASCII these are the ten digits;
/// beyond it the result is taken on trust, under the name
/// [`unicode_numeric`].
pub assume_specification[ char::is_numeric ](c: char) -> (r: bool)
    ensures
        r == numeric(c),
        (c as u32) >= 128 ==> r == unicode_numeric(c),
;

/// `char::is_alphabetic` tells whether the character has Unicode's
/// `Alphabetic` property.  Within ASCII these are the letters `a` to `z`
/// and `A` to `Z`; beyond it the result is taken on trust, under the name
/// [`unicode_alphabetic`].
pub assume_specification[ char::is_alphabetic ](c: char) -> (r: bool)
    ensures
        r == alphabetic(c),
        (c as u32) >= 128 ==> r == unicode_alphabetic(c),
;

/// `char::is_alphanumeric` holds of exactly the characters of which
/// `char::is_alphabetic` or `char::is_numeric` holds.
pub assume_specification[ char::is_alphanumeric ](c: char) -> (r: bool)
    ensures
        r == alphanumeric(c),
;

} // verus!
