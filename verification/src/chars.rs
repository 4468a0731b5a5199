//! Character classification and case folding for the tokenizer.
//!
//! Whitespace detection and ASCII upper-casing are implemented and verified
//! here against their exact definitions. The Unicode `numeric` and
//! `alphabetic` classes are decided by the standard library; their results
//! are given names that the tokenizer's contracts speak of.
use vstd::prelude::*;

verus! {

/// The Unicode `White_Space` property, written out over its code points.
/// This is the class of characters the tokenizer skips between tokens.
pub open spec fn is_whitespace_char(c: char) -> bool {
    let u = c as u32;
    (9 <= u && u <= 13) || u == 32 || u == 0x85 || u == 0xA0 || u == 0x1680 || (0x2000 <= u
        && u <= 0x200A) || u == 0x2028 || u == 0x2029 || u == 0x202F || u == 0x205F || u == 0x3000
}

/// Whether `char::is_numeric` holds of `c` (Unicode categories Nd, Nl, No).
pub uninterp spec fn is_numeric_char(c: char) -> bool;

/// Whether `char::is_alphabetic` holds of `c` (the Unicode `Alphabetic` property).
pub uninterp spec fn is_alphabetic_char(c: char) -> bool;

/// Decides the `White_Space` property directly over the code point.
pub fn whitespace(c: char) -> (r: bool)
    ensures
        r == is_whitespace_char(c),
{
    let u = c as u32;
    (9 <= u && u <= 13) || u == 32 || u == 0x85 || u == 0xA0 || u == 0x1680 || (0x2000 <= u
        && u <= 0x200A) || u == 0x2028 || u == 0x2029 || u == 0x202F || u == 0x205F || u == 0x3000
}

/// Relies on `char::is_numeric`: true exactly for the Unicode categories
/// Nd, Nl and No, none of which contains a `White_Space` character.
#[verifier::external_body]
pub fn numeric(c: char) -> (r: bool)
    ensures
        r == is_numeric_char(c),
        r ==> !is_whitespace_char(c),
{
    c.is_numeric()
}

/// Relies on `char::is_alphabetic`: true exactly for the Unicode
/// `Alphabetic` property, which holds of no `White_Space` character.
#[verifier::external_body]
pub fn alphabetic(c: char) -> (r: bool)
    ensures
        r == is_alphabetic_char(c),
        r ==> !is_whitespace_char(c),
{
    c.is_alphabetic()
}

/// Relies on `char::is_alphanumeric`: documented as the union of
/// `char::is_alphabetic` and `char::is_numeric`.
#[verifier::external_body]
pub fn alphanumeric(c: char) -> (r: bool)
    ensures
        r == (is_alphabetic_char(c) || is_numeric_char(c)),
        r ==> !is_whitespace_char(c),
{
    c.is_alphanumeric()
}

/// ASCII upper-casing: the letters `a` to `z` map to `A` to `Z`,
/// every other character is unchanged.
pub open spec fn to_upper_char(c: char) -> char {
    if 'a' <= c && c <= 'z' {
        (c as u8 - 32) as char
    } else {
        c
    }
}

/// Folds one character to upper case as `to_upper_char` describes.
pub fn upper(c: char) -> (r: char)
    ensures
        r == to_upper_char(c),
{
    if 'a' <= c && c <= 'z' {
        (c as u8 - 32) as char
    } else {
        c
    }
}

} // verus!
