//! Character classes and ASCII case mapping, as the standard library decides them.
use vstd::prelude::*;

verus! {

/// Whether `c`, a character beyond ASCII, has the Unicode `White_Space` property.
pub uninterp spec fn white_space_beyond_ascii(c: char) -> bool;

/// Whether `c`, a character beyond ASCII, is in one of the Unicode general
/// categories for numbers.
pub uninterp spec fn numeric_beyond_ascii(c: char) -> bool;

/// Whether `c`, a character beyond ASCII, has the Unicode `Alphabetic` property.
pub uninterp spec fn alphabetic_beyond_ascii(c: char) -> bool;

/// Whether `c` is an ASCII character.
pub open spec fn ascii(c: char) -> bool {
    c <= '\u{7f}'
}

/// Whether `c` has the Unicode `White_Space` property. In ASCII these are the space
/// and the five control characters from the horizontal tab to the carriage return.
pub open spec fn white_space(c: char) -> bool {
    if ascii(c) {
        c == ' ' || ('\u{9}' <= c && c <= '\u{d}')
    } else {
        white_space_beyond_ascii(c)
    }
}

/// Whether `c` is in one of the Unicode general categories for numbers. In ASCII
/// these are the ten digits.
pub open spec fn numeric(c: char) -> bool {
    if ascii(c) {
        '0' <= c && c <= '9'
    } else {
        numeric_beyond_ascii(c)
    }
}

/// Whether `c` has the Unicode `Alphabetic` property. In ASCII these are the
/// letters `a` to `z` and `A` to `Z`.
pub open spec fn alphabetic(c: char) -> bool {
    if ascii(c) {
        ('a' <= c && c <= 'z') || ('A' <= c && c <= 'Z')
    } else {
        alphabetic_beyond_ascii(c)
    }
}

/// A character that may continue a word: a letter or a number.
pub open spec fn alphanumeric(c: char) -> bool {
    alphabetic(c) || numeric(c)
}

/// The ASCII upper-case form of `c`: `a` to `z` move to `A` to `Z`, every other
/// character stays as it is.
pub open spec fn ascii_upper(c: char) -> char {
    if 'a' <= c && c <= 'z' {
        ((c as u32) - 32) as char
    } else {
        c
    }
}

/// `char::is_whitespace`: the result is the `White_Space` property of the character.
/// On ASCII these are the space and the characters from U+0009 to U+000D; beyond
/// ASCII the answer comes from a fixed table of the standard library.
pub assume_specification[ char::is_whitespace ](c: char) -> (b: bool)
    ensures
        b == white_space(c),
        !ascii(c) ==> b == white_space_beyond_ascii(c),
;

/// `char::is_numeric`: the result says whether the character is in a general
/// category for numbers. On ASCII these are the digits `0` to `9`; beyond ASCII the
/// answer comes from a fixed table of the standard library.
pub assume_specification[ char::is_numeric ](c: char) -> (b: bool)
    ensures
        b == numeric(c),
        !ascii(c) ==> b == numeric_beyond_ascii(c),
;

/// `char::is_alphabetic`: the result is the `Alphabetic` property of the character.
/// On ASCII these are the letters `a` to `z` and `A` to `Z`; beyond ASCII the answer
/// comes from a fixed table of the standard library.
pub assume_specification[ char::is_alphabetic ](c: char) -> (b: bool)
    ensures
        b == alphabetic(c),
        !ascii(c) ==> b == alphabetic_beyond_ascii(c),
;

/// `char::is_alphanumeric`: true exactly when `is_alphabetic` or `is_numeric` is.
pub assume_specification[ char::is_alphanumeric ](c: char) -> (b: bool)
    ensures
        b == alphanumeric(c),
;

/// `char::to_ascii_uppercase`: ASCII letters `a` to `z` are mapped to `A` to `Z`,
/// all other characters are returned unchanged.
pub assume_specification[ char::to_ascii_uppercase ](c: &char) -> (u: char)
    ensures
        u == ascii_upper(*c),
;

/// Upper-casing in ASCII is idempotent on every character.
pub proof fn lemma_ascii_upper_idempotent(c: char)
    ensures
        ascii_upper(ascii_upper(c)) == ascii_upper(c),
{
}

} // verus!
