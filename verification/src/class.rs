//! Byte classes of the lexical grammar.

use vstd::prelude::*;

verus! {

/// The space, ` `.
pub const SPACE: u8 = 0x20;

/// The carriage return, `\r`.
pub const CARRIAGE_RETURN: u8 = 0x0D;

/// The line feed, `\n`.
pub const LINE_FEED: u8 = 0x0A;

/// The minus sign, `-`.
pub const MINUS: u8 = 0x2D;

/// The digit zero, `0`.
pub const ZERO: u8 = 0x30;

/// The opening parenthesis, `(`.
pub const LEFT_PAREN: u8 = 0x28;

/// The closing parenthesis, `)`.
pub const RIGHT_PAREN: u8 = 0x29;

/// The dollar sign, `$`.
pub const DOLLAR: u8 = 0x24;

/// The hash sign, `#`.
pub const HASH: u8 = 0x23;

/// The equals sign, `=`.
pub const EQUALS: u8 = 0x3D;

/// The comma, `,`.
pub const COMMA: u8 = 0x2C;

/// A byte that may begin a text token: an ASCII letter, the underscore, or a
/// byte of one of the three accented ranges `0xC0..=0xD6`, `0xD8..=0xF6` and
/// `0xF8..=0xFF`.
pub open spec fn letter(b: u8) -> bool {
    ||| b == 0x5F  // _
    ||| 0x41 <= b <= 0x5A  // A-Z
    ||| 0x61 <= b <= 0x7A  // a-z
    ||| 0xC0 <= b <= 0xD6
    ||| 0xD8 <= b <= 0xF6
    ||| 0xF8 <= b
}

/// An ASCII decimal digit.
pub open spec fn digit(b: u8) -> bool {
    0x30 <= b <= 0x39
}

/// A byte that may follow the first byte of a text token: a letter or a digit.
pub open spec fn text_byte(b: u8) -> bool {
    letter(b) || digit(b)
}

#[verifier::when_used_as_spec(letter)]
pub fn is_letter(b: u8) -> (r: bool)
    ensures
        r == letter(b),
{
    b == 0x5F || (0x41 <= b && b <= 0x5A) || (0x61 <= b && b <= 0x7A) || (0xC0 <= b && b <= 0xD6)
        || (0xD8 <= b && b <= 0xF6) || 0xF8 <= b
}

#[verifier::when_used_as_spec(digit)]
pub fn is_digit(b: u8) -> (r: bool)
    ensures
        r == digit(b),
{
    0x30 <= b && b <= 0x39
}

#[verifier::when_used_as_spec(text_byte)]
pub fn is_text_byte(b: u8) -> (r: bool)
    ensures
        r == text_byte(b),
{
    is_letter(b) || is_digit(b)
}

} // verus!
