//! Byte classes and the small decoders that the scanners are built on.
//!
//! Every class here is a byte predicate with an exact `returns` clause, so the
//! scanners' specifications can name them directly.
use vstd::prelude::*;

verus! {

pub const SPACE: u8 = 0x20;
pub const TAB: u8 = 0x09;
pub const NEWLINE: u8 = 0x0A;
pub const CARRIAGE_RETURN: u8 = 0x0D;
pub const QUOTE: u8 = 0x22;
pub const BACKSLASH: u8 = 0x5C;
pub const SLASH: u8 = 0x2F;
pub const COMMA: u8 = 0x2C;
pub const COLON: u8 = 0x3A;
pub const DOT: u8 = 0x2E;
pub const MINUS: u8 = 0x2D;
pub const PLUS: u8 = 0x2B;
pub const OPEN_BRACE: u8 = 0x7B;
pub const CLOSE_BRACE: u8 = 0x7D;
pub const OPEN_BRACKET: u8 = 0x5B;
pub const CLOSE_BRACKET: u8 = 0x5D;
pub const DIGIT_ZERO: u8 = 0x30;
pub const DIGIT_NINE: u8 = 0x39;
pub const LOWER_A: u8 = 0x61;
pub const LOWER_B: u8 = 0x62;
pub const LOWER_E: u8 = 0x65;
pub const LOWER_F: u8 = 0x66;
pub const LOWER_L: u8 = 0x6C;
pub const LOWER_N: u8 = 0x6E;
pub const LOWER_R: u8 = 0x72;
pub const LOWER_S: u8 = 0x73;
pub const LOWER_T: u8 = 0x74;
pub const LOWER_U: u8 = 0x75;
pub const UPPER_A: u8 = 0x41;
pub const UPPER_E: u8 = 0x45;
pub const UPPER_F: u8 = 0x46;

/// JSON's whitespace: space, tab, newline and carriage return only. A vertical
/// tab or a form feed is not whitespace to ECMA-404.
#[verifier::allow_in_spec]
pub fn is_space(c: u8) -> bool
    returns
        c == SPACE || c == TAB || c == NEWLINE || c == CARRIAGE_RETURN,
{
    c == SPACE || c == TAB || c == NEWLINE || c == CARRIAGE_RETURN
}

/// A seven-bit byte.
#[verifier::allow_in_spec]
pub fn is_ascii(c: u8) -> bool
    returns
        c <= 0x7F,
{
    c <= 0x7F
}

/// An ASCII control character, which a string may not hold unescaped.
#[verifier::allow_in_spec]
pub fn is_cntrl(c: u8) -> bool
    returns
        c < SPACE,
{
    is_ascii(c) && c < SPACE
}

/// A decimal digit.
#[verifier::allow_in_spec]
pub fn is_digit(c: u8) -> bool
    returns
        DIGIT_ZERO <= c <= DIGIT_NINE,
{
    DIGIT_ZERO <= c && c <= DIGIT_NINE
}

/// `{` or `[`.
#[verifier::allow_in_spec]
pub fn is_open_bracket(c: u8) -> bool
    returns
        c == OPEN_BRACE || c == OPEN_BRACKET,
{
    c == OPEN_BRACE || c == OPEN_BRACKET
}

/// `}` or `]`.
#[verifier::allow_in_spec]
pub fn is_close_bracket(c: u8) -> bool
    returns
        c == CLOSE_BRACE || c == CLOSE_BRACKET,
{
    c == CLOSE_BRACE || c == CLOSE_BRACKET
}

/// Whether `close` closes a collection opened by `open`.
#[verifier::allow_in_spec]
pub fn is_matching_bracket(open: u8, close: u8) -> bool
    returns
        (open == OPEN_BRACE && close == CLOSE_BRACE) || (open == OPEN_BRACKET && close
            == CLOSE_BRACKET),
{
    (open == OPEN_BRACE && close == CLOSE_BRACE) || (open == OPEN_BRACKET && close == CLOSE_BRACKET)
}

/// The number of leading one bits of a byte: the length of the UTF-8 sequence
/// that a lead byte announces.
#[verifier::allow_in_spec]
pub fn count_high_bits(c: u8) -> usize
    returns
        if c < 0x80 {
            0usize
        } else if c < 0xC0 {
            1usize
        } else if c < 0xE0 {
            2usize
        } else if c < 0xF0 {
            3usize
        } else if c < 0xF8 {
            4usize
        } else if c < 0xFC {
            5usize
        } else if c < 0xFE {
            6usize
        } else if c < 0xFF {
            7usize
        } else {
            8usize
        },
{
    if c < 0x80 {
        0
    } else if c < 0xC0 {
        1
    } else if c < 0xE0 {
        2
    } else if c < 0xF0 {
        3
    } else if c < 0xF8 {
        4
    } else if c < 0xFC {
        5
    } else if c < 0xFE {
        6
    } else if c < 0xFF {
        7
    } else {
        8
    }
}

/// Whether `value` is the shortest encoding for a UTF-8 sequence of `length`
/// bytes, and a legal scalar value: not a surrogate and not above U+10FFFF.
/// Refusing an over-long encoding is what stops an ASCII byte being smuggled
/// past a filter as a two-byte sequence.
#[verifier::allow_in_spec]
pub fn shortest_utf8(length: usize, value: u32) -> bool
    returns
        (if length == 2 {
            0x80 <= value <= 0x7FF
        } else if length == 3 {
            0x800 <= value <= 0xFFFF
        } else {
            0x10000 <= value <= 0x10FFFF
        }) && (value < 0xD800 || value > 0xDFFF),
{
    let (min, max): (u32, u32) = if length == 2 {
        (0x80, 0x7FF)
    } else if length == 3 {
        (0x800, 0xFFFF)
    } else {
        (0x10000, 0x10FFFF)
    };
    value >= min && value <= max && (value < 0xD800 || value > 0xDFFF)
}

/// What `hex_to_int` answers for a byte that is not a hex digit.
pub const NOT_A_HEX_CHAR: u8 = 0x10;

/// The value of a hex digit, or `NOT_A_HEX_CHAR`.
#[verifier::allow_in_spec]
pub fn hex_to_int(c: u8) -> u8
    returns
        if LOWER_A <= c <= LOWER_F {
            (c - LOWER_A + 10) as u8
        } else if UPPER_A <= c <= UPPER_F {
            (c - UPPER_A + 10) as u8
        } else if DIGIT_ZERO <= c <= DIGIT_NINE {
            (c - DIGIT_ZERO) as u8
        } else {
            NOT_A_HEX_CHAR
        },
{
    if LOWER_A <= c && c <= LOWER_F {
        c - LOWER_A + 10
    } else if UPPER_A <= c && c <= UPPER_F {
        c - UPPER_A + 10
    } else if DIGIT_ZERO <= c && c <= DIGIT_NINE {
        c - DIGIT_ZERO
    } else {
        NOT_A_HEX_CHAR
    }
}

/// The first half of a UTF-16 surrogate pair.
#[verifier::allow_in_spec]
pub fn is_high_surrogate(x: u16) -> bool
    returns
        0xD800 <= x <= 0xDBFF,
{
    x >= 0xD800 && x <= 0xDBFF
}

/// The second half of a UTF-16 surrogate pair.
#[verifier::allow_in_spec]
pub fn is_low_surrogate(x: u16) -> bool
    returns
        0xDC00 <= x <= 0xDFFF,
{
    x >= 0xDC00 && x <= 0xDFFF
}

} // verus!
