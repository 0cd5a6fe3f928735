//! The bytes that the grammar names, and the classes it sorts bytes into.

use vstd::prelude::*;

verus! {

pub const BACKSPACE: u8 = 8;
pub const TAB: u8 = 9;
pub const LINE_FEED: u8 = 10;
pub const FORM_FEED: u8 = 12;
pub const CARRIAGE_RETURN: u8 = 13;
pub const SPACE: u8 = 32;
pub const EXCLAMATION_MARK: u8 = 33;
pub const QUOTE: u8 = 34;
pub const HASH: u8 = 35;
pub const APOSTROPHE: u8 = 39;
pub const STAR: u8 = 42;
pub const PLUS: u8 = 43;
pub const COMMA: u8 = 44;
pub const MINUS: u8 = 45;
pub const DOT: u8 = 46;
pub const SLASH: u8 = 47;
pub const DIGIT_0: u8 = 48;
pub const DIGIT_1: u8 = 49;
pub const DIGIT_7: u8 = 55;
pub const DIGIT_9: u8 = 57;
pub const COLON: u8 = 58;
pub const UPPER_A: u8 = 65;
pub const UPPER_E: u8 = 69;
pub const UPPER_F: u8 = 70;
pub const UPPER_U: u8 = 85;
pub const UPPER_Z: u8 = 90;
pub const OPEN_BRACKET: u8 = 91;
pub const BACKSLASH: u8 = 92;
pub const CLOSE_BRACKET: u8 = 93;
pub const UNDERSCORE: u8 = 95;
pub const LOWER_A: u8 = 97;
pub const LOWER_B: u8 = 98;
pub const LOWER_E: u8 = 101;
pub const LOWER_F: u8 = 102;
pub const LOWER_N: u8 = 110;
pub const LOWER_O: u8 = 111;
pub const LOWER_R: u8 = 114;
pub const LOWER_T: u8 = 116;
pub const LOWER_U: u8 = 117;
pub const LOWER_X: u8 = 120;
pub const LOWER_Z: u8 = 122;
pub const OPEN_BRACE: u8 = 123;
pub const PIPE: u8 = 124;
pub const CLOSE_BRACE: u8 = 125;
pub const TILDE: u8 = 126;

/// Whether `byte` is a decimal digit.
pub open spec fn is_digit(byte: u8) -> bool {
    DIGIT_0 <= byte <= DIGIT_9
}

/// Whether `byte` is an ASCII letter.
pub open spec fn is_alphabetic(byte: u8) -> bool {
    UPPER_A <= byte <= UPPER_Z || LOWER_A <= byte <= LOWER_Z
}

/// Whether `byte` is an ASCII letter or a decimal digit.
pub open spec fn is_alphanumeric(byte: u8) -> bool {
    is_alphabetic(byte) || is_digit(byte)
}

/// Whether `byte` is a decimal digit.
#[verifier::when_used_as_spec(is_digit)]
pub fn digit(byte: u8) -> (r: bool)
    ensures
        r == is_digit(byte),
{
    DIGIT_0 <= byte && byte <= DIGIT_9
}

/// Whether `byte` is an ASCII letter.
#[verifier::when_used_as_spec(is_alphabetic)]
pub fn alphabetic(byte: u8) -> (r: bool)
    ensures
        r == is_alphabetic(byte),
{
    (UPPER_A <= byte && byte <= UPPER_Z) || (LOWER_A <= byte && byte <= LOWER_Z)
}

/// Whether `byte` is an ASCII letter or a decimal digit.
#[verifier::when_used_as_spec(is_alphanumeric)]
pub fn alphanumeric(byte: u8) -> (r: bool)
    ensures
        r == is_alphanumeric(byte),
{
    alphabetic(byte) || digit(byte)
}

} // verus!
