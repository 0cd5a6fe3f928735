//! Two hexadecimal digits for one byte, and back.

use vstd::prelude::*;
use crate::ascii::{DIGIT_0, DIGIT_9, LOWER_A, LOWER_F, UPPER_A, UPPER_F};

verus! {

/// The value of a hexadecimal digit, of either case.
pub open spec fn hex_digit_value(hex: u8) -> Option<u8> {
    if DIGIT_0 <= hex <= DIGIT_9 {
        Some((hex - DIGIT_0) as u8)
    } else if UPPER_A <= hex <= UPPER_F {
        Some((hex - UPPER_A + 10) as u8)
    } else if LOWER_A <= hex <= LOWER_F {
        Some((hex - LOWER_A + 10) as u8)
    } else {
        None
    }
}

/// The lower-case hexadecimal digit for a value below sixteen.
pub open spec fn hex_digit(num: u8) -> Option<u8> {
    if num <= 9 {
        Some((DIGIT_0 + num) as u8)
    } else if num <= 15 {
        Some((LOWER_A + (num - 10)) as u8)
    } else {
        None
    }
}

/// The byte that two hexadecimal digits stand for, the high digit first.
pub open spec fn hex_pair_value(high: u8, low: u8) -> Option<u8> {
    match (hex_digit_value(high), hex_digit_value(low)) {
        (Some(h), Some(l)) => Some((h * 16 + l) as u8),
        _ => None,
    }
}

/// Decode a pair of hex digits into a number.
pub fn decode_hex(hex: [u8; 2]) -> (r: Result<u8, ()>)
    ensures
        r == match hex_pair_value(hex[0], hex[1]) {
            Some(v) => Ok::<u8, ()>(v),
            None => Err::<u8, ()>(()),
        },
{
    let high: u8 = hex_to_num(hex[0])?;
    let low: u8 = hex_to_num(hex[1])?;
    Ok(high * 16 + low)
}

/// Encode a number into a pair of lower-case hex digits.
pub fn encode_hex(num: u8) -> (r: [u8; 2])
    ensures
        Some(r[0]) == hex_digit(num / 16),
        Some(r[1]) == hex_digit(num % 16),
{
    let high: u8 = num / 16;
    let low: u8 = num % 16;
    let first: u8 = if high <= 9 { DIGIT_0 + high } else { LOWER_A + (high - 10) };
    let second: u8 = if low <= 9 { DIGIT_0 + low } else { LOWER_A + (low - 10) };
    [first, second]
}

/// Convert a hex digit into a number.
pub fn hex_to_num(hex: u8) -> (r: Result<u8, ()>)
    ensures
        r == match hex_digit_value(hex) {
            Some(v) => Ok::<u8, ()>(v),
            None => Err::<u8, ()>(()),
        },
{
    if DIGIT_0 <= hex && hex <= DIGIT_9 {
        Ok(hex - DIGIT_0)
    } else if UPPER_A <= hex && hex <= UPPER_F {
        Ok(hex - (UPPER_A - 10))
    } else if LOWER_A <= hex && hex <= LOWER_F {
        Ok(hex - (LOWER_A - 10))
    } else {
        Err(())
    }
}

/// Convert a number into a hex digit.
pub fn num_to_hex(num: u8) -> (r: Result<u8, ()>)
    ensures
        r == match hex_digit(num) {
            Some(v) => Ok::<u8, ()>(v),
            None => Err::<u8, ()>(()),
        },
{
    if num <= 9 {
        Ok(DIGIT_0 + num)
    } else if num <= 15 {
        Ok(LOWER_A + (num - 10))
    } else {
        Err(())
    }
}

/// Every byte comes back from its two digits.
pub proof fn lemma_decode_encode(num: u8)
    ensures
        hex_digit(num / 16) is Some,
        hex_digit(num % 16) is Some,
        hex_pair_value(hex_digit(num / 16)->0, hex_digit(num % 16)->0) == Some(num),
{
}

} // verus!
