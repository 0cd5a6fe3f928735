//! Backslash escapes: from the bytes between two quotes to the bytes they
//! stand for.

use vstd::prelude::*;
use vstd::slice::slice_subrange;
use vstd::utf8::{encode_scalar, is_scalar};
use crate::ascii::{
    APOSTROPHE, BACKSLASH, BACKSPACE, CARRIAGE_RETURN, FORM_FEED, LINE_FEED, LOWER_B, LOWER_F,
    LOWER_N, LOWER_R, LOWER_T, LOWER_U, LOWER_X, QUOTE, SLASH, TAB, UPPER_U,
};
use crate::hex::{decode_hex, hex_pair_value};
use crate::utils::char_from_u32;

verus! {

/// The byte that a backslash and the letter `c` stand for, for the escapes
/// of one letter.
pub open spec fn simple_escape(c: u8) -> Option<u8> {
    if c == LOWER_N {
        Some(LINE_FEED)
    } else if c == LOWER_R {
        Some(CARRIAGE_RETURN)
    } else if c == LOWER_T {
        Some(TAB)
    } else if c == LOWER_B {
        Some(BACKSPACE)
    } else if c == LOWER_F {
        Some(FORM_FEED)
    } else if c == APOSTROPHE || c == QUOTE || c == BACKSLASH || c == SLASH {
        Some(c)
    } else {
        None
    }
}

/// The number that the four hexadecimal digits from place `at` of `s`
/// stand for.
pub open spec fn hex_quad_value(s: Seq<u8>, at: int) -> Option<u32> {
    match (hex_pair_value(s[at], s[at + 1]), hex_pair_value(s[at + 2], s[at + 3])) {
        (Some(high), Some(low)) => Some((high * 256 + low) as u32),
        _ => None,
    }
}

/// Whether `v` is the first half of a UTF-16 surrogate pair.
pub open spec fn is_high_surrogate(v: u32) -> bool {
    0xD800 <= v <= 0xDBFF
}

/// Whether `v` is the second half of a UTF-16 surrogate pair.
pub open spec fn is_low_surrogate(v: u32) -> bool {
    0xDC00 <= v <= 0xDFFF
}

/// The code point that a surrogate pair stands for.
pub open spec fn combine_surrogates(high: u32, low: u32) -> u32 {
    (0x10000 + (high - 0xD800) * 0x400 + (low - 0xDC00)) as u32
}

/// The code point that the `\uHHHH` escape at the start of `s` stands for,
/// and the number of bytes it takes: six, or twelve where it is a surrogate
/// pair. `None` where digits are missing or wrong, and where a surrogate
/// has no partner.
pub open spec fn code_point_spec(s: Seq<u8>) -> Option<(u32, nat)> {
    if s.len() < 6 {
        None
    } else {
        match hex_quad_value(s, 2) {
            None => None,
            Some(first) => if !is_high_surrogate(first) && !is_low_surrogate(first) {
                Some((first, 6nat))
            } else if is_high_surrogate(first) && s.len() >= 12 && s[6] == BACKSLASH && s[7]
                == LOWER_U {
                match hex_quad_value(s, 8) {
                    Some(low) => if is_low_surrogate(low) {
                        Some((combine_surrogates(first, low), 12nat))
                    } else {
                        None
                    },
                    None => None,
                }
            } else {
                None
            },
        }
    }
}

/// The code point that the `\UHHHHHH` escape at the start of `s` stands for.
pub open spec fn long_code_point_spec(s: Seq<u8>) -> Option<u32> {
    if s.len() < 8 {
        None
    } else {
        match (
            hex_pair_value(s[2], s[3]),
            hex_pair_value(s[4], s[5]),
            hex_pair_value(s[6], s[7]),
        ) {
            (Some(a), Some(b), Some(c)) => {
                let v = (a * 65536 + b * 256 + c) as u32;
                if is_scalar(v) {
                    Some(v)
                } else {
                    None
                }
            },
            _ => None,
        }
    }
}

/// The bytes that the escape at the start of `s` stands for, and the number
/// of bytes that it takes. `s` begins with a backslash and has a second byte.
#[verifier::opaque]
pub open spec fn escape_spec(s: Seq<u8>) -> Option<(Seq<u8>, nat)> {
    let c = s[1];
    if simple_escape(c) is Some {
        Some((seq![simple_escape(c)->0], 2nat))
    } else if c == LOWER_X {
        if s.len() >= 4 && hex_pair_value(s[2], s[3]) is Some {
            Some((seq![hex_pair_value(s[2], s[3])->0], 4nat))
        } else {
            None
        }
    } else if c == LOWER_U {
        match code_point_spec(s) {
            Some((v, used)) => Some((encode_scalar(v), used)),
            None => None,
        }
    } else if c == UPPER_U {
        match long_code_point_spec(s) {
            Some(v) => Some((encode_scalar(v), 8nat)),
            None => None,
        }
    } else {
        None
    }
}

/// `front` before the bytes of `rest`, where there are any.
pub open spec fn prepend(front: Seq<u8>, rest: Option<Seq<u8>>) -> Option<Seq<u8>> {
    match rest {
        Some(bytes) => Some(front + bytes),
        None => None,
    }
}

/// The bytes that `s` stands for once each escape is replaced: `None` where
/// an escape is unknown or cut short. A backslash that ends `s` stays.
pub open spec fn unescape_spec(s: Seq<u8>) -> Option<Seq<u8>>
    decreases s.len(),
{
    if s.len() == 0 {
        Some(Seq::empty())
    } else if s[0] != BACKSLASH || s.len() == 1 {
        prepend(seq![s[0]], unescape_spec(s.skip(1)))
    } else {
        match escape_spec(s) {
            Some((bytes, used)) => if 2 <= used <= s.len() {
                prepend(bytes, unescape_spec(s.skip(used as int)))
            } else {
                None
            },
            None => None,
        }
    }
}

/// An escape takes two bytes at least and no more than there are.
pub proof fn lemma_escape_used(s: Seq<u8>)
    requires
        s.len() >= 2,
    ensures
        escape_spec(s) matches Some((bytes, used)) ==> 2 <= used <= s.len(),
{
    reveal(escape_spec);
}

/// Adds the UTF-8 encoding of `c` to `out`.
pub fn push_char(out: &mut Vec<u8>, c: char)
    ensures
        final(out)@ == old(out)@ + encode_scalar(c as u32),
{
    let v: u32 = c as u32;
    proof {
        vstd::utf8::char_is_scalar(c);
    }
    if v <= 0x7F {
        out.push((v & 0x7F) as u8);
    } else if v <= 0x7FF {
        out.push(0xC0 | ((v >> 6) & 0x1F) as u8);
        out.push(0x80 | (v & 0x3F) as u8);
    } else if v <= 0xFFFF {
        out.push(0xE0 | ((v >> 12) & 0x0F) as u8);
        out.push(0x80 | ((v >> 6) & 0x3F) as u8);
        out.push(0x80 | (v & 0x3F) as u8);
    } else {
        out.push(0xF0 | ((v >> 18) & 0x7) as u8);
        out.push(0x80 | ((v >> 12) & 0x3F) as u8);
        out.push(0x80 | ((v >> 6) & 0x3F) as u8);
        out.push(0x80 | (v & 0x3F) as u8);
    }
    assert(out@ =~= old(out)@ + encode_scalar(v));
}

/// The byte that a backslash and the letter `c` stand for.
pub fn unescape_letter(c: u8) -> (r: Option<u8>)
    ensures
        r == simple_escape(c),
{
    if c == LOWER_N {
        Some(LINE_FEED)
    } else if c == LOWER_R {
        Some(CARRIAGE_RETURN)
    } else if c == LOWER_T {
        Some(TAB)
    } else if c == LOWER_B {
        Some(BACKSPACE)
    } else if c == LOWER_F {
        Some(FORM_FEED)
    } else if c == APOSTROPHE || c == QUOTE || c == BACKSLASH || c == SLASH {
        Some(c)
    } else {
        None
    }
}

/// The number that four hexadecimal digits from place `at` stand for.
fn decode_hex_quad(bytes: &[u8], at: usize) -> (r: Option<u16>)
    requires
        at + 4 <= bytes@.len(),
    ensures
        match hex_quad_value(bytes@, at as int) {
            Some(v) => r matches Some(w) && w as u32 == v,
            None => r is None,
        },
{
    let high = decode_hex([bytes[at], bytes[at + 1]]);
    let low = decode_hex([bytes[at + 2], bytes[at + 3]]);
    match (high, low) {
        (Ok(h), Ok(l)) => {
            let v: u16 = (h as u16) * 256 + (l as u16);
            Some(v)
        },
        _ => None,
    }
}

/// Reads the `\uHHHH` escape that `bytes` begin with, or the pair of them
/// that makes one code point, and returns the character and the number of
/// bytes read.
#[verifier::rlimit(30)]
pub fn parse_unicode_code_point(bytes: &[u8]) -> (r: Result<(char, usize), String>)
    ensures
        match code_point_spec(bytes@) {
            Some((v, used)) => r matches Ok((c, n)) && c as u32 == v && n == used,
            None => r is Err,
        },
{
    if bytes.len() < 6 {
        return Err("Got incomplete unicode escape sequence".to_owned());
    }
    let num: u16 = match decode_hex_quad(bytes, 2) {
        Some(v) => v,
        None => {
            return Err("Got invalid \\u hex".to_owned());
        },
    };
    if num < 0xD800 || num > 0xDFFF {
        return match char_from_u32(num as u32) {
            Some(c) => Ok((c, 6)),
            None => Err("Got invalid unicode code point".to_owned()),
        };
    }
    // The first half of a surrogate pair: the second must follow.
    if num > 0xDBFF || bytes.len() < 12 || bytes[6] != BACKSLASH || bytes[7] != LOWER_U {
        return Err("Got invalid unicode code point".to_owned());
    }
    let low: u16 = match decode_hex_quad(bytes, 8) {
        Some(v) => v,
        None => {
            return Err("Got invalid \\u hex".to_owned());
        },
    };
    if low < 0xDC00 || low > 0xDFFF {
        return Err("Got invalid utf16 surrogate pair".to_owned());
    }
    let low_bits: u32 = (low - 0xDC00) as u32;
    let high_bits: u32 = ((num - 0xD800) as u32) * 0x400;
    let combined: u32 = low_bits + high_bits + 0x10000;
    match char_from_u32(combined) {
        Some(c) => Ok((c, 12)),
        None => Err("Got invalid utf16 surrogate pair".to_owned()),
    }
}

/// Reads the `\UHHHHHH` escape that `bytes` begin with.
#[verifier::rlimit(30)]
pub fn parse_long_code_point(bytes: &[u8]) -> (r: Result<char, String>)
    ensures
        match long_code_point_spec(bytes@) {
            Some(v) => r matches Ok(c) && c as u32 == v,
            None => r is Err,
        },
{
    if bytes.len() < 8 {
        return Err("Got incomplete non-BMP unicode escape sequence".to_owned());
    }
    let byte1 = decode_hex([bytes[2], bytes[3]]);
    let byte2 = decode_hex([bytes[4], bytes[5]]);
    let byte3 = decode_hex([bytes[6], bytes[7]]);
    match (byte1, byte2, byte3) {
        (Ok(a), Ok(b), Ok(c)) => {
            let num: u32 = (a as u32) * 65536 + (b as u32) * 256 + (c as u32);
            match char_from_u32(num) {
                Some(ch) => Ok(ch),
                None => Err("Got invalid unicode code point".to_owned()),
            }
        },
        _ => Err("Got invalid \\U hex".to_owned()),
    }
}

/// Reads the escape at place `i` of `bytes`, adds what it stands for to
/// `out`, and returns the number of bytes that it takes.
#[verifier::rlimit(30)]
pub fn unescape_at(bytes: &[u8], i: usize, out: &mut Vec<u8>) -> (r: Result<usize, String>)
    requires
        i + 1 < bytes@.len(),
        bytes@[i as int] == BACKSLASH,
    ensures
        match escape_spec(bytes@.skip(i as int)) {
            Some((piece, used)) => r matches Ok(n) && n == used && final(out)@ == old(out)@
                + piece,
            None => r is Err,
        },
{
    proof {
        reveal(escape_spec);
    }
    let n: usize = bytes.len();
    let ghost rest = bytes@.skip(i as int);
    let c: u8 = bytes[i + 1];
    if let Some(plain) = unescape_letter(c) {
        out.push(plain);
        assert(out@ =~= old(out)@ + seq![plain]);
        Ok(2)
    } else if c == LOWER_X {
        if n - i < 4 {
            return Err("Got incomplete hex escape sequence".to_owned());
        }
        match decode_hex([bytes[i + 2], bytes[i + 3]]) {
            Ok(value) => {
                out.push(value);
                assert(out@ =~= old(out)@ + seq![value]);
                Ok(4)
            },
            Err(_) => Err("Got invalid \\x hex".to_owned()),
        }
    } else if c == LOWER_U {
        let tail = slice_subrange(bytes, i, n);
        assert(tail@ =~= rest);
        match parse_unicode_code_point(tail) {
            Ok((ch, read)) => {
                push_char(out, ch);
                Ok(read)
            },
            Err(message) => Err(message),
        }
    } else if c == UPPER_U {
        let tail = slice_subrange(bytes, i, n);
        assert(tail@ =~= rest);
        match parse_long_code_point(tail) {
            Ok(ch) => {
                push_char(out, ch);
                Ok(8)
            },
            Err(message) => Err(message),
        }
    } else {
        Err("Unexpected escape sequence".to_owned())
    }
}

/// Returns a byte string where all escaped characters in the input byte
/// string are unescaped.
#[verifier::rlimit(30)]
pub fn unescape_string(bytes: &[u8]) -> (r: Result<Vec<u8>, String>)
    ensures
        match unescape_spec(bytes@) {
            Some(v) => r matches Ok(out) && out@ == v,
            None => r is Err,
        },
{
    let n: usize = bytes.len();
    let mut new_bytes: Vec<u8> = Vec::new();
    let mut i: usize = 0;
    assert(bytes@.skip(0) =~= bytes@);
    while i < n
        invariant
            i <= n,
            n == bytes@.len(),
            unescape_spec(bytes@) == prepend(new_bytes@, unescape_spec(bytes@.skip(i as int))),
        decreases n - i,
    {
        let ghost rest = bytes@.skip(i as int);
        let ghost done = new_bytes@;
        let byte: u8 = bytes[i];
        let mut used: usize = 1;
        if byte == BACKSLASH && n - i >= 2 {
            proof {
                lemma_escape_used(rest);
            }
            match unescape_at(bytes, i, &mut new_bytes) {
                Ok(read) => {
                    used = read;
                },
                Err(message) => {
                    return Err(message);
                },
            }
        } else {
            new_bytes.push(byte);
            assert(new_bytes@ =~= done + seq![byte]);
        }
        proof {
            let piece = new_bytes@.skip(done.len() as int);
            assert(new_bytes@ =~= done + piece);
            assert(rest.skip(used as int) =~= bytes@.skip(i + used));
            lemma_prepend_twice(done, piece, unescape_spec(rest.skip(used as int)));
        }
        i = i + used;
    }
    assert(new_bytes@ + Seq::<u8>::empty() =~= new_bytes@);
    Ok(new_bytes)
}

/// Putting `b` and then `a` before a text puts `a + b` before it.
pub proof fn lemma_prepend_twice(a: Seq<u8>, b: Seq<u8>, rest: Option<Seq<u8>>)
    ensures
        prepend(a, prepend(b, rest)) == prepend(a + b, rest),
{
    match rest {
        Some(bytes) => {
            assert(a + (b + bytes) =~= (a + b) + bytes);
        },
        None => {},
    }
}

} // verus!
