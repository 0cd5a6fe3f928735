//! Numbers: a sign, then digits in base ten with an optional fraction and
//! exponent, or a whole number in base sixteen, eight or two. Apostrophes
//! group digits and count for nothing.

use vstd::prelude::*;
use crate::ascii::{
    APOSTROPHE, digit, DIGIT_0, DOT, is_digit, LOWER_B, LOWER_E, LOWER_O, LOWER_X, MINUS, PLUS,
    UPPER_E,
};
use crate::error::{Error, ErrorKind};
use crate::hex::{hex_digit_value, hex_to_num};
use crate::number::{decimal_text, digits_value, is_number_text, Number, NumberView};
use crate::peek_reader::PeekReader;
use crate::utils::read_as_view;

verus! {

/// The base that the letter after a leading zero announces.
pub open spec fn base_of(letter: u8) -> Option<u8> {
    if letter == LOWER_X {
        Some(16u8)
    } else if letter == LOWER_O {
        Some(8u8)
    } else if letter == LOWER_B {
        Some(2u8)
    } else {
        None
    }
}

/// The value of `byte` as a digit of the given base.
pub open spec fn base_digit_value(byte: u8, base: u8) -> Option<u8> {
    match hex_digit_value(byte) {
        Some(v) => if v < base {
            Some(v)
        } else {
            None
        },
        None => None,
    }
}

/// Whether `byte` may stand in a run of digits of the given base.
pub open spec fn is_base_run_byte(byte: u8, base: u8) -> bool {
    byte == APOSTROPHE || base_digit_value(byte, base) is Some
}

/// The number of bytes that `s` begins with that are digits of the base or
/// apostrophes.
pub open spec fn base_run_len(s: Seq<u8>, base: u8) -> nat
    decreases s.len(),
{
    if s.len() == 0 || !is_base_run_byte(s[0], base) {
        0
    } else {
        1 + base_run_len(s.skip(1), base)
    }
}

/// The values of the digits in `run`, the apostrophes left out.
pub open spec fn base_digits(run: Seq<u8>, base: u8) -> Seq<u8>
    decreases run.len(),
{
    if run.len() == 0 {
        Seq::empty()
    } else {
        let front = base_digits(run.drop_last(), base);
        match base_digit_value(run.last(), base) {
            Some(v) => front.push(v),
            None => front,
        }
    }
}

/// The whole number that stands at the start of `s`, after the sign and the
/// two bytes that announce the base. Its first byte is a digit; each digit
/// weighs `base` times the one after it.
pub open spec fn base_number_spec(s: Seq<u8>, negative: bool, base: u8) -> Result<
    (NumberView, Seq<u8>),
    ErrorKind,
> {
    if s.len() == 0 {
        Err(ErrorKind::UnexpectedEof)
    } else if base_digit_value(s[0], base) is None {
        Err(ErrorKind::InvalidData)
    } else {
        let n = base_run_len(s, base);
        let value = digits_value(base_digits(s.take(n as int), base), base as nat);
        Ok((NumberView { negative, text: decimal_text(value) }, s.skip(n as int)))
    }
}

/// Whether `byte` may stand in a number in base ten.
pub open spec fn is_run_byte(byte: u8) -> bool {
    is_digit(byte) || byte == PLUS || byte == MINUS || byte == DOT || byte == APOSTROPHE || byte
        == LOWER_E || byte == UPPER_E
}

/// The number of bytes that `s` begins with that may stand in a number in
/// base ten.
pub open spec fn run_len(s: Seq<u8>) -> nat
    decreases s.len(),
{
    if s.len() == 0 || !is_run_byte(s[0]) {
        0
    } else {
        1 + run_len(s.skip(1))
    }
}

/// `run` without its apostrophes; `None` where one of them comes first or
/// stands right after the point.
pub open spec fn strip_separators(run: Seq<u8>) -> Option<Seq<u8>>
    decreases run.len(),
{
    if run.len() == 0 {
        Some(Seq::empty())
    } else {
        match strip_separators(run.drop_last()) {
            None => None,
            Some(clean) => if run.last() == APOSTROPHE {
                if clean.len() == 0 || clean.last() == DOT {
                    None
                } else {
                    Some(clean)
                }
            } else {
                Some(clean.push(run.last()))
            },
        }
    }
}

/// The number in base ten that stands at the start of `s`, after the sign.
pub open spec fn decimal_number_spec(s: Seq<u8>, negative: bool) -> Result<
    (NumberView, Seq<u8>),
    ErrorKind,
> {
    let n = run_len(s);
    match strip_separators(s.take(n as int)) {
        Some(text) => if is_number_text(text) {
            Ok((NumberView { negative, text }, s.skip(n as int)))
        } else {
            Err(ErrorKind::InvalidData)
        },
        None => Err(ErrorKind::InvalidData),
    }
}

/// The number that stands at the start of `s`, and what follows it. One sign
/// may come first. A zero with `x`, `o` or `b` after it announces a whole
/// number in base sixteen, eight or two; anything else is read in base ten.
pub open spec fn parse_number_spec(s: Seq<u8>) -> Result<(NumberView, Seq<u8>), ErrorKind> {
    if s.len() == 0 {
        Err(ErrorKind::UnexpectedEof)
    } else {
        let negative = s[0] == MINUS;
        let t = if s[0] == PLUS || s[0] == MINUS {
            s.skip(1)
        } else {
            s
        };
        if t.len() == 0 {
            Err(ErrorKind::UnexpectedEof)
        } else if t[0] == PLUS || t[0] == MINUS {
            Err(ErrorKind::InvalidData)
        } else if t[0] == DIGIT_0 && t.len() >= 2 && base_of(t[1]) is Some {
            base_number_spec(t.skip(2), negative, base_of(t[1])->0)
        } else {
            decimal_number_spec(t, negative)
        }
    }
}

/// The base that the letter after a leading zero announces.
pub fn base_for(letter: u8) -> (r: Option<u8>)
    ensures
        r == base_of(letter),
{
    if letter == LOWER_X {
        Some(16)
    } else if letter == LOWER_O {
        Some(8)
    } else if letter == LOWER_B {
        Some(2)
    } else {
        None
    }
}

/// The value of `byte` as a digit of the given base.
pub fn to_base_digit(byte: u8, base: u8) -> (r: Option<u8>)
    ensures
        r == base_digit_value(byte, base),
{
    match hex_to_num(byte) {
        Ok(v) => if v < base {
            Some(v)
        } else {
            None
        },
        Err(_) => None,
    }
}

/// Whether `byte` may stand in a number in base ten.
pub fn in_decimal_run(byte: u8) -> (r: bool)
    ensures
        r == is_run_byte(byte),
{
    digit(byte) || byte == PLUS || byte == MINUS || byte == DOT || byte == APOSTROPHE || byte
        == LOWER_E || byte == UPPER_E
}

/// Reads the digits of a whole number in the given base.
#[verifier::rlimit(30)]
pub fn parse_base_digits(reader: &mut PeekReader, negative: bool, base: u8) -> (r: Result<
    Number,
    Error,
>)
    requires
        2 <= base <= 16,
    ensures
        read_as_view(
            r,
            final(reader).remaining(),
            base_number_spec(old(reader).remaining(), negative, base),
        ),
{
    let ghost start = reader.remaining();
    let first: u8 = match reader.read_byte()? {
        Some(byte) => byte,
        None => {
            return Err(Error::unexpected_eof("got EOF while parsing number"));
        },
    };
    let first_digit: u8 = match to_base_digit(first, base) {
        Some(v) => v,
        None => {
            return Err(Error::invalid_byte("invalid start to number", first));
        },
    };
    let mut digits: Vec<u8> = Vec::new();
    digits.push(first_digit);
    let ghost mut k: int = 1;
    proof {
        assert(start.take(1).drop_last() =~= Seq::<u8>::empty());
        assert(base_digits(start.take(1).drop_last(), base) =~= Seq::<u8>::empty());
        assert(digits@ =~= base_digits(start.take(1), base));
    }
    loop
        invariant
            start == old(reader).remaining(),
            2 <= base <= 16,
            1 <= k <= start.len(),
            reader.remaining() == start.skip(k),
            digits@ == base_digits(start.take(k), base),
            forall|i: int| 0 <= i < digits@.len() ==> #[trigger] digits@[i] < base,
            k + base_run_len(start.skip(k), base) == base_run_len(start, base),
        ensures
            base_run_len(start.skip(k), base) == 0,
        decreases start.len() - k,
    {
        let next: Option<u8> = reader.peek()?;
        let byte: u8 = match next {
            Some(byte) => byte,
            None => {
                break ;
            },
        };
        let value: Option<u8> = to_base_digit(byte, base);
        if byte != APOSTROPHE && value.is_none() {
            break ;
        }
        reader.consume(1);
        proof {
            assert(start.skip(k).skip(1) =~= start.skip(k + 1));
            assert(start.take(k + 1).drop_last() =~= start.take(k));
            assert(start.take(k + 1).last() == byte);
        }
        if let Some(v) = value {
            digits.push(v);
        }
        proof {
            k = k + 1;
        }
    }
    let number: Number = Number::from_digits(negative, digits.as_slice(), base);
    Ok(number)
}

/// Reads a number in base ten.
#[verifier::rlimit(30)]
pub fn parse_decimal(reader: &mut PeekReader, negative: bool) -> (r: Result<Number, Error>)
    ensures
        read_as_view(
            r,
            final(reader).remaining(),
            decimal_number_spec(old(reader).remaining(), negative),
        ),
{
    let ghost start = reader.remaining();
    let mut cleaned: Vec<u8> = Vec::new();
    let mut misplaced: bool = false;
    let ghost mut k: int = 0;
    proof {
        assert(start.skip(0) =~= start);
        assert(start.take(0) =~= Seq::<u8>::empty());
    }
    loop
        invariant
            start == old(reader).remaining(),
            0 <= k <= start.len(),
            reader.remaining() == start.skip(k),
            strip_separators(start.take(k)) == if misplaced {
                None
            } else {
                Some(cleaned@)
            },
            k + run_len(start.skip(k)) == run_len(start),
        ensures
            run_len(start.skip(k)) == 0,
        decreases start.len() - k,
    {
        let next: Option<u8> = reader.peek()?;
        let byte: u8 = match next {
            Some(byte) => byte,
            None => {
                break ;
            },
        };
        if !in_decimal_run(byte) {
            break ;
        }
        reader.consume(1);
        proof {
            assert(start.skip(k).skip(1) =~= start.skip(k + 1));
            assert(start.take(k + 1).drop_last() =~= start.take(k));
            assert(start.take(k + 1).last() == byte);
        }
        if !misplaced {
            if byte == APOSTROPHE {
                let n: usize = cleaned.len();
                if n == 0 || cleaned[n - 1] == DOT {
                    misplaced = true;
                }
            } else {
                cleaned.push(byte);
            }
        }
        proof {
            k = k + 1;
        }
    }
    if misplaced {
        return Err(Error::invalid_data("a digit separator must follow a digit"));
    }
    match Number::new(negative, cleaned) {
        Some(number) => Ok(number),
        None => Err(Error::invalid_data("failed to parse number")),
    }
}

/// Reads a number.
#[verifier::rlimit(30)]
pub fn parse_number(reader: &mut PeekReader) -> (r: Result<Number, Error>)
    ensures
        read_as_view(r, final(reader).remaining(), parse_number_spec(old(reader).remaining())),
{
    let mut negative: bool = false;
    match reader.peek()? {
        Some(byte) => {
            if byte == PLUS {
                reader.consume(1);
            } else if byte == MINUS {
                reader.consume(1);
                negative = true;
            }
        },
        None => {
            return Err(Error::unexpected_eof("got EOF while parsing number"));
        },
    }
    let first_byte: u8 = match reader.peek()? {
        Some(byte) => byte,
        None => {
            return Err(Error::unexpected_eof("got EOF while parsing number"));
        },
    };
    if first_byte == PLUS || first_byte == MINUS {
        return Err(Error::invalid_byte("invalid start to number: two +/- signs", first_byte));
    }
    if first_byte == DIGIT_0 {
        if let Some(pair) = reader.peek2()? {
            if let Some(base) = base_for(pair[1]) {
                reader.consume(2);
                return parse_base_digits(reader, negative, base);
            }
        }
    }
    parse_decimal(reader, negative)
}

proof fn lemma_run_len_bound(s: Seq<u8>)
    ensures
        run_len(s) <= s.len(),
    decreases s.len(),
{
    if s.len() > 0 && is_run_byte(s[0]) {
        lemma_run_len_bound(s.skip(1));
    }
}

proof fn lemma_base_run_len_bound(s: Seq<u8>, base: u8)
    ensures
        base_run_len(s, base) <= s.len(),
    decreases s.len(),
{
    if s.len() > 0 && is_base_run_byte(s[0], base) {
        lemma_base_run_len_bound(s.skip(1), base);
    }
}

/// The empty run is no number.
proof fn lemma_strip_empty(run: Seq<u8>)
    requires
        run.len() == 0,
    ensures
        strip_separators(run) == Some(Seq::<u8>::empty()),
        !is_number_text(Seq::<u8>::empty()),
{
    assert(crate::number::digits_len(Seq::<u8>::empty()) == 0);
}

/// A number takes one byte of the input at least.
pub proof fn lemma_number_progress(s: Seq<u8>)
    ensures
        parse_number_spec(s) matches Ok((_, rest)) ==> rest.len() < s.len(),
{
    if s.len() > 0 {
        let t = if s[0] == PLUS || s[0] == MINUS {
            s.skip(1)
        } else {
            s
        };
        if t.len() > 0 && !(t[0] == PLUS || t[0] == MINUS) {
            if t[0] == DIGIT_0 && t.len() >= 2 && base_of(t[1]) is Some {
                lemma_base_run_len_bound(t.skip(2), base_of(t[1])->0);
            } else {
                lemma_run_len_bound(t);
                if run_len(t) == 0 {
                    lemma_strip_empty(t.take(0));
                }
            }
        }
    }
}

} // verus!
