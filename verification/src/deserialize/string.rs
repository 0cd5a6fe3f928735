//! Strings between quotes, raw strings, and byte strings.

use vstd::prelude::*;
use vstd::utf8::{decode_utf8, valid_utf8};
use crate::ascii::{HASH, LOWER_B, LOWER_R, QUOTE};
use crate::error::{Error, ErrorKind};
use crate::peek_reader::PeekReader;
use crate::unescape_string::{unescape_spec, unescape_string};
use crate::utils::{
    read_as_view, read_until_pattern, read_until_pattern_spec, read_until_unquote,
    read_until_unquote_spec, string_from_utf8,
};

verus! {

/// The text that `bytes` encode; bytes that are not well-formed UTF-8 are
/// invalid data.
pub open spec fn text_spec(bytes: Seq<u8>, rest: Seq<u8>) -> Result<(Seq<char>, Seq<u8>), ErrorKind> {
    if valid_utf8(bytes) {
        Ok((decode_utf8(bytes), rest))
    } else {
        Err(ErrorKind::InvalidData)
    }
}

/// The string between quotes that `s` begins with, and what follows it:
/// the bytes up to the closing quote, their escapes replaced, as text.
pub open spec fn parse_string_spec(s: Seq<u8>) -> Result<(Seq<char>, Seq<u8>), ErrorKind> {
    if s.len() == 0 {
        Err(ErrorKind::UnexpectedEof)
    } else if s[0] != QUOTE {
        Err(ErrorKind::InvalidData)
    } else {
        match read_until_unquote_spec(s.skip(1)) {
            Err(kind) => Err(kind),
            Ok((raw, rest)) => match unescape_spec(raw) {
                None => Err(ErrorKind::InvalidData),
                Some(bytes) => text_spec(bytes, rest),
            },
        }
    }
}

/// The number of `#` that `s` begins with.
pub open spec fn hash_len(s: Seq<u8>) -> nat
    decreases s.len(),
{
    if s.len() == 0 || s[0] != HASH {
        0
    } else {
        1 + hash_len(s.skip(1))
    }
}

/// A quote with `n` times `#` after it: what closes a raw string.
pub open spec fn raw_closing(n: nat) -> Seq<u8> {
    seq![QUOTE] + Seq::new(n, |i: int| HASH)
}

/// The raw string that `s` begins with, and what follows it: `r`, some `#`,
/// a quote, then the bytes as they are up to the first quote with as many
/// `#` after it.
pub open spec fn parse_raw_string_spec(s: Seq<u8>) -> Result<(Seq<char>, Seq<u8>), ErrorKind> {
    if s.len() == 0 {
        Err(ErrorKind::UnexpectedEof)
    } else if s[0] != LOWER_R {
        Err(ErrorKind::InvalidData)
    } else {
        let n = hash_len(s.skip(1));
        let after = s.skip(1 + n as int);
        if after.len() == 0 {
            Err(ErrorKind::UnexpectedEof)
        } else if after[0] != QUOTE {
            Err(ErrorKind::InvalidData)
        } else {
            match read_until_pattern_spec(after.skip(1), raw_closing(n)) {
                Err(kind) => Err(kind),
                Ok((raw, rest)) => text_spec(raw, rest),
            }
        }
    }
}

/// Whether every byte of `s` is below 128.
pub open spec fn is_ascii(s: Seq<u8>) -> bool {
    forall|i: int| 0 <= i < s.len() ==> #[trigger] s[i] < 128
}

/// The byte string that `s` begins with, and what follows it: `b`, a quote,
/// then ASCII bytes up to the closing quote, their escapes replaced.
pub open spec fn parse_byte_string_spec(s: Seq<u8>) -> Result<(Seq<u8>, Seq<u8>), ErrorKind> {
    if s.len() == 0 {
        Err(ErrorKind::UnexpectedEof)
    } else if s[0] != LOWER_B {
        Err(ErrorKind::InvalidData)
    } else if s.len() == 1 {
        Err(ErrorKind::UnexpectedEof)
    } else if s[1] != QUOTE {
        Err(ErrorKind::InvalidData)
    } else {
        match read_until_unquote_spec(s.skip(2)) {
            Err(kind) => Err(kind),
            Ok((raw, rest)) => if !is_ascii(raw) {
                Err(ErrorKind::InvalidData)
            } else {
                match unescape_spec(raw) {
                    None => Err(ErrorKind::InvalidData),
                    Some(bytes) => Ok((bytes, rest)),
                }
            },
        }
    }
}

/// The text that `bytes` encode.
pub fn text_from(bytes: Vec<u8>) -> (r: Result<String, Error>)
    ensures
        match r {
            Ok(text) => valid_utf8(bytes@) && text@ == decode_utf8(bytes@),
            Err(e) => !valid_utf8(bytes@) && e.kind == ErrorKind::InvalidData,
        },
{
    match string_from_utf8(bytes) {
        Some(text) => Ok(text),
        None => Err(Error::invalid_data("got non-utf8 string")),
    }
}

/// Reads a string between quotes.
pub fn parse_string(reader: &mut PeekReader) -> (r: Result<String, Error>)
    ensures
        read_as_view(r, final(reader).remaining(), parse_string_spec(old(reader).remaining())),
        r is Ok ==> final(reader).remaining().len() < old(reader).remaining().len(),
{
    match reader.read_byte()? {
        Some(byte) => {
            if byte != QUOTE {
                return Err(Error::invalid_byte("string did not start with '\"'", byte));
            }
        },
        None => {
            return Err(Error::unexpected_eof("got EOF while parsing string"));
        },
    }
    let value_bytes: Vec<u8> = read_until_unquote(reader)?;
    let unescaped: Vec<u8> = match unescape_string(value_bytes.as_slice()) {
        Ok(bytes) => bytes,
        Err(message) => {
            return Err(Error::invalid_data(message.as_str()));
        },
    };
    text_from(unescaped)
}

/// Reads a raw string.
pub fn parse_raw_string(reader: &mut PeekReader) -> (r: Result<String, Error>)
    ensures
        read_as_view(r, final(reader).remaining(), parse_raw_string_spec(old(reader).remaining())),
        r is Ok ==> final(reader).remaining().len() < old(reader).remaining().len(),
{
    let ghost start = reader.remaining();
    match reader.read_byte()? {
        Some(byte) => {
            if byte != LOWER_R {
                return Err(Error::invalid_byte("string did not start with 'r'", byte));
            }
        },
        None => {
            return Err(Error::unexpected_eof("got EOF while parsing raw string"));
        },
    }
    let mut pattern: Vec<u8> = Vec::new();
    pattern.push(QUOTE);
    let ghost mut n: nat = 0;
    proof {
        assert(pattern@ =~= raw_closing(0));
    }
    loop
        invariant
            start == old(reader).remaining(),
            start.len() > 0,
            start[0] == LOWER_R,
            1 + n <= start.len(),
            reader.remaining() == start.skip(1 + n as int),
            pattern@ == raw_closing(n),
            n + hash_len(start.skip(1 + n as int)) == hash_len(start.skip(1)),
        ensures
            reader.remaining().len() > 0,
            reader.remaining()[0] == QUOTE,
            reader.ready() >= 1,
        decreases start.len() - n,
    {
        let ghost here = reader.remaining();
        let next: Option<u8> = reader.peek()?;
        let byte: u8 = match next {
            Some(byte) => byte,
            None => {
                return Err(Error::unexpected_eof("got EOF while parsing raw string"));
            },
        };
        if byte == QUOTE {
            break ;
        }
        if byte != HASH {
            return Err(Error::invalid_byte("got invalid char in beginning of raw string", byte));
        }
        reader.consume(1);
        pattern.push(HASH);
        proof {
            assert(here.skip(1) =~= start.skip(1 + (n + 1) as int));
            assert(pattern@ =~= raw_closing(n + 1));
            n = n + 1;
        }
    }
    reader.consume(1);
    let value_bytes: Vec<u8> = read_until_pattern(reader, pattern.as_slice())?;
    text_from(value_bytes)
}

/// Whether every byte of `bytes` is below 128.
pub fn all_ascii(bytes: &[u8]) -> (r: bool)
    ensures
        r == is_ascii(bytes@),
{
    let n: usize = bytes.len();
    let mut i: usize = 0;
    while i < n
        invariant
            i <= n,
            n == bytes@.len(),
            forall|j: int| 0 <= j < i ==> #[trigger] bytes@[j] < 128,
        decreases n - i,
    {
        if bytes[i] >= 128 {
            return false;
        }
        i = i + 1;
    }
    true
}

/// Reads a byte string.
pub fn parse_byte_string(reader: &mut PeekReader) -> (r: Result<Vec<u8>, Error>)
    ensures
        read_as_view(r, final(reader).remaining(), parse_byte_string_spec(old(reader).remaining())),
        r is Ok ==> final(reader).remaining().len() < old(reader).remaining().len(),
{
    let ghost start = reader.remaining();
    match reader.read_byte()? {
        Some(byte) => {
            if byte != LOWER_B {
                return Err(Error::invalid_byte("string did not start with 'b\"'", byte));
            }
        },
        None => {
            return Err(Error::unexpected_eof("got EOF while parsing byte string"));
        },
    }
    match reader.read_byte()? {
        Some(byte) => {
            if byte != QUOTE {
                return Err(Error::invalid_byte("string did not start with 'b\"'", byte));
            }
        },
        None => {
            return Err(Error::unexpected_eof("got EOF while parsing byte string"));
        },
    }
    proof {
        assert(start.skip(1).skip(1) =~= start.skip(2));
    }
    let value_bytes: Vec<u8> = read_until_unquote(reader)?;
    if !all_ascii(value_bytes.as_slice()) {
        return Err(Error::invalid_data("got non-ascii value in byte string"));
    }
    match unescape_string(value_bytes.as_slice()) {
        Ok(bytes) => Ok(bytes),
        Err(message) => Err(Error::invalid_data(message.as_str())),
    }
}

/// Reads a string of several lines, which begins with `|`. The grammar
/// inside such a string is not part of this crate: every one is invalid data.
pub fn parse_multi_line_string(reader: &mut PeekReader) -> (r: Result<String, Error>)
    ensures
        r matches Err(e) && e.kind == ErrorKind::InvalidData,
        final(reader).remaining() == old(reader).remaining(),
{
    Err(Error::invalid_data("multi-line strings are not supported"))
}

} // verus!
