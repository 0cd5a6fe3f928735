//! Reading up to a closing quote or a closing pattern, and the conversions
//! between bytes and text.

use vstd::prelude::*;
use vstd::utf8::{decode_utf8, is_scalar, valid_utf8};
use crate::ascii::{BACKSLASH, QUOTE};
use crate::error::{Error, ErrorKind};
use crate::peek_reader::PeekReader;

verus! {

/// The character with the number of `byte`.
pub fn to_char(byte: u8) -> (c: char)
    ensures
        c as u32 == byte as u32,
{
    byte as char
}

/// The text that `bytes` encode, where they are well-formed UTF-8, as
/// `String::from_utf8` gives it; `None` where they are not.
#[verifier::external_body]
pub(crate) fn string_from_utf8(bytes: Vec<u8>) -> (text: Option<String>)
    ensures
        text is Some <==> valid_utf8(bytes@),
        text matches Some(s) ==> s@ == decode_utf8(bytes@),
{
    match String::from_utf8(bytes) {
        Ok(text) => Some(text),
        Err(_) => None,
    }
}

/// The character with the number `value`, as `char::from_u32` gives it:
/// there is one for each Unicode scalar value and for no other number.
#[verifier::external_body]
pub(crate) fn char_from_u32(value: u32) -> (found: Option<char>)
    ensures
        found is Some <==> is_scalar(value),
        found matches Some(c) ==> c as u32 == value,
{
    char::from_u32(value)
}

/// The place in `s` of the first quote that no backslash stands before.
/// `escaped` says whether a backslash stands before `s` itself.
pub open spec fn closing_quote(s: Seq<u8>, escaped: bool) -> Option<nat>
    decreases s.len(),
{
    if s.len() == 0 {
        None
    } else if s[0] == QUOTE && !escaped {
        Some(0)
    } else {
        match closing_quote(s.skip(1), s[0] == BACKSLASH) {
            Some(i) => Some(i + 1),
            None => None,
        }
    }
}

/// The bytes of `s` before its closing quote, and those after it. Input
/// without a closing quote ends too early.
pub open spec fn read_until_unquote_spec(s: Seq<u8>) -> Result<(Seq<u8>, Seq<u8>), ErrorKind> {
    match closing_quote(s, false) {
        Some(i) => Ok((s.take(i as int), s.skip(i as int + 1))),
        None => Err(ErrorKind::UnexpectedEof),
    }
}

/// Whether a backslash stands before place `j` of `s`; before place 0,
/// `escaped` says so.
pub open spec fn backslash_before(s: Seq<u8>, escaped: bool, j: int) -> bool {
    if j == 0 {
        escaped
    } else {
        s[j - 1] == BACKSLASH
    }
}

/// The closing quote is a quote without a backslash before it, and every
/// quote before it has one.
pub proof fn lemma_closing_quote(s: Seq<u8>, escaped: bool)
    ensures
        closing_quote(s, escaped) matches Some(i) ==> {
            &&& i < s.len()
            &&& s[i as int] == QUOTE
            &&& i > 0 ==> s[i - 1] != BACKSLASH
            &&& i == 0 ==> !escaped
            &&& forall|j: int|
                0 <= j < i && #[trigger] s[j] == QUOTE ==> backslash_before(s, escaped, j)
        },
        closing_quote(s, escaped) is None ==> forall|j: int|
            0 <= j < s.len() && #[trigger] s[j] == QUOTE ==> backslash_before(s, escaped, j),
    decreases s.len(),
{
    if s.len() == 0 {
    } else if s[0] == QUOTE && !escaped {
    } else {
        let t = s.skip(1);
        lemma_closing_quote(t, s[0] == BACKSLASH);
        assert(forall|j: int| 0 <= j < t.len() ==> t[j] == s[j + 1]);
        match closing_quote(t, s[0] == BACKSLASH) {
            Some(i) => {
                assert forall|j: int| 0 <= j < i + 1 && #[trigger] s[j] == QUOTE implies backslash_before(
                    s,
                    escaped,
                    j,
                ) by {
                    if j > 0 {
                        assert(t[j - 1] == QUOTE);
                    }
                }
            },
            None => {
                assert forall|j: int| 0 <= j < s.len() && #[trigger] s[j] == QUOTE implies backslash_before(
                    s,
                    escaped,
                    j,
                ) by {
                    if j > 0 {
                        assert(t[j - 1] == QUOTE);
                    }
                }
            },
        }
    }
}

/// Whether `r` and the bytes `left` in the reader are what `expected` asks
/// for: a value with the view and the rest after success, an error of the
/// kind after failure.
pub open spec fn read_as_view<T: View>(
    r: Result<T, Error>,
    left: Seq<u8>,
    expected: Result<(T::V, Seq<u8>), ErrorKind>,
) -> bool {
    match expected {
        Ok((value, rest)) => r matches Ok(v) && v@ == value && left == rest,
        Err(kind) => r matches Err(e) && e.kind == kind,
    }
}

/// Read from `reader` until a not-escaped quote is reached. The final quote
/// is read but not returned.
pub fn read_until_unquote(reader: &mut PeekReader) -> (r: Result<Vec<u8>, Error>)
    ensures
        read_as_view(r, final(reader).remaining(), read_until_unquote_spec(old(reader).remaining())),
        r is Ok ==> final(reader).remaining().len() < old(reader).remaining().len(),
{
    let ghost start = reader.remaining();
    let mut value: Vec<u8> = Vec::new();
    let mut escaped: bool = false;
    loop
        invariant
            start == old(reader).remaining(),
            value@.len() <= start.len(),
            value@ == start.take(value@.len() as int),
            reader.remaining() == start.skip(value@.len() as int),
            closing_quote(start, false) == match closing_quote(reader.remaining(), escaped) {
                Some(i) => Some(i + value@.len()),
                None => None,
            },
        decreases reader.remaining().len(),
    {
        let ghost rem = reader.remaining();
        let next: Option<u8> = reader.read_byte()?;
        match next {
            None => {
                return Err(Error::unexpected_eof("found no unquote"));
            },
            Some(byte) => {
                if byte == QUOTE && !escaped {
                    assert(start.skip(value@.len() as int).skip(1) =~= start.skip(
                        value@.len() as int + 1,
                    ));
                    return Ok(value);
                }
                proof {
                    assert(start.skip(value@.len() as int).skip(1) =~= start.skip(
                        value@.len() as int + 1,
                    ));
                    assert(start.take(value@.len() as int).push(byte) =~= start.take(
                        value@.len() as int + 1,
                    ));
                }
                value.push(byte);
                escaped = byte == BACKSLASH;
            },
        }
    }
}

/// Whether `pattern` stands at the start of `s`.
pub open spec fn starts_with(s: Seq<u8>, pattern: Seq<u8>) -> bool {
    pattern.len() <= s.len() && s.take(pattern.len() as int) == pattern
}

/// The place in `s` where the first occurrence of `pattern` ends.
pub open spec fn pattern_end(s: Seq<u8>, pattern: Seq<u8>) -> Option<nat>
    decreases s.len(),
{
    if starts_with(s, pattern) {
        Some(pattern.len())
    } else if s.len() == 0 {
        None
    } else {
        match pattern_end(s.skip(1), pattern) {
            Some(k) => Some(k + 1),
            None => None,
        }
    }
}

/// The bytes of `s` before the first occurrence of `pattern`, and those
/// after it. Input without the pattern ends too early.
pub open spec fn read_until_pattern_spec(s: Seq<u8>, pattern: Seq<u8>) -> Result<
    (Seq<u8>, Seq<u8>),
    ErrorKind,
> {
    match pattern_end(s, pattern) {
        Some(k) => Ok((s.take(k - pattern.len()), s.skip(k as int))),
        None => Err(ErrorKind::UnexpectedEof),
    }
}

/// Whether an occurrence of `pattern` in `s` ends at place `end`.
pub open spec fn ends_at(s: Seq<u8>, pattern: Seq<u8>, end: int) -> bool {
    pattern.len() <= end <= s.len() && s.subrange(end - pattern.len(), end) == pattern
}

/// The first occurrence of a pattern ends where `pattern_end` says, and
/// none ends before.
pub proof fn lemma_pattern_end(s: Seq<u8>, pattern: Seq<u8>)
    ensures
        pattern_end(s, pattern) matches Some(k) ==> ends_at(s, pattern, k as int) && forall|e: int|
            e < k ==> !ends_at(s, pattern, e),
        pattern_end(s, pattern) is None ==> forall|e: int| !ends_at(s, pattern, e),
    decreases s.len(),
{
    let m = pattern.len() as int;
    if starts_with(s, pattern) {
        assert(s.subrange(0, m) =~= s.take(m));
    } else if s.len() == 0 {
        assert forall|e: int| !ends_at(s, pattern, e) by {
            if ends_at(s, pattern, e) {
                assert(s.take(m) =~= s.subrange(e - m, e));
            }
        }
    } else {
        let t = s.skip(1);
        lemma_pattern_end(t, pattern);
        assert forall|e: int| ends_at(s, pattern, e) implies e - m >= 1 && ends_at(
            t,
            pattern,
            e - 1,
        ) by {
            if e - m == 0 {
                assert(s.take(m) =~= s.subrange(0, e));
            }
            assert(t.subrange(e - 1 - m, e - 1) =~= s.subrange(e - m, e));
        }
        match pattern_end(t, pattern) {
            Some(k) => {
                assert(s.subrange(k as int + 1 - m, k as int + 1) =~= t.subrange(k - m, k as int));
            },
            None => {},
        }
    }
}

/// Whether `value` ends in `pattern`.
pub fn ends_with(value: &Vec<u8>, pattern: &[u8]) -> (r: bool)
    ensures
        r == ends_at(value@, pattern@, value@.len() as int),
{
    let n: usize = value.len();
    let m: usize = pattern.len();
    if m > n {
        return false;
    }
    let mut i: usize = 0;
    while i < m
        invariant
            m <= n,
            n == value@.len(),
            m == pattern@.len(),
            i <= m,
            forall|j: int| 0 <= j < i ==> value@[n - m + j] == pattern@[j],
        decreases m - i,
    {
        if value[n - m + i] != pattern[i] {
            assert(value@.subrange(n - m, n as int)[i as int] != pattern@[i as int]);
            return false;
        }
        i = i + 1;
    }
    assert(value@.subrange(n - m, n as int) =~= pattern@);
    true
}

/// Read from `reader` until a specified pattern (string of bytes) is
/// reached. The pattern is read but not returned.
pub fn read_until_pattern(reader: &mut PeekReader, pattern: &[u8]) -> (r: Result<Vec<u8>, Error>)
    ensures
        read_as_view(
            r,
            final(reader).remaining(),
            read_until_pattern_spec(old(reader).remaining(), pattern@),
        ),
        r is Ok ==> final(reader).remaining().len() <= old(reader).remaining().len(),
{
    let ghost start = reader.remaining();
    let m: usize = pattern.len();
    let mut value: Vec<u8> = Vec::new();
    proof {
        lemma_pattern_end(start, pattern@);
    }
    loop
        invariant
            start == old(reader).remaining(),
            m == pattern@.len(),
            value@.len() <= start.len(),
            value@ == start.take(value@.len() as int),
            reader.remaining() == start.skip(value@.len() as int),
            forall|e: int| e < value@.len() ==> !ends_at(start, pattern@, e),
            pattern_end(start, pattern@) matches Some(k) ==> ends_at(start, pattern@, k as int)
                && forall|e: int| e < k ==> !ends_at(start, pattern@, e),
            pattern_end(start, pattern@) is None ==> forall|e: int| !ends_at(start, pattern@, e),
        decreases reader.remaining().len(),
    {
        let ghost n = value@.len() as int;
        if ends_with(&value, pattern) {
            proof {
                assert(start.subrange(n - m, n) =~= value@.subrange(n - m, n));
                assert(ends_at(start, pattern@, n));
                assert(start.take(n - m) =~= value@.take(n - m));
            }
            value.truncate(value.len() - m);
            return Ok(value);
        }
        proof {
            if ends_at(start, pattern@, n) {
                assert(start.subrange(n - m, n) =~= value@.subrange(n - m, n));
            }
        }
        let next: Option<u8> = reader.read_byte()?;
        match next {
            None => {
                return Err(Error::unexpected_eof("pattern not found"));
            },
            Some(byte) => {
                proof {
                    assert(start.skip(n).skip(1) =~= start.skip(n + 1));
                    assert(start.take(n).push(byte) =~= start.take(n + 1));
                }
                value.push(byte);
            },
        }
    }
}

/// The characters with the numbers of `bytes`.
pub open spec fn ascii_chars(bytes: Seq<u8>) -> Seq<char> {
    Seq::new(bytes.len(), |i: int| bytes[i] as char)
}

/// Bytes below 128 are well-formed UTF-8, one character each.
pub proof fn lemma_ascii_is_utf8(bytes: Seq<u8>)
    requires
        forall|i: int| 0 <= i < bytes.len() ==> #[trigger] bytes[i] < 128,
    ensures
        valid_utf8(bytes),
        decode_utf8(bytes) == ascii_chars(bytes),
        vstd::utf8::encode_utf8(ascii_chars(bytes)) == bytes,
{
    let chars = ascii_chars(bytes);
    assert(vstd::utf8::is_ascii_chars(chars)) by {
        assert forall|i: int| 0 <= i < chars.len() implies '\0' <= #[trigger] chars[i]
            <= '\u{7f}' by {
            assert(bytes[i] < 128);
        }
    }
    vstd::utf8::is_ascii_chars_encode_utf8(chars);
    let encoded = vstd::utf8::encode_utf8(chars);
    assert(encoded =~= bytes) by {
        assert forall|i: int| 0 <= i < bytes.len() implies encoded[i] == bytes[i] by {
            assert(chars[i] as u8 == encoded[i]);
            assert(bytes[i] < 128);
        }
    }
    vstd::utf8::encode_utf8_valid_utf8(chars);
    vstd::utf8::encode_utf8_decode_utf8(chars);
}

} // verus!
