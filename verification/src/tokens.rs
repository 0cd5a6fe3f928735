//! The tokens of a document. What is read as a string, a number, a word
//! or a key stands at the start of the input as a text of its own, and
//! that text is read as the same before anything that can follow it.

use vstd::prelude::*;
use vstd::utf8::decode_utf8;
use crate::ascii::{BACKSLASH, COLON, DIGIT_0, HASH, LOWER_R, MINUS, PLUS, QUOTE};
use crate::deserialize::number::{
    base_of, base_run_len, is_base_run_byte, is_run_byte, parse_number_spec, run_len,
    strip_separators,
};
use crate::deserialize::string::{
    hash_len, parse_byte_string_spec, parse_raw_string_spec, parse_string_spec, raw_closing,
};
use crate::deserialize::value::{
    identifier_len, is_identifier_byte, is_number_start, keyword_spec, parse_identifier_spec,
    parse_value_spec,
};
use crate::error::ErrorKind;
use crate::layout::{after_key, reads_key};
use crate::number::NumberView;
use crate::round_trip::{lemma_word_back, stops};
use crate::serialize::{is_bare_key, lemma_identifier_len_bound};
use crate::shape::{is_token, key_of, token_value};
use crate::utils::{
    closing_quote, lemma_pattern_end, pattern_end, read_until_unquote_spec, starts_with,
};
use crate::value::ValueView;

verus! {

/// The closing quote of `x` closes it whatever follows.
pub proof fn lemma_closing_quote_before(x: Seq<u8>, y: Seq<u8>, escaped: bool)
    requires
        closing_quote(x, escaped) is Some,
    ensures
        closing_quote(x + y, escaped) == closing_quote(x, escaped),
        closing_quote(x, escaped)->0 < x.len(),
    decreases x.len(),
{
    if x[0] == QUOTE && !escaped {
        assert((x + y)[0] == x[0]);
    } else {
        assert((x + y)[0] == x[0]);
        assert((x + y).skip(1) =~= x.skip(1) + y);
        lemma_closing_quote_before(x.skip(1), y, x[0] == BACKSLASH);
    }
}

/// What is read up to the closing quote of `x` is read whatever follows.
pub proof fn lemma_unquote_before(x: Seq<u8>, y: Seq<u8>)
    requires
        read_until_unquote_spec(x) is Ok,
    ensures
        read_until_unquote_spec(x + y) == Ok::<(Seq<u8>, Seq<u8>), ErrorKind>(
            (read_until_unquote_spec(x)->Ok_0.0, read_until_unquote_spec(x)->Ok_0.1 + y),
        ),
{
    lemma_closing_quote_before(x, y, false);
    let i = closing_quote(x, false)->0 as int;
    assert((x + y).take(i) =~= x.take(i));
    assert((x + y).skip(i + 1) =~= x.skip(i + 1) + y);
}

/// A string is read the same whatever follows it.
pub proof fn lemma_string_before(x: Seq<u8>, y: Seq<u8>)
    requires
        parse_string_spec(x) is Ok,
    ensures
        parse_string_spec(x + y) == Ok::<(Seq<char>, Seq<u8>), ErrorKind>(
            (parse_string_spec(x)->Ok_0.0, parse_string_spec(x)->Ok_0.1 + y),
        ),
{
    assert((x + y)[0] == x[0]);
    assert((x + y).skip(1) =~= x.skip(1) + y);
    lemma_unquote_before(x.skip(1), y);
}

/// A string between quotes is a token, and stands for its text.
pub proof fn lemma_string_is_token(text: Seq<u8>)
    requires
        parse_string_spec(text) matches Ok((_, rest)) && rest.len() == 0,
    ensures
        is_token(text),
        token_value(text) == ValueView::String(parse_string_spec(text)->Ok_0.0),
{
    let value = ValueView::String(parse_string_spec(text)->Ok_0.0);
    let nothing = Seq::<u8>::empty();
    assert(parse_string_spec(text)->Ok_0.1 =~= nothing);
    assert forall|rest: Seq<u8>, depth: nat| depth >= 1 implies #[trigger] parse_value_spec(
        text + rest,
        depth,
        false,
    ) == Ok::<(ValueView, Seq<u8>), ErrorKind>((value, rest)) by {
        lemma_string_before(text, rest);
        assert((text + rest)[0] == QUOTE);
        assert(nothing + rest =~= rest);
    }
    assert(text + nothing =~= text);
    assert(token_value(text) == value);
}

/// A string between quotes reads as a key, and stands for its text.
pub proof fn lemma_string_is_key(text: Seq<u8>)
    requires
        parse_string_spec(text) matches Ok((_, rest)) && rest.len() == 0,
    ensures
        key_of(text) == parse_string_spec(text)->Ok_0.0,
        reads_key(text, key_of(text)),
{
    let key = parse_string_spec(text)->Ok_0.0;
    let nothing = Seq::<u8>::empty();
    assert(parse_string_spec(text)->Ok_0.1 =~= nothing);
    assert forall|tail: Seq<u8>|
        parse_identifier_spec(#[trigger] (text + tail)) == Ok::<
            (Seq<char>, Seq<u8>),
            ErrorKind,
        >((key, tail)) by {
        lemma_string_before(text, tail);
        assert((text + tail)[0] == QUOTE);
        assert(nothing + tail =~= tail);
    }
    assert(after_key(seq![COLON]));
}

/// A word reads as a key, and stands for itself.
pub proof fn lemma_word_is_key(text: Seq<u8>)
    requires
        is_bare_key(text),
    ensures
        key_of(text) == decode_utf8(text),
        reads_key(text, key_of(text)),
{
    assert forall|tail: Seq<u8>| after_key(tail) implies
        parse_identifier_spec(#[trigger] (text + tail)) == Ok::<
            (Seq<char>, Seq<u8>),
            ErrorKind,
        >((decode_utf8(text), tail)) by {
        lemma_word_back(text, tail);
    }
    assert(after_key(seq![COLON]));
}

proof fn lemma_run_before(t: Seq<u8>, rest: Seq<u8>)
    requires
        run_len(t) >= t.len(),
        stops(rest),
    ensures
        run_len(t) == t.len(),
        run_len(t + rest) == t.len(),
    decreases t.len(),
{
    if t.len() == 0 {
        assert(t + rest =~= rest);
    } else {
        assert((t + rest)[0] == t[0]);
        assert((t + rest).skip(1) =~= t.skip(1) + rest);
        lemma_run_before(t.skip(1), rest);
    }
}

proof fn lemma_base_run_before(t: Seq<u8>, rest: Seq<u8>, base: u8)
    requires
        base_run_len(t, base) >= t.len(),
        stops(rest),
    ensures
        base_run_len(t, base) == t.len(),
        base_run_len(t + rest, base) == t.len(),
    decreases t.len(),
{
    if t.len() == 0 {
        assert(t + rest =~= rest);
    } else {
        assert((t + rest)[0] == t[0]);
        assert((t + rest).skip(1) =~= t.skip(1) + rest);
        lemma_base_run_before(t.skip(1), rest, base);
    }
}

/// A number is read the same before anything that can follow a value.
pub proof fn lemma_number_before(x: Seq<u8>, rest: Seq<u8>)
    requires
        parse_number_spec(x) matches Ok((_, left)) && left.len() == 0,
        stops(rest),
    ensures
        parse_number_spec(x + rest) == Ok::<(NumberView, Seq<u8>), ErrorKind>(
            (parse_number_spec(x)->Ok_0.0, rest),
        ),
{
    let s = x + rest;
    assert(s[0] == x[0]);
    let signed = x[0] == PLUS || x[0] == MINUS;
    let t = if signed {
        x.skip(1)
    } else {
        x
    };
    let u = if signed {
        s.skip(1)
    } else {
        s
    };
    assert(u =~= t + rest);
    assert(u[0] == t[0]);
    if t[0] == DIGIT_0 && t.len() >= 2 && base_of(t[1]) is Some {
        let base = base_of(t[1])->0;
        let digits = t.skip(2);
        assert(u[1] == t[1]);
        assert(u.skip(2) =~= digits + rest);
        assert((digits + rest)[0] == digits[0]);
        let n = base_run_len(digits, base);
        if n < digits.len() {
            assert(digits.skip(n as int).len() > 0);
        }
        lemma_base_run_before(digits, rest, base);
        assert((digits + rest).take(n as int) =~= digits.take(n as int));
        assert((digits + rest).skip(n as int) =~= rest);
    } else {
        if t.len() == 1 && rest.len() > 0 {
            assert(u[1] == rest[0]);
        }
        let n = run_len(t);
        if n < t.len() {
            assert(t.skip(n as int).len() > 0);
        }
        lemma_run_before(t, rest);
        assert(u.take(n as int) =~= t.take(n as int));
        assert(u.skip(n as int) =~= rest);
    }
}

/// A number is a token, and stands for what it is read as.
pub proof fn lemma_number_is_token(text: Seq<u8>)
    requires
        text.len() > 0,
        is_number_start(text[0]),
        parse_number_spec(text) matches Ok((_, left)) && left.len() == 0,
    ensures
        is_token(text),
        token_value(text) == ValueView::Number(parse_number_spec(text)->Ok_0.0),
{
    let value = ValueView::Number(parse_number_spec(text)->Ok_0.0);
    let nothing = Seq::<u8>::empty();
    assert forall|rest: Seq<u8>, depth: nat| depth >= 1 && stops(rest) implies #[trigger]
        parse_value_spec(text + rest, depth, false) == Ok::<(ValueView, Seq<u8>), ErrorKind>(
        (value, rest),
    ) by {
        lemma_number_before(text, rest);
        assert((text + rest)[0] == text[0]);
    }
    assert(text + nothing =~= text);
    assert(stops(nothing));
    assert(token_value(text) == value);
}

/// A byte string is read the same whatever follows it.
pub proof fn lemma_byte_string_before(x: Seq<u8>, y: Seq<u8>)
    requires
        parse_byte_string_spec(x) is Ok,
    ensures
        parse_byte_string_spec(x + y) == Ok::<(Seq<u8>, Seq<u8>), ErrorKind>(
            (parse_byte_string_spec(x)->Ok_0.0, parse_byte_string_spec(x)->Ok_0.1 + y),
        ),
{
    assert((x + y)[0] == x[0]);
    assert((x + y)[1] == x[1]);
    assert((x + y).skip(2) =~= x.skip(2) + y);
    lemma_unquote_before(x.skip(2), y);
}

/// A byte string is a token, and stands for its bytes.
pub proof fn lemma_byte_string_is_token(text: Seq<u8>)
    requires
        parse_byte_string_spec(text) matches Ok((_, left)) && left.len() == 0,
    ensures
        is_token(text),
        token_value(text) == ValueView::ByteString(parse_byte_string_spec(text)->Ok_0.0),
{
    let value = ValueView::ByteString(parse_byte_string_spec(text)->Ok_0.0);
    let nothing = Seq::<u8>::empty();
    assert(parse_byte_string_spec(text)->Ok_0.1 =~= nothing);
    assert forall|rest: Seq<u8>, depth: nat| depth >= 1 implies #[trigger] parse_value_spec(
        text + rest,
        depth,
        false,
    ) == Ok::<(ValueView, Seq<u8>), ErrorKind>((value, rest)) by {
        lemma_byte_string_before(text, rest);
        assert((text + rest)[0] == text[0]);
        assert((text + rest)[1] == text[1]);
        assert(nothing + rest =~= rest);
    }
    assert(text + nothing =~= text);
    assert(token_value(text) == value);
}

proof fn lemma_hash_len_bound(a: Seq<u8>)
    ensures
        hash_len(a) <= a.len(),
    decreases a.len(),
{
    if a.len() > 0 && a[0] == HASH {
        lemma_hash_len_bound(a.skip(1));
    }
}

proof fn lemma_hashes_before(a: Seq<u8>, y: Seq<u8>)
    requires
        hash_len(a) < a.len(),
    ensures
        hash_len(a + y) == hash_len(a),
    decreases a.len(),
{
    assert((a + y)[0] == a[0]);
    if a[0] == HASH {
        assert((a + y).skip(1) =~= a.skip(1) + y);
        lemma_hashes_before(a.skip(1), y);
    }
}

/// The first occurrence of a pattern in `x` is the first whatever follows.
pub proof fn lemma_pattern_before(x: Seq<u8>, y: Seq<u8>, pattern: Seq<u8>)
    requires
        pattern_end(x, pattern) is Some,
    ensures
        pattern_end(x + y, pattern) == pattern_end(x, pattern),
        pattern.len() <= pattern_end(x, pattern)->0 <= x.len(),
    decreases x.len(),
{
    let m = pattern.len() as int;
    lemma_pattern_end(x, pattern);
    assert((x + y).take(m) =~= x.take(m));
    if !starts_with(x, pattern) {
        assert((x + y).skip(1) =~= x.skip(1) + y);
        lemma_pattern_before(x.skip(1), y, pattern);
    }
}

/// A raw string is read the same whatever follows it.
pub proof fn lemma_raw_string_before(x: Seq<u8>, y: Seq<u8>)
    requires
        parse_raw_string_spec(x) is Ok,
    ensures
        parse_raw_string_spec(x + y) == Ok::<(Seq<char>, Seq<u8>), ErrorKind>(
            (parse_raw_string_spec(x)->Ok_0.0, parse_raw_string_spec(x)->Ok_0.1 + y),
        ),
        x.len() >= 2,
        x[0] == LOWER_R,
        x[1] == QUOTE || x[1] == HASH,
{
    let s = x + y;
    let n = hash_len(x.skip(1));
    assert(s[0] == x[0]);
    assert(s.skip(1) =~= x.skip(1) + y);
    lemma_hash_len_bound(x.skip(1));
    let after = x.skip(1 + n as int);
    lemma_hashes_before(x.skip(1), y);
    assert(s.skip(1 + n as int) =~= after + y);
    assert((after + y)[0] == after[0]);
    assert((after + y).skip(1) =~= after.skip(1) + y);
    let inside = after.skip(1);
    let pattern = raw_closing(n);
    lemma_pattern_before(inside, y, pattern);
    let k = pattern_end(inside, pattern)->0 as int;
    assert((inside + y).take(k - pattern.len()) =~= inside.take(k - pattern.len()));
    assert((inside + y).skip(k) =~= inside.skip(k) + y);
    if n == 0 {
        assert(x[1] == after[0]);
    } else {
        assert(x.skip(1)[0] == HASH);
    }
}

/// A raw string is a token, and stands for its text.
pub proof fn lemma_raw_string_is_token(text: Seq<u8>)
    requires
        parse_raw_string_spec(text) matches Ok((_, left)) && left.len() == 0,
    ensures
        is_token(text),
        token_value(text) == ValueView::String(parse_raw_string_spec(text)->Ok_0.0),
{
    let value = ValueView::String(parse_raw_string_spec(text)->Ok_0.0);
    let nothing = Seq::<u8>::empty();
    assert(parse_raw_string_spec(text)->Ok_0.1 =~= nothing);
    lemma_raw_string_before(text, nothing);
    assert forall|rest: Seq<u8>, depth: nat| depth >= 1 implies #[trigger] parse_value_spec(
        text + rest,
        depth,
        false,
    ) == Ok::<(ValueView, Seq<u8>), ErrorKind>((value, rest)) by {
        lemma_raw_string_before(text, rest);
        assert((text + rest)[0] == text[0]);
        assert((text + rest)[1] == text[1]);
        assert(nothing + rest =~= rest);
    }
    assert(text + nothing =~= text);
    assert(token_value(text) == value);
}

proof fn lemma_closing_quote_alone(s: Seq<u8>, escaped: bool)
    requires
        closing_quote(s, escaped) is Some,
    ensures
        closing_quote(s, escaped)->0 < s.len(),
        closing_quote(s.take(closing_quote(s, escaped)->0 as int + 1), escaped) == closing_quote(
            s,
            escaped,
        ),
    decreases s.len(),
{
    let i = closing_quote(s, escaped)->0 as int;
    let x = s.take(i + 1);
    if s[0] == QUOTE && !escaped {
        assert(x[0] == s[0]);
    } else {
        lemma_closing_quote_alone(s.skip(1), s[0] == BACKSLASH);
        assert(x[0] == s[0]);
        assert(x.skip(1) =~= s.skip(1).take(i));
    }
}

proof fn lemma_unquote_alone(s: Seq<u8>) -> (n: int)
    requires
        read_until_unquote_spec(s) is Ok,
    ensures
        0 < n <= s.len(),
        s.skip(n) == read_until_unquote_spec(s)->Ok_0.1,
        read_until_unquote_spec(s.take(n)) == Ok::<(Seq<u8>, Seq<u8>), ErrorKind>(
            (read_until_unquote_spec(s)->Ok_0.0, Seq::empty()),
        ),
{
    lemma_closing_quote_alone(s, false);
    let i = closing_quote(s, false)->0 as int;
    assert(s.take(i + 1).take(i) =~= s.take(i));
    assert(s.take(i + 1).skip(i + 1) =~= Seq::<u8>::empty());
    i + 1
}

/// A string that is read stands at the start of the input as a token:
/// the input is the token and then what is left.
pub proof fn lemma_string_read(s: Seq<u8>) -> (text: Seq<u8>)
    requires
        parse_string_spec(s) is Ok,
    ensures
        s == text + parse_string_spec(s)->Ok_0.1,
        parse_string_spec(text) == Ok::<(Seq<char>, Seq<u8>), ErrorKind>(
            (parse_string_spec(s)->Ok_0.0, Seq::empty()),
        ),
{
    let n = lemma_unquote_alone(s.skip(1));
    let text = s.take(n + 1);
    assert(text[0] == s[0]);
    assert(text.skip(1) =~= s.skip(1).take(n));
    assert(s.skip(1).skip(n) =~= s.skip(n + 1));
    assert(s =~= text + s.skip(n + 1));
    text
}

/// A byte string that is read stands at the start of the input as a token.
pub proof fn lemma_byte_string_read(s: Seq<u8>) -> (text: Seq<u8>)
    requires
        parse_byte_string_spec(s) is Ok,
    ensures
        s == text + parse_byte_string_spec(s)->Ok_0.1,
        parse_byte_string_spec(text) == Ok::<(Seq<u8>, Seq<u8>), ErrorKind>(
            (parse_byte_string_spec(s)->Ok_0.0, Seq::empty()),
        ),
{
    let n = lemma_unquote_alone(s.skip(2));
    let text = s.take(n + 2);
    assert(text[0] == s[0]);
    assert(text[1] == s[1]);
    assert(text.skip(2) =~= s.skip(2).take(n));
    assert(s.skip(2).skip(n) =~= s.skip(n + 2));
    assert(s =~= text + s.skip(n + 2));
    text
}

proof fn lemma_hashes_alone(a: Seq<u8>, m: int)
    requires
        hash_len(a) < m <= a.len(),
    ensures
        hash_len(a.take(m)) == hash_len(a),
    decreases a.len(),
{
    assert(a.take(m)[0] == a[0]);
    if a[0] == HASH {
        assert(a.take(m).skip(1) =~= a.skip(1).take(m - 1));
        lemma_hashes_alone(a.skip(1), m - 1);
    }
}

proof fn lemma_pattern_alone(x: Seq<u8>, pattern: Seq<u8>)
    requires
        pattern_end(x, pattern) is Some,
    ensures
        pattern.len() <= pattern_end(x, pattern)->0 <= x.len(),
        pattern_end(x.take(pattern_end(x, pattern)->0 as int), pattern) == pattern_end(x, pattern),
    decreases x.len(),
{
    let m = pattern.len() as int;
    let k = pattern_end(x, pattern)->0 as int;
    lemma_pattern_end(x, pattern);
    assert(x.take(k).take(m) =~= x.take(m));
    if !starts_with(x, pattern) {
        lemma_pattern_alone(x.skip(1), pattern);
        assert(x.take(k).skip(1) =~= x.skip(1).take(k - 1));
    }
}

/// A raw string that is read stands at the start of the input as a token.
pub proof fn lemma_raw_string_read(s: Seq<u8>) -> (text: Seq<u8>)
    requires
        parse_raw_string_spec(s) is Ok,
    ensures
        s == text + parse_raw_string_spec(s)->Ok_0.1,
        parse_raw_string_spec(text) == Ok::<(Seq<char>, Seq<u8>), ErrorKind>(
            (parse_raw_string_spec(s)->Ok_0.0, Seq::empty()),
        ),
{
    let n = hash_len(s.skip(1)) as int;
    lemma_hash_len_bound(s.skip(1));
    let after = s.skip(1 + n);
    let inside = after.skip(1);
    let pattern = raw_closing(n as nat);
    lemma_pattern_alone(inside, pattern);
    let k = pattern_end(inside, pattern)->0 as int;
    let text = s.take(n + 2 + k);
    assert(text[0] == s[0]);
    assert(text.skip(1) =~= s.skip(1).take(n + 1 + k));
    lemma_hashes_alone(s.skip(1), n + 1 + k);
    assert(text.skip(1 + n) =~= after.take(1 + k));
    assert(after.take(1 + k)[0] == after[0]);
    assert(after.take(1 + k).skip(1) =~= inside.take(k));
    assert(inside.take(k).take(k - pattern.len()) =~= inside.take(k - pattern.len()));
    assert(inside.take(k).skip(k) =~= Seq::<u8>::empty());
    assert(inside.skip(k) =~= s.skip(n + 2 + k));
    assert(s =~= text + s.skip(n + 2 + k));
    text
}

proof fn lemma_run_alone(t: Seq<u8>)
    ensures
        run_len(t) <= t.len(),
        run_len(t.take(run_len(t) as int)) == run_len(t),
    decreases t.len(),
{
    if t.len() > 0 && is_run_byte(t[0]) {
        lemma_run_alone(t.skip(1));
        let n = run_len(t) as int;
        assert(t.take(n)[0] == t[0]);
        assert(t.take(n).skip(1) =~= t.skip(1).take(n - 1));
    } else {
        assert(t.take(0) =~= Seq::<u8>::empty());
    }
}

proof fn lemma_base_run_alone(t: Seq<u8>, base: u8)
    ensures
        base_run_len(t, base) <= t.len(),
        base_run_len(t.take(base_run_len(t, base) as int), base) == base_run_len(t, base),
    decreases t.len(),
{
    if t.len() > 0 && is_base_run_byte(t[0], base) {
        lemma_base_run_alone(t.skip(1), base);
        let n = base_run_len(t, base) as int;
        assert(t.take(n)[0] == t[0]);
        assert(t.take(n).skip(1) =~= t.skip(1).take(n - 1));
    } else {
        assert(t.take(0) =~= Seq::<u8>::empty());
    }
}

/// A number that is read stands at the start of the input as a token.
pub proof fn lemma_number_read(s: Seq<u8>) -> (text: Seq<u8>)
    requires
        parse_number_spec(s) is Ok,
    ensures
        s == text + parse_number_spec(s)->Ok_0.1,
        text.len() > 0,
        text[0] == s[0],
        parse_number_spec(text) == Ok::<(NumberView, Seq<u8>), ErrorKind>(
            (parse_number_spec(s)->Ok_0.0, Seq::empty()),
        ),
{
    let signed = s[0] == PLUS || s[0] == MINUS;
    let sign: int = if signed {
        1
    } else {
        0
    };
    let t = s.skip(sign);
    assert(t =~= if signed {
        s.skip(1)
    } else {
        s
    });
    if t[0] == DIGIT_0 && t.len() >= 2 && base_of(t[1]) is Some {
        let base = base_of(t[1])->0;
        let digits = t.skip(2);
        lemma_base_run_alone(digits, base);
        let n = base_run_len(digits, base) as int;
        let text = s.take(sign + 2 + n);
        let u = text.skip(sign);
        assert(u =~= if signed {
            text.skip(1)
        } else {
            text
        });
        assert(text[0] == s[0]);
        assert(u =~= t.take(2 + n));
        assert(u.skip(2) =~= digits.take(n));
        assert(digits.take(n).take(n) =~= digits.take(n));
        assert(digits.take(n).skip(n) =~= Seq::<u8>::empty());
        assert(digits.skip(n) =~= s.skip(sign + 2 + n));
        assert(s =~= text + s.skip(sign + 2 + n));
        assert(digits.take(n)[0] == digits[0]);
        text
    } else {
        lemma_run_alone(t);
        let n = run_len(t) as int;
        assert(n > 0) by {
            if n == 0 {
                assert(t.take(0) =~= Seq::<u8>::empty());
                assert(strip_separators(Seq::<u8>::empty()) == Some(Seq::<u8>::empty()));
            }
        }
        let text = s.take(sign + n);
        let u = text.skip(sign);
        assert(u =~= if signed {
            text.skip(1)
        } else {
            text
        });
        assert(text[0] == s[0]);
        assert(u =~= t.take(n));
        assert(u.take(n) =~= t.take(n));
        assert(u.skip(n) =~= Seq::<u8>::empty());
        assert(t.skip(n) =~= s.skip(sign + n));
        assert(s =~= text + s.skip(sign + n));
        assert(u[0] == t[0]);
        if u.len() >= 2 {
            assert(u[1] == t[1]);
        }
        text
    }
}

proof fn lemma_identifier_alone(a: Seq<u8>)
    ensures
        identifier_len(a) <= a.len(),
        identifier_len(a.take(identifier_len(a) as int)) == identifier_len(a),
    decreases a.len(),
{
    if a.len() > 0 && is_identifier_byte(a[0]) {
        lemma_identifier_alone(a.skip(1));
        let n = identifier_len(a) as int;
        assert(a.take(n)[0] == a[0]);
        assert(a.take(n).skip(1) =~= a.skip(1).take(n - 1));
    } else {
        assert(a.take(0) =~= Seq::<u8>::empty());
    }
}

/// A word that is read stands at the start of the input as a word.
pub proof fn lemma_word_read(s: Seq<u8>) -> (text: Seq<u8>)
    requires
        parse_identifier_spec(s) is Ok,
        s[0] != QUOTE,
    ensures
        s == text + parse_identifier_spec(s)->Ok_0.1,
        is_bare_key(text),
        decode_utf8(text) == parse_identifier_spec(s)->Ok_0.0,
{
    lemma_identifier_alone(s.skip(1));
    let n = 1 + identifier_len(s.skip(1)) as int;
    let text = s.take(n);
    assert(text[0] == s[0]);
    assert(text.skip(1) =~= s.skip(1).take(n - 1));
    assert(s =~= text + s.skip(n));
    text
}

/// A key that is read stands at the start of the input as the text of a
/// key.
pub proof fn lemma_key_read(s: Seq<u8>) -> (text: Seq<u8>)
    requires
        parse_identifier_spec(s) is Ok,
    ensures
        s == text + parse_identifier_spec(s)->Ok_0.1,
        key_of(text) == parse_identifier_spec(s)->Ok_0.0,
        reads_key(text, key_of(text)),
{
    if s[0] == QUOTE {
        let text = lemma_string_read(s);
        lemma_string_is_key(text);
        text
    } else {
        let text = lemma_word_read(s);
        lemma_word_is_key(text);
        text
    }
}

/// One of the words `true`, `false` and `null` is a token.
pub proof fn lemma_word_is_token(text: Seq<u8>)
    requires
        is_bare_key(text),
        keyword_spec(decode_utf8(text), Seq::empty()) is Ok,
    ensures
        is_token(text),
        token_value(text) == keyword_spec(decode_utf8(text), Seq::empty())->Ok_0.0,
{
    let value = keyword_spec(decode_utf8(text), Seq::empty())->Ok_0.0;
    let nothing = Seq::<u8>::empty();
    assert forall|rest: Seq<u8>, depth: nat| depth >= 1 && stops(rest) implies #[trigger]
        parse_value_spec(text + rest, depth, false) == Ok::<(ValueView, Seq<u8>), ErrorKind>(
        (value, rest),
    ) by {
        let all = text + rest;
        lemma_word_back(text, rest);
        assert(all[0] == text[0]);
        if text.len() >= 2 {
            lemma_identifier_len_bound(text.skip(1).skip(1));
            assert(is_identifier_byte(text.skip(1)[0]));
            assert(all[1] == text[1]);
        } else if rest.len() > 0 {
            assert(all[1] == rest[0]);
        }
    }
    assert(text + nothing =~= text);
    assert(stops(nothing));
    assert(token_value(text) == value);
}

} // verus!
