//! What is written is read back: for the values that a document can
//! express, reading the document of a value gives the value.

use vstd::prelude::*;
use vstd::utf8::{decode_utf8, encode_utf8};
use crate::ascii::{
    BACKSLASH, BACKSPACE, CARRIAGE_RETURN, CLOSE_BRACE, CLOSE_BRACKET, COLON, COMMA,
    EXCLAMATION_MARK, FORM_FEED, is_alphabetic, LINE_FEED, LOWER_B, LOWER_R, LOWER_X, MINUS,
    OPEN_BRACE, OPEN_BRACKET, QUOTE, SLASH, SPACE, TAB, TILDE,
};
use crate::deserialize::{MAX_DEPTH, parse_document_spec};
use crate::deserialize::number::{
    base_of, decimal_number_spec, parse_number_spec, run_len, strip_separators,
};
use crate::deserialize::sound::lemma_parsed_document;
use crate::deserialize::string::{is_ascii, parse_byte_string_spec, parse_string_spec};
use crate::deserialize::value::{
    identifier_len, is_identifier_byte, is_identifier_start, keyword_spec, parse_array_spec,
    parse_identifier_spec, parse_items_spec, parse_key_value_pair_spec, parse_key_value_pairs_spec,
    parse_more_pairs_spec, parse_object_spec, parse_value_spec,
};
use crate::deserialize::whitespace::{
    is_blank, is_space, is_whitespace, parse_sep_spec, skip_whitespace_spec,
};
use crate::error::ErrorKind;
use crate::hex::{hex_pair_value, lemma_decode_encode};
use crate::number::{
    is_number_byte, is_number_text, lemma_number_text_bytes, number_text, NumberView,
};
use crate::serialize::{
    byte_piece, default_indent, document_spec, expand, is_bare_key, lemma_identifier_len_bound,
    no_quote_or_backslash, repeat, string_piece, write_bytes_spec, write_entries_spec,
    write_items_spec, write_key_spec, write_spec, write_string_spec,
};
use crate::unescape_string::{escape_spec, prepend, simple_escape, unescape_spec};
use crate::utils::{backslash_before, closing_quote, lemma_ascii_is_utf8, read_until_unquote_spec};
use crate::value::{fits, index_of_key, insert_entry, lemma_index_of_key, unique_keys, ValueView};

verus! {

/// Whether `s` is empty or begins with a byte that is neither whitespace
/// nor the start of a comment.
pub open spec fn starts_plain(s: Seq<u8>) -> bool {
    s.len() == 0 || (!is_whitespace(s[0]) && s[0] != SLASH)
}

/// Nothing is skipped before a byte that is no whitespace and opens no
/// comment.
pub proof fn lemma_skip_nothing(s: Seq<u8>)
    requires
        starts_plain(s),
    ensures
        skip_whitespace_spec(s) == Ok::<Seq<u8>, crate::error::ErrorKind>(s),
{
}

/// Whitespace is skipped up to such a byte.
pub proof fn lemma_skip_space(prefix: Seq<u8>, s: Seq<u8>)
    requires
        is_space(prefix),
        starts_plain(s),
    ensures
        skip_whitespace_spec(prefix + s) == Ok::<Seq<u8>, crate::error::ErrorKind>(s),
    decreases prefix.len(),
{
    if prefix.len() == 0 {
        assert(prefix + s =~= s);
    } else {
        let all = prefix + s;
        assert(all[0] == prefix[0]);
        assert(is_whitespace(prefix[0]));
        assert(all.skip(1) =~= prefix.skip(1) + s);
        assert forall|i: int| 0 <= i < prefix.skip(1).len() implies is_whitespace(
            #[trigger] prefix.skip(1)[i],
        ) by {
            assert(prefix.skip(1)[i] == prefix[i + 1]);
        }
        lemma_skip_space(prefix.skip(1), s);
    }
}

/// Indentation made of spaces and tabs is whitespace.
pub proof fn lemma_repeat_blank(unit: Seq<u8>, n: nat)
    requires
        is_blank(unit),
    ensures
        is_blank(repeat(unit, n)),
        is_space(repeat(unit, n)),
    decreases n,
{
    if n > 0 {
        lemma_repeat_blank(unit, (n - 1) as nat);
        let front = repeat(unit, (n - 1) as nat);
        assert forall|i: int| 0 <= i < (front + unit).len() implies #[trigger] (front + unit)[i]
            == SPACE || (front + unit)[i] == TAB by {
            if i < front.len() {
                assert((front + unit)[i] == front[i]);
            } else {
                assert((front + unit)[i] == unit[i - front.len()]);
            }
        }
    }
    assert forall|i: int| 0 <= i < repeat(unit, n).len() implies is_whitespace(
        #[trigger] repeat(unit, n)[i],
    ) by {
        assert(repeat(unit, n)[i] == SPACE || repeat(unit, n)[i] == TAB);
    }
}

/// A line feed and a comma separate.
pub proof fn lemma_sep_found(s: Seq<u8>)
    requires
        s.len() > 0,
        s[0] == LINE_FEED || s[0] == COMMA,
    ensures
        parse_sep_spec(s) == Ok::<(bool, Seq<u8>), crate::error::ErrorKind>((true, s.skip(1))),
{
}

/// The end of the input and a closing bracket do not separate, and stay.
pub proof fn lemma_sep_missing(s: Seq<u8>)
    requires
        s.len() == 0 || s[0] == CLOSE_BRACKET,
    ensures
        parse_sep_spec(s) == Ok::<(bool, Seq<u8>), crate::error::ErrorKind>((false, s)),
{
}

/// Whether a backslash stands before every quote of `raw`; before its
/// first byte, `escaped` says so.
pub open spec fn quotes_escaped(raw: Seq<u8>, escaped: bool) -> bool {
    forall|j: int| 0 <= j < raw.len() && #[trigger] raw[j] == QUOTE ==> backslash_before(
        raw,
        escaped,
        j,
    )
}

/// Whether `bytes` end with a backslash.
pub open spec fn ends_with_backslash(bytes: Seq<u8>) -> bool {
    bytes.len() > 0 && bytes.last() == BACKSLASH
}

/// The quote after `raw` closes it where every quote inside has a backslash
/// before it and `raw` does not end with one.
pub proof fn lemma_closing_quote_after(raw: Seq<u8>, escaped: bool, rest: Seq<u8>)
    requires
        quotes_escaped(raw, escaped),
        raw.len() == 0 ==> !escaped,
        !ends_with_backslash(raw),
    ensures
        closing_quote(raw + seq![QUOTE] + rest, escaped) == Some(raw.len()),
    decreases raw.len(),
{
    let s = raw + seq![QUOTE] + rest;
    if raw.len() == 0 {
        assert(s[0] == QUOTE);
    } else {
        assert(s[0] == raw[0]);
        if raw[0] == QUOTE {
            assert(backslash_before(raw, escaped, 0));
        }
        let tail = raw.skip(1);
        let next = raw[0] == BACKSLASH;
        assert(s.skip(1) =~= tail + seq![QUOTE] + rest);
        assert forall|j: int| 0 <= j < tail.len() && #[trigger] tail[j] == QUOTE implies backslash_before(
            tail,
            next,
            j,
        ) by {
            assert(raw[j + 1] == QUOTE);
            assert(backslash_before(raw, escaped, j + 1));
        }
        if tail.len() > 0 {
            assert(tail.last() == raw.last());
        }
        lemma_closing_quote_after(tail, next, rest);
    }
}

/// The bytes before such a quote are read up to it.
pub proof fn lemma_unquote_after(raw: Seq<u8>, rest: Seq<u8>)
    requires
        quotes_escaped(raw, false),
        !ends_with_backslash(raw),
    ensures
        read_until_unquote_spec(raw + seq![QUOTE] + rest) == Ok::<
            (Seq<u8>, Seq<u8>),
            ErrorKind,
        >((raw, rest)),
{
    lemma_closing_quote_after(raw, false, rest);
    let s = raw + seq![QUOTE] + rest;
    assert(s.take(raw.len() as int) =~= raw);
    assert(s.skip(raw.len() as int + 1) =~= rest);
}

proof fn lemma_quotes_concat(a: Seq<u8>, b: Seq<u8>, escaped: bool)
    requires
        quotes_escaped(a, escaped),
        quotes_escaped(b, false),
    ensures
        quotes_escaped(a + b, escaped),
{
    let all = a + b;
    assert forall|j: int| 0 <= j < all.len() && #[trigger] all[j] == QUOTE implies backslash_before(
        all,
        escaped,
        j,
    ) by {
        if j < a.len() {
            assert(a[j] == QUOTE);
            assert(backslash_before(a, escaped, j));
            if j > 0 {
                assert(all[j - 1] == a[j - 1]);
            }
        } else {
            let k = j - a.len();
            assert(b[k] == QUOTE);
            assert(backslash_before(b, false, k));
            assert(all[j - 1] == b[k - 1]);
        }
    }
}

/// What `string_piece` makes of bytes: quotes with a backslash before
/// them, the same last byte, and the bytes again once unescaped.
#[verifier::rlimit(30)]
pub proof fn lemma_string_pieces(bytes: Seq<u8>)
    ensures
        quotes_escaped(expand(bytes, |b: u8| string_piece(b)), false),
        ends_with_backslash(expand(bytes, |b: u8| string_piece(b))) == ends_with_backslash(bytes),
        expand(bytes, |b: u8| string_piece(b)).len() >= bytes.len(),
        unescape_spec(expand(bytes, |b: u8| string_piece(b))) == Some(bytes),
    decreases bytes.len(),
{
    let piece = |b: u8| string_piece(b);
    let e = expand(bytes, piece);
    if bytes.len() == 0 {
        assert(unescape_spec(e) == Some(Seq::<u8>::empty()));
        assert(bytes =~= Seq::<u8>::empty());
    } else {
        let tail = bytes.skip(1);
        let et = expand(tail, piece);
        lemma_string_pieces(tail);
        let first = string_piece(bytes[0]);
        assert(e == first + et);
        assert(quotes_escaped(first, false)) by {
            assert forall|j: int| 0 <= j < first.len() && #[trigger] first[j]
                == QUOTE implies backslash_before(first, false, j) by {
                if bytes[0] == QUOTE || bytes[0] == BACKSLASH {
                    assert(first[0] == BACKSLASH);
                }
            }
        }
        lemma_quotes_concat(first, et, false);
        if tail.len() > 0 {
            assert(bytes.last() == tail.last());
            assert(et.len() > 0);
            assert(e.last() == et.last());
        } else {
            assert(et =~= Seq::<u8>::empty());
            assert(e =~= first);
            assert(e.last() == bytes[0]);
        }
        reveal(escape_spec);
        if bytes[0] == QUOTE || bytes[0] == BACKSLASH {
            assert(e[0] == BACKSLASH && e[1] == bytes[0]);
            assert(simple_escape(bytes[0]) == Some(bytes[0]));
            assert(escape_spec(e) == Some((seq![bytes[0]], 2nat)));
            assert(e.skip(2) =~= et);
            assert(seq![bytes[0]] + tail =~= bytes);
        } else {
            assert(e[0] == bytes[0]);
            assert(e.skip(1) =~= et);
            assert(seq![bytes[0]] + tail =~= bytes);
        }
    }
}

/// A string comes back where it does not end with a backslash.
pub proof fn lemma_string_back(text: Seq<char>, rest: Seq<u8>)
    requires
        !ends_with_backslash(encode_utf8(text)),
    ensures
        parse_string_spec(write_string_spec(text) + rest) == Ok::<(Seq<char>, Seq<u8>), ErrorKind>(
            (text, rest),
        ),
{
    let bytes = encode_utf8(text);
    let raw = expand(bytes, |b: u8| string_piece(b));
    let s = write_string_spec(text) + rest;
    lemma_string_pieces(bytes);
    lemma_unquote_after(raw, rest);
    assert(s[0] == QUOTE);
    assert(s.skip(1) =~= raw + seq![QUOTE] + rest);
    vstd::utf8::encode_utf8_valid_utf8(text);
    vstd::utf8::encode_utf8_decode_utf8(text);
}

proof fn lemma_byte_piece(byte: u8)
    requires
        byte != QUOTE,
        byte != BACKSLASH,
    ensures
        byte_piece(byte).len() >= 1,
        forall|j: int| 0 <= j < byte_piece(byte).len() ==> #[trigger] byte_piece(byte)[j] != QUOTE,
        forall|j: int| 0 <= j < byte_piece(byte).len() ==> #[trigger] byte_piece(byte)[j] < 128,
        byte_piece(byte).last() != BACKSLASH,
{
    lemma_decode_encode(byte);
}

proof fn lemma_plain_piece_back(byte: u8, tail: Seq<u8>)
    requires
        EXCLAMATION_MARK <= byte <= TILDE,
        byte != BACKSLASH,
    ensures
        unescape_spec(byte_piece(byte) + tail) == prepend(seq![byte], unescape_spec(tail)),
{
    let e = byte_piece(byte) + tail;
    assert(e[0] == byte);
    assert(e.skip(1) =~= tail);
}

#[verifier::rlimit(30)]
proof fn lemma_letter_piece_back(byte: u8, tail: Seq<u8>)
    requires
        byte == TAB || byte == CARRIAGE_RETURN || byte == LINE_FEED || byte == BACKSPACE || byte
            == FORM_FEED,
    ensures
        unescape_spec(byte_piece(byte) + tail) == prepend(seq![byte], unescape_spec(tail)),
{
    let first = byte_piece(byte);
    let e = first + tail;
    reveal(escape_spec);
    assert(e.len() >= 2);
    assert(e[0] == BACKSLASH && e[1] == first[1]);
    assert(simple_escape(first[1]) == Some(byte));
    assert(escape_spec(e) == Some((seq![byte], 2nat)));
    assert(e.skip(2) =~= tail);
}

#[verifier::rlimit(30)]
proof fn lemma_hex_piece_back(byte: u8, tail: Seq<u8>)
    requires
        !(EXCLAMATION_MARK <= byte <= TILDE),
        !(byte == TAB || byte == CARRIAGE_RETURN || byte == LINE_FEED || byte == BACKSPACE || byte
            == FORM_FEED),
    ensures
        unescape_spec(byte_piece(byte) + tail) == prepend(seq![byte], unescape_spec(tail)),
{
    let first = byte_piece(byte);
    let e = first + tail;
    lemma_decode_encode(byte);
    reveal(escape_spec);
    assert(e.len() >= 4);
    assert(e[0] == BACKSLASH && e[1] == LOWER_X && e[2] == first[2] && e[3] == first[3]);
    assert(simple_escape(LOWER_X) is None);
    assert(hex_pair_value(e[2], e[3]) == Some(byte));
    assert(escape_spec(e) == Some((seq![byte], 4nat)));
    assert(e.skip(4) =~= tail);
}

proof fn lemma_byte_piece_back(byte: u8, tail: Seq<u8>)
    requires
        byte != QUOTE,
        byte != BACKSLASH,
    ensures
        unescape_spec(byte_piece(byte) + tail) == prepend(seq![byte], unescape_spec(tail)),
{
    if EXCLAMATION_MARK <= byte <= TILDE {
        lemma_plain_piece_back(byte, tail);
    } else if byte == TAB || byte == CARRIAGE_RETURN || byte == LINE_FEED || byte == BACKSPACE
        || byte == FORM_FEED {
        lemma_letter_piece_back(byte, tail);
    } else {
        lemma_hex_piece_back(byte, tail);
    }
}

/// What `byte_piece` makes of bytes without quotes and backslashes: ASCII
/// without a quote, not ending with a backslash, and the bytes again once
/// unescaped.
#[verifier::rlimit(30)]
pub proof fn lemma_byte_pieces(bytes: Seq<u8>)
    requires
        no_quote_or_backslash(bytes),
    ensures
        quotes_escaped(expand(bytes, |b: u8| byte_piece(b)), false),
        !ends_with_backslash(expand(bytes, |b: u8| byte_piece(b))),
        is_ascii(expand(bytes, |b: u8| byte_piece(b))),
        unescape_spec(expand(bytes, |b: u8| byte_piece(b))) == Some(bytes),
    decreases bytes.len(),
{
    let piece = |b: u8| byte_piece(b);
    let e = expand(bytes, piece);
    if bytes.len() == 0 {
        assert(unescape_spec(e) == Some(Seq::<u8>::empty()));
        assert(bytes =~= Seq::<u8>::empty());
    } else {
        let tail = bytes.skip(1);
        let et = expand(tail, piece);
        assert forall|i: int| 0 <= i < tail.len() implies #[trigger] tail[i] != QUOTE && tail[i]
            != BACKSLASH by {
            assert(tail[i] == bytes[i + 1]);
        }
        lemma_byte_pieces(tail);
        let first = byte_piece(bytes[0]);
        assert(bytes[0] != QUOTE && bytes[0] != BACKSLASH);
        lemma_byte_piece(bytes[0]);
        assert(e == first + et);
        assert forall|j: int| 0 <= j < e.len() implies #[trigger] e[j] < 128 && (e[j] == QUOTE
            ==> backslash_before(e, false, j)) by {
            if j < first.len() {
                assert(e[j] == first[j]);
            } else {
                assert(e[j] == et[j - first.len()]);
                if e[j] == QUOTE {
                    assert(backslash_before(et, false, j - first.len()));
                    assert(e[j - 1] == et[j - first.len() - 1]);
                }
            }
        }
        if et.len() > 0 {
            assert(e.last() == et.last());
        } else {
            assert(e =~= first);
        }
        lemma_byte_piece_back(bytes[0], et);
        assert(seq![bytes[0]] + tail =~= bytes);
    }
}

/// A byte string comes back where it holds neither a quote nor a backslash.
pub proof fn lemma_byte_string_back(bytes: Seq<u8>, rest: Seq<u8>)
    requires
        no_quote_or_backslash(bytes),
    ensures
        parse_byte_string_spec(write_bytes_spec(bytes) + rest) == Ok::<
            (Seq<u8>, Seq<u8>),
            ErrorKind,
        >((bytes, rest)),
{
    let raw = expand(bytes, |b: u8| byte_piece(b));
    let s = write_bytes_spec(bytes) + rest;
    lemma_byte_pieces(bytes);
    lemma_unquote_after(raw, rest);
    assert(s[0] == LOWER_B && s[1] == QUOTE);
    assert(s.skip(2) =~= raw + seq![QUOTE] + rest);
}

/// Whether `byte` can follow a value in a document: whitespace, the start
/// of a comment, a comma, or what closes an array or an object.
pub open spec fn ends_value(byte: u8) -> bool {
    is_whitespace(byte) || byte == SLASH || byte == COMMA || byte == CLOSE_BRACKET || byte
        == CLOSE_BRACE
}

/// Whether `rest` is what can follow a value in a document: nothing, or
/// what begins with a byte that ends a value.
pub open spec fn stops(rest: Seq<u8>) -> bool {
    rest.len() == 0 || ends_value(rest[0])
}

proof fn lemma_run_len_of(t: Seq<u8>, rest: Seq<u8>)
    requires
        forall|i: int| 0 <= i < t.len() ==> is_number_byte(#[trigger] t[i]),
        stops(rest),
    ensures
        run_len(t + rest) == t.len(),
    decreases t.len(),
{
    if t.len() == 0 {
        assert(t + rest =~= rest);
    } else {
        assert((t + rest)[0] == t[0]);
        assert(is_number_byte(t[0]));
        assert((t + rest).skip(1) =~= t.skip(1) + rest);
        assert forall|i: int| 0 <= i < t.skip(1).len() implies is_number_byte(
            #[trigger] t.skip(1)[i],
        ) by {
            assert(t.skip(1)[i] == t[i + 1]);
        }
        lemma_run_len_of(t.skip(1), rest);
    }
}

proof fn lemma_strip_nothing(t: Seq<u8>)
    requires
        forall|i: int| 0 <= i < t.len() ==> is_number_byte(#[trigger] t[i]),
    ensures
        strip_separators(t) == Some(t),
    decreases t.len(),
{
    if t.len() > 0 {
        let front = t.drop_last();
        assert forall|i: int| 0 <= i < front.len() implies is_number_byte(#[trigger] front[i]) by {
            assert(front[i] == t[i]);
        }
        lemma_strip_nothing(front);
        assert(is_number_byte(t[t.len() - 1]));
        assert(front.push(t.last()) =~= t);
    } else {
        assert(t =~= Seq::<u8>::empty());
    }
}

/// A number comes back.
pub proof fn lemma_number_back(n: NumberView, rest: Seq<u8>)
    requires
        is_number_text(n.text),
        stops(rest),
    ensures
        parse_number_spec(number_text(n) + rest) == Ok::<(NumberView, Seq<u8>), ErrorKind>(
            (n, rest),
        ),
{
    let s = number_text(n) + rest;
    let t = n.text + rest;
    lemma_number_text_bytes(n.text);
    lemma_run_len_of(n.text, rest);
    lemma_strip_nothing(n.text);
    assert(t[0] == n.text[0]);
    assert(is_number_byte(n.text[0]));
    if n.negative {
        assert(s[0] == MINUS);
        assert(s.skip(1) =~= t);
    } else {
        assert(s =~= t);
    }
    if t.len() >= 2 {
        if n.text.len() >= 2 {
            assert(t[1] == n.text[1]);
            assert(is_number_byte(n.text[1]));
        } else {
            assert(t[1] == rest[0]);
        }
        assert(base_of(t[1]) is None);
    }
    assert(t.take(n.text.len() as int) =~= n.text);
    assert(t.skip(n.text.len() as int) =~= rest);
    assert(decimal_number_spec(t, n.negative) == Ok::<(NumberView, Seq<u8>), ErrorKind>(
        (NumberView { negative: n.negative, text: n.text }, rest),
    ));
}

proof fn lemma_identifier_len_of(a: Seq<u8>, rest: Seq<u8>)
    requires
        identifier_len(a) == a.len(),
        rest.len() == 0 || !is_identifier_byte(rest[0]),
    ensures
        identifier_len(a + rest) == a.len(),
    decreases a.len(),
{
    if a.len() == 0 {
        assert(a + rest =~= rest);
    } else {
        lemma_identifier_len_bound(a.skip(1));
        assert((a + rest)[0] == a[0]);
        assert((a + rest).skip(1) =~= a.skip(1) + rest);
        lemma_identifier_len_of(a.skip(1), rest);
    }
}

/// A word comes back as a key.
pub proof fn lemma_word_back(bytes: Seq<u8>, rest: Seq<u8>)
    requires
        is_bare_key(bytes),
        rest.len() == 0 || !is_identifier_byte(rest[0]),
    ensures
        parse_identifier_spec(bytes + rest) == Ok::<(Seq<char>, Seq<u8>), ErrorKind>(
            (decode_utf8(bytes), rest),
        ),
{
    let s = bytes + rest;
    assert(s[0] == bytes[0]);
    assert(s.skip(1) =~= bytes.skip(1) + rest);
    lemma_identifier_len_of(bytes.skip(1), rest);
    assert(s.take(bytes.len() as int) =~= bytes);
    assert(s.skip(bytes.len() as int) =~= rest);
}

/// Whether a key comes back: it is a word, or it does not end with a
/// backslash.
pub open spec fn key_comes_back(key: Seq<char>) -> bool {
    is_bare_key(encode_utf8(key)) || !ends_with_backslash(encode_utf8(key))
}

/// A key comes back before a byte that no word holds, such as the colon
/// after it.
pub proof fn lemma_key_back(key: Seq<char>, rest: Seq<u8>)
    requires
        key_comes_back(key),
        rest.len() > 0,
        !is_identifier_byte(rest[0]),
    ensures
        parse_identifier_spec(write_key_spec(key) + rest) == Ok::<(Seq<char>, Seq<u8>), ErrorKind>(
            (key, rest),
        ),
{
    let bytes = encode_utf8(key);
    vstd::utf8::encode_utf8_valid_utf8(key);
    vstd::utf8::encode_utf8_decode_utf8(key);
    if is_bare_key(bytes) {
        lemma_word_back(bytes, rest);
    } else {
        lemma_string_back(key, rest);
        assert((write_string_spec(key) + rest)[0] == QUOTE);
    }
}

/// Whether `v`, written at the given level, is read back as it was. An
/// object needs its braces, which it has below the root only, and keys that
/// come back; a string must not end with a backslash; a byte string must
/// hold neither a quote nor a backslash.
pub open spec fn comes_back_at(v: ValueView, level: nat) -> bool
    decreases v,
{
    match v {
        ValueView::Object(entries) => level >= 1 && forall|i: int|
            0 <= i < entries.len() ==> key_comes_back((#[trigger] entries[i]).0) && comes_back_at(
                entries[i].1,
                level + 1,
            ),
        ValueView::Array(items) => forall|i: int|
            0 <= i < items.len() ==> comes_back_at(#[trigger] items[i], level),
        ValueView::String(text) => !ends_with_backslash(encode_utf8(text)),
        ValueView::ByteString(bytes) => no_quote_or_backslash(bytes),
        _ => true,
    }
}

/// Whether a document can stand for `v` and be read back as `v`, for a tree
/// of a depth that the reader goes to. At the root an object has no braces,
/// so it needs an entry.
pub open spec fn expressible(v: ValueView) -> bool {
    match v {
        ValueView::Object(entries) => {
            &&& entries.len() >= 1
            &&& forall|i: int| 0 <= i < entries.len() ==> key_comes_back((#[trigger] entries[i]).0)
            &&& forall|i: int|
                0 <= i < entries.len() ==> comes_back_at((#[trigger] entries[i]).1, 1)
        },
        _ => comes_back_at(v, 0),
    }
}

/// Whether the document of `v` is read back as `v`. At the root an object
/// has no braces, so it needs an entry.
pub open spec fn comes_back(v: ValueView) -> bool {
    fits(v, MAX_DEPTH as nat) && expressible(v)
}

/// An entry as it is written: the indentation, the key, a colon, a space,
/// and the value one level deeper.
pub open spec fn entry_text(entry: (Seq<char>, ValueView), indent: Seq<u8>, level: nat) -> Seq<u8> {
    repeat(indent, level) + write_key_spec(entry.0) + seq![COLON, SPACE] + write_spec(
        entry.1,
        indent,
        level + 1,
    )
}

/// The entries from place `k` on as they are written, a line feed before
/// each.
pub open spec fn more_entries(
    entries: Seq<(Seq<char>, ValueView)>,
    indent: Seq<u8>,
    level: nat,
    k: nat,
) -> Seq<u8>
    decreases entries.len() - k,
{
    if k >= entries.len() {
        Seq::empty()
    } else {
        seq![LINE_FEED] + entry_text(entries[k as int], indent, level) + more_entries(
            entries,
            indent,
            level,
            k + 1,
        )
    }
}

/// The items from place `k` on as they are written, a comma and a space
/// after each but the last.
pub open spec fn items_from(items: Seq<ValueView>, indent: Seq<u8>, level: nat, k: nat) -> Seq<u8>
    decreases items.len() - k,
{
    if k >= items.len() {
        Seq::empty()
    } else {
        write_spec(items[k as int], indent, level) + (if k + 1 < items.len() {
            seq![COMMA, SPACE]
        } else {
            Seq::empty()
        }) + items_from(items, indent, level, k + 1)
    }
}

proof fn lemma_entries_split(
    entries: Seq<(Seq<char>, ValueView)>,
    indent: Seq<u8>,
    level: nat,
    k: nat,
)
    requires
        1 <= k <= entries.len(),
    ensures
        write_entries_spec(entries, indent, level, entries.len()) == write_entries_spec(
            entries,
            indent,
            level,
            k,
        ) + more_entries(entries, indent, level, k),
    decreases entries.len() - k,
{
    let n = entries.len();
    if k == n {
        assert(write_entries_spec(entries, indent, level, n) + Seq::<u8>::empty()
            =~= write_entries_spec(entries, indent, level, n));
    } else {
        lemma_entries_split(entries, indent, level, k + 1);
        let before = write_entries_spec(entries, indent, level, k);
        let entry = entry_text(entries[k as int], indent, level);
        let after = more_entries(entries, indent, level, k + 1);
        assert(write_entries_spec(entries, indent, level, k + 1) =~= before + seq![LINE_FEED]
            + entry);
        assert((before + seq![LINE_FEED] + entry) + after =~= before + (seq![LINE_FEED] + entry
            + after));
    }
}

proof fn lemma_first_entry(entries: Seq<(Seq<char>, ValueView)>, indent: Seq<u8>, level: nat)
    requires
        entries.len() >= 1,
    ensures
        write_entries_spec(entries, indent, level, 1) == entry_text(entries[0], indent, level),
{
    assert(write_entries_spec(entries, indent, level, 0) =~= Seq::<u8>::empty());
    assert(write_entries_spec(entries, indent, level, 1) =~= entry_text(entries[0], indent, level));
}

proof fn lemma_items_split(items: Seq<ValueView>, indent: Seq<u8>, level: nat, k: nat)
    requires
        k <= items.len(),
    ensures
        write_items_spec(items, indent, level, items.len()) == write_items_spec(
            items,
            indent,
            level,
            k,
        ) + (if 0 < k < items.len() {
            seq![COMMA, SPACE]
        } else {
            Seq::empty()
        }) + items_from(items, indent, level, k),
    decreases items.len() - k,
{
    let n = items.len();
    let before = write_items_spec(items, indent, level, k);
    if k == n {
        assert(before + Seq::<u8>::empty() + Seq::<u8>::empty() =~= before);
    } else {
        lemma_items_split(items, indent, level, k + 1);
        let item = write_spec(items[k as int], indent, level);
        let comma_before = if k >= 1 {
            seq![COMMA, SPACE]
        } else {
            Seq::<u8>::empty()
        };
        let comma_after = if k + 1 < n {
            seq![COMMA, SPACE]
        } else {
            Seq::<u8>::empty()
        };
        let after = items_from(items, indent, level, k + 1);
        assert(write_items_spec(items, indent, level, k + 1) =~= before + comma_before + item);
        assert((before + comma_before + item) + comma_after + after =~= before + comma_before + (
        item + comma_after + after));
    }
}

proof fn lemma_identifier_len_all(s: Seq<u8>)
    requires
        forall|i: int| 0 <= i < s.len() ==> is_identifier_byte(#[trigger] s[i]),
    ensures
        identifier_len(s) == s.len(),
    decreases s.len(),
{
    if s.len() > 0 {
        assert(is_identifier_byte(s[0]));
        assert forall|i: int| 0 <= i < s.skip(1).len() implies is_identifier_byte(
            #[trigger] s.skip(1)[i],
        ) by {
            assert(s.skip(1)[i] == s[i + 1]);
        }
        lemma_identifier_len_all(s.skip(1));
    }
}

/// The words `true`, `false` and `null` are read as what they name.
pub proof fn lemma_keyword_back(v: ValueView, rest: Seq<u8>)
    requires
        v is Bool || v is Null,
        stops(rest),
    ensures
        parse_identifier_spec(write_spec(v, Seq::empty(), 0) + rest) matches Ok((name, after))
            && after == rest && forall|end: Seq<u8>| #[trigger]
            keyword_spec(name, end) == Ok::<(ValueView, Seq<u8>), ErrorKind>((v, end)),
        write_spec(v, Seq::empty(), 0).len() >= 4,
        is_alphabetic(write_spec(v, Seq::empty(), 0)[0]),
        write_spec(v, Seq::empty(), 0)[0] != LOWER_R,
        write_spec(v, Seq::empty(), 0)[0] != LOWER_B,
{
    let bytes = write_spec(v, Seq::empty(), 0);
    assert forall|i: int| 0 <= i < bytes.skip(1).len() implies is_identifier_byte(
        #[trigger] bytes.skip(1)[i],
    ) by {
        assert(bytes.skip(1)[i] == bytes[i + 1]);
    }
    lemma_identifier_len_all(bytes.skip(1));
    lemma_word_back(bytes, rest);
    lemma_ascii_is_utf8(bytes);
    reveal_strlit("true");
    reveal_strlit("false");
    reveal_strlit("null");
    let name = decode_utf8(bytes);
    assert(name =~= crate::utils::ascii_chars(bytes));
    match v {
        ValueView::Bool(b) => {
            if b {
                assert(name =~= "true"@);
            } else {
                assert(name =~= "false"@);
                assert(name.len() != "true"@.len());
            }
        },
        _ => {
            assert(name =~= "null"@);
            assert(name[0] != "true"@[0]);
            assert(name.len() != "false"@.len());
        },
    }
}

/// A key is written with a letter, `_` or a quote first.
pub proof fn lemma_key_starts(key: Seq<char>)
    ensures
        write_key_spec(key).len() >= 1,
        is_identifier_start(write_key_spec(key)[0]) || write_key_spec(key)[0] == QUOTE,
{
}

/// Whether a value can begin `s`: with a byte that is neither whitespace
/// nor the start of a comment, that separates nothing and closes nothing.
pub open spec fn starts_value(s: Seq<u8>) -> bool {
    s.len() > 0 && !is_whitespace(s[0]) && s[0] != SLASH && s[0] != COMMA && s[0] != COLON && s[0]
        != CLOSE_BRACKET && s[0] != CLOSE_BRACE
}

/// What follows the entries of an object: nothing at the root; elsewhere a
/// line feed, the indentation of the level above, the closing brace, and
/// what follows the object.
pub open spec fn closing(indent: Seq<u8>, level: nat, rest: Seq<u8>, top: bool) -> Seq<u8> {
    if top {
        Seq::empty()
    } else {
        seq![LINE_FEED] + repeat(indent, (level - 1) as nat) + seq![CLOSE_BRACE] + rest
    }
}

/// Whether the entries of an object come back at the given level.
#[verifier::opaque]
pub open spec fn entries_come_back(
    entries: Seq<(Seq<char>, ValueView)>,
    level: nat,
    depth: nat,
) -> bool {
    &&& unique_keys(entries)
    &&& depth >= 1
    &&& forall|i: int| 0 <= i < entries.len() ==> key_comes_back((#[trigger] entries[i]).0)
    &&& forall|i: int|
        0 <= i < entries.len() ==> (#[trigger] entries[i]).1.well_formed() && comes_back_at(
            entries[i].1,
            level + 1,
        ) && fits(entries[i].1, (depth - 1) as nat)
}

/// Whether the items of an array come back at the given level.
#[verifier::opaque]
pub open spec fn items_come_back(items: Seq<ValueView>, level: nat, depth: nat) -> bool {
    &&& depth >= 1
    &&& forall|i: int|
        0 <= i < items.len() ==> (#[trigger] items[i]).well_formed() && comes_back_at(
            items[i],
            level,
        ) && fits(items[i], (depth - 1) as nat)
}

proof fn lemma_entry_comes_back(
    entries: Seq<(Seq<char>, ValueView)>,
    level: nat,
    depth: nat,
    i: int,
)
    requires
        entries_come_back(entries, level, depth),
        0 <= i < entries.len(),
    ensures
        depth >= 1,
        entries[i].1.well_formed(),
        comes_back_at(entries[i].1, level + 1),
        fits(entries[i].1, (depth - 1) as nat),
        key_comes_back(entries[i].0),
        insert_entry(entries.take(i), entries[i].0, entries[i].1) == entries.take(i + 1),
{
    reveal(entries_come_back);
    let done = entries.take(i);
    let entry = entries[i];
    lemma_index_of_key(done, entry.0);
    assert(index_of_key(done, entry.0) is None) by {
        if index_of_key(done, entry.0) is Some {
            let j = index_of_key(done, entry.0)->0;
            assert(done[j] == entries[j]);
            assert(entries[j].0 == entries[i].0);
        }
    }
    assert(done.push((entry.0, entry.1)) =~= entries.take(i + 1));
}

proof fn lemma_item_comes_back(items: Seq<ValueView>, level: nat, depth: nat, i: int)
    requires
        items_come_back(items, level, depth),
        0 <= i < items.len(),
    ensures
        depth >= 1,
        items[i].well_formed(),
        comes_back_at(items[i], level),
        fits(items[i], (depth - 1) as nat),
        items.take(i).push(items[i]) == items.take(i + 1),
{
    reveal(items_come_back);
    assert(items.take(i).push(items[i]) =~= items.take(i + 1));
}

proof fn lemma_entry_pieces(
    ind: Seq<u8>,
    key: Seq<u8>,
    value: Seq<u8>,
    more: Seq<u8>,
    end: Seq<u8>,
)
    ensures
        (seq![LINE_FEED] + (ind + key + seq![COLON, SPACE] + value) + more) + end == seq![
            LINE_FEED,
        ] + ind + (key + (seq![COLON, SPACE] + value + (more + end))),
{
    assert((seq![LINE_FEED] + (ind + key + seq![COLON, SPACE] + value) + more) + end =~= seq![
        LINE_FEED,
    ] + ind + (key + (seq![COLON, SPACE] + value + (more + end))));
}

proof fn lemma_more_entries_unfold(
    entries: Seq<(Seq<char>, ValueView)>,
    indent: Seq<u8>,
    level: nat,
    k: nat,
    end: Seq<u8>,
)
    requires
        k < entries.len(),
    ensures
        more_entries(entries, indent, level, k) + end == seq![LINE_FEED] + repeat(indent, level)
            + (write_key_spec(entries[k as int].0) + (seq![COLON, SPACE] + write_spec(
            entries[k as int].1,
            indent,
            level + 1,
        ) + (more_entries(entries, indent, level, k + 1) + end))),
{
    lemma_entry_pieces(
        repeat(indent, level),
        write_key_spec(entries[k as int].0),
        write_spec(entries[k as int].1, indent, level + 1),
        more_entries(entries, indent, level, k + 1),
        end,
    );
}

proof fn lemma_item_pieces(item: Seq<u8>, comma: Seq<u8>, more: Seq<u8>, end: Seq<u8>)
    ensures
        (item + comma + more) + end == item + (comma + (more + end)),
{
    assert((item + comma + more) + end =~= item + (comma + (more + end)));
}

proof fn lemma_items_unfold(
    items: Seq<ValueView>,
    indent: Seq<u8>,
    level: nat,
    k: nat,
    end: Seq<u8>,
)
    requires
        k < items.len(),
    ensures
        items_from(items, indent, level, k) + end == write_spec(items[k as int], indent, level) + (
        (if k + 1 < items.len() {
            seq![COMMA, SPACE]
        } else {
            Seq::<u8>::empty()
        }) + (items_from(items, indent, level, k + 1) + end)),
{
    let comma = if k + 1 < items.len() {
        seq![COMMA, SPACE]
    } else {
        Seq::<u8>::empty()
    };
    lemma_item_pieces(
        write_spec(items[k as int], indent, level),
        comma,
        items_from(items, indent, level, k + 1),
        end,
    );
}

proof fn lemma_object_pieces(
    ind: Seq<u8>,
    key: Seq<u8>,
    value: Seq<u8>,
    more: Seq<u8>,
    outer: Seq<u8>,
    rest: Seq<u8>,
)
    ensures
        seq![OPEN_BRACE, LINE_FEED, LINE_FEED] + ((ind + key + seq![COLON, SPACE] + value) + more)
            + seq![LINE_FEED] + outer + seq![CLOSE_BRACE] + rest == seq![OPEN_BRACE] + (seq![
            LINE_FEED,
            LINE_FEED,
        ] + ind) + key + (seq![COLON, SPACE] + value + more + (seq![LINE_FEED] + outer + seq![
            CLOSE_BRACE,
        ] + rest)),
{
    assert(seq![OPEN_BRACE, LINE_FEED, LINE_FEED] + ((ind + key + seq![COLON, SPACE] + value)
        + more) + seq![LINE_FEED] + outer + seq![CLOSE_BRACE] + rest =~= seq![OPEN_BRACE] + (seq![
        LINE_FEED,
        LINE_FEED,
    ] + ind) + key + (seq![COLON, SPACE] + value + more + (seq![LINE_FEED] + outer + seq![
        CLOSE_BRACE,
    ] + rest)));
}

proof fn lemma_object_text(
    entries: Seq<(Seq<char>, ValueView)>,
    indent: Seq<u8>,
    level: nat,
    rest: Seq<u8>,
)
    requires
        level >= 1,
    ensures
        entries.len() == 0 ==> write_spec(ValueView::Object(entries), indent, level) + rest
            == seq![OPEN_BRACE, LINE_FEED, LINE_FEED] + Seq::<u8>::empty() + seq![LINE_FEED]
            + repeat(indent, (level - 1) as nat) + seq![CLOSE_BRACE] + rest,
        entries.len() >= 1 ==> write_spec(ValueView::Object(entries), indent, level) + rest
            == seq![OPEN_BRACE] + (seq![LINE_FEED, LINE_FEED] + repeat(indent, level))
            + write_key_spec(entries[0].0) + (seq![COLON, SPACE] + write_spec(
            entries[0].1,
            indent,
            level + 1,
        ) + more_entries(entries, indent, level, 1) + closing(indent, level, rest, false)),
{
    if entries.len() >= 1 {
        lemma_entries_split(entries, indent, level, 1);
        lemma_first_entry(entries, indent, level);
        lemma_object_pieces(
            repeat(indent, level),
            write_key_spec(entries[0].0),
            write_spec(entries[0].1, indent, level + 1),
            more_entries(entries, indent, level, 1),
            repeat(indent, (level - 1) as nat),
            rest,
        );
    }
}

proof fn lemma_lines_then_indent(indent: Seq<u8>, level: nat)
    requires
        is_blank(indent),
    ensures
        is_space(seq![LINE_FEED, LINE_FEED] + repeat(indent, level)),
{
    lemma_repeat_blank(indent, level);
    let space = seq![LINE_FEED, LINE_FEED] + repeat(indent, level);
    assert forall|i: int| 0 <= i < space.len() implies is_whitespace(#[trigger] space[i]) by {
        if i >= 2 {
            assert(space[i] == repeat(indent, level)[i - 2]);
        }
    }
}

proof fn lemma_more_entries_stop(
    entries: Seq<(Seq<char>, ValueView)>,
    indent: Seq<u8>,
    level: nat,
    rest: Seq<u8>,
    top: bool,
    k: nat,
)
    requires
        top ==> rest.len() == 0,
    ensures
        stops(more_entries(entries, indent, level, k) + closing(indent, level, rest, top)),
{
    let m = more_entries(entries, indent, level, k);
    let c = closing(indent, level, rest, top);
    if k < entries.len() {
        assert((m + c)[0] == LINE_FEED);
    } else if !top {
        assert(m + c =~= c);
        assert(c[0] == LINE_FEED);
    } else {
        assert(m + c =~= Seq::<u8>::empty());
    }
}

/// A value comes back from the place where it is written.
#[verifier::rlimit(30)]
pub proof fn lemma_value_back(
    v: ValueView,
    indent: Seq<u8>,
    level: nat,
    depth: nat,
    rest: Seq<u8>,
    top: bool,
)
    requires
        v.well_formed(),
        comes_back_at(v, level),
        is_blank(indent),
        fits(v, depth),
        stops(rest),
        top ==> rest.len() == 0,
    ensures
        parse_value_spec(write_spec(v, indent, level) + rest, depth, top) == Ok::<
            (ValueView, Seq<u8>),
            ErrorKind,
        >((v, rest)),
        starts_value(write_spec(v, indent, level) + rest),
    decreases v, 0nat, 0nat,
{
    let text = write_spec(v, indent, level);
    let s = text + rest;
    match v {
        ValueView::Object(entries) => {
            assert(entries_come_back(entries, level, depth)) by {
                reveal(entries_come_back);
            }
            lemma_object_back(entries, indent, level, depth, rest);
            assert(s[0] == OPEN_BRACE);
        },
        ValueView::Array(items) => {
            assert(items_come_back(items, level, depth)) by {
                reveal(items_come_back);
            }
            lemma_array_back(items, indent, level, depth, rest);
            assert(s[0] == OPEN_BRACKET);
        },
        ValueView::String(chars) => {
            lemma_string_back(chars, rest);
            assert(s[0] == QUOTE);
            if top {
                lemma_skip_nothing(rest);
            }
        },
        ValueView::ByteString(bytes) => {
            lemma_byte_string_back(bytes, rest);
            assert(s[0] == LOWER_B);
            assert(s[1] == QUOTE);
        },
        ValueView::Number(number) => {
            lemma_number_back(number, rest);
            lemma_number_text_bytes(number.text);
            if number.negative {
                assert(s[0] == MINUS);
            } else {
                assert(s[0] == number.text[0]);
            }
        },
        _ => {
            lemma_keyword_back(v, rest);
            assert(text == write_spec(v, Seq::empty(), 0));
            assert(s[0] == text[0]);
            assert(s[1] == text[1]);
            if top {
                lemma_skip_nothing(rest);
            }
        },
    }
}

proof fn lemma_array_back(
    items: Seq<ValueView>,
    indent: Seq<u8>,
    level: nat,
    depth: nat,
    rest: Seq<u8>,
)
    requires
        items_come_back(items, level, depth),
        is_blank(indent),
    ensures
        parse_array_spec(
            write_spec(ValueView::Array(items), indent, level) + rest,
            depth,
        ) == Ok::<(Seq<ValueView>, Seq<u8>), ErrorKind>((items, rest)),
    decreases items, 2nat, 0nat,
{
    let s = write_spec(ValueView::Array(items), indent, level) + rest;
    let inside = items_from(items, indent, level, 0) + (seq![CLOSE_BRACKET] + rest);
    lemma_items_split(items, indent, level, 0);
    lemma_items_back(items, indent, level, depth, rest, 0);
    assert(write_items_spec(items, indent, level, 0) =~= Seq::<u8>::empty());
    assert(s[0] == OPEN_BRACKET);
    assert(s.skip(1) =~= inside);
    lemma_skip_nothing(inside);
    assert(items.take(0) =~= Seq::<ValueView>::empty());
}

/// An item is read, and the separator after it, as the items after it
/// are.
#[verifier::rlimit(30)]
proof fn lemma_items_step(
    item_text: Seq<u8>,
    comma: Seq<u8>,
    next: Seq<u8>,
    item: ValueView,
    depth: nat,
    done: Seq<ValueView>,
)
    requires
        depth >= 1,
        starts_value(item_text + (comma + next)),
        parse_value_spec(item_text + (comma + next), (depth - 1) as nat, false) == Ok::<
            (ValueView, Seq<u8>),
            ErrorKind,
        >((item, comma + next)),
        next.len() > 0,
        starts_plain(next),
        comma == seq![COMMA, SPACE] || (comma.len() == 0 && next[0] == CLOSE_BRACKET),
    ensures
        parse_items_spec(item_text + (comma + next), depth, done) == parse_items_spec(
            next,
            depth,
            done.push(item),
        ),
{
    let s = item_text + (comma + next);
    let after_item = comma + next;
    if comma.len() == 0 {
        assert(after_item =~= next);
        lemma_sep_missing(after_item);
        lemma_skip_nothing(after_item);
    } else {
        assert(after_item[0] == COMMA);
        lemma_sep_found(after_item);
        assert(after_item.skip(1) =~= seq![SPACE] + next);
        assert(is_space(seq![SPACE]));
        lemma_skip_space(seq![SPACE], next);
    }
    assert(next.len() < s.len());
}

#[verifier::rlimit(30)]
proof fn lemma_items_back(
    items: Seq<ValueView>,
    indent: Seq<u8>,
    level: nat,
    depth: nat,
    rest: Seq<u8>,
    k: nat,
)
    requires
        items_come_back(items, level, depth),
        is_blank(indent),
        k <= items.len(),
    ensures
        parse_items_spec(
            items_from(items, indent, level, k) + (seq![CLOSE_BRACKET] + rest),
            depth,
            items.take(k as int),
        ) == Ok::<(Seq<ValueView>, Seq<u8>), ErrorKind>((items, rest)),
        starts_plain(items_from(items, indent, level, k) + (seq![CLOSE_BRACKET] + rest)),
        (items_from(items, indent, level, k) + (seq![CLOSE_BRACKET] + rest)).len() > 0,
    decreases items, 1nat, items.len() - k,
{
    let n = items.len();
    let end = seq![CLOSE_BRACKET] + rest;
    let s = items_from(items, indent, level, k) + end;
    if k == n {
        assert(s =~= end);
        assert(s[0] == CLOSE_BRACKET);
        assert(s.skip(1) =~= rest);
        assert(items.take(n as int) =~= items);
    } else {
        let item = items[k as int];
        let item_text = write_spec(item, indent, level);
        let comma = if k + 1 < n {
            seq![COMMA, SPACE]
        } else {
            Seq::<u8>::empty()
        };
        let next = items_from(items, indent, level, k + 1) + end;
        lemma_items_unfold(items, indent, level, k, end);
        lemma_item_comes_back(items, level, depth, k as int);
        lemma_items_back(items, indent, level, depth, rest, k + 1);
        if k + 1 < n {
            assert((comma + next)[0] == COMMA);
        } else {
            assert(next =~= end);
            assert((comma + next)[0] == CLOSE_BRACKET);
        }
        lemma_value_back(item, indent, level, (depth - 1) as nat, comma + next, false);
        lemma_items_step(item_text, comma, next, item, depth, items.take(k as int));
    }
}

/// Whether a key can begin `s`.
pub open spec fn starts_key(s: Seq<u8>) -> bool {
    s.len() > 0 && (is_identifier_start(s[0]) || s[0] == QUOTE)
}

proof fn lemma_empty_object_back(indent: Seq<u8>, level: nat, depth: nat, rest: Seq<u8>)
    requires
        level >= 1,
        is_blank(indent),
    ensures
        parse_object_spec(
            seq![OPEN_BRACE, LINE_FEED, LINE_FEED] + Seq::<u8>::empty() + seq![LINE_FEED] + repeat(
                indent,
                (level - 1) as nat,
            ) + seq![CLOSE_BRACE] + rest,
            depth,
        ) == Ok::<(Seq<(Seq<char>, ValueView)>, Seq<u8>), ErrorKind>((Seq::empty(), rest)),
{
    let s = seq![OPEN_BRACE, LINE_FEED, LINE_FEED] + Seq::<u8>::empty() + seq![LINE_FEED] + repeat(
        indent,
        (level - 1) as nat,
    ) + seq![CLOSE_BRACE] + rest;
    lemma_repeat_blank(indent, (level - 1) as nat);
    let space = seq![LINE_FEED, LINE_FEED, LINE_FEED] + repeat(indent, (level - 1) as nat);
    let brace = seq![CLOSE_BRACE] + rest;
    assert(s[0] == OPEN_BRACE);
    assert(s.skip(1) =~= space + brace);
    assert(is_space(space)) by {
        assert forall|i: int| 0 <= i < space.len() implies is_whitespace(#[trigger] space[i]) by {
            if i >= 3 {
                assert(space[i] == repeat(indent, (level - 1) as nat)[i - 3]);
            }
        }
    }
    assert(brace[0] == CLOSE_BRACE);
    lemma_skip_space(space, brace);
    assert(brace.skip(1) =~= rest);
}

/// An object in braces is opened, and its first key read, as the entries
/// after the key are.
#[verifier::rlimit(30)]
proof fn lemma_object_open(
    space: Seq<u8>,
    key: Seq<char>,
    at_colon: Seq<u8>,
    depth: nat,
)
    requires
        is_space(space),
        key_comes_back(key),
        at_colon.len() > 0,
        at_colon[0] == COLON,
    ensures
        parse_object_spec(seq![OPEN_BRACE] + space + write_key_spec(key) + at_colon, depth)
            == parse_key_value_pairs_spec(at_colon, key, depth, false),
{
    let key_text = write_key_spec(key);
    let inside = key_text + at_colon;
    let s = seq![OPEN_BRACE] + space + key_text + at_colon;
    assert(s[0] == OPEN_BRACE);
    assert(s.skip(1) =~= space + inside);
    lemma_key_starts(key);
    assert(inside[0] == key_text[0]);
    lemma_skip_space(space, inside);
    lemma_key_back(key, at_colon);
    lemma_skip_nothing(at_colon);
}

#[verifier::rlimit(30)]
proof fn lemma_object_back(
    entries: Seq<(Seq<char>, ValueView)>,
    indent: Seq<u8>,
    level: nat,
    depth: nat,
    rest: Seq<u8>,
)
    requires
        entries_come_back(entries, level, depth),
        level >= 1,
        is_blank(indent),
    ensures
        parse_object_spec(
            write_spec(ValueView::Object(entries), indent, level) + rest,
            depth,
        ) == Ok::<(Seq<(Seq<char>, ValueView)>, Seq<u8>), ErrorKind>((entries, rest)),
    decreases entries, 3nat, 0nat,
{
    lemma_object_text(entries, indent, level, rest);
    if entries.len() == 0 {
        assert(entries =~= Seq::<(Seq<char>, ValueView)>::empty());
        lemma_empty_object_back(indent, level, depth, rest);
    } else {
        let at_colon = seq![COLON, SPACE] + write_spec(entries[0].1, indent, level + 1)
            + more_entries(entries, indent, level, 1) + closing(indent, level, rest, false);
        let space = seq![LINE_FEED, LINE_FEED] + repeat(indent, level);
        lemma_lines_then_indent(indent, level);
        assert(at_colon[0] == COLON);
        lemma_entry_comes_back(entries, level, depth, 0);
        lemma_object_open(space, entries[0].0, at_colon, depth);
        lemma_pairs_back(entries, indent, level, depth, rest, false);
    }
}

#[verifier::rlimit(30)]
proof fn lemma_pairs_back(
    entries: Seq<(Seq<char>, ValueView)>,
    indent: Seq<u8>,
    level: nat,
    depth: nat,
    rest: Seq<u8>,
    top: bool,
)
    requires
        entries_come_back(entries, level, depth),
        entries.len() >= 1,
        is_blank(indent),
        top ==> rest.len() == 0,
        !top ==> level >= 1,
    ensures
        parse_key_value_pairs_spec(
            seq![COLON, SPACE] + write_spec(entries[0].1, indent, level + 1) + more_entries(
                entries,
                indent,
                level,
                1,
            ) + closing(indent, level, rest, top),
            entries[0].0,
            depth,
            top,
        ) == Ok::<(Seq<(Seq<char>, ValueView)>, Seq<u8>), ErrorKind>((entries, rest)),
    decreases entries, 2nat, 0nat,
{
    let value_text = write_spec(entries[0].1, indent, level + 1);
    let after_value = more_entries(entries, indent, level, 1) + closing(indent, level, rest, top);
    let s = seq![COLON, SPACE] + value_text + after_value;
    lemma_more_entries_stop(entries, indent, level, rest, top, 1);
    lemma_entry_comes_back(entries, level, depth, 0);
    lemma_value_back(entries[0].1, indent, level + 1, (depth - 1) as nat, after_value, false);
    assert(s[0] == COLON);
    assert(s.skip(1) =~= seq![SPACE] + (value_text + after_value));
    assert(is_space(seq![SPACE]));
    lemma_skip_space(seq![SPACE], value_text + after_value);
    assert(seq![(entries[0].0, entries[0].1)] =~= entries.take(1));
    assert(depth != 0);
    lemma_more_pairs_back(entries, indent, level, depth, rest, top, 1);
    assert(s =~= seq![COLON, SPACE] + write_spec(entries[0].1, indent, level + 1) + more_entries(
        entries,
        indent,
        level,
        1,
    ) + closing(indent, level, rest, top));
}

/// After the last entry an object ends: at the root with the input,
/// elsewhere with its brace.
proof fn lemma_pairs_end(
    indent: Seq<u8>,
    level: nat,
    depth: nat,
    rest: Seq<u8>,
    top: bool,
    done: Seq<(Seq<char>, ValueView)>,
)
    requires
        is_blank(indent),
        top ==> rest.len() == 0,
        !top ==> level >= 1,
    ensures
        parse_more_pairs_spec(closing(indent, level, rest, top), depth, top, done) == Ok::<
            (Seq<(Seq<char>, ValueView)>, Seq<u8>),
            ErrorKind,
        >((done, rest)),
{
    let s = closing(indent, level, rest, top);
    if top {
        assert(s =~= Seq::<u8>::empty());
        assert(rest =~= Seq::<u8>::empty());
        lemma_sep_missing(s);
        lemma_skip_nothing(s);
    } else {
        lemma_repeat_blank(indent, (level - 1) as nat);
        let brace = seq![CLOSE_BRACE] + rest;
        assert(s[0] == LINE_FEED);
        lemma_sep_found(s);
        assert(s.skip(1) =~= repeat(indent, (level - 1) as nat) + brace);
        assert(brace[0] == CLOSE_BRACE);
        lemma_skip_space(repeat(indent, (level - 1) as nat), brace);
        assert(brace.skip(1) =~= rest);
    }
}

/// An entry is read where its value is.
#[verifier::rlimit(30)]
proof fn lemma_pair_text_back(
    key: Seq<char>,
    value_text: Seq<u8>,
    after_value: Seq<u8>,
    value: ValueView,
    depth: nat,
)
    requires
        key_comes_back(key),
        depth >= 1,
        starts_value(value_text + after_value),
        parse_value_spec(value_text + after_value, (depth - 1) as nat, false) == Ok::<
            (ValueView, Seq<u8>),
            ErrorKind,
        >((value, after_value)),
    ensures
        parse_key_value_pair_spec(
            write_key_spec(key) + (seq![COLON, SPACE] + value_text + after_value),
            depth,
        ) == Ok::<((Seq<char>, ValueView), Seq<u8>), ErrorKind>(((key, value), after_value)),
{
    let at_colon = seq![COLON, SPACE] + value_text + after_value;
    assert(at_colon[0] == COLON);
    lemma_key_back(key, at_colon);
    lemma_skip_nothing(at_colon);
    assert(at_colon.skip(1) =~= seq![SPACE] + (value_text + after_value));
    assert(is_space(seq![SPACE]));
    lemma_skip_space(seq![SPACE], value_text + after_value);
}

/// After a line feed and indentation the next entry is read.
#[verifier::rlimit(30)]
proof fn lemma_more_pairs_step(
    space: Seq<u8>,
    at_key: Seq<u8>,
    depth: nat,
    top: bool,
    done: Seq<(Seq<char>, ValueView)>,
    pair: (Seq<char>, ValueView),
    after_value: Seq<u8>,
)
    requires
        is_space(space),
        starts_key(at_key),
        parse_key_value_pair_spec(at_key, depth) == Ok::<
            ((Seq<char>, ValueView), Seq<u8>),
            ErrorKind,
        >((pair, after_value)),
        after_value.len() < at_key.len(),
    ensures
        parse_more_pairs_spec(seq![LINE_FEED] + space + at_key, depth, top, done)
            == parse_more_pairs_spec(after_value, depth, top, insert_entry(done, pair.0, pair.1)),
{
    let s = seq![LINE_FEED] + space + at_key;
    assert(s[0] == LINE_FEED);
    lemma_sep_found(s);
    assert(s.skip(1) =~= space + at_key);
    lemma_skip_space(space, at_key);
}

/// The entry at place `k` is read where its value is, and the entries
/// after it are read next.
#[verifier::rlimit(30)]
proof fn lemma_more_pairs_next(
    entries: Seq<(Seq<char>, ValueView)>,
    indent: Seq<u8>,
    level: nat,
    depth: nat,
    end: Seq<u8>,
    top: bool,
    k: nat,
)
    requires
        entries_come_back(entries, level, depth),
        1 <= k < entries.len(),
        is_blank(indent),
        starts_value(
            write_spec(entries[k as int].1, indent, level + 1) + (more_entries(
                entries,
                indent,
                level,
                k + 1,
            ) + end),
        ),
        parse_value_spec(
            write_spec(entries[k as int].1, indent, level + 1) + (more_entries(
                entries,
                indent,
                level,
                k + 1,
            ) + end),
            (depth - 1) as nat,
            false,
        ) == Ok::<(ValueView, Seq<u8>), ErrorKind>(
            (entries[k as int].1, more_entries(entries, indent, level, k + 1) + end),
        ),
    ensures
        parse_more_pairs_spec(
            more_entries(entries, indent, level, k) + end,
            depth,
            top,
            entries.take(k as int),
        ) == parse_more_pairs_spec(
            more_entries(entries, indent, level, k + 1) + end,
            depth,
            top,
            entries.take(k as int + 1),
        ),
{
    let entry = entries[k as int];
    let key_text = write_key_spec(entry.0);
    let value_text = write_spec(entry.1, indent, level + 1);
    let after_value = more_entries(entries, indent, level, k + 1) + end;
    let at_key = key_text + (seq![COLON, SPACE] + value_text + after_value);
    lemma_more_entries_unfold(entries, indent, level, k, end);
    lemma_entry_comes_back(entries, level, depth, k as int);
    lemma_repeat_blank(indent, level);
    lemma_pair_text_back(entry.0, value_text, after_value, entry.1, depth);
    lemma_key_starts(entry.0);
    assert(at_key[0] == key_text[0]);
    lemma_more_pairs_step(
        repeat(indent, level),
        at_key,
        depth,
        top,
        entries.take(k as int),
        (entry.0, entry.1),
        after_value,
    );
}

#[verifier::rlimit(30)]
proof fn lemma_more_pairs_back(
    entries: Seq<(Seq<char>, ValueView)>,
    indent: Seq<u8>,
    level: nat,
    depth: nat,
    rest: Seq<u8>,
    top: bool,
    k: nat,
)
    requires
        entries_come_back(entries, level, depth),
        1 <= k <= entries.len(),
        is_blank(indent),
        top ==> rest.len() == 0,
        !top ==> level >= 1,
    ensures
        parse_more_pairs_spec(
            more_entries(entries, indent, level, k) + closing(indent, level, rest, top),
            depth,
            top,
            entries.take(k as int),
        ) == Ok::<(Seq<(Seq<char>, ValueView)>, Seq<u8>), ErrorKind>((entries, rest)),
    decreases entries, 1nat, entries.len() - k,
{
    let n = entries.len();
    let end = closing(indent, level, rest, top);
    if k == n {
        assert(more_entries(entries, indent, level, k) + end =~= end);
        assert(entries.take(n as int) =~= entries);
        lemma_pairs_end(indent, level, depth, rest, top, entries);
    } else {
        let after_value = more_entries(entries, indent, level, k + 1) + end;
        lemma_entry_comes_back(entries, level, depth, k as int);
        lemma_more_entries_stop(entries, indent, level, rest, top, k + 1);
        lemma_value_back(
            entries[k as int].1,
            indent,
            level + 1,
            (depth - 1) as nat,
            after_value,
            false,
        );
        lemma_more_pairs_next(entries, indent, level, depth, end, top, k);
        lemma_more_pairs_back(entries, indent, level, depth, rest, top, k + 1);
    }
}

proof fn lemma_root_pieces(w0: Seq<u8>, ind: Seq<u8>, key: Seq<u8>, value: Seq<u8>, more: Seq<u8>)
    requires
        w0.len() == 0,
        ind.len() == 0,
    ensures
        (w0 + Seq::<u8>::empty() + ind + key + seq![COLON, SPACE] + value) + more == key + (seq![
            COLON,
            SPACE,
        ] + value + more + Seq::<u8>::empty()),
{
    assert((w0 + Seq::<u8>::empty() + ind + key + seq![COLON, SPACE] + value) + more =~= key + (
    seq![COLON, SPACE] + value + more + Seq::<u8>::empty()));
}

/// An object at the root is written as its first key and what follows it.
proof fn lemma_root_object_text(entries: Seq<(Seq<char>, ValueView)>, indent: Seq<u8>)
    requires
        entries.len() >= 1,
    ensures
        write_spec(ValueView::Object(entries), indent, 0) == write_key_spec(entries[0].0) + (seq![
            COLON,
            SPACE,
        ] + write_spec(entries[0].1, indent, 1) + more_entries(entries, indent, 0, 1) + closing(
            indent,
            0,
            Seq::empty(),
            true,
        )),
{
    lemma_entries_split(entries, indent, 0, 1);
    lemma_root_pieces(
        write_entries_spec(entries, indent, 0, 0),
        repeat(indent, 0),
        write_key_spec(entries[0].0),
        write_spec(entries[0].1, indent, 1),
        more_entries(entries, indent, 0, 1),
    );
}

/// The first key of an object at the root is read, as a word or as a
/// string, and the entries are read from the colon after it.
#[verifier::rlimit(30)]
pub proof fn lemma_root_key_back(key: Seq<char>, at_colon: Seq<u8>, depth: nat)
    requires
        key_comes_back(key),
        at_colon.len() > 0,
        at_colon[0] == COLON,
        depth >= 1,
    ensures
        starts_plain(write_key_spec(key) + at_colon),
        parse_value_spec(write_key_spec(key) + at_colon, depth, true)
            == crate::deserialize::value::map_value(
            parse_key_value_pairs_spec(at_colon, key, depth, true),
            |entries: Seq<(Seq<char>, ValueView)>| ValueView::Object(entries),
        ),
{
    let bytes = encode_utf8(key);
    let doc = write_key_spec(key) + at_colon;
    vstd::utf8::encode_utf8_valid_utf8(key);
    vstd::utf8::encode_utf8_decode_utf8(key);
    lemma_skip_nothing(at_colon);
    if is_bare_key(bytes) {
        lemma_word_back(bytes, at_colon);
        if bytes.len() >= 2 {
            lemma_identifier_len_bound(bytes.skip(1).skip(1));
            assert(is_identifier_byte(bytes.skip(1)[0]));
            assert(doc[1] == bytes[1]);
        } else {
            assert(doc[1] == COLON);
        }
        assert(doc[0] == bytes[0]);
    } else {
        lemma_string_back(key, at_colon);
        assert(doc[0] == QUOTE);
    }
}

/// The entries of an object at the root are read from its first key on.
#[verifier::rlimit(30)]
proof fn lemma_root_object_back(entries: Seq<(Seq<char>, ValueView)>, indent: Seq<u8>)
    requires
        entries_come_back(entries, 0, MAX_DEPTH as nat),
        entries.len() >= 1,
        is_blank(indent),
    ensures
        parse_value_spec(
            write_spec(ValueView::Object(entries), indent, 0),
            MAX_DEPTH as nat,
            true,
        ) == Ok::<(ValueView, Seq<u8>), ErrorKind>(
            (ValueView::Object(entries), Seq::<u8>::empty()),
        ),
        starts_plain(write_spec(ValueView::Object(entries), indent, 0)),
{
    let at_colon = seq![COLON, SPACE] + write_spec(entries[0].1, indent, 1) + more_entries(
        entries,
        indent,
        0,
        1,
    ) + closing(indent, 0, Seq::empty(), true);
    lemma_root_object_text(entries, indent);
    assert(at_colon[0] == COLON);
    lemma_entry_comes_back(entries, 0, MAX_DEPTH as nat, 0);
    lemma_root_key_back(entries[0].0, at_colon, MAX_DEPTH as nat);
    lemma_pairs_back(entries, indent, 0, MAX_DEPTH as nat, Seq::empty(), true);
}

/// What is written is read back: the document of a value stands for the
/// value, where the value is one that a document can stand for. Left out
/// are a tree deeper than the reader goes; at the root, an object without
/// entries; an object inside an array at the root; a string or a key that
/// ends with a backslash; and a byte string with a quote or a backslash.
pub proof fn lemma_round_trip(v: ValueView, indent: Seq<u8>)
    requires
        v.well_formed(),
        comes_back(v),
        is_blank(indent),
    ensures
        parse_document_spec(write_spec(v, indent, 0)) == Ok::<ValueView, ErrorKind>(v),
{
    let doc = write_spec(v, indent, 0);
    let nothing = Seq::<u8>::empty();
    lemma_skip_nothing(nothing);
    match v {
        ValueView::Object(entries) => {
            assert(entries_come_back(entries, 0, MAX_DEPTH as nat)) by {
                reveal(entries_come_back);
            }
            lemma_root_object_back(entries, indent);
            lemma_skip_nothing(doc);
        },
        _ => {
            lemma_value_back(v, indent, 0, MAX_DEPTH as nat, nothing, true);
            assert(doc + nothing =~= doc);
            lemma_skip_nothing(doc);
        },
    }
}

/// The document of a value, with the usual indentation, is read back as
/// the value.
pub proof fn lemma_document_round_trip(v: ValueView)
    requires
        v.well_formed(),
        comes_back(v),
    ensures
        parse_document_spec(document_spec(v)) == Ok::<ValueView, ErrorKind>(v),
{
    assert(is_blank(default_indent()));
    lemma_round_trip(v, default_indent());
}

/// Writing what was read from a written document gives the document again.
pub proof fn lemma_write_read_write(v: ValueView)
    requires
        v.well_formed(),
        comes_back(v),
    ensures
        parse_document_spec(document_spec(v)) matches Ok(read) && document_spec(read)
            == document_spec(v),
{
    lemma_document_round_trip(v);
}

/// What was read is read again from what is written of it: for a value
/// `v` that a document `s` stands for, the document that is written of `v`
/// stands for `v`, where a document can express `v`.
pub proof fn lemma_read_write_read(s: Seq<u8>, v: ValueView)
    requires
        parse_document_spec(s) == Ok::<ValueView, ErrorKind>(v),
        expressible(v),
    ensures
        parse_document_spec(document_spec(v)) == Ok::<ValueView, ErrorKind>(v),
        document_spec(parse_document_spec(document_spec(v))->Ok_0) == document_spec(v),
{
    lemma_parsed_document(s);
    lemma_document_round_trip(v);
}

} // verus!
