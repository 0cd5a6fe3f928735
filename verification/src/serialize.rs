//! Writing a tree as a document.

use vstd::prelude::*;
use vstd::utf8::{decode_utf8, encode_utf8, valid_utf8};
use crate::ascii::{
    alphabetic, alphanumeric, BACKSLASH, BACKSPACE, CARRIAGE_RETURN, CLOSE_BRACE, CLOSE_BRACKET,
    COLON, COMMA, EXCLAMATION_MARK, FORM_FEED, LINE_FEED, LOWER_B, LOWER_F, LOWER_N, LOWER_R,
    LOWER_T, LOWER_X, MINUS, OPEN_BRACE, OPEN_BRACKET, QUOTE, SPACE, TAB, TILDE, UNDERSCORE,
};
use crate::deserialize::{from_slice, from_str, parse_document_spec, parsed_as};
use crate::deserialize::value::{identifier_len, is_identifier_byte, is_identifier_start};
use crate::error::Error;
use crate::hex::{encode_hex, hex_digit};
use crate::number::{is_number_text, lemma_number_text_is_utf8, number_text};
use crate::utils::{lemma_ascii_is_utf8, string_from_utf8};
use crate::value::{Object, Value, ValueView, view_all};

verus! {

/// The pieces that `piece` makes of the bytes of `s`, one after another.
pub open spec fn expand(s: Seq<u8>, piece: spec_fn(u8) -> Seq<u8>) -> Seq<u8>
    decreases s.len(),
{
    if s.len() == 0 {
        Seq::empty()
    } else {
        piece(s[0]) + expand(s.skip(1), piece)
    }
}

/// The pieces of two texts in a row are the pieces of the first and then
/// those of the second.
pub proof fn lemma_expand_concat(a: Seq<u8>, b: Seq<u8>, piece: spec_fn(u8) -> Seq<u8>)
    ensures
        expand(a + b, piece) == expand(a, piece) + expand(b, piece),
    decreases a.len(),
{
    if a.len() == 0 {
        assert(a + b =~= b);
        assert(expand(a, piece) + expand(b, piece) =~= expand(b, piece));
    } else {
        assert((a + b).skip(1) =~= a.skip(1) + b);
        lemma_expand_concat(a.skip(1), b, piece);
        assert(piece(a[0]) + (expand(a.skip(1), piece) + expand(b, piece)) =~= (piece(a[0])
            + expand(a.skip(1), piece)) + expand(b, piece));
    }
}

/// The pieces of a text with one byte more are its pieces and then the
/// piece of that byte.
pub proof fn lemma_expand_push(s: Seq<u8>, byte: u8, piece: spec_fn(u8) -> Seq<u8>)
    ensures
        expand(s.push(byte), piece) == expand(s, piece) + piece(byte),
{
    lemma_expand_concat(s, seq![byte], piece);
    assert(s.push(byte) =~= s + seq![byte]);
    let one = seq![byte];
    assert(one.skip(1) =~= Seq::<u8>::empty());
    assert(expand(one.skip(1), piece) =~= Seq::<u8>::empty());
    assert(one[0] == byte);
    assert(expand(one, piece) =~= piece(byte));
}

/// How a byte of a string is written: a backslash goes before a quote and
/// before a backslash, and every other byte stands for itself.
pub open spec fn string_piece(byte: u8) -> Seq<u8> {
    if byte == QUOTE || byte == BACKSLASH {
        seq![BACKSLASH, byte]
    } else {
        seq![byte]
    }
}

/// A string as it is written: between quotes, its quotes and backslashes
/// escaped.
pub open spec fn write_string_spec(text: Seq<char>) -> Seq<u8> {
    seq![QUOTE] + expand(encode_utf8(text), |b: u8| string_piece(b)) + seq![QUOTE]
}

/// How a byte of a byte string is written: the printable bytes, from `!`
/// to `~`, stand for themselves; tab, carriage return, line feed, backspace
/// and form feed have an escape of one letter; every other byte, the space
/// among them, is `\x` and two digits.
pub open spec fn byte_piece(byte: u8) -> Seq<u8> {
    if EXCLAMATION_MARK <= byte <= TILDE {
        seq![byte]
    } else if byte == TAB {
        seq![BACKSLASH, LOWER_T]
    } else if byte == CARRIAGE_RETURN {
        seq![BACKSLASH, LOWER_R]
    } else if byte == LINE_FEED {
        seq![BACKSLASH, LOWER_N]
    } else if byte == BACKSPACE {
        seq![BACKSLASH, LOWER_B]
    } else if byte == FORM_FEED {
        seq![BACKSLASH, LOWER_F]
    } else {
        seq![BACKSLASH, LOWER_X, hex_digit(byte / 16)->0, hex_digit(byte % 16)->0]
    }
}

/// A byte string as it is written: `b`, then its bytes between quotes.
pub open spec fn write_bytes_spec(bytes: Seq<u8>) -> Seq<u8> {
    seq![LOWER_B, QUOTE] + expand(bytes, |b: u8| byte_piece(b)) + seq![QUOTE]
}

/// Whether a key with these bytes is written without quotes: it begins with
/// a letter or `_` and goes on with letters, digits, `_` and `-`.
pub open spec fn is_bare_key(bytes: Seq<u8>) -> bool {
    bytes.len() >= 1 && is_identifier_start(bytes[0]) && identifier_len(bytes.skip(1))
        == bytes.len() - 1
}

/// A key as it is written: as it is, or as a string.
pub open spec fn write_key_spec(key: Seq<char>) -> Seq<u8> {
    if is_bare_key(encode_utf8(key)) {
        encode_utf8(key)
    } else {
        write_string_spec(key)
    }
}

/// `unit` written `n` times.
pub open spec fn repeat(unit: Seq<u8>, n: nat) -> Seq<u8>
    decreases n,
{
    if n == 0 {
        Seq::empty()
    } else {
        repeat(unit, (n - 1) as nat) + unit
    }
}

/// The bytes of `true` and of `false`.
pub open spec fn bool_text(b: bool) -> Seq<u8> {
    if b {
        seq![116u8, 114, 117, 101]
    } else {
        seq![102u8, 97, 108, 115, 101]
    }
}

/// The bytes of `null`.
pub open spec fn null_text() -> Seq<u8> {
    seq![110u8, 117, 108, 108]
}

/// The document that stands for `v`, written at the given level with
/// `indent` as the unit of indentation. An object at level 0 has no braces
/// and one entry on a line; deeper, it stands in braces, its entries
/// indented by the level, the closing brace by one unit less. An array
/// stands on one line, its items at the level of the array.
pub open spec fn write_spec(v: ValueView, indent: Seq<u8>, level: nat) -> Seq<u8>
    decreases v, 0nat,
{
    match v {
        ValueView::Object(entries) => if level == 0 {
            write_entries_spec(entries, indent, level, entries.len())
        } else {
            seq![OPEN_BRACE, LINE_FEED, LINE_FEED] + write_entries_spec(
                entries,
                indent,
                level,
                entries.len(),
            ) + seq![LINE_FEED] + repeat(indent, (level - 1) as nat) + seq![CLOSE_BRACE]
        },
        ValueView::Array(items) => seq![OPEN_BRACKET] + write_items_spec(
            items,
            indent,
            level,
            items.len(),
        ) + seq![CLOSE_BRACKET],
        ValueView::ByteString(bytes) => write_bytes_spec(bytes),
        ValueView::String(text) => write_string_spec(text),
        ValueView::Number(number) => number_text(number),
        ValueView::Bool(b) => bool_text(b),
        ValueView::Null => null_text(),
    }
}

/// The first `n` entries of an object as they are written: each on a line
/// of its own, the key, a colon and a space, and the value one level deeper.
pub open spec fn write_entries_spec(
    entries: Seq<(Seq<char>, ValueView)>,
    indent: Seq<u8>,
    level: nat,
    n: nat,
) -> Seq<u8>
    decreases entries, n,
{
    if n == 0 || n > entries.len() {
        Seq::empty()
    } else {
        let before = write_entries_spec(entries, indent, level, (n - 1) as nat);
        let line_break = if n == 1 {
            Seq::<u8>::empty()
        } else {
            seq![LINE_FEED]
        };
        before + line_break + repeat(indent, level) + write_key_spec(entries[n - 1].0) + seq![
            COLON,
            SPACE,
        ] + write_spec(entries[n - 1].1, indent, level + 1)
    }
}

/// The first `n` items of an array as they are written: with a comma and a
/// space between them.
pub open spec fn write_items_spec(items: Seq<ValueView>, indent: Seq<u8>, level: nat, n: nat) -> Seq<
    u8,
>
    decreases items, n,
{
    if n == 0 || n > items.len() {
        Seq::empty()
    } else {
        let before = write_items_spec(items, indent, level, (n - 1) as nat);
        let comma = if n == 1 {
            Seq::<u8>::empty()
        } else {
            seq![COMMA, SPACE]
        };
        before + comma + write_spec(items[n - 1], indent, level)
    }
}

/// Whether neither a quote nor a backslash is among `bytes`.
pub open spec fn no_quote_or_backslash(bytes: Seq<u8>) -> bool {
    forall|i: int| 0 <= i < bytes.len() ==> #[trigger] bytes[i] != QUOTE && bytes[i] != BACKSLASH
}

/// A text without quotes and backslashes is written as it is.
pub proof fn lemma_expand_plain(bytes: Seq<u8>)
    requires
        no_quote_or_backslash(bytes),
    ensures
        expand(bytes, |b: u8| string_piece(b)) == bytes,
    decreases bytes.len(),
{
    if bytes.len() > 0 {
        let tail = bytes.skip(1);
        assert forall|i: int| 0 <= i < tail.len() implies #[trigger] tail[i] != QUOTE && tail[i]
            != BACKSLASH by {
            assert(tail[i] == bytes[i + 1]);
        }
        lemma_expand_plain(tail);
        assert(bytes[0] != QUOTE && bytes[0] != BACKSLASH);
        assert(seq![bytes[0]] + tail =~= bytes);
    } else {
        assert(bytes =~= Seq::<u8>::empty());
    }
}

proof fn lemma_high_bytes(x: u8)
    by (bit_vector)
    ensures
        (0x80u8 | x) >= 128,
        (0xC0u8 | x) >= 128,
        (0xE0u8 | x) >= 128,
        (0xF0u8 | x) >= 128,
{
}

proof fn lemma_low_byte(v: u32)
    by (bit_vector)
    requires
        v <= 0x7F,
    ensures
        (v & 0x7F) < 128,
{
}

/// The bytes of a character are well-formed UTF-8; those of a character
/// outside ASCII are all above 127.
proof fn lemma_scalar_bytes(c: char)
    ensures
        valid_utf8(vstd::utf8::encode_scalar(c as u32)),
        vstd::utf8::encode_scalar(c as u32).len() >= 1,
        (c as u32) <= 0x7F ==> vstd::utf8::encode_scalar(c as u32).len() == 1
            && vstd::utf8::encode_scalar(c as u32)[0] < 128,
        (c as u32) > 0x7F ==> forall|i: int|
            0 <= i < vstd::utf8::encode_scalar(c as u32).len() ==> #[trigger] vstd::utf8::encode_scalar(
                c as u32,
            )[i] >= 128,
{
    let v = c as u32;
    let es = vstd::utf8::encode_scalar(v);
    let one = seq![c];
    assert(one.drop_first() =~= Seq::<char>::empty());
    assert(encode_utf8(one) =~= es) by {
        assert(encode_utf8(one.drop_first()) =~= Seq::<u8>::empty());
    }
    vstd::utf8::encode_utf8_valid_utf8(one);
    vstd::utf8::char_is_scalar(c);
    if v <= 0x7F {
        lemma_low_byte(v);
    } else {
        assert forall|i: int| 0 <= i < es.len() implies #[trigger] es[i] >= 128 by {
            lemma_high_bytes(((v >> 6) & 0x1F) as u8);
            lemma_high_bytes(((v >> 12) & 0x0F) as u8);
            lemma_high_bytes(((v >> 18) & 0x7) as u8);
            lemma_high_bytes((v & 0x3F) as u8);
            lemma_high_bytes(((v >> 6) & 0x3F) as u8);
            lemma_high_bytes(((v >> 12) & 0x3F) as u8);
        }
    }
}

proof fn lemma_valid_concat(a: Seq<u8>, b: Seq<u8>)
    requires
        valid_utf8(a),
        valid_utf8(b),
    ensures
        valid_utf8(a + b),
{
    vstd::utf8::valid_utf8_concat(a, b);
}

proof fn lemma_escaped_text_is_utf8(chars: Seq<char>)
    ensures
        valid_utf8(expand(encode_utf8(chars), |b: u8| string_piece(b))),
    decreases chars.len(),
{
    let piece = |b: u8| string_piece(b);
    if chars.len() == 0 {
        assert(expand(encode_utf8(chars), piece) =~= Seq::<u8>::empty());
    } else {
        let es = vstd::utf8::encode_scalar(chars[0] as u32);
        let tail = encode_utf8(chars.drop_first());
        lemma_scalar_bytes(chars[0]);
        lemma_escaped_text_is_utf8(chars.drop_first());
        lemma_expand_concat(es, tail, piece);
        if (chars[0] as u32) <= 0x7F {
            assert(es.skip(1) =~= Seq::<u8>::empty());
            assert(expand(es.skip(1), piece) =~= Seq::<u8>::empty());
            assert(expand(es, piece) =~= string_piece(es[0]));
            lemma_ascii_is_utf8(string_piece(es[0]));
        } else {
            assert(no_quote_or_backslash(es)) by {
                assert forall|i: int| 0 <= i < es.len() implies #[trigger] es[i] != QUOTE && es[i]
                    != BACKSLASH by {
                    assert(es[i] >= 128);
                }
            }
            lemma_expand_plain(es);
        }
        lemma_valid_concat(expand(es, piece), expand(tail, piece));
    }
}

/// A string is written as well-formed UTF-8.
pub proof fn lemma_string_text_is_utf8(text: Seq<char>)
    ensures
        valid_utf8(write_string_spec(text)),
{
    let inner = expand(encode_utf8(text), |b: u8| string_piece(b));
    lemma_escaped_text_is_utf8(text);
    lemma_ascii_is_utf8(seq![QUOTE]);
    lemma_valid_concat(seq![QUOTE], inner);
    lemma_valid_concat(seq![QUOTE] + inner, seq![QUOTE]);
}

proof fn lemma_escaped_bytes_are_ascii(bytes: Seq<u8>)
    ensures
        crate::deserialize::string::is_ascii(expand(bytes, |b: u8| byte_piece(b))),
    decreases bytes.len(),
{
    let piece = |b: u8| byte_piece(b);
    if bytes.len() > 0 {
        let first = byte_piece(bytes[0]);
        let rest = expand(bytes.skip(1), piece);
        lemma_escaped_bytes_are_ascii(bytes.skip(1));
        crate::hex::lemma_decode_encode(bytes[0]);
        assert forall|i: int| 0 <= i < (first + rest).len() implies #[trigger] (first + rest)[i]
            < 128 by {
            if i < first.len() {
                assert((first + rest)[i] == first[i]);
            } else {
                assert((first + rest)[i] == rest[i - first.len()]);
            }
        }
    }
}

/// A byte string is written in ASCII.
pub proof fn lemma_bytes_text_is_utf8(bytes: Seq<u8>)
    ensures
        valid_utf8(write_bytes_spec(bytes)),
{
    let inner = expand(bytes, |b: u8| byte_piece(b));
    lemma_escaped_bytes_are_ascii(bytes);
    let t = write_bytes_spec(bytes);
    assert forall|i: int| 0 <= i < t.len() implies #[trigger] t[i] < 128 by {
        if 2 <= i < 2 + inner.len() {
            assert(t[i] == inner[i - 2]);
        }
    }
    lemma_ascii_is_utf8(t);
}

/// A key is written as well-formed UTF-8.
pub proof fn lemma_key_text_is_utf8(key: Seq<char>)
    ensures
        valid_utf8(write_key_spec(key)),
{
    vstd::utf8::encode_utf8_valid_utf8(key);
    lemma_string_text_is_utf8(key);
}

proof fn lemma_repeat_is_utf8(unit: Seq<u8>, n: nat)
    requires
        valid_utf8(unit),
    ensures
        valid_utf8(repeat(unit, n)),
    decreases n,
{
    if n > 0 {
        lemma_repeat_is_utf8(unit, (n - 1) as nat);
        lemma_valid_concat(repeat(unit, (n - 1) as nat), unit);
    }
}

/// What begins an entry is well-formed UTF-8: the line feed between
/// entries, the indentation, the key, the colon and the space.
proof fn lemma_entry_head_is_utf8(key: Seq<char>, unit: Seq<u8>, level: nat, first: bool)
    requires
        valid_utf8(unit),
    ensures
        valid_utf8(
            (if first {
                Seq::<u8>::empty()
            } else {
                seq![LINE_FEED]
            }) + repeat(unit, level) + write_key_spec(key) + seq![COLON, SPACE],
        ),
{
    let line_break = if first {
        Seq::<u8>::empty()
    } else {
        seq![LINE_FEED]
    };
    lemma_ascii_is_utf8(line_break);
    lemma_repeat_is_utf8(unit, level);
    lemma_key_text_is_utf8(key);
    lemma_ascii_is_utf8(seq![COLON, SPACE]);
    lemma_valid_concat(line_break, repeat(unit, level));
    lemma_valid_concat(line_break + repeat(unit, level), write_key_spec(key));
    lemma_valid_concat(
        line_break + repeat(unit, level) + write_key_spec(key),
        seq![COLON, SPACE],
    );
}

/// Whether what is written of `v` is well-formed UTF-8 where the unit of
/// indentation is.
#[verifier::opaque]
pub open spec fn writes_utf8(v: ValueView, unit: Seq<u8>, level: nat) -> bool {
    valid_utf8(unit) ==> valid_utf8(write_spec(v, unit, level))
}

/// Whether the first `n` entries are written as well-formed UTF-8.
#[verifier::opaque]
pub open spec fn entries_write_utf8(
    entries: Seq<(Seq<char>, ValueView)>,
    unit: Seq<u8>,
    level: nat,
    n: nat,
) -> bool {
    valid_utf8(unit) ==> valid_utf8(write_entries_spec(entries, unit, level, n))
}

/// Whether the first `n` items are written as well-formed UTF-8.
#[verifier::opaque]
pub open spec fn items_write_utf8(items: Seq<ValueView>, unit: Seq<u8>, level: nat, n: nat) -> bool {
    valid_utf8(unit) ==> valid_utf8(write_items_spec(items, unit, level, n))
}

proof fn lemma_entries_write_utf8(
    entries: Seq<(Seq<char>, ValueView)>,
    unit: Seq<u8>,
    level: nat,
    i: nat,
)
    requires
        i < entries.len(),
        entries_write_utf8(entries, unit, level, i),
        writes_utf8(entries[i as int].1, unit, level + 1),
    ensures
        entries_write_utf8(entries, unit, level, i + 1),
        entries_write_utf8(entries, unit, level, 0),
{
    reveal(entries_write_utf8);
    reveal(writes_utf8);
    if valid_utf8(unit) {
        lemma_entries_step_is_utf8(entries, unit, level, i);
    }
}

proof fn lemma_items_write_utf8(items: Seq<ValueView>, unit: Seq<u8>, level: nat, i: nat)
    requires
        i < items.len(),
        items_write_utf8(items, unit, level, i),
        writes_utf8(items[i as int], unit, level),
    ensures
        items_write_utf8(items, unit, level, i + 1),
{
    reveal(items_write_utf8);
    reveal(writes_utf8);
    if valid_utf8(unit) {
        lemma_items_step_is_utf8(items, unit, level, i);
    }
}

proof fn lemma_nothing_writes_utf8(
    entries: Seq<(Seq<char>, ValueView)>,
    items: Seq<ValueView>,
    unit: Seq<u8>,
    level: nat,
)
    ensures
        entries_write_utf8(entries, unit, level, 0),
        items_write_utf8(items, unit, level, 0),
{
    reveal(entries_write_utf8);
    reveal(items_write_utf8);
}

proof fn lemma_object_writes_utf8(
    entries: Seq<(Seq<char>, ValueView)>,
    unit: Seq<u8>,
    level: nat,
)
    requires
        entries_write_utf8(entries, unit, level, entries.len()),
    ensures
        writes_utf8(ValueView::Object(entries), unit, level),
{
    reveal(entries_write_utf8);
    reveal(writes_utf8);
    if valid_utf8(unit) {
        lemma_object_text_is_utf8(entries, unit, level);
    }
}

proof fn lemma_array_writes_utf8(items: Seq<ValueView>, unit: Seq<u8>, level: nat)
    requires
        items_write_utf8(items, unit, level, items.len()),
    ensures
        writes_utf8(ValueView::Array(items), unit, level),
{
    reveal(items_write_utf8);
    reveal(writes_utf8);
    if valid_utf8(unit) {
        lemma_array_text_is_utf8(items, unit, level);
    }
}

proof fn lemma_scalar_writes_utf8(v: ValueView, unit: Seq<u8>, level: nat)
    requires
        !(v is Object),
        !(v is Array),
        v matches ValueView::Number(number) ==> is_number_text(number.text),
    ensures
        writes_utf8(v, unit, level),
{
    reveal(writes_utf8);
    match v {
        ValueView::ByteString(bytes) => {
            lemma_bytes_text_is_utf8(bytes);
        },
        ValueView::String(text) => {
            lemma_string_text_is_utf8(text);
        },
        ValueView::Number(number) => {
            lemma_number_text_is_utf8(number);
        },
        ValueView::Bool(b) => {
            lemma_ascii_is_utf8(bool_text(b));
        },
        _ => {
            lemma_ascii_is_utf8(null_text());
        },
    }
}

proof fn lemma_entries_step_is_utf8(
    entries: Seq<(Seq<char>, ValueView)>,
    unit: Seq<u8>,
    level: nat,
    i: nat,
)
    requires
        valid_utf8(unit),
        i < entries.len(),
        valid_utf8(write_entries_spec(entries, unit, level, i)),
        valid_utf8(write_spec(entries[i as int].1, unit, level + 1)),
    ensures
        valid_utf8(write_entries_spec(entries, unit, level, i + 1)),
{
    let before = write_entries_spec(entries, unit, level, i);
    let line_break = if i == 0 {
        Seq::<u8>::empty()
    } else {
        seq![LINE_FEED]
    };
    let head = line_break + repeat(unit, level) + write_key_spec(entries[i as int].0) + seq![
        COLON,
        SPACE,
    ];
    let value_text = write_spec(entries[i as int].1, unit, level + 1);
    lemma_entry_head_is_utf8(entries[i as int].0, unit, level, i == 0);
    lemma_valid_concat(head, value_text);
    lemma_valid_concat(before, head + value_text);
    assert(write_entries_spec(entries, unit, level, i + 1) =~= before + (head + value_text));
}

proof fn lemma_items_step_is_utf8(items: Seq<ValueView>, unit: Seq<u8>, level: nat, i: nat)
    requires
        i < items.len(),
        valid_utf8(write_items_spec(items, unit, level, i)),
        valid_utf8(write_spec(items[i as int], unit, level)),
    ensures
        valid_utf8(write_items_spec(items, unit, level, i + 1)),
{
    let before = write_items_spec(items, unit, level, i);
    let comma = if i == 0 {
        Seq::<u8>::empty()
    } else {
        seq![COMMA, SPACE]
    };
    let item_text = write_spec(items[i as int], unit, level);
    lemma_ascii_is_utf8(comma);
    lemma_valid_concat(comma, item_text);
    lemma_valid_concat(before, comma + item_text);
    assert(write_items_spec(items, unit, level, i + 1) =~= before + (comma + item_text));
}

proof fn lemma_object_text_is_utf8(
    entries: Seq<(Seq<char>, ValueView)>,
    unit: Seq<u8>,
    level: nat,
)
    requires
        valid_utf8(unit),
        valid_utf8(write_entries_spec(entries, unit, level, entries.len())),
    ensures
        valid_utf8(write_spec(ValueView::Object(entries), unit, level)),
{
    if level != 0 {
        let written = write_entries_spec(entries, unit, level, entries.len());
        let open = seq![OPEN_BRACE, LINE_FEED, LINE_FEED];
        let outer = repeat(unit, (level - 1) as nat);
        lemma_ascii_is_utf8(open);
        lemma_ascii_is_utf8(seq![LINE_FEED]);
        lemma_ascii_is_utf8(seq![CLOSE_BRACE]);
        lemma_repeat_is_utf8(unit, (level - 1) as nat);
        lemma_valid_concat(open, written);
        lemma_valid_concat(open + written, seq![LINE_FEED]);
        lemma_valid_concat(open + written + seq![LINE_FEED], outer);
        lemma_valid_concat(open + written + seq![LINE_FEED] + outer, seq![CLOSE_BRACE]);
    }
}

proof fn lemma_array_text_is_utf8(items: Seq<ValueView>, unit: Seq<u8>, level: nat)
    requires
        valid_utf8(write_items_spec(items, unit, level, items.len())),
    ensures
        valid_utf8(write_spec(ValueView::Array(items), unit, level)),
{
    let written = write_items_spec(items, unit, level, items.len());
    lemma_ascii_is_utf8(seq![OPEN_BRACKET]);
    lemma_ascii_is_utf8(seq![CLOSE_BRACKET]);
    lemma_valid_concat(seq![OPEN_BRACKET], written);
    lemma_valid_concat(seq![OPEN_BRACKET] + written, seq![CLOSE_BRACKET]);
}

/// Adds `bytes` to `out`.
pub fn push_all(out: &mut Vec<u8>, bytes: &[u8])
    ensures
        final(out)@ == old(out)@ + bytes@,
{
    let n: usize = bytes.len();
    let mut i: usize = 0;
    assert(bytes@.take(0) =~= Seq::<u8>::empty());
    assert(out@ + Seq::<u8>::empty() =~= out@);
    while i < n
        invariant
            i <= n,
            n == bytes@.len(),
            out@ == old(out)@ + bytes@.take(i as int),
        decreases n - i,
    {
        out.push(bytes[i]);
        assert(old(out)@ + bytes@.take(i + 1) =~= (old(out)@ + bytes@.take(i as int)).push(
            bytes@[i as int],
        ));
        i = i + 1;
    }
    assert(bytes@.take(n as int) =~= bytes@);
}

/// Writes a byte of a byte string.
pub fn serialize_byte(out: &mut Vec<u8>, byte: u8)
    ensures
        final(out)@ == old(out)@ + byte_piece(byte),
{
    if EXCLAMATION_MARK <= byte && byte <= TILDE {
        out.push(byte);
    } else if byte == TAB {
        out.push(BACKSLASH);
        out.push(LOWER_T);
    } else if byte == CARRIAGE_RETURN {
        out.push(BACKSLASH);
        out.push(LOWER_R);
    } else if byte == LINE_FEED {
        out.push(BACKSLASH);
        out.push(LOWER_N);
    } else if byte == BACKSPACE {
        out.push(BACKSLASH);
        out.push(LOWER_B);
    } else if byte == FORM_FEED {
        out.push(BACKSLASH);
        out.push(LOWER_F);
    } else {
        let digits: [u8; 2] = encode_hex(byte);
        out.push(BACKSLASH);
        out.push(LOWER_X);
        out.push(digits[0]);
        out.push(digits[1]);
    }
    assert(out@ =~= old(out)@ + byte_piece(byte));
}

/// Writes a byte string.
#[verifier::rlimit(30)]
pub fn serialize_bytes(out: &mut Vec<u8>, bytes: &[u8])
    ensures
        final(out)@ == old(out)@ + write_bytes_spec(bytes@),
{
    let ghost piece = |b: u8| byte_piece(b);
    out.push(LOWER_B);
    out.push(QUOTE);
    let ghost head = out@;
    let n: usize = bytes.len();
    let mut i: usize = 0;
    proof {
        assert(bytes@.take(0) =~= Seq::<u8>::empty());
        assert(head + expand(bytes@.take(0), piece) =~= head);
    }
    while i < n
        invariant
            i <= n,
            n == bytes@.len(),
            piece == |b: u8| byte_piece(b),
            out@ == head + expand(bytes@.take(i as int), piece),
        decreases n - i,
    {
        let byte: u8 = bytes[i];
        let ghost before = out@;
        serialize_byte(out, byte);
        proof {
            lemma_expand_push(bytes@.take(i as int), byte, piece);
            assert(bytes@.take(i as int).push(byte) =~= bytes@.take(i + 1));
            assert(head + (expand(bytes@.take(i as int), piece) + byte_piece(byte)) =~= before
                + byte_piece(byte));
        }
        i = i + 1;
    }
    out.push(QUOTE);
    proof {
        assert(bytes@.take(n as int) =~= bytes@);
        assert(out@ =~= old(out)@ + write_bytes_spec(bytes@));
    }
}

/// Writes a string: quotes and backslashes get a backslash before them.
#[verifier::rlimit(30)]
pub fn serialize_string(out: &mut Vec<u8>, string: &str)
    ensures
        final(out)@ == old(out)@ + write_string_spec(string@),
{
    let ghost piece = |b: u8| string_piece(b);
    let bytes: &[u8] = string.as_bytes();
    out.push(QUOTE);
    let ghost head = out@;
    let n: usize = bytes.len();
    let mut i: usize = 0;
    proof {
        assert(bytes@.take(0) =~= Seq::<u8>::empty());
        assert(head + expand(bytes@.take(0), piece) =~= head);
    }
    while i < n
        invariant
            i <= n,
            n == bytes@.len(),
            piece == |b: u8| string_piece(b),
            out@ == head + expand(bytes@.take(i as int), piece),
        decreases n - i,
    {
        let byte: u8 = bytes[i];
        let ghost before = out@;
        if byte == QUOTE || byte == BACKSLASH {
            out.push(BACKSLASH);
        }
        out.push(byte);
        proof {
            assert(out@ =~= before + string_piece(byte));
            lemma_expand_push(bytes@.take(i as int), byte, piece);
            assert(bytes@.take(i as int).push(byte) =~= bytes@.take(i + 1));
            assert(head + (expand(bytes@.take(i as int), piece) + string_piece(byte)) =~= before
                + string_piece(byte));
        }
        i = i + 1;
    }
    out.push(QUOTE);
    proof {
        assert(bytes@.take(n as int) =~= bytes@);
        assert(out@ =~= old(out)@ + write_string_spec(string@));
    }
}

/// Whether a key with these bytes is written without quotes.
pub fn bare_key(bytes: &[u8]) -> (r: bool)
    ensures
        r == is_bare_key(bytes@),
{
    let n: usize = bytes.len();
    if n == 0 {
        return false;
    }
    if !(alphabetic(bytes[0]) || bytes[0] == UNDERSCORE) {
        return false;
    }
    let ghost tail = bytes@.skip(1);
    let mut i: usize = 1;
    assert(tail.skip(0) =~= tail);
    while i < n
        invariant
            1 <= i <= n,
            n == bytes@.len(),
            tail == bytes@.skip(1),
            identifier_len(tail) == (i - 1) + identifier_len(tail.skip(i - 1)),
        decreases n - i,
    {
        let byte: u8 = bytes[i];
        assert(tail.skip(i - 1)[0] == byte);
        if !(alphanumeric(byte) || byte == UNDERSCORE || byte == MINUS) {
            proof {
                crate::serialize::lemma_identifier_len_bound(tail.skip(i - 1));
            }
            return false;
        }
        assert(tail.skip(i - 1).skip(1) =~= tail.skip(i as int));
        i = i + 1;
    }
    true
}

/// The bytes of a word that a text begins with are no more than the text
/// has.
pub proof fn lemma_identifier_len_bound(s: Seq<u8>)
    ensures
        identifier_len(s) <= s.len(),
    decreases s.len(),
{
    if s.len() > 0 && is_identifier_byte(s[0]) {
        lemma_identifier_len_bound(s.skip(1));
    }
}

/// Writes a key: as it is where it is a word, as a string otherwise.
pub fn serialize_key(out: &mut Vec<u8>, key: &str)
    ensures
        final(out)@ == old(out)@ + write_key_spec(key@),
{
    let bytes: &[u8] = key.as_bytes();
    if bare_key(bytes) {
        push_all(out, bytes);
    } else {
        serialize_string(out, key);
    }
}

/// An entry that is added byte by byte stands after the entries before it
/// as it is written.
proof fn lemma_entry_appended(
    head: Seq<u8>,
    before: Seq<u8>,
    first: bool,
    ind: Seq<u8>,
    key: Seq<u8>,
    value: Seq<u8>,
)
    ensures
        ((if first {
            head + before
        } else {
            (head + before).push(LINE_FEED)
        }) + ind + key).push(COLON).push(SPACE) + value == head + (before + (if first {
            Seq::<u8>::empty()
        } else {
            seq![LINE_FEED]
        }) + ind + key + seq![COLON, SPACE] + value),
{
    let line_break = if first {
        Seq::<u8>::empty()
    } else {
        seq![LINE_FEED]
    };
    let start = if first {
        head + before
    } else {
        (head + before).push(LINE_FEED)
    };
    assert(start =~= head + before + line_break);
    assert((start + ind + key).push(COLON).push(SPACE) + value =~= head + (before + line_break + ind
        + key + seq![COLON, SPACE] + value));
}

/// `unit` written `n` times.
pub fn repeated(unit: &[u8], n: usize) -> (r: Vec<u8>)
    ensures
        r@ == repeat(unit@, n as nat),
{
    let mut out: Vec<u8> = Vec::new();
    let mut i: usize = 0;
    while i < n
        invariant
            i <= n,
            out@ == repeat(unit@, i as nat),
        decreases n - i,
    {
        push_all(&mut out, unit);
        i = i + 1;
    }
    out
}

/// Writes `value` at a level of which only the indentation is known:
/// `inner` is the indentation of the level, `outer` that of the level
/// above, and `top` says whether the level is 0.
#[verifier::rlimit(30)]
fn write_nested(
    value: &Value,
    out: &mut Vec<u8>,
    unit: &[u8],
    outer: &[u8],
    inner: &[u8],
    top: bool,
    Ghost(level): Ghost<nat>,
)
    requires
        top == (level == 0),
        inner@ == repeat(unit@, level),
        !top ==> outer@ == repeat(unit@, (level - 1) as nat),
    ensures
        final(out)@ == old(out)@ + write_spec(value@, unit@, level),
        writes_utf8(value@, unit@, level),
    decreases value,
{
    let ghost start = out@;
    match value {
        Value::Object(object) => {
            if !top {
                out.push(OPEN_BRACE);
                out.push(LINE_FEED);
                out.push(LINE_FEED);
            }
            let ghost head = out@;
            let mut deeper: Vec<u8> = Vec::new();
            push_all(&mut deeper, inner);
            push_all(&mut deeper, unit);
            assert(deeper@ =~= repeat(unit@, level + 1));
            let n: usize = object.len();
            let mut i: usize = 0;
            assert(head + write_entries_spec(object@, unit@, level, 0) =~= head);
            proof {
                lemma_nothing_writes_utf8(object@, Seq::empty(), unit@, level);
            }
            while i < n
                invariant
                    i <= n,
                    n == object@.len(),
                    value == Value::Object(*object),
                    top == (level == 0),
                    inner@ == repeat(unit@, level),
                    deeper@ == repeat(unit@, level + 1),
                    out@ == head + write_entries_spec(object@, unit@, level, i as nat),
                    entries_write_utf8(object@, unit@, level, i as nat),
                decreases n - i,
            {
                let ghost before = out@;
                if i > 0 {
                    out.push(LINE_FEED);
                }
                push_all(out, inner);
                serialize_key(out, object.key_at(i).as_str());
                out.push(COLON);
                out.push(SPACE);
                let item: &Value = object.value_at(i);
                proof {
                    assert(decreases_to!(value => value->Object_0));
                }
                write_nested(
                    item,
                    out,
                    unit,
                    inner,
                    deeper.as_slice(),
                    false,
                    Ghost(level + 1),
                );
                proof {
                    let entry = object@[i as int];
                    lemma_entry_appended(
                        head,
                        write_entries_spec(object@, unit@, level, i as nat),
                        i == 0,
                        repeat(unit@, level),
                        write_key_spec(entry.0),
                        write_spec(entry.1, unit@, level + 1),
                    );
                    lemma_entries_write_utf8(object@, unit@, level, i as nat);
                }
                i = i + 1;
            }
            if !top {
                out.push(LINE_FEED);
                push_all(out, outer);
                out.push(CLOSE_BRACE);
            }
            proof {
                assert(out@ =~= start + write_spec(value@, unit@, level));
                lemma_object_writes_utf8(object@, unit@, level);
            }
        },
        Value::Array(items) => {
            out.push(OPEN_BRACKET);
            let ghost head = out@;
            let n: usize = items.len();
            let mut i: usize = 0;
            assert(head + write_items_spec(view_all(items@), unit@, level, 0) =~= head);
            proof {
                lemma_nothing_writes_utf8(Seq::empty(), view_all(items@), unit@, level);
            }
            while i < n
                invariant
                    i <= n,
                    n == items@.len(),
                    value == Value::Array(*items),
                    top == (level == 0),
                    inner@ == repeat(unit@, level),
                    !top ==> outer@ == repeat(unit@, (level - 1) as nat),
                    out@ == head + write_items_spec(view_all(items@), unit@, level, i as nat),
                    items_write_utf8(view_all(items@), unit@, level, i as nat),
                decreases n - i,
            {
                let ghost before = out@;
                if i > 0 {
                    out.push(COMMA);
                    out.push(SPACE);
                }
                let item: &Value = &items[i];
                proof {
                    assert(decreases_to!(value => value->Array_0));
                    assert(decreases_to!(value->Array_0 => items@[i as int]));
                }
                write_nested(item, out, unit, outer, inner, top, Ghost(level));
                proof {
                    let comma = if i == 0 {
                        Seq::<u8>::empty()
                    } else {
                        seq![COMMA, SPACE]
                    };
                    assert(view_all(items@)[i as int] == item@);
                    assert(out@ =~= before + (comma + write_spec(item@, unit@, level)));
                    assert(out@ =~= head + write_items_spec(
                        view_all(items@),
                        unit@,
                        level,
                        (i + 1) as nat,
                    ));
                    lemma_items_write_utf8(view_all(items@), unit@, level, i as nat);
                }
                i = i + 1;
            }
            out.push(CLOSE_BRACKET);
            proof {
                assert(out@ =~= start + write_spec(value@, unit@, level));
                lemma_array_writes_utf8(view_all(items@), unit@, level);
            }
        },
        Value::ByteString(bytes) => {
            serialize_bytes(out, bytes.as_slice());
            proof {
                lemma_scalar_writes_utf8(value@, unit@, level);
            }
        },
        Value::String(text) => {
            serialize_string(out, text.as_str());
            proof {
                lemma_scalar_writes_utf8(value@, unit@, level);
            }
        },
        Value::Number(number) => {
            number.write_to(out);
            proof {
                lemma_scalar_writes_utf8(value@, unit@, level);
            }
        },
        Value::Bool(b) => {
            if *b {
                out.push(116);
                out.push(114);
                out.push(117);
                out.push(101);
            } else {
                out.push(102);
                out.push(97);
                out.push(108);
                out.push(115);
                out.push(101);
            }
            assert(out@ =~= start + bool_text(*b));
            proof {
                lemma_scalar_writes_utf8(value@, unit@, level);
            }
        },
        Value::Null => {
            out.push(110);
            out.push(117);
            out.push(108);
            out.push(108);
            assert(out@ =~= start + null_text());
            proof {
                lemma_scalar_writes_utf8(value@, unit@, level);
            }
        },
    }
}

/// Writes `value` to `out`, indented by `indentation` for each level, as it
/// stands at the given level.
pub fn write_indented_value(
    value: &Value,
    out: &mut Vec<u8>,
    indentation: &str,
    indentation_level: usize,
)
    ensures
        final(out)@ == old(out)@ + write_spec(
            value@,
            encode_utf8(indentation@),
            indentation_level as nat,
        ),
        valid_utf8(write_spec(value@, encode_utf8(indentation@), indentation_level as nat)),
{
    proof {
        vstd::utf8::encode_utf8_valid_utf8(indentation@);
        reveal(writes_utf8);
    }
    let unit: &[u8] = indentation.as_bytes();
    let inner: Vec<u8> = repeated(unit, indentation_level);
    if indentation_level == 0 {
        write_nested(value, out, unit, inner.as_slice(), inner.as_slice(), true, Ghost(0));
    } else {
        let outer: Vec<u8> = repeated(unit, indentation_level - 1);
        write_nested(
            value,
            out,
            unit,
            outer.as_slice(),
            inner.as_slice(),
            false,
            Ghost(indentation_level as nat),
        );
    }
}

/// The unit of indentation of a document: four spaces.
pub open spec fn default_indent() -> Seq<u8> {
    seq![SPACE, SPACE, SPACE, SPACE]
}

/// The document that stands for `v`.
pub open spec fn document_spec(v: ValueView) -> Seq<u8> {
    write_spec(v, default_indent(), 0)
}

/// The document that stands for `value`, as bytes.
pub fn to_bytes(value: &Value) -> (r: Vec<u8>)
    ensures
        r@ == document_spec(value@),
        valid_utf8(r@),
{
    let mut out: Vec<u8> = Vec::new();
    let unit: [u8; 4] = [SPACE, SPACE, SPACE, SPACE];
    let inner: Vec<u8> = Vec::new();
    assert(unit@ =~= default_indent());
    proof {
        lemma_ascii_is_utf8(default_indent());
        reveal(writes_utf8);
    }
    write_nested(value, &mut out, unit.as_slice(), inner.as_slice(), inner.as_slice(), true, Ghost(0));
    assert(Seq::<u8>::empty() + document_spec(value@) =~= document_spec(value@));
    out
}

/// Adds the document that stands for `value` to `writer`.
pub fn to_writer(value: &Value, writer: &mut Vec<u8>)
    ensures
        final(writer)@ == old(writer)@ + document_spec(value@),
{
    let document: Vec<u8> = to_bytes(value);
    push_all(writer, document.as_slice());
}

/// The document that stands for `value`, as text.
pub fn to_string(value: &Value) -> (r: String)
    ensures
        r@ == decode_utf8(document_spec(value@)),
        encode_utf8(r@) == document_spec(value@),
{
    let bytes: Vec<u8> = to_bytes(value);
    proof {
        vstd::utf8::decode_utf8_encode_utf8(bytes@);
    }
    match string_from_utf8(bytes) {
        Some(text) => text,
        None => String::new(),
    }
}

impl Value {
    /// The document that stands for the value, as text.
    pub fn to_string(&self) -> (r: String)
        ensures
            r@ == decode_utf8(document_spec(self@)),
            encode_utf8(r@) == document_spec(self@),
    {
        to_string(self)
    }

    /// Reads a document from text.
    pub fn from_str(string: &str) -> (r: Result<Value, Error>)
        ensures
            parsed_as(r, parse_document_spec(encode_utf8(string@))),
    {
        from_str(string)
    }

    /// Reads a document from bytes.
    pub fn from_slice(bytes: &[u8]) -> (r: Result<Value, Error>)
        ensures
            parsed_as(r, parse_document_spec(bytes@)),
    {
        from_slice(bytes)
    }

    /// Adds the document that stands for the value to `writer`.
    pub fn to_writer(&self, writer: &mut Vec<u8>)
        ensures
            final(writer)@ == old(writer)@ + document_spec(self@),
    {
        to_writer(self, writer);
    }
}

} // verus!
