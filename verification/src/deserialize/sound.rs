//! What the reader returns is well-formed: every number has the text of a
//! number, no object has a key twice, and no value nests deeper than the
//! reader was allowed to go.

use vstd::prelude::*;
use crate::ascii::{
    CLOSE_BRACE, CLOSE_BRACKET, COLON, DIGIT_0, HASH, LOWER_B, LOWER_R, MINUS, OPEN_BRACE,
    OPEN_BRACKET, PIPE, PLUS, QUOTE,
};
use crate::deserialize::{MAX_DEPTH, parse_document_spec};
use crate::deserialize::number::{
    base_digits, base_number_spec, base_of, base_run_len, parse_number_spec,
};
use crate::deserialize::string::parse_string_spec;
use crate::deserialize::value::{
    is_number_start, parse_array_spec, parse_identifier_spec, parse_items_spec,
    parse_key_value_pair_spec, parse_key_value_pairs_spec, parse_more_pairs_spec,
    parse_object_spec, parse_value_spec,
};
use crate::deserialize::whitespace::{parse_sep_spec, skip_whitespace_spec};
use crate::number::{digits_value, is_number_text, lemma_decimal_text_is_integer_text};
use crate::value::{
    fits, insert_entry, lemma_index_of_key, lemma_insert_keeps_unique, unique_keys, ValueView,
};

verus! {

/// Whether every item is well-formed and nests no deeper than `depth`
/// levels less one.
pub open spec fn items_are_sound(items: Seq<ValueView>, depth: nat) -> bool {
    forall|i: int|
        0 <= i < items.len() ==> (#[trigger] items[i]).well_formed() && fits(
            items[i],
            (depth - 1) as nat,
        )
}

/// Whether no key occurs twice, and every value is well-formed and nests no
/// deeper than `depth` levels less one.
pub open spec fn entries_are_sound(entries: Seq<(Seq<char>, ValueView)>, depth: nat) -> bool {
    &&& unique_keys(entries)
    &&& forall|i: int|
        0 <= i < entries.len() ==> (#[trigger] entries[i]).1.well_formed() && fits(
            entries[i].1,
            (depth - 1) as nat,
        )
}

/// A number that is read has the text of a number.
pub proof fn lemma_parsed_number(s: Seq<u8>)
    ensures
        parse_number_spec(s) matches Ok((number, _)) ==> is_number_text(number.text),
{
    if s.len() > 0 {
        let negative = s[0] == MINUS;
        let t = if s[0] == PLUS || s[0] == MINUS {
            s.skip(1)
        } else {
            s
        };
        if t.len() > 0 && t[0] == DIGIT_0 && t.len() >= 2 && base_of(t[1]) is Some {
            match base_number_spec(t.skip(2), negative, base_of(t[1])->0) {
                Ok((number, _)) => {
                    let base = base_of(t[1])->0;
                    let u = t.skip(2);
                    let n = base_run_len(u, base);
                    let value = digits_value(
                        base_digits(u.take(n as int), base),
                        base as nat,
                    );
                    lemma_decimal_text_is_integer_text(value);
                },
                Err(_) => {},
            }
        }
    }
}

proof fn lemma_insert_is_sound(
    done: Seq<(Seq<char>, ValueView)>,
    key: Seq<char>,
    value: ValueView,
    depth: nat,
)
    requires
        entries_are_sound(done, depth),
        value.well_formed(),
        fits(value, (depth - 1) as nat),
    ensures
        entries_are_sound(insert_entry(done, key, value), depth),
{
    lemma_insert_keeps_unique(done, key, value);
    lemma_index_of_key(done, key);
    let after = insert_entry(done, key, value);
    assert forall|i: int| 0 <= i < after.len() implies (#[trigger] after[i]).1.well_formed()
        && fits(after[i].1, (depth - 1) as nat) by {
        if after[i] != (key, value) {
            assert(after[i] == done[i]);
        }
    }
}

/// A value that is read is well-formed and nests no deeper than the reader
/// was allowed to go.
pub proof fn lemma_parsed_value(s: Seq<u8>, depth: nat, top_level: bool)
    ensures
        parse_value_spec(s, depth, top_level) matches Ok((v, _)) ==> v.well_formed() && fits(
            v,
            depth,
        ),
    decreases depth, 4nat, s.len(),
{
    if depth == 0 || s.len() == 0 {
    } else if s[0] == OPEN_BRACE {
        lemma_parsed_object(s, depth);
    } else if s[0] == OPEN_BRACKET {
        lemma_parsed_array(s, depth);
    } else if s[0] == QUOTE {
        match parse_string_spec(s) {
            Ok((text, rest)) => {
                if top_level {
                    match skip_whitespace_spec(rest) {
                        Ok(after) => {
                            if after.len() > 0 && after[0] == COLON {
                                lemma_parsed_pairs(after, text, depth, true);
                            }
                        },
                        Err(_) => {},
                    }
                }
            },
            Err(_) => {},
        }
    } else if s[0] == LOWER_R && s.len() >= 2 && (s[1] == QUOTE || s[1] == HASH) {
    } else if s[0] == LOWER_B && s.len() >= 2 && s[1] == QUOTE {
    } else if s[0] == PIPE {
    } else if is_number_start(s[0]) {
        lemma_parsed_number(s);
    } else {
        match parse_identifier_spec(s) {
            Ok((name, rest)) => {
                if top_level {
                    match skip_whitespace_spec(rest) {
                        Ok(after) => {
                            if after.len() > 0 && after[0] == COLON {
                                lemma_parsed_pairs(after, name, depth, true);
                            }
                        },
                        Err(_) => {},
                    }
                }
            },
            Err(_) => {},
        }
    }
}

proof fn lemma_parsed_array(s: Seq<u8>, depth: nat)
    ensures
        parse_array_spec(s, depth) matches Ok((items, _)) ==> items_are_sound(items, depth),
    decreases depth, 3nat, s.len(),
{
    if s.len() > 0 && s[0] == OPEN_BRACKET {
        match skip_whitespace_spec(s.skip(1)) {
            Ok(inside) => {
                lemma_parsed_items(inside, depth, Seq::empty());
            },
            Err(_) => {},
        }
    }
}

proof fn lemma_parsed_items(s: Seq<u8>, depth: nat, done: Seq<ValueView>)
    requires
        items_are_sound(done, depth),
    ensures
        parse_items_spec(s, depth, done) matches Ok((items, _)) ==> items_are_sound(items, depth),
    decreases depth, 1nat, s.len(),
{
    if s.len() == 0 || s[0] == CLOSE_BRACKET || depth == 0 {
    } else {
        lemma_parsed_value(s, (depth - 1) as nat, false);
        match parse_value_spec(s, (depth - 1) as nat, false) {
            Ok((item, after_item)) => match parse_sep_spec(after_item) {
                Ok((separated, after_sep)) => match skip_whitespace_spec(after_sep) {
                    Ok(next) => {
                        if next.len() > 0 && !(!separated && next[0] != CLOSE_BRACKET) && next.len()
                            < s.len() {
                            let more = done.push(item);
                            assert forall|i: int| 0 <= i < more.len() implies (
                            #[trigger] more[i]).well_formed() && fits(
                                more[i],
                                (depth - 1) as nat,
                            ) by {
                                if i < done.len() {
                                    assert(more[i] == done[i]);
                                }
                            }
                            lemma_parsed_items(next, depth, more);
                        }
                    },
                    Err(_) => {},
                },
                Err(_) => {},
            },
            Err(_) => {},
        }
    }
}

proof fn lemma_parsed_object(s: Seq<u8>, depth: nat)
    ensures
        parse_object_spec(s, depth) matches Ok((entries, _)) ==> entries_are_sound(entries, depth),
    decreases depth, 3nat, s.len(),
{
    if s.len() > 0 && s[0] == OPEN_BRACE {
        match skip_whitespace_spec(s.skip(1)) {
            Ok(inside) => {
                if !(inside.len() > 0 && inside[0] == CLOSE_BRACE) {
                    match parse_identifier_spec(inside) {
                        Ok((key, after_key)) => match skip_whitespace_spec(after_key) {
                            Ok(at_colon) => {
                                lemma_parsed_pairs(at_colon, key, depth, false);
                            },
                            Err(_) => {},
                        },
                        Err(_) => {},
                    }
                }
            },
            Err(_) => {},
        }
    }
}

proof fn lemma_parsed_pairs(s: Seq<u8>, first_key: Seq<char>, depth: nat, top_level: bool)
    ensures
        parse_key_value_pairs_spec(s, first_key, depth, top_level) matches Ok((entries, _))
            ==> entries_are_sound(entries, depth),
    decreases depth, 2nat, s.len(),
{
    if s.len() > 0 && s[0] == COLON {
        match skip_whitespace_spec(s.skip(1)) {
            Ok(at_value) => {
                if depth != 0 {
                    lemma_parsed_value(at_value, (depth - 1) as nat, false);
                    match parse_value_spec(at_value, (depth - 1) as nat, false) {
                        Ok((value, rest)) => {
                            let first = seq![(first_key, value)];
                            assert(entries_are_sound(first, depth));
                            lemma_parsed_more_pairs(rest, depth, top_level, first);
                        },
                        Err(_) => {},
                    }
                }
            },
            Err(_) => {},
        }
    }
}

proof fn lemma_parsed_more_pairs(
    s: Seq<u8>,
    depth: nat,
    top_level: bool,
    done: Seq<(Seq<char>, ValueView)>,
)
    requires
        entries_are_sound(done, depth),
    ensures
        parse_more_pairs_spec(s, depth, top_level, done) matches Ok((entries, _))
            ==> entries_are_sound(entries, depth),
    decreases depth, 1nat, s.len(),
{
    match parse_sep_spec(s) {
        Ok((separated, after_sep)) => match skip_whitespace_spec(after_sep) {
            Ok(next) => {
                if next.len() > 0 && next[0] != CLOSE_BRACE && separated {
                    lemma_parsed_pair(next, depth);
                    match parse_key_value_pair_spec(next, depth) {
                        Ok(((key, value), rest)) => {
                            if rest.len() < s.len() {
                                lemma_insert_is_sound(done, key, value, depth);
                                lemma_parsed_more_pairs(
                                    rest,
                                    depth,
                                    top_level,
                                    insert_entry(done, key, value),
                                );
                            }
                        },
                        Err(_) => {},
                    }
                }
            },
            Err(_) => {},
        },
        Err(_) => {},
    }
}

proof fn lemma_parsed_pair(s: Seq<u8>, depth: nat)
    ensures
        parse_key_value_pair_spec(s, depth) matches Ok(((_, value), _)) ==> value.well_formed()
            && fits(value, (depth - 1) as nat),
    decreases depth, 0nat, s.len(),
{
    match parse_identifier_spec(s) {
        Ok((key, after_key)) => match skip_whitespace_spec(after_key) {
            Ok(at_colon) => {
                if at_colon.len() > 0 && at_colon[0] == COLON {
                    match skip_whitespace_spec(at_colon.skip(1)) {
                        Ok(at_value) => {
                            if depth != 0 {
                                lemma_parsed_value(at_value, (depth - 1) as nat, false);
                            }
                        },
                        Err(_) => {},
                    }
                }
            },
            Err(_) => {},
        },
        Err(_) => {},
    }
}

/// A tree that is read from a document is well-formed and nests no deeper
/// than the reader goes.
pub proof fn lemma_parsed_document(s: Seq<u8>)
    ensures
        parse_document_spec(s) matches Ok(v) ==> v.well_formed() && fits(v, MAX_DEPTH as nat),
{
    match skip_whitespace_spec(s) {
        Ok(at_value) => {
            lemma_parsed_value(at_value, MAX_DEPTH as nat, true);
        },
        Err(_) => {},
    }
}

} // verus!
