//! Whitespace, comments and the choice of separators do not change what is
//! read: a container reads as its items do, whatever stands between them,
//! as long as gaps are gaps and separators separate.

use vstd::prelude::*;
use crate::ascii::{
    CARRIAGE_RETURN, CLOSE_BRACE, CLOSE_BRACKET, COLON, COMMA, LINE_FEED, OPEN_BRACE,
    OPEN_BRACKET, QUOTE, SLASH, SPACE, STAR, TAB,
};
use crate::deserialize::{MAX_DEPTH, parse_document_spec};
use crate::deserialize::value::{
    identifier_len, is_identifier_byte, parse_array_spec, parse_identifier_spec, parse_items_spec,
    parse_key_value_pair_spec, parse_key_value_pairs_spec, parse_more_pairs_spec,
    parse_object_spec, parse_value_spec,
};
use crate::deserialize::whitespace::{
    has_no_comment_end, has_no_line_feed, is_blank, is_space, is_whitespace,
    lemma_blank_before_separator, lemma_block_comment_is_whitespace, lemma_every_separator,
    lemma_leading_whitespace, lemma_line_comment_is_whitespace, lemma_parse_sep_len,
    lemma_skip_whitespace_len, parse_sep_spec, skip_whitespace_spec,
};
use crate::error::ErrorKind;
use crate::round_trip::{
    comes_back_at, key_comes_back, lemma_key_back, lemma_key_starts, lemma_skip_nothing,
    lemma_value_back, starts_key, starts_plain, starts_value, stops,
};
use crate::serialize::{write_key_spec, write_spec};
use crate::value::{fits, gathered, index_of_key, insert_entry, ValueView};

verus! {

/// Whether `w` is a gap: before anything, `w` is skipped as whitespace, and
/// what follows it is read as if `w` were not there. Whitespace and
/// comments are gaps.
pub open spec fn is_gap(w: Seq<u8>) -> bool {
    forall|x: Seq<u8>| #[trigger] skip_whitespace_spec(w + x) == skip_whitespace_spec(x)
}

/// Whether reading a separator from `s` and then whitespace leaves `x`;
/// with `needed`, whether a separator was found as well.
pub open spec fn leads_to(s: Seq<u8>, x: Seq<u8>, needed: bool) -> bool {
    match parse_sep_spec(s) {
        Ok((found, rest)) => (found || !needed) && skip_whitespace_spec(rest) == Ok::<
            Seq<u8>,
            ErrorKind,
        >(x),
        Err(_) => false,
    }
}

/// Whether `x` can stand after a separator and the gap behind it: it is
/// empty, or begins with a byte that is no whitespace, opens no comment and
/// is no comma.
pub open spec fn after_separator(x: Seq<u8>) -> bool {
    x.len() == 0 || !(is_whitespace(x[0]) || x[0] == SLASH || x[0] == COMMA)
}

/// Whether `x` ends a container: it is empty, as after the last entry of an
/// object at the root, or begins with a closing bracket or brace.
pub open spec fn ends_container(x: Seq<u8>) -> bool {
    x.len() == 0 || x[0] == CLOSE_BRACKET || x[0] == CLOSE_BRACE
}

/// Whether `p` separates two items: a separator is read from `p`, and the
/// rest of `p` is skipped as whitespace.
pub open spec fn is_separator(p: Seq<u8>) -> bool {
    forall|x: Seq<u8>| after_separator(x) ==> #[trigger] leads_to(p + x, x, true)
}

/// Whether `p` can stand between the last item of a container and what
/// closes it: a separator or none is read from `p`, and the rest of `p` is
/// skipped as whitespace.
pub open spec fn is_tail(p: Seq<u8>) -> bool {
    forall|x: Seq<u8>| ends_container(x) ==> #[trigger] leads_to(p + x, x, false)
}

/// Whether `p` can stand after the last entry of an object at the root,
/// where the input ends: a separator or none is read from `p`, and the
/// rest of `p` is skipped as whitespace.
pub open spec fn is_last(p: Seq<u8>) -> bool {
    leads_to(p, Seq::empty(), false)
}

/// Whether `text` reads as `v` wherever a value can stand, with `depth`
/// levels of nesting left: before anything that can follow a value, `v` is
/// read from `text`, and what follows is left.
pub open spec fn reads_as(text: Seq<u8>, v: ValueView, depth: nat) -> bool {
    &&& starts_value(text)
    &&& forall|rest: Seq<u8>|
        stops(rest) ==> #[trigger] parse_value_spec(text + rest, depth, false) == Ok::<
            (ValueView, Seq<u8>),
            ErrorKind,
        >((v, rest))
}

/// Whitespace is a gap.
pub proof fn lemma_space_is_gap(space: Seq<u8>)
    requires
        is_space(space),
    ensures
        is_gap(space),
{
    assert forall|x: Seq<u8>| #[trigger]
        skip_whitespace_spec(space + x) == skip_whitespace_spec(x) by {
        lemma_leading_whitespace(space, x);
    }
}

/// A line comment with its line feed is a gap.
pub proof fn lemma_line_comment_is_gap(comment: Seq<u8>)
    requires
        has_no_line_feed(comment),
    ensures
        is_gap(seq![SLASH, SLASH] + comment + seq![LINE_FEED]),
{
    let w = seq![SLASH, SLASH] + comment + seq![LINE_FEED];
    assert forall|x: Seq<u8>| #[trigger]
        skip_whitespace_spec(w + x) == skip_whitespace_spec(x) by {
        lemma_line_comment_is_whitespace(comment, x);
    }
}

/// A block comment is a gap.
pub proof fn lemma_block_comment_is_gap(comment: Seq<u8>)
    requires
        has_no_comment_end(comment),
    ensures
        is_gap(seq![SLASH, STAR] + comment + seq![STAR, SLASH]),
{
    let w = seq![SLASH, STAR] + comment + seq![STAR, SLASH];
    assert forall|x: Seq<u8>| #[trigger]
        skip_whitespace_spec(w + x) == skip_whitespace_spec(x) by {
        lemma_block_comment_is_whitespace(comment, x);
    }
}

/// A gap begins with whitespace or with the start of a comment.
pub proof fn lemma_gap_starts(w: Seq<u8>)
    requires
        is_gap(w),
        w.len() > 0,
    ensures
        is_whitespace(w[0]) || w[0] == SLASH,
{
    let nothing = Seq::<u8>::empty();
    assert(w + nothing =~= w);
    assert(skip_whitespace_spec(w + nothing) == skip_whitespace_spec(nothing));
    lemma_skip_nothing(nothing);
    if !(is_whitespace(w[0]) || w[0] == SLASH) {
        lemma_skip_nothing(w);
    }
}

/// Two gaps in a row are a gap.
pub proof fn lemma_gaps_join(a: Seq<u8>, b: Seq<u8>)
    requires
        is_gap(a),
        is_gap(b),
    ensures
        is_gap(a + b),
{
    assert forall|x: Seq<u8>| #[trigger]
        skip_whitespace_spec((a + b) + x) == skip_whitespace_spec(x) by {
        assert((a + b) + x =~= a + (b + x));
        assert(skip_whitespace_spec(a + (b + x)) == skip_whitespace_spec(b + x));
        assert(skip_whitespace_spec(b + x) == skip_whitespace_spec(x));
    }
}

/// A gap is skipped up to a byte that is no whitespace and opens no
/// comment.
pub proof fn lemma_gap_skipped(w: Seq<u8>, x: Seq<u8>)
    requires
        is_gap(w),
        starts_plain(x),
    ensures
        skip_whitespace_spec(w + x) == Ok::<Seq<u8>, ErrorKind>(x),
{
    assert(skip_whitespace_spec(w + x) == skip_whitespace_spec(x));
    lemma_skip_nothing(x);
}

/// A separator can stand before what closes a container.
pub proof fn lemma_separator_is_tail(p: Seq<u8>)
    requires
        is_separator(p),
    ensures
        is_tail(p),
{
    assert forall|x: Seq<u8>| ends_container(x) implies #[trigger] leads_to(p + x, x, false) by {
        assert(leads_to(p + x, x, true));
    }
}

/// Whitespace can stand before what closes a container.
pub proof fn lemma_space_is_tail(space: Seq<u8>)
    requires
        is_space(space),
    ensures
        is_tail(space),
{
    assert forall|x: Seq<u8>| ends_container(x) implies #[trigger] leads_to(space + x, x, false) by {
        lemma_space_leads_to(space, x);
    }
}

#[verifier::rlimit(30)]
proof fn lemma_space_leads_to(space: Seq<u8>, x: Seq<u8>)
    requires
        is_space(space),
        ends_container(x),
    ensures
        leads_to(space + x, x, false),
    decreases space.len(),
{
    let s = space + x;
    if space.len() == 0 {
        assert(s =~= x);
        lemma_skip_nothing(x);
    } else {
        let tail = space.skip(1);
        assert(s[0] == space[0]);
        assert(is_whitespace(space[0]));
        assert(s.skip(1) =~= tail + x);
        assert forall|i: int| 0 <= i < tail.len() implies is_whitespace(#[trigger] tail[i]) by {
            assert(tail[i] == space[i + 1]);
        }
        lemma_skip_nothing(x);
        if space[0] == SPACE || space[0] == TAB {
            lemma_space_leads_to(tail, x);
        } else if space[0] == LINE_FEED {
            lemma_leading_whitespace(tail, x);
        } else {
            if s.len() >= 2 && s[1] == LINE_FEED {
                assert(tail.len() > 0);
                assert(tail[0] == LINE_FEED);
                assert(s.skip(2) =~= tail.skip(1) + x);
                assert forall|i: int| 0 <= i < tail.skip(1).len() implies is_whitespace(
                    #[trigger] tail.skip(1)[i],
                ) by {
                    assert(tail.skip(1)[i] == tail[i + 1]);
                }
                lemma_leading_whitespace(tail.skip(1), x);
            } else {
                lemma_leading_whitespace(space, x);
            }
        }
    }
}

/// A comma, a line feed, a carriage return with a line feed, and a line
/// comment separate, with spaces and tabs before them and a gap after them.
pub proof fn lemma_separators(blank: Seq<u8>, comment: Seq<u8>, gap: Seq<u8>)
    requires
        is_blank(blank),
        has_no_line_feed(comment),
        is_gap(gap),
    ensures
        is_separator(blank + seq![COMMA] + gap),
        is_separator(blank + seq![LINE_FEED] + gap),
        is_separator(blank + seq![CARRIAGE_RETURN, LINE_FEED] + gap),
        is_separator(blank + (seq![SLASH, SLASH] + comment + seq![LINE_FEED]) + gap),
{
    lemma_separator_from(blank, seq![COMMA], gap, comment);
    lemma_separator_from(blank, seq![LINE_FEED], gap, comment);
    lemma_separator_from(blank, seq![CARRIAGE_RETURN, LINE_FEED], gap, comment);
    lemma_separator_from(blank, seq![SLASH, SLASH] + comment + seq![LINE_FEED], gap, comment);
}

#[verifier::rlimit(30)]
proof fn lemma_separator_from(blank: Seq<u8>, mark: Seq<u8>, gap: Seq<u8>, comment: Seq<u8>)
    requires
        is_blank(blank),
        has_no_line_feed(comment),
        is_gap(gap),
        mark == seq![COMMA] || mark == seq![LINE_FEED] || mark == seq![CARRIAGE_RETURN, LINE_FEED]
            || mark == seq![SLASH, SLASH] + comment + seq![LINE_FEED],
    ensures
        is_separator(blank + mark + gap),
{
    let p = blank + mark + gap;
    assert forall|x: Seq<u8>| after_separator(x) implies #[trigger] leads_to(p + x, x, true) by {
        lemma_every_separator(comment, gap + x);
        lemma_blank_before_separator(blank, mark + (gap + x));
        assert(p + x =~= blank + (mark + (gap + x)));
        assert(seq![SLASH, SLASH] + comment + seq![LINE_FEED] + (gap + x) =~= (seq![SLASH, SLASH]
            + comment + seq![LINE_FEED]) + (gap + x));
        lemma_gap_skipped(gap, x);
    }
}

/// Spaces, tabs and a block comment before a separator leave it a
/// separator.
pub proof fn lemma_separator_after(blank: Seq<u8>, comment: Seq<u8>, p: Seq<u8>)
    requires
        is_blank(blank),
        has_no_comment_end(comment),
        is_separator(p),
    ensures
        is_separator(blank + p),
        is_separator(seq![SLASH, STAR] + comment + seq![STAR, SLASH] + p),
{
    let block = seq![SLASH, STAR] + comment + seq![STAR, SLASH];
    assert forall|x: Seq<u8>| after_separator(x) implies #[trigger] leads_to(
        (blank + p) + x,
        x,
        true,
    ) by {
        assert((blank + p) + x =~= blank + (p + x));
        lemma_blank_before_separator(blank, p + x);
        assert(leads_to(p + x, x, true));
    }
    assert forall|x: Seq<u8>| after_separator(x) implies #[trigger] leads_to(
        (block + p) + x,
        x,
        true,
    ) by {
        assert((block + p) + x =~= seq![SLASH, STAR] + comment + seq![STAR, SLASH] + (p + x));
        crate::deserialize::whitespace::lemma_block_comment_before_separator(comment, p + x);
        assert(leads_to(p + x, x, true));
    }
}

/// What can stand before the end of the input is empty or begins with a
/// byte that ends a value.
pub proof fn lemma_last_stops(p: Seq<u8>)
    requires
        is_last(p),
    ensures
        stops(p),
{
    if p.len() > 0 && !stops(p) {
        assert(parse_sep_spec(p) == Ok::<(bool, Seq<u8>), ErrorKind>((false, p)));
        lemma_skip_nothing(p);
    }
}

/// What can stand before the closer of a container is empty or begins with
/// a byte that ends a value.
pub proof fn lemma_tail_stops(p: Seq<u8>, x: Seq<u8>)
    requires
        is_tail(p),
        ends_container(x),
    ensures
        stops(p + x),
{
    if p.len() > 0 {
        let closer = seq![CLOSE_BRACKET];
        assert(leads_to(p + closer, closer, false));
        let s = p + closer;
        assert(s[0] == p[0]);
        assert((p + x)[0] == p[0]);
        if !stops(p + x) {
            // a byte that ends no value is no separator and no whitespace:
            // it would stay where it is
            assert(parse_sep_spec(s) == Ok::<(bool, Seq<u8>), ErrorKind>((false, s)));
            lemma_skip_nothing(s);
            assert(s.len() != closer.len());
        }
    } else {
        assert(p + x =~= x);
    }
}

/// The items from place `k` on, each with what stands after it.
pub open spec fn joined(texts: Seq<Seq<u8>>, seps: Seq<Seq<u8>>, k: nat) -> Seq<u8>
    decreases texts.len() - k,
{
    if k >= texts.len() {
        Seq::empty()
    } else {
        texts[k as int] + (seps[k as int] + joined(texts, seps, k + 1))
    }
}

/// An array as it stands in a document: the bracket, a gap, the items with
/// what stands after each, and the closing bracket.
pub open spec fn array_text(inside: Seq<u8>, texts: Seq<Seq<u8>>, seps: Seq<Seq<u8>>) -> Seq<u8> {
    seq![OPEN_BRACKET] + (inside + (joined(texts, seps, 0) + seq![CLOSE_BRACKET]))
}

/// Whether the texts of the items read as the items, a separator stands
/// after each item but the last, and after the last what can stand before
/// the closing bracket.
pub open spec fn items_laid_out(
    texts: Seq<Seq<u8>>,
    seps: Seq<Seq<u8>>,
    items: Seq<ValueView>,
    depth: nat,
) -> bool {
    &&& depth >= 1
    &&& texts.len() == items.len()
    &&& seps.len() == items.len()
    &&& forall|i: int|
        0 <= i < items.len() ==> reads_as(#[trigger] texts[i], items[i], (depth - 1) as nat)
    &&& forall|i: int| 0 <= i < items.len() - 1 ==> is_separator(#[trigger] seps[i])
    &&& items.len() >= 1 ==> is_tail(seps[items.len() - 1])
}

/// A separator begins with a byte that ends a value.
pub proof fn lemma_separator_stops(p: Seq<u8>, x: Seq<u8>)
    requires
        is_separator(p),
    ensures
        p.len() > 0,
        stops(p + x),
{
    let word = seq![OPEN_BRACKET];
    let s = p + word;
    assert(leads_to(s, word, true));
    if p.len() == 0 {
        assert(s =~= word);
    } else {
        assert(s[0] == p[0]);
        assert((p + x)[0] == p[0]);
    }
}

proof fn lemma_joined_unfold(texts: Seq<Seq<u8>>, seps: Seq<Seq<u8>>, k: nat, end: Seq<u8>)
    requires
        k < texts.len(),
    ensures
        joined(texts, seps, k) + end == texts[k as int] + (seps[k as int] + (joined(
            texts,
            seps,
            k + 1,
        ) + end)),
{
    assert((texts[k as int] + (seps[k as int] + joined(texts, seps, k + 1))) + end
        =~= texts[k as int] + (seps[k as int] + (joined(texts, seps, k + 1) + end)));
}

/// An item is read, and what stands after it, as the items after it are.
#[verifier::rlimit(30)]
proof fn lemma_item_then(
    item_text: Seq<u8>,
    after_item: Seq<u8>,
    next: Seq<u8>,
    item: ValueView,
    depth: nat,
    done: Seq<ValueView>,
    needed: bool,
)
    requires
        depth >= 1,
        starts_value(item_text),
        parse_value_spec(item_text + after_item, (depth - 1) as nat, false) == Ok::<
            (ValueView, Seq<u8>),
            ErrorKind,
        >((item, after_item)),
        leads_to(after_item, next, needed),
        next.len() > 0,
        needed || next[0] == CLOSE_BRACKET,
    ensures
        parse_items_spec(item_text + after_item, depth, done) == parse_items_spec(
            next,
            depth,
            done.push(item),
        ),
{
    let s = item_text + after_item;
    assert(s[0] == item_text[0]);
    lemma_parse_sep_len(after_item);
    match parse_sep_spec(after_item) {
        Ok((found, rest)) => {
            lemma_skip_whitespace_len(rest);
        },
        Err(_) => {},
    }
}

#[verifier::rlimit(30)]
proof fn lemma_joined_reads(
    texts: Seq<Seq<u8>>,
    seps: Seq<Seq<u8>>,
    items: Seq<ValueView>,
    depth: nat,
    rest: Seq<u8>,
    k: nat,
)
    requires
        items_laid_out(texts, seps, items, depth),
        k <= items.len(),
    ensures
        parse_items_spec(
            joined(texts, seps, k) + (seq![CLOSE_BRACKET] + rest),
            depth,
            items.take(k as int),
        ) == Ok::<(Seq<ValueView>, Seq<u8>), ErrorKind>((items, rest)),
        after_separator(joined(texts, seps, k) + (seq![CLOSE_BRACKET] + rest)),
        (joined(texts, seps, k) + (seq![CLOSE_BRACKET] + rest)).len() > 0,
        k == items.len() ==> (joined(texts, seps, k) + (seq![CLOSE_BRACKET] + rest))[0]
            == CLOSE_BRACKET,
    decreases items.len() - k,
{
    let n = items.len();
    let end = seq![CLOSE_BRACKET] + rest;
    let s = joined(texts, seps, k) + end;
    if k == n {
        assert(s =~= end);
        assert(s[0] == CLOSE_BRACKET);
        assert(s.skip(1) =~= rest);
        assert(items.take(n as int) =~= items);
    } else {
        let next = joined(texts, seps, k + 1) + end;
        let after_item = seps[k as int] + next;
        lemma_joined_unfold(texts, seps, k, end);
        lemma_joined_reads(texts, seps, items, depth, rest, k + 1);
        assert(reads_as(texts[k as int], items[k as int], (depth - 1) as nat));
        assert(s[0] == texts[k as int][0]);
        if k + 1 < n {
            assert(is_separator(seps[k as int]));
            lemma_separator_stops(seps[k as int], next);
            assert(leads_to(seps[k as int] + next, next, true));
        } else {
            assert(is_tail(seps[k as int]));
            assert(ends_container(next));
            lemma_tail_stops(seps[k as int], next);
            assert(leads_to(seps[k as int] + next, next, false));
        }
        assert(parse_value_spec(texts[k as int] + after_item, (depth - 1) as nat, false) == Ok::<
            (ValueView, Seq<u8>),
            ErrorKind,
        >((items[k as int], after_item)));
        lemma_item_then(
            texts[k as int],
            after_item,
            next,
            items[k as int],
            depth,
            items.take(k as int),
            k + 1 < n,
        );
        assert(items.take(k as int).push(items[k as int]) =~= items.take(k as int + 1));
    }
}

/// An array reads as its items do, whatever gaps and separators stand
/// between them: with a gap after the opening bracket, a separator after
/// each item but the last, and after the last what can stand before the
/// closing bracket, the array reads as the array of the items.
#[verifier::rlimit(30)]
pub proof fn lemma_array_reads(
    inside: Seq<u8>,
    texts: Seq<Seq<u8>>,
    seps: Seq<Seq<u8>>,
    items: Seq<ValueView>,
    depth: nat,
)
    requires
        is_gap(inside),
        items_laid_out(texts, seps, items, depth),
    ensures
        reads_as(array_text(inside, texts, seps), ValueView::Array(items), depth),
{
    let text = array_text(inside, texts, seps);
    assert(text[0] == OPEN_BRACKET);
    assert forall|rest: Seq<u8>| stops(rest) implies #[trigger] parse_value_spec(
        text + rest,
        depth,
        false,
    ) == Ok::<(ValueView, Seq<u8>), ErrorKind>((ValueView::Array(items), rest)) by {
        let s = text + rest;
        let body = joined(texts, seps, 0) + (seq![CLOSE_BRACKET] + rest);
        lemma_joined_reads(texts, seps, items, depth, rest, 0);
        assert(s[0] == OPEN_BRACKET);
        assert(s.skip(1) =~= inside + body);
        lemma_gap_skipped(inside, body);
        assert(items.take(0) =~= Seq::<ValueView>::empty());
        assert(parse_array_spec(s, depth) == Ok::<(Seq<ValueView>, Seq<u8>), ErrorKind>(
            (items, rest),
        ));
    }
}

/// The gaps and the separators of an array do not change what is read: two
/// arrays with the same items read as the same value, whatever stands
/// between the items of each.
pub proof fn lemma_array_layout(
    inside_a: Seq<u8>,
    seps_a: Seq<Seq<u8>>,
    inside_b: Seq<u8>,
    seps_b: Seq<Seq<u8>>,
    texts: Seq<Seq<u8>>,
    items: Seq<ValueView>,
    depth: nat,
    rest: Seq<u8>,
)
    requires
        is_gap(inside_a),
        is_gap(inside_b),
        items_laid_out(texts, seps_a, items, depth),
        items_laid_out(texts, seps_b, items, depth),
        stops(rest),
    ensures
        parse_value_spec(array_text(inside_a, texts, seps_a) + rest, depth, false)
            == parse_value_spec(array_text(inside_b, texts, seps_b) + rest, depth, false),
{
    lemma_array_reads(inside_a, texts, seps_a, items, depth);
    lemma_array_reads(inside_b, texts, seps_b, items, depth);
}

/// Whether `tail` can stand after a key: it begins with whitespace, with
/// the start of a comment, or with the colon.
pub open spec fn after_key(tail: Seq<u8>) -> bool {
    tail.len() > 0 && (is_whitespace(tail[0]) || tail[0] == SLASH || tail[0] == COLON)
}

/// Whether `text` reads as the key `key`: before anything that can stand
/// after a key, `key` is read from `text`, and what follows is left.
pub open spec fn reads_key(text: Seq<u8>, key: Seq<char>) -> bool {
    &&& starts_key(text)
    &&& forall|tail: Seq<u8>|
        after_key(tail) ==> #[trigger] parse_identifier_spec(text + tail) == Ok::<
            (Seq<char>, Seq<u8>),
            ErrorKind,
        >((key, tail))
}

/// The tree of an object with the entries that were read.
pub open spec fn as_object(
    r: Result<(Seq<(Seq<char>, ValueView)>, Seq<u8>), ErrorKind>,
) -> Result<(ValueView, Seq<u8>), ErrorKind> {
    match r {
        Ok((entries, rest)) => Ok((ValueView::Object(entries), rest)),
        Err(kind) => Err(kind),
    }
}

/// At the root, a key with a colon after it begins an object without
/// braces.
pub proof fn lemma_root_key_reads(
    text: Seq<u8>,
    key: Seq<char>,
    tail: Seq<u8>,
    at_colon: Seq<u8>,
    depth: nat,
)
    requires
        depth >= 1,
        reads_key(text, key),
        after_key(tail),
        skip_whitespace_spec(tail) == Ok::<Seq<u8>, ErrorKind>(at_colon),
        at_colon.len() > 0,
        at_colon[0] == COLON,
    ensures
        parse_value_spec(text + tail, depth, true) == as_object(
            parse_key_value_pairs_spec(at_colon, key, depth, true),
        ),
{
    let s = text + tail;
    assert(s[0] == text[0]);
    assert(parse_identifier_spec(s) == Ok::<(Seq<char>, Seq<u8>), ErrorKind>((key, tail)));
    if text[0] != QUOTE {
        let n = 1 + identifier_len(s.skip(1));
        crate::serialize::lemma_identifier_len_bound(s.skip(1));
        assert(s.skip(n as int).len() == tail.len());
        assert(n == text.len());
        if text.len() >= 2 {
            assert(is_identifier_byte(s.skip(1)[0]));
            assert(s[1] == text[1]);
        } else {
            assert(s[1] == tail[0]);
        }
    }
}

/// A key that is written reads as the key, where it is one that comes
/// back.
pub proof fn lemma_written_key_reads(key: Seq<char>)
    requires
        key_comes_back(key),
    ensures
        reads_key(write_key_spec(key), key),
{
    lemma_key_starts(key);
    assert forall|tail: Seq<u8>| after_key(tail) implies #[trigger] parse_identifier_spec(
        write_key_spec(key) + tail,
    ) == Ok::<(Seq<char>, Seq<u8>), ErrorKind>((key, tail)) by {
        lemma_key_back(key, tail);
    }
}

/// A value that is written reads as the value, where it is one that comes
/// back.
pub proof fn lemma_written_value_reads(v: ValueView, indent: Seq<u8>, level: nat, depth: nat)
    requires
        v.well_formed(),
        comes_back_at(v, level),
        is_blank(indent),
        fits(v, depth),
    ensures
        reads_as(write_spec(v, indent, level), v, depth),
{
    let text = write_spec(v, indent, level);
    let nothing = Seq::<u8>::empty();
    lemma_value_back(v, indent, level, depth, nothing, false);
    assert(text + nothing =~= text);
    assert forall|rest: Seq<u8>| stops(rest) implies #[trigger] parse_value_spec(
        text + rest,
        depth,
        false,
    ) == Ok::<(ValueView, Seq<u8>), ErrorKind>((v, rest)) by {
        lemma_value_back(v, indent, level, depth, rest, false);
    }
}

/// An entry as it stands in a document: the text of its key, the gaps
/// before and after the colon, the text of its value, and what stands
/// after the entry.
pub struct EntryLayout {
    pub key: Seq<u8>,
    pub before_colon: Seq<u8>,
    pub after_colon: Seq<u8>,
    pub value: Seq<u8>,
    pub after: Seq<u8>,
}

/// An entry from its colon to its value.
pub open spec fn entry_body(e: EntryLayout) -> Seq<u8> {
    seq![COLON] + (e.after_colon + e.value)
}

/// An entry from its key to its value.
pub open spec fn entry_head(e: EntryLayout) -> Seq<u8> {
    e.key + (e.before_colon + entry_body(e))
}

/// The entries from place `k` on, each with what stands after it.
pub open spec fn joined_entries(layout: Seq<EntryLayout>, k: nat) -> Seq<u8>
    decreases layout.len() - k,
{
    if k >= layout.len() {
        Seq::empty()
    } else {
        entry_head(layout[k as int]) + (layout[k as int].after + joined_entries(layout, k + 1))
    }
}

/// An object in braces as it stands in a document.
pub open spec fn object_text(inside: Seq<u8>, layout: Seq<EntryLayout>) -> Seq<u8> {
    seq![OPEN_BRACE] + (inside + (joined_entries(layout, 0) + seq![CLOSE_BRACE]))
}

/// Whether gaps stand around the colon of the entry, and the text of its
/// value reads as its value.
pub open spec fn entry_laid_out(e: EntryLayout, entry: (Seq<char>, ValueView), depth: nat) -> bool {
    &&& is_gap(e.before_colon)
    &&& is_gap(e.after_colon)
    &&& reads_as(e.value, entry.1, (depth - 1) as nat)
}

/// Whether the entries are laid out well: the text of each key reads as
/// the key, each entry is laid out well, a separator stands after each
/// entry but the last, and after the last what can stand before the end of
/// the object: with `root` the end of the input, else the closing brace.
pub open spec fn entries_laid_out(
    layout: Seq<EntryLayout>,
    entries: Seq<(Seq<char>, ValueView)>,
    depth: nat,
    root: bool,
) -> bool {
    &&& depth >= 1
    &&& layout.len() == entries.len()
    &&& forall|i: int|
        0 <= i < entries.len() ==> entry_laid_out(#[trigger] layout[i], entries[i], depth)
    &&& forall|i: int|
        0 <= i < entries.len() ==> reads_key((#[trigger] layout[i]).key, entries[i].0)
    &&& forall|i: int| 0 <= i < entries.len() - 1 ==> is_separator((#[trigger] layout[i]).after)
    &&& entries.len() >= 1 ==> if root {
        is_last(layout[entries.len() - 1].after)
    } else {
        is_tail(layout[entries.len() - 1].after)
    }
}

proof fn lemma_gap_then(gap: Seq<u8>, x: Seq<u8>)
    requires
        is_gap(gap),
        x.len() > 0,
        x[0] == COLON,
    ensures
        skip_whitespace_spec(gap + x) == Ok::<Seq<u8>, ErrorKind>(x),
        after_key(gap + x),
{
    lemma_gap_skipped(gap, x);
    if gap.len() > 0 {
        lemma_gap_starts(gap);
        assert((gap + x)[0] == gap[0]);
    } else {
        assert(gap + x =~= x);
    }
}

/// The value of an entry is read from its colon on.
#[verifier::rlimit(30)]
proof fn lemma_body_reads(e: EntryLayout, value: ValueView, depth: nat, after: Seq<u8>)
    requires
        depth >= 1,
        is_gap(e.after_colon),
        reads_as(e.value, value, (depth - 1) as nat),
        stops(after),
    ensures
        (entry_body(e) + after)[0] == COLON,
        (entry_body(e) + after).len() > 0,
        skip_whitespace_spec((entry_body(e) + after).skip(1)) == Ok::<Seq<u8>, ErrorKind>(
            e.value + after,
        ),
        parse_value_spec(e.value + after, (depth - 1) as nat, false) == Ok::<
            (ValueView, Seq<u8>),
            ErrorKind,
        >((value, after)),
        after.len() < (entry_body(e) + after).len(),
{
    let s = entry_body(e) + after;
    let at_value = e.value + after;
    assert(s.skip(1) =~= e.after_colon + at_value);
    assert(at_value[0] == e.value[0]);
    lemma_gap_skipped(e.after_colon, at_value);
    assert(parse_value_spec(e.value + after, (depth - 1) as nat, false) == Ok::<
        (ValueView, Seq<u8>),
        ErrorKind,
    >((value, after)));
}

/// An entry is read from its key to its value.
#[verifier::rlimit(30)]
proof fn lemma_entry_reads(e: EntryLayout, entry: (Seq<char>, ValueView), depth: nat, after: Seq<u8>)
    requires
        depth >= 1,
        reads_key(e.key, entry.0),
        entry_laid_out(e, entry, depth),
        stops(after),
    ensures
        parse_key_value_pair_spec(entry_head(e) + after, depth) == Ok::<
            ((Seq<char>, ValueView), Seq<u8>),
            ErrorKind,
        >((entry, after)),
        starts_key(entry_head(e) + after),
        after.len() < (entry_head(e) + after).len(),
{
    let s = entry_head(e) + after;
    let at_colon = entry_body(e) + after;
    let after_key = e.before_colon + at_colon;
    lemma_body_reads(e, entry.1, depth, after);
    assert(s =~= e.key + after_key);
    assert(s[0] == e.key[0]);
    lemma_gap_then(e.before_colon, at_colon);
    assert(parse_identifier_spec(e.key + after_key) == Ok::<(Seq<char>, Seq<u8>), ErrorKind>(
        (entry.0, after_key),
    ));
}

/// What stands after the entry at place `k - 1`, and the entries from
/// place `k` on, up to the end of the object.
pub open spec fn entries_after(layout: Seq<EntryLayout>, k: nat, end: Seq<u8>) -> Seq<u8> {
    layout[k - 1].after + (joined_entries(layout, k) + end)
}

proof fn lemma_joined_entries_unfold(layout: Seq<EntryLayout>, k: nat, end: Seq<u8>)
    requires
        k < layout.len(),
    ensures
        joined_entries(layout, k) + end == entry_head(layout[k as int]) + entries_after(
            layout,
            k + 1,
            end,
        ),
{
    assert((entry_head(layout[k as int]) + (layout[k as int].after + joined_entries(
        layout,
        k + 1,
    ))) + end =~= entry_head(layout[k as int]) + (layout[k as int].after + (joined_entries(
        layout,
        k + 1,
    ) + end)));
}

/// What closes an object: nothing at the root, a brace elsewhere.
pub open spec fn object_end(rest: Seq<u8>, top: bool) -> Seq<u8> {
    if top {
        Seq::empty()
    } else {
        seq![CLOSE_BRACE] + rest
    }
}

/// After what stands behind an entry, the next entry is read.
proof fn lemma_entries_step(
    after_entry: Seq<u8>,
    next: Seq<u8>,
    depth: nat,
    top: bool,
    done: Seq<(Seq<char>, ValueView)>,
    pair: (Seq<char>, ValueView),
    after_pair: Seq<u8>,
)
    requires
        leads_to(after_entry + next, next, true),
        starts_key(next),
        parse_key_value_pair_spec(next, depth) == Ok::<
            ((Seq<char>, ValueView), Seq<u8>),
            ErrorKind,
        >((pair, after_pair)),
        after_pair.len() < next.len(),
    ensures
        parse_more_pairs_spec(after_entry + next, depth, top, done) == parse_more_pairs_spec(
            after_pair,
            depth,
            top,
            insert_entry(done, pair.0, pair.1),
        ),
{
}

/// After what stands behind the last entry, the object ends.
proof fn lemma_entries_end(
    after_entry: Seq<u8>,
    rest: Seq<u8>,
    depth: nat,
    top: bool,
    done: Seq<(Seq<char>, ValueView)>,
)
    requires
        leads_to(after_entry + object_end(rest, top), object_end(rest, top), false),
        top ==> rest.len() == 0,
    ensures
        parse_more_pairs_spec(after_entry + object_end(rest, top), depth, top, done) == Ok::<
            (Seq<(Seq<char>, ValueView)>, Seq<u8>),
            ErrorKind,
        >((done, rest)),
{
    let end = object_end(rest, top);
    if !top {
        assert(end[0] == CLOSE_BRACE);
        assert(end.skip(1) =~= rest);
    } else {
        assert(rest =~= Seq::<u8>::empty());
    }
}

#[verifier::rlimit(30)]
proof fn lemma_entries_read(
    layout: Seq<EntryLayout>,
    entries: Seq<(Seq<char>, ValueView)>,
    depth: nat,
    rest: Seq<u8>,
    top: bool,
    k: nat,
)
    requires
        entries_laid_out(layout, entries, depth, top),
        1 <= k <= entries.len(),
        top ==> rest.len() == 0,
    ensures
        parse_more_pairs_spec(
            entries_after(layout, k, object_end(rest, top)),
            depth,
            top,
            gathered(entries.take(k as int)),
        ) == Ok::<(Seq<(Seq<char>, ValueView)>, Seq<u8>), ErrorKind>((gathered(entries), rest)),
        stops(entries_after(layout, k, object_end(rest, top))),
    decreases entries.len() - k,
{
    let n = entries.len();
    let end = object_end(rest, top);
    let after_entry = layout[k - 1].after;
    let next = joined_entries(layout, k) + end;
    if k == n {
        assert(next =~= end);
        assert(entries.take(n as int) =~= entries);
        if top {
            assert(after_entry + end =~= after_entry);
            lemma_last_stops(after_entry);
        } else {
            assert(is_tail(layout[n - 1].after));
            assert(ends_container(end));
            lemma_tail_stops(after_entry, end);
        }
        assert(leads_to(after_entry + end, end, false));
        lemma_entries_end(after_entry, rest, depth, top, gathered(entries));
    } else {
        let e = layout[k as int];
        let entry = entries[k as int];
        let after_pair = entries_after(layout, k + 1, end);
        lemma_joined_entries_unfold(layout, k, end);
        lemma_entries_read(layout, entries, depth, rest, top, k + 1);
        assert(entry_laid_out(layout[k as int], entries[k as int], depth));
        assert(reads_key(layout[k as int].key, entries[k as int].0));
        lemma_entry_reads(e, entry, depth, after_pair);
        assert(is_separator(layout[k - 1].after));
        lemma_separator_stops(after_entry, next);
        assert(after_separator(next)) by {
            assert(next[0] == entry_head(e)[0]);
        }
        assert(leads_to(after_entry + next, next, true));
        let done = entries.take(k as int);
        lemma_entries_step(after_entry, next, depth, top, gathered(done), entry, after_pair);
        assert(entries.take(k as int + 1).drop_last() =~= done);
        assert(entries.take(k as int + 1).last() == entry);
    }
}

/// The entries of an object are read from the colon after the first key
/// on.
#[verifier::rlimit(30)]
proof fn lemma_pairs_read(
    layout: Seq<EntryLayout>,
    entries: Seq<(Seq<char>, ValueView)>,
    depth: nat,
    rest: Seq<u8>,
    top: bool,
)
    requires
        entries_laid_out(layout, entries, depth, top),
        entries.len() >= 1,
        top ==> rest.len() == 0,
    ensures
        parse_key_value_pairs_spec(
            entry_body(layout[0]) + entries_after(layout, 1, object_end(rest, top)),
            entries[0].0,
            depth,
            top,
        ) == Ok::<(Seq<(Seq<char>, ValueView)>, Seq<u8>), ErrorKind>((gathered(entries), rest)),
{
    let after = entries_after(layout, 1, object_end(rest, top));
    lemma_entries_read(layout, entries, depth, rest, top, 1);
    assert(entry_laid_out(layout[0], entries[0], depth));
    lemma_body_reads(layout[0], entries[0].1, depth, after);
    let one = entries.take(1);
    let none = Seq::<(Seq<char>, ValueView)>::empty();
    assert(one.drop_last() =~= none);
    assert(gathered(none) =~= none);
    assert(index_of_key(none, entries[0].0) is None);
    assert(one.last() == entries[0]);
    assert(seq![(entries[0].0, entries[0].1)] =~= gathered(one));
}

/// An object in braces reads as its entries do, whatever gaps and
/// separators stand between them: with a gap after the opening brace, gaps
/// around each colon, a separator after each entry but the last, and after
/// the last what can stand before the closing brace, the object reads as
/// the object that gathers the entries, a later value in the place of an
/// earlier one with the same key.
pub proof fn lemma_object_reads(
    inside: Seq<u8>,
    layout: Seq<EntryLayout>,
    entries: Seq<(Seq<char>, ValueView)>,
    depth: nat,
)
    requires
        is_gap(inside),
        entries_laid_out(layout, entries, depth, false),
    ensures
        reads_as(object_text(inside, layout), ValueView::Object(gathered(entries)), depth),
{
    let text = object_text(inside, layout);
    assert(text[0] == OPEN_BRACE);
    assert forall|rest: Seq<u8>| stops(rest) implies #[trigger] parse_value_spec(
        text + rest,
        depth,
        false,
    ) == Ok::<(ValueView, Seq<u8>), ErrorKind>((ValueView::Object(gathered(entries)), rest)) by {
        lemma_object_reads_before(inside, layout, entries, depth, rest);
        assert((text + rest)[0] == OPEN_BRACE);
    }
}

#[verifier::rlimit(30)]
proof fn lemma_object_reads_before(
    inside: Seq<u8>,
    layout: Seq<EntryLayout>,
    entries: Seq<(Seq<char>, ValueView)>,
    depth: nat,
    rest: Seq<u8>,
)
    requires
        is_gap(inside),
        entries_laid_out(layout, entries, depth, false),
    ensures
        parse_object_spec(object_text(inside, layout) + rest, depth) == Ok::<
            (Seq<(Seq<char>, ValueView)>, Seq<u8>),
            ErrorKind,
        >((gathered(entries), rest)),
{
    let s = object_text(inside, layout) + rest;
    let end = seq![CLOSE_BRACE] + rest;
    let body = joined_entries(layout, 0) + end;
    assert(s[0] == OPEN_BRACE);
    assert(s.skip(1) =~= inside + body);
    if entries.len() == 0 {
        assert(body =~= end);
        assert(body[0] == CLOSE_BRACE);
        lemma_gap_skipped(inside, body);
        assert(body.skip(1) =~= rest);
        assert(entries =~= Seq::<(Seq<char>, ValueView)>::empty());
    } else {
        let e = layout[0];
        let after = entries_after(layout, 1, object_end(rest, false));
        let at_colon = entry_body(e) + after;
        let after_key = e.before_colon + at_colon;
        lemma_joined_entries_unfold(layout, 0, end);
        lemma_pairs_read(layout, entries, depth, rest, false);
        assert(entry_laid_out(layout[0], entries[0], depth));
        lemma_entries_read(layout, entries, depth, rest, false, 1);
        lemma_body_reads(e, entries[0].1, depth, after);
        assert(body =~= e.key + after_key);
        assert(body[0] == e.key[0]);
        lemma_gap_skipped(inside, body);
        lemma_gap_then(e.before_colon, at_colon);
        assert(parse_identifier_spec(e.key + after_key) == Ok::<(Seq<char>, Seq<u8>), ErrorKind>(
            (entries[0].0, after_key),
        ));
    }
}

/// At the root a value is read as elsewhere, where the input ends after
/// it and the whitespace behind it.
pub proof fn lemma_value_at_root(s: Seq<u8>, depth: nat, v: ValueView, rest: Seq<u8>)
    requires
        parse_value_spec(s, depth, false) == Ok::<(ValueView, Seq<u8>), ErrorKind>((v, rest)),
        skip_whitespace_spec(rest) == Ok::<Seq<u8>, ErrorKind>(Seq::empty()),
    ensures
        parse_value_spec(s, depth, true) matches Ok((read, left)) && read == v
            && skip_whitespace_spec(left) == Ok::<Seq<u8>, ErrorKind>(Seq::empty()),
{
    lemma_skip_nothing(Seq::<u8>::empty());
}

/// A document reads as the value in it, whatever gap stands before the
/// value, and whatever is skipped as whitespace after it.
#[verifier::rlimit(30)]
pub proof fn lemma_document_reads(lead: Seq<u8>, text: Seq<u8>, trail: Seq<u8>, v: ValueView)
    requires
        is_gap(lead),
        skip_whitespace_spec(trail) == Ok::<Seq<u8>, ErrorKind>(Seq::empty()),
        reads_as(text, v, MAX_DEPTH as nat),
    ensures
        parse_document_spec(lead + (text + trail)) == Ok::<ValueView, ErrorKind>(v),
{
    let nothing = Seq::<u8>::empty();
    let s = text + trail;
    assert(s[0] == text[0]);
    lemma_gap_skipped(lead, s);
    if trail.len() > 0 && !stops(trail) {
        lemma_skip_nothing(trail);
    }
    assert(stops(trail));
    assert(parse_value_spec(text + trail, MAX_DEPTH as nat, false) == Ok::<
        (ValueView, Seq<u8>),
        ErrorKind,
    >((v, trail)));
    lemma_value_at_root(s, MAX_DEPTH as nat, v, trail);
}

/// A document that is an object without braces reads as the object that
/// gathers its entries, whatever gaps and separators stand between them.
#[verifier::rlimit(30)]
pub proof fn lemma_root_object_reads(
    lead: Seq<u8>,
    layout: Seq<EntryLayout>,
    entries: Seq<(Seq<char>, ValueView)>,
)
    requires
        is_gap(lead),
        entries.len() >= 1,
        entries_laid_out(layout, entries, MAX_DEPTH as nat, true),
    ensures
        parse_document_spec(lead + joined_entries(layout, 0)) == Ok::<ValueView, ErrorKind>(
            ValueView::Object(gathered(entries)),
        ),
{
    let nothing = Seq::<u8>::empty();
    let depth = MAX_DEPTH as nat;
    let e = layout[0];
    let body = joined_entries(layout, 0);
    let after = entries_after(layout, 1, object_end(nothing, true));
    let at_colon = entry_body(e) + after;
    let after_key = e.before_colon + at_colon;
    lemma_joined_entries_unfold(layout, 0, nothing);
    assert(body + nothing =~= body);
    lemma_pairs_read(layout, entries, depth, nothing, true);
    assert(entry_laid_out(layout[0], entries[0], depth));
    lemma_entries_read(layout, entries, depth, nothing, true, 1);
    lemma_body_reads(e, entries[0].1, depth, after);
    assert(body =~= e.key + after_key);
    assert(body[0] == e.key[0]);
    lemma_gap_skipped(lead, body);
    lemma_gap_then(e.before_colon, at_colon);
    assert(reads_key(layout[0].key, entries[0].0));
    lemma_root_key_reads(e.key, entries[0].0, after_key, at_colon, depth);
    lemma_skip_nothing(nothing);
}

/// The gaps and the separators of a document do not change what is read:
/// two documents with the same keys and values in the same order read as
/// the same tree, whatever stands between the keys and the values of each.
pub proof fn lemma_layout_does_not_matter(
    lead_a: Seq<u8>,
    layout_a: Seq<EntryLayout>,
    lead_b: Seq<u8>,
    layout_b: Seq<EntryLayout>,
    entries: Seq<(Seq<char>, ValueView)>,
)
    requires
        is_gap(lead_a),
        is_gap(lead_b),
        entries.len() >= 1,
        entries_laid_out(layout_a, entries, MAX_DEPTH as nat, true),
        entries_laid_out(layout_b, entries, MAX_DEPTH as nat, true),
    ensures
        parse_document_spec(lead_a + joined_entries(layout_a, 0)) == parse_document_spec(
            lead_b + joined_entries(layout_b, 0),
        ),
{
    lemma_root_object_reads(lead_a, layout_a, entries);
    lemma_root_object_reads(lead_b, layout_b, entries);
}

} // verus!
