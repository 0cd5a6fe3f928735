//! Every document that is read is laid out well. What the reader takes for
//! whitespace is a gap, what it takes for a separator separates, and what
//! it takes for a token is one; so the layout of no document that is read
//! changes its value.

use vstd::prelude::*;
use crate::ascii::{
    CARRIAGE_RETURN, CLOSE_BRACE, CLOSE_BRACKET, COLON, HASH, LINE_FEED, LOWER_B, LOWER_R,
    OPEN_BRACE, OPEN_BRACKET, QUOTE, SLASH, SPACE, STAR, TAB,
};
use crate::deserialize::value::{
    is_number_start, keyword_spec, parse_array_spec, parse_identifier_spec, parse_items_spec,
    parse_key_value_pair_spec, parse_key_value_pairs_spec, parse_more_pairs_spec,
    parse_object_spec, parse_value_spec,
};
use crate::tokens::{
    lemma_byte_string_is_token, lemma_byte_string_read, lemma_key_read, lemma_number_is_token,
    lemma_number_read, lemma_raw_string_is_token, lemma_raw_string_read, lemma_string_is_token,
    lemma_string_read, lemma_word_is_token, lemma_word_read,
};
use crate::value::{
    gathered, gathered_from, index_of_key, insert_entry, lemma_gathered_from,
    lemma_gathered_from_first, ValueView,
};
use crate::deserialize::{MAX_DEPTH, parse_document_spec};
use crate::deserialize::whitespace::{
    after_comment_end, has_no_comment_end, is_whitespace, lemma_after_comment_end_len,
    lemma_after_first_len, lemma_blank_before_separator, lemma_block_comment_before_separator,
    parse_sep_spec, skip_whitespace_spec,
};
use crate::error::ErrorKind;
use crate::layout::{
    ends_container, entry_head, EntryLayout, is_gap, is_last, joined, joined_entries, object_end,
    reads_key, is_separator, is_tail, leads_to, lemma_block_comment_is_gap,
    lemma_gap_skipped, lemma_gaps_join, lemma_line_comment_is_gap, lemma_separator_after,
    lemma_separator_is_tail, lemma_separators, lemma_space_is_gap,
};
use crate::peek_reader::{after_first, count_before, lemma_count_before_bound};
use crate::round_trip::lemma_skip_nothing;
use crate::shape::{
    Document, Entry, entry_layouts, entry_pairs, Item, item_ends, item_texts, item_values, key_of,
    laid_out, lemma_same_tokens_same_value, same_tokens, Shape, text_of, value_of,
};

verus! {

/// The length of a block comment's inside: the bytes before its `*/`.
proof fn lemma_comment_inside(s: Seq<u8>) -> (k: int)
    requires
        after_comment_end(s) is Some,
    ensures
        0 <= k,
        k + 2 <= s.len(),
        s[k] == STAR,
        s[k + 1] == SLASH,
        after_comment_end(s) == Some(s.skip(k + 2)),
        has_no_comment_end(s.take(k)),
    decreases s.len(),
{
    if s[0] == STAR && s[1] == SLASH {
        0
    } else {
        let j = lemma_comment_inside(s.skip(1));
        let inside = s.take(j + 1);
        assert(s.skip(1).skip(j + 2) =~= s.skip(j + 3));
        assert forall|i: int| 0 <= i < inside.len() - 1 implies !(#[trigger] inside[i] == STAR
            && inside[i + 1] == SLASH) by {
            if i >= 1 {
                assert(s.skip(1).take(j)[i - 1] == inside[i]);
                if i < j {
                    assert(s.skip(1).take(j)[i] == inside[i + 1]);
                }
            }
        }
        j + 1
    }
}

/// What is skipped as whitespace before a byte is a gap: `s` is a gap and
/// then what is left of it.
pub proof fn lemma_skipped_is_gap(s: Seq<u8>) -> (w: Seq<u8>)
    requires
        skip_whitespace_spec(s) matches Ok(left) && left.len() > 0,
    ensures
        is_gap(w),
        s == w + skip_whitespace_spec(s)->Ok_0,
    decreases s.len(),
{
    let left = skip_whitespace_spec(s)->Ok_0;
    if is_whitespace(s[0]) {
        let first = seq![s[0]];
        let more = lemma_skipped_is_gap(s.skip(1));
        lemma_space_is_gap(first);
        lemma_gaps_join(first, more);
        assert(s =~= first + s.skip(1));
        assert(first + (more + left) =~= first + more + left);
        first + more
    } else if s[0] == SLASH && s.len() >= 2 && s[1] == SLASH {
        let body = s.skip(2);
        let n = count_before(body, LINE_FEED);
        lemma_count_before_bound(body, LINE_FEED);
        let comment = body.take(n as int);
        let line = seq![SLASH, SLASH] + comment + seq![LINE_FEED];
        let more = lemma_skipped_is_gap(after_first(body, LINE_FEED));
        lemma_line_comment_is_gap(comment);
        lemma_gaps_join(line, more);
        let after = after_first(body, LINE_FEED);
        assert(n < body.len()) by {
            if n >= body.len() {
                assert(after =~= Seq::<u8>::empty());
            }
        }
        assert(body =~= comment + seq![LINE_FEED] + after);
        assert(s =~= seq![SLASH, SLASH] + body);
        assert(seq![SLASH, SLASH] + (comment + seq![LINE_FEED] + (more + left)) =~= line + more
            + left);
        line + more
    } else if s[0] == SLASH && s.len() >= 2 && s[1] == STAR {
        let body = s.skip(2);
        let k = lemma_comment_inside(body);
        let comment = body.take(k);
        let block = seq![SLASH, STAR] + comment + seq![STAR, SLASH];
        let more = lemma_skipped_is_gap(body.skip(k + 2));
        lemma_block_comment_is_gap(comment);
        lemma_gaps_join(block, more);
        assert(body =~= comment + seq![STAR, SLASH] + body.skip(k + 2));
        assert(s =~= seq![SLASH, STAR] + body);
        assert(seq![SLASH, STAR] + (comment + seq![STAR, SLASH] + (more + left)) =~= block + more
            + left);
        block + more
    } else {
        let nothing = Seq::<u8>::empty();
        lemma_space_is_gap(nothing);
        assert(s =~= nothing + left);
        nothing
    }
}

/// What is read as a separator, with the whitespace after it, before a
/// byte, separates: `s` is a separator and then what is left of it.
#[verifier::rlimit(40)]
pub proof fn lemma_read_separator(s: Seq<u8>) -> (p: Seq<u8>)
    requires
        parse_sep_spec(s) matches Ok((found, rest)) && found && (skip_whitespace_spec(
            rest,
        ) matches Ok(left) && left.len() > 0),
    ensures
        is_separator(p),
        s == p + skip_whitespace_spec(parse_sep_spec(s)->Ok_0.1)->Ok_0,
    decreases s.len(),
{
    let rest = parse_sep_spec(s)->Ok_0.1;
    let left = skip_whitespace_spec(rest)->Ok_0;
    let nothing = Seq::<u8>::empty();
    if s[0] == SPACE || s[0] == TAB {
        let first = seq![s[0]];
        let more = lemma_read_separator(s.skip(1));
        lemma_separator_after(first, nothing, more);
        assert(s =~= first + s.skip(1));
        assert(first + (more + left) =~= first + more + left);
        first + more
    } else if s[0] == SLASH && s.len() >= 2 && s[1] == SLASH {
        let body = s.skip(2);
        let n = count_before(body, LINE_FEED);
        lemma_count_before_bound(body, LINE_FEED);
        let comment = body.take(n as int);
        let line = seq![SLASH, SLASH] + comment + seq![LINE_FEED];
        assert(n < body.len()) by {
            if n >= body.len() {
                assert(rest =~= nothing);
            }
        }
        let gap = lemma_skipped_is_gap(rest);
        lemma_separators(nothing, comment, gap);
        assert(nothing + line + gap =~= line + gap);
        assert(body =~= comment + seq![LINE_FEED] + rest);
        assert(s =~= seq![SLASH, SLASH] + body);
        assert(seq![SLASH, SLASH] + (comment + seq![LINE_FEED] + (gap + left)) =~= line + gap
            + left);
        line + gap
    } else if s[0] == SLASH && s.len() >= 2 && s[1] == STAR {
        let body = s.skip(2);
        let k = lemma_comment_inside(body);
        let comment = body.take(k);
        let block = seq![SLASH, STAR] + comment + seq![STAR, SLASH];
        let more = lemma_read_separator(body.skip(k + 2));
        lemma_separator_after(nothing, comment, more);
        assert(body =~= comment + seq![STAR, SLASH] + body.skip(k + 2));
        assert(s =~= seq![SLASH, STAR] + body);
        assert(seq![SLASH, STAR] + (comment + seq![STAR, SLASH] + (more + left)) =~= block + more
            + left);
        block + more
    } else if s[0] == CARRIAGE_RETURN && s.len() >= 2 && s[1] == LINE_FEED {
        let mark = seq![CARRIAGE_RETURN, LINE_FEED];
        let gap = lemma_skipped_is_gap(rest);
        lemma_separators(nothing, nothing, gap);
        assert(nothing + mark + gap =~= mark + gap);
        assert(s =~= mark + rest);
        assert(mark + (gap + left) =~= mark + gap + left);
        mark + gap
    } else {
        let mark = seq![s[0]];
        let gap = lemma_skipped_is_gap(rest);
        lemma_separators(nothing, nothing, gap);
        assert(nothing + mark + gap =~= mark + gap);
        assert(s =~= mark + rest);
        assert(mark + (gap + left) =~= mark + gap + left);
        mark + gap
    }
}

/// What stands between the last item of a container and the bracket that
/// closes it can stand there before any such bracket: `s` is such a text
/// and then what is left of it.
#[verifier::rlimit(40)]
pub proof fn lemma_read_tail(s: Seq<u8>) -> (p: Seq<u8>)
    requires
        parse_sep_spec(s) matches Ok((_, rest)) && (skip_whitespace_spec(rest) matches Ok(left)
            && left.len() > 0 && ends_container(left)),
    ensures
        is_tail(p),
        s == p + skip_whitespace_spec(parse_sep_spec(s)->Ok_0.1)->Ok_0,
    decreases s.len(),
{
    let found = parse_sep_spec(s)->Ok_0.0;
    let rest = parse_sep_spec(s)->Ok_0.1;
    let left = skip_whitespace_spec(rest)->Ok_0;
    let nothing = Seq::<u8>::empty();
    if found {
        let p = lemma_read_separator(s);
        lemma_separator_is_tail(p);
        p
    } else if s[0] == SPACE || s[0] == TAB {
        let first = seq![s[0]];
        let more = lemma_read_tail(s.skip(1));
        assert forall|x: Seq<u8>| ends_container(x) implies #[trigger] leads_to(
            (first + more) + x,
            x,
            false,
        ) by {
            assert((first + more) + x =~= first + (more + x));
            lemma_blank_before_separator(first, more + x);
            assert(leads_to(more + x, x, false));
        }
        assert(s =~= first + s.skip(1));
        assert(first + (more + left) =~= first + more + left);
        first + more
    } else if s[0] == SLASH && s.len() >= 2 && s[1] == STAR {
        let body = s.skip(2);
        let k = lemma_comment_inside(body);
        let comment = body.take(k);
        let block = seq![SLASH, STAR] + comment + seq![STAR, SLASH];
        let more = lemma_read_tail(body.skip(k + 2));
        assert forall|x: Seq<u8>| ends_container(x) implies #[trigger] leads_to(
            (block + more) + x,
            x,
            false,
        ) by {
            assert((block + more) + x =~= seq![SLASH, STAR] + comment + seq![STAR, SLASH] + (more
                + x));
            lemma_block_comment_before_separator(comment, more + x);
            assert(leads_to(more + x, x, false));
        }
        assert(body =~= comment + seq![STAR, SLASH] + body.skip(k + 2));
        assert(s =~= seq![SLASH, STAR] + body);
        assert(seq![SLASH, STAR] + (comment + seq![STAR, SLASH] + (more + left)) =~= block + more
            + left);
        block + more
    } else {
        let gap = lemma_skipped_is_gap(s);
        assert forall|x: Seq<u8>| ends_container(x) implies #[trigger] leads_to(
            gap + x,
            x,
            false,
        ) by {
            let all = gap + x;
            lemma_skip_nothing(x);
            lemma_gap_skipped(gap, x);
            if gap.len() > 0 {
                assert(all[0] == s[0]);
                if gap.len() >= 2 {
                    assert(all[1] == s[1]);
                } else if x.len() > 0 {
                    assert(all[1] == x[0]);
                }
            } else {
                assert(all =~= x);
            }
            assert(parse_sep_spec(all) == Ok::<(bool, Seq<u8>), ErrorKind>((false, all)));
        }
        gap
    }
}

proof fn lemma_joined_shift(
    t: Seq<u8>,
    a: Seq<u8>,
    texts: Seq<Seq<u8>>,
    seps: Seq<Seq<u8>>,
    k: nat,
)
    requires
        texts.len() == seps.len(),
    ensures
        joined(seq![t] + texts, seq![a] + seps, k + 1) == joined(texts, seps, k),
    decreases texts.len() - k,
{
    if k < texts.len() {
        lemma_joined_shift(t, a, texts, seps, k + 1);
        assert((seq![t] + texts)[k as int + 1] == texts[k as int]);
        assert((seq![a] + seps)[k as int + 1] == seps[k as int]);
    }
}

proof fn lemma_items_first(item: Item, items: Seq<Item>)
    ensures
        item_values(seq![item] + items) == seq![value_of(item.value)] + item_values(items),
        joined(item_texts(seq![item] + items), item_ends(seq![item] + items), 0) == text_of(
            item.value,
        ) + (item.after + joined(item_texts(items), item_ends(items), 0)),
{
    let all = seq![item] + items;
    assert(item_values(all) =~= seq![value_of(item.value)] + item_values(items)) by {
        assert forall|i: int| 0 <= i < all.len() implies item_values(all)[i] == (seq![
            value_of(item.value),
        ] + item_values(items))[i] by {
            if i > 0 {
                assert(all[i] == items[i - 1]);
            }
        }
    }
    assert(item_texts(all) =~= seq![text_of(item.value)] + item_texts(items)) by {
        assert forall|i: int| 0 <= i < all.len() implies item_texts(all)[i] == (seq![
            text_of(item.value),
        ] + item_texts(items))[i] by {
            if i > 0 {
                assert(all[i] == items[i - 1]);
            }
        }
    }
    assert(item_ends(all) =~= seq![item.after] + item_ends(items)) by {
        assert forall|i: int| 0 <= i < all.len() implies item_ends(all)[i] == (seq![item.after]
            + item_ends(items))[i] by {
            if i > 0 {
                assert(all[i] == items[i - 1]);
            }
        }
    }
    lemma_joined_shift(text_of(item.value), item.after, item_texts(items), item_ends(items), 0);
}

proof fn lemma_joined_entries_shift(e: EntryLayout, layout: Seq<EntryLayout>, k: nat)
    ensures
        joined_entries(seq![e] + layout, k + 1) == joined_entries(layout, k),
    decreases layout.len() - k,
{
    if k < layout.len() {
        lemma_joined_entries_shift(e, layout, k + 1);
        assert((seq![e] + layout)[k as int + 1] == layout[k as int]);
    }
}

proof fn lemma_entries_first(entry: Entry, entries: Seq<Entry>)
    ensures
        entry_pairs(seq![entry] + entries) == seq![
            (key_of(entry.key), value_of(entry.value)),
        ] + entry_pairs(entries),
        joined_entries(entry_layouts(seq![entry] + entries), 0) == entry_text(entry) + (entry.after
            + joined_entries(entry_layouts(entries), 0)),
{
    let all = seq![entry] + entries;
    let first = entry_layouts(seq![entry])[0];
    assert(entry_pairs(all) =~= seq![(key_of(entry.key), value_of(entry.value))] + entry_pairs(
        entries,
    )) by {
        assert forall|i: int| 0 <= i < all.len() implies entry_pairs(all)[i] == (seq![
            (key_of(entry.key), value_of(entry.value)),
        ] + entry_pairs(entries))[i] by {
            if i > 0 {
                assert(all[i] == entries[i - 1]);
            }
        }
    }
    assert(entry_layouts(all) =~= seq![first] + entry_layouts(entries)) by {
        assert forall|i: int| 0 <= i < all.len() implies entry_layouts(all)[i] == (seq![first]
            + entry_layouts(entries))[i] by {
            if i > 0 {
                assert(all[i] == entries[i - 1]);
            }
        }
    }
    lemma_joined_entries_shift(first, entry_layouts(entries), 0);
    assert(entry_head(first) =~= entry_text(entry));
}

/// Whether `more` can follow an entry with `after` behind it: the entries
/// are laid out well, and `after` separates, or ends the object where no
/// entry follows.
spec fn entries_follow(after: Seq<u8>, more: Seq<Entry>, depth: nat, root: bool) -> bool {
    &&& laid_out(Shape::Object(Seq::empty(), more), depth, root)
    &&& if more.len() > 0 {
        is_separator(after)
    } else if root {
        is_last(after)
    } else {
        is_tail(after)
    }
}

/// Whether the entry is laid out well but for what stands after it.
spec fn entry_in_place(entry: Entry, depth: nat) -> bool {
    &&& reads_key(entry.key, key_of(entry.key))
    &&& is_gap(entry.before_colon)
    &&& is_gap(entry.after_colon)
    &&& laid_out(entry.value, (depth - 1) as nat, false)
}

/// The entry from its key to its value.
spec fn entry_text(entry: Entry) -> Seq<u8> {
    entry.key + (entry.before_colon + (seq![COLON] + (entry.after_colon + text_of(entry.value))))
}

proof fn lemma_entries_joined(
    inside: Seq<u8>,
    first: Entry,
    more: Seq<Entry>,
    depth: nat,
    root: bool,
)
    requires
        is_gap(inside),
        depth >= 1,
        entry_in_place(first, depth),
        entries_follow(first.after, more, depth, root),
    ensures
        laid_out(Shape::Object(inside, seq![first] + more), depth, root),
{
    let entries = seq![first] + more;
    assert forall|i: int| 0 <= i < entries.len() implies {
        &&& reads_key((#[trigger] entries[i]).key, key_of(entries[i].key))
        &&& is_gap(entries[i].before_colon)
        &&& is_gap(entries[i].after_colon)
        &&& laid_out(entries[i].value, (depth - 1) as nat, false)
    } by {
        if i > 0 {
            assert(entries[i] == more[i - 1]);
        }
    }
    assert forall|i: int| 0 <= i < entries.len() - 1 implies is_separator(
        (#[trigger] entries[i]).after,
    ) by {
        if i > 0 {
            assert(entries[i] == more[i - 1]);
        }
    }
    if more.len() >= 1 {
        assert(entries[entries.len() - 1] == more[more.len() - 1]);
    }
}

/// The value that is read stands at the start of the input in a shape
/// that is laid out well: the input is the text of the shape and then what
/// is left, and the shape holds the value.
pub proof fn lemma_value_shape(s: Seq<u8>, depth: nat) -> (shape: Shape)
    requires
        parse_value_spec(s, depth, false) is Ok,
    ensures
        laid_out(shape, depth, false),
        s == text_of(shape) + parse_value_spec(s, depth, false)->Ok_0.1,
        value_of(shape) == parse_value_spec(s, depth, false)->Ok_0.0,
    decreases depth, 4nat, s.len(),
{
    if s[0] == OPEN_BRACE {
        lemma_object_shape(s, depth)
    } else if s[0] == OPEN_BRACKET {
        lemma_array_shape(s, depth)
    } else if s[0] == QUOTE {
        let text = lemma_string_read(s);
        lemma_string_is_token(text);
        Shape::Token(text)
    } else if s[0] == LOWER_R && s.len() >= 2 && (s[1] == QUOTE || s[1] == HASH) {
        let text = lemma_raw_string_read(s);
        lemma_raw_string_is_token(text);
        Shape::Token(text)
    } else if s[0] == LOWER_B && s.len() >= 2 && s[1] == QUOTE {
        let text = lemma_byte_string_read(s);
        lemma_byte_string_is_token(text);
        Shape::Token(text)
    } else if is_number_start(s[0]) {
        let text = lemma_number_read(s);
        lemma_number_is_token(text);
        Shape::Token(text)
    } else {
        let text = lemma_word_read(s);
        let name = parse_identifier_spec(s)->Ok_0.0;
        assert(keyword_spec(name, Seq::empty()) is Ok);
        lemma_word_is_token(text);
        Shape::Token(text)
    }
}

/// The array that is read stands at the start of the input in a shape
/// that is laid out well.
pub proof fn lemma_array_shape(s: Seq<u8>, depth: nat) -> (shape: Shape)
    requires
        parse_array_spec(s, depth) is Ok,
        depth >= 1,
    ensures
        shape is Array,
        laid_out(shape, depth, false),
        s == text_of(shape) + parse_array_spec(s, depth)->Ok_0.1,
        value_of(shape) == ValueView::Array(parse_array_spec(s, depth)->Ok_0.0),
    decreases depth, 3nat, s.len(),
{
    let rest = parse_array_spec(s, depth)->Ok_0.1;
    let inside = lemma_skipped_is_gap(s.skip(1));
    let at_items = skip_whitespace_spec(s.skip(1))->Ok_0;
    let items = lemma_items_shape(at_items, depth, Seq::empty());
    let body = joined(item_texts(items), item_ends(items), 0);
    assert(s =~= seq![OPEN_BRACKET] + s.skip(1));
    assert(seq![OPEN_BRACKET] + (inside + (body + (seq![CLOSE_BRACKET] + rest))) =~= seq![
        OPEN_BRACKET,
    ] + (inside + (body + seq![CLOSE_BRACKET])) + rest);
    assert(Seq::<ValueView>::empty() + item_values(items) =~= item_values(items));
    Shape::Array(inside, items)
}

/// The items that are read stand in the input, each in a shape that is
/// laid out well, with a separator after each but the last.
proof fn lemma_items_shape(s: Seq<u8>, depth: nat, done: Seq<ValueView>) -> (items: Seq<
    Item,
>)
    requires
        parse_items_spec(s, depth, done) is Ok,
    ensures
        s == joined(item_texts(items), item_ends(items), 0) + (seq![CLOSE_BRACKET]
            + parse_items_spec(s, depth, done)->Ok_0.1),
        parse_items_spec(s, depth, done)->Ok_0.0 == done + item_values(items),
        forall|i: int|
            0 <= i < items.len() ==> laid_out((#[trigger] items[i]).value, (depth - 1) as nat, false),
        forall|i: int| 0 <= i < items.len() - 1 ==> is_separator((#[trigger] items[i]).after),
        items.len() >= 1 ==> is_tail(items[items.len() - 1].after),
    decreases depth, 1nat, s.len(),
{
    let rest = parse_items_spec(s, depth, done)->Ok_0.1;
    if s[0] == CLOSE_BRACKET {
        let items = Seq::<Item>::empty();
        assert(s =~= joined(item_texts(items), item_ends(items), 0) + (seq![CLOSE_BRACKET]
            + rest));
        assert(done + item_values(items) =~= done);
        items
    } else {
        let shape = lemma_value_shape(s, (depth - 1) as nat);
        let item = parse_value_spec(s, (depth - 1) as nat, false)->Ok_0.0;
        let after_item = parse_value_spec(s, (depth - 1) as nat, false)->Ok_0.1;
        let next = skip_whitespace_spec(parse_sep_spec(after_item)->Ok_0.1)->Ok_0;
        if next[0] == CLOSE_BRACKET {
            let after = lemma_read_tail(after_item);
            let first = Item { value: shape, after };
            let items = seq![first];
            lemma_items_first(first, Seq::empty());
            assert(items =~= seq![first] + Seq::<Item>::empty());
            assert(item_values(Seq::<Item>::empty()) =~= Seq::<ValueView>::empty());
            assert(joined(
                item_texts(Seq::<Item>::empty()),
                item_ends(Seq::<Item>::empty()),
                0,
            ) =~= Seq::<u8>::empty());
            assert(parse_items_spec(next, depth, done.push(item)) == Ok::<
                (Seq<ValueView>, Seq<u8>),
                ErrorKind,
            >((done.push(item), next.skip(1))));
            assert(next =~= seq![CLOSE_BRACKET] + rest);
            assert(after_item == after + next);
            assert(s =~= text_of(shape) + (after + Seq::<u8>::empty()) + (seq![CLOSE_BRACKET]
                + rest));
            assert(done.push(item) =~= done + (seq![item] + Seq::<ValueView>::empty()));
            items
        } else {
            let after = lemma_read_separator(after_item);
            lemma_separator_is_tail(after);
            let more = lemma_items_shape(next, depth, done.push(item));
            let first = Item { value: shape, after };
            let items = seq![first] + more;
            lemma_items_first(first, more);
            let body = joined(item_texts(more), item_ends(more), 0);
            assert(s =~= text_of(shape) + (after + body) + (seq![CLOSE_BRACKET] + rest));
            assert(done.push(item) + item_values(more) =~= done + (seq![item] + item_values(
                more,
            )));
            assert forall|i: int| 0 <= i < items.len() implies laid_out(
                (#[trigger] items[i]).value,
                (depth - 1) as nat,
                false,
            ) by {
                if i > 0 {
                    assert(items[i] == more[i - 1]);
                }
            }
            assert forall|i: int| 0 <= i < items.len() - 1 implies is_separator(
                (#[trigger] items[i]).after,
            ) by {
                if i > 0 {
                    assert(items[i] == more[i - 1]);
                }
            }
            if more.len() >= 1 {
                assert(items[items.len() - 1] == more[more.len() - 1]);
            }
            items
        }
    }
}

/// The object that is read stands at the start of the input in a shape
/// that is laid out well.
pub proof fn lemma_object_shape(s: Seq<u8>, depth: nat) -> (shape: Shape)
    requires
        parse_object_spec(s, depth) is Ok,
        depth >= 1,
    ensures
        shape is Object,
        laid_out(shape, depth, false),
        s == text_of(shape) + parse_object_spec(s, depth)->Ok_0.1,
        value_of(shape) == ValueView::Object(parse_object_spec(s, depth)->Ok_0.0),
    decreases depth, 3nat, s.len(),
{
    let rest = parse_object_spec(s, depth)->Ok_0.1;
    let inside = lemma_skipped_is_gap(s.skip(1));
    let at_key = skip_whitespace_spec(s.skip(1))->Ok_0;
    let entries = if at_key[0] == CLOSE_BRACE {
        Seq::<Entry>::empty()
    } else {
        lemma_keyed_entries(at_key, depth, false)
    };
    let body = joined_entries(entry_layouts(entries), 0);
    if at_key[0] == CLOSE_BRACE {
        assert(body =~= Seq::<u8>::empty());
        assert(entry_pairs(entries) =~= Seq::<(Seq<char>, ValueView)>::empty());
        assert(at_key =~= body + (seq![CLOSE_BRACE] + rest));
    }
    lemma_braces(s, inside, at_key, body, rest);
    Shape::Object(inside, entries)
}

proof fn lemma_braces(s: Seq<u8>, inside: Seq<u8>, at_key: Seq<u8>, body: Seq<u8>, rest: Seq<u8>)
    requires
        s.len() > 0,
        s[0] == OPEN_BRACE,
        s.skip(1) == inside + at_key,
        at_key == body + (seq![CLOSE_BRACE] + rest),
    ensures
        s == seq![OPEN_BRACE] + (inside + (body + seq![CLOSE_BRACE])) + rest,
{
    assert(s =~= seq![OPEN_BRACE] + s.skip(1));
    assert(s =~= seq![OPEN_BRACE] + (inside + (body + seq![CLOSE_BRACE])) + rest);
}

/// The entries that are read from the first key on stand in the input,
/// laid out well.
proof fn lemma_keyed_entries(at_key: Seq<u8>, depth: nat, top: bool) -> (entries: Seq<Entry>)
    requires
        depth >= 1,
        parse_identifier_spec(at_key) matches Ok((key, after_key)) && (skip_whitespace_spec(
            after_key,
        ) matches Ok(at_colon) && at_colon.len() > 0 && parse_key_value_pairs_spec(
            at_colon,
            key,
            depth,
            top,
        ) is Ok),
    ensures
        entries.len() >= 1,
        forall|inside: Seq<u8>|
            #[trigger] is_gap(inside) ==> laid_out(Shape::Object(inside, entries), depth, top),
        at_key == joined_entries(entry_layouts(entries), 0) + object_end(
            parse_key_value_pairs_spec(
                skip_whitespace_spec(parse_identifier_spec(at_key)->Ok_0.1)->Ok_0,
                parse_identifier_spec(at_key)->Ok_0.0,
                depth,
                top,
            )->Ok_0.1,
            top,
        ),
        top ==> parse_key_value_pairs_spec(
            skip_whitespace_spec(parse_identifier_spec(at_key)->Ok_0.1)->Ok_0,
            parse_identifier_spec(at_key)->Ok_0.0,
            depth,
            top,
        )->Ok_0.1.len() == 0,
        gathered(entry_pairs(entries)) == parse_key_value_pairs_spec(
            skip_whitespace_spec(parse_identifier_spec(at_key)->Ok_0.1)->Ok_0,
            parse_identifier_spec(at_key)->Ok_0.0,
            depth,
            top,
        )->Ok_0.0,
    decreases depth, 2nat, at_key.len() + 1,
{
    let key = lemma_key_read(at_key);
    let after_key = parse_identifier_spec(at_key)->Ok_0.1;
    let before_colon = lemma_skipped_is_gap(after_key);
    let at_colon = skip_whitespace_spec(after_key)->Ok_0;
    let found = lemma_pairs_shape(at_colon, key_of(key), depth, top);
    let rest = parse_key_value_pairs_spec(at_colon, key_of(key), depth, top)->Ok_0.1;
    let first = Entry {
        key,
        before_colon,
        after_colon: found.0.after_colon,
        value: found.0.value,
        after: found.0.after,
    };
    assert forall|inside: Seq<u8>| #[trigger] is_gap(inside) implies laid_out(
        Shape::Object(inside, seq![first] + found.1),
        depth,
        top,
    ) by {
        lemma_entries_joined(inside, first, found.1, depth, top);
    }
    lemma_first_entry(first, found.1, at_colon, object_end(rest, top));
    assert(at_key =~= key + (before_colon + at_colon));
    seq![first] + found.1
}

/// The first entry and those after it make up the text and the pairs of
/// an object.
proof fn lemma_first_entry(first: Entry, more: Seq<Entry>, at_colon: Seq<u8>, end: Seq<u8>)
    requires
        at_colon == seq![COLON] + (first.after_colon + text_of(first.value)) + (first.after + (
            joined_entries(entry_layouts(more), 0) + end)),
    ensures
        first.key + (first.before_colon + at_colon) == joined_entries(
            entry_layouts(seq![first] + more),
            0,
        ) + end,
        gathered(entry_pairs(seq![first] + more)) == gathered_from(
            seq![(key_of(first.key), value_of(first.value))],
            entry_pairs(more),
        ),
{
    let pair = (key_of(first.key), value_of(first.value));
    lemma_entries_first(first, more);
    lemma_gathered_from(seq![pair], entry_pairs(more));
    lemma_gathered_one(pair);
    lemma_entry_pieces(
        first.key,
        first.before_colon,
        first.after_colon + text_of(first.value),
        first.after,
        joined_entries(entry_layouts(more), 0),
        end,
    );
}

proof fn lemma_gathered_one(pair: (Seq<char>, ValueView))
    ensures
        gathered(seq![pair]) == seq![pair],
{
    let none = Seq::<(Seq<char>, ValueView)>::empty();
    assert(seq![pair].drop_last() =~= none);
    assert(gathered(none) =~= none);
    assert(index_of_key(none, pair.0) is None);
    assert(gathered(seq![pair]) =~= seq![pair]);
}

proof fn lemma_entry_pieces(
    key: Seq<u8>,
    before: Seq<u8>,
    value: Seq<u8>,
    after: Seq<u8>,
    more: Seq<u8>,
    end: Seq<u8>,
)
    ensures
        key + (before + (seq![COLON] + value + (after + (more + end)))) == key + (before + (seq![
            COLON,
        ] + value)) + (after + more) + end,
{
    assert(key + (before + (seq![COLON] + value + (after + (more + end)))) =~= key + (before + (
        seq![COLON] + value)) + (after + more) + end);
}

proof fn lemma_pair_pieces(
    key: Seq<u8>,
    before: Seq<u8>,
    after_colon: Seq<u8>,
    value: Seq<u8>,
    rest: Seq<u8>,
)
    ensures
        key + (before + (seq![COLON] + (after_colon + (value + rest)))) == key + (before + (seq![
            COLON,
        ] + (after_colon + value))) + rest,
{
    assert(key + (before + (seq![COLON] + (after_colon + (value + rest)))) =~= key + (before + (
        seq![COLON] + (after_colon + value))) + rest);
}

/// The entry that is read stands at the start of the input, laid out
/// well.
proof fn lemma_pair_shape(s: Seq<u8>, depth: nat) -> (entry: Entry)
    requires
        parse_key_value_pair_spec(s, depth) is Ok,
    ensures
        depth >= 1,
        entry_in_place(entry, depth),
        key_of(entry.key) == parse_key_value_pair_spec(s, depth)->Ok_0.0.0,
        value_of(entry.value) == parse_key_value_pair_spec(s, depth)->Ok_0.0.1,
        s == entry_text(entry) + parse_key_value_pair_spec(s, depth)->Ok_0.1,
    decreases depth, 0nat, s.len(),
{
    let rest = parse_key_value_pair_spec(s, depth)->Ok_0.1;
    let key = lemma_key_read(s);
    let after_key = parse_identifier_spec(s)->Ok_0.1;
    let before_colon = lemma_skipped_is_gap(after_key);
    let at_colon = skip_whitespace_spec(after_key)->Ok_0;
    let after_colon = lemma_skipped_is_gap(at_colon.skip(1));
    let at_value = skip_whitespace_spec(at_colon.skip(1))->Ok_0;
    let value = lemma_value_shape(at_value, (depth - 1) as nat);
    let entry = Entry { key, before_colon, after_colon, value, after: Seq::empty() };
    assert(at_colon =~= seq![COLON] + at_colon.skip(1));
    lemma_pair_pieces(key, before_colon, after_colon, text_of(value), rest);
    entry
}

/// The entries that are read after the first key stand in the input, laid
/// out well. Of the first entry, which is given without its key, the input
/// holds the colon, the value and what stands after it.
proof fn lemma_pairs_shape(s: Seq<u8>, first_key: Seq<char>, depth: nat, top: bool) -> (found:
    (Entry, Seq<Entry>))
    requires
        parse_key_value_pairs_spec(s, first_key, depth, top) is Ok,
    ensures
        depth >= 1,
        is_gap(found.0.after_colon),
        laid_out(found.0.value, (depth - 1) as nat, false),
        entries_follow(found.0.after, found.1, depth, top),
        s == seq![COLON] + (found.0.after_colon + text_of(found.0.value)) + (found.0.after + (
            joined_entries(entry_layouts(found.1), 0) + object_end(
                parse_key_value_pairs_spec(s, first_key, depth, top)->Ok_0.1,
                top,
            ))),
        top ==> parse_key_value_pairs_spec(s, first_key, depth, top)->Ok_0.1.len() == 0,
        parse_key_value_pairs_spec(s, first_key, depth, top)->Ok_0.0 == gathered_from(
            seq![(first_key, value_of(found.0.value))],
            entry_pairs(found.1),
        ),
    decreases depth, 2nat, s.len(),
{
    let after_colon = lemma_skipped_is_gap(s.skip(1));
    let at_value = skip_whitespace_spec(s.skip(1))->Ok_0;
    let value = lemma_value_shape(at_value, (depth - 1) as nat);
    let read = parse_value_spec(at_value, (depth - 1) as nat, false)->Ok_0;
    let more = lemma_more_pairs_shape(read.1, depth, top, seq![(first_key, read.0)]);
    let first = Entry {
        key: Seq::empty(),
        before_colon: Seq::empty(),
        after_colon,
        value,
        after: more.0,
    };
    assert(s =~= seq![COLON] + s.skip(1));
    let end = object_end(parse_key_value_pairs_spec(s, first_key, depth, top)->Ok_0.1, top);
    assert(s =~= seq![COLON] + (after_colon + text_of(value)) + (more.0 + (joined_entries(
        entry_layouts(more.1),
        0,
    ) + end)));
    (first, more.1)
}

/// The entries that are read after an entry stand in the input, laid out
/// well, behind what separates them from that entry.
#[verifier::rlimit(40)]
proof fn lemma_more_pairs_shape(
    s: Seq<u8>,
    depth: nat,
    top: bool,
    done: Seq<(Seq<char>, ValueView)>,
) -> (found: (Seq<u8>, Seq<Entry>))
    requires
        parse_more_pairs_spec(s, depth, top, done) is Ok,
        depth >= 1,
    ensures
        entries_follow(found.0, found.1, depth, top),
        s == found.0 + (joined_entries(entry_layouts(found.1), 0) + object_end(
            parse_more_pairs_spec(s, depth, top, done)->Ok_0.1,
            top,
        )),
        top ==> parse_more_pairs_spec(s, depth, top, done)->Ok_0.1.len() == 0,
        parse_more_pairs_spec(s, depth, top, done)->Ok_0.0 == gathered_from(
            done,
            entry_pairs(found.1),
        ),
    decreases depth, 1nat, s.len(),
{
    let rest = parse_more_pairs_spec(s, depth, top, done)->Ok_0.1;
    let end = object_end(rest, top);
    let next = skip_whitespace_spec(parse_sep_spec(s)->Ok_0.1)->Ok_0;
    let nothing = Seq::<u8>::empty();
    let none = Seq::<Entry>::empty();
    lemma_space_is_gap(nothing);
    if next.len() == 0 || next[0] == CLOSE_BRACE {
        assert(entry_pairs(none) =~= Seq::<(Seq<char>, ValueView)>::empty());
        assert(joined_entries(entry_layouts(none), 0) =~= nothing);
        if next.len() == 0 {
            assert(next =~= nothing);
            assert(s =~= s + (nothing + end));
            (s, none)
        } else {
            let after = lemma_read_tail(s);
            assert(next =~= seq![CLOSE_BRACE] + rest);
            assert(s =~= after + (nothing + end));
            (after, none)
        }
    } else {
        let after = lemma_read_separator(s);
        let entry = lemma_pair_shape(next, depth);
        let read = parse_key_value_pair_spec(next, depth)->Ok_0;
        let more = lemma_more_pairs_shape(
            read.1,
            depth,
            top,
            insert_entry(done, read.0.0, read.0.1),
        );
        let first = Entry {
            key: entry.key,
            before_colon: entry.before_colon,
            after_colon: entry.after_colon,
            value: entry.value,
            after: more.0,
        };
        let entries = seq![first] + more.1;
        lemma_entries_joined(nothing, first, more.1, depth, top);
        lemma_entries_first(first, more.1);
        lemma_gathered_from_first(done, read.0, entry_pairs(more.1));
        assert(entry_text(first) == entry_text(entry));
        assert(s =~= after + (joined_entries(entry_layouts(entries), 0) + end));
        (after, entries)
    }
}

/// What is left after whitespace was skipped begins with none.
pub proof fn lemma_skipped_once(s: Seq<u8>)
    requires
        skip_whitespace_spec(s) is Ok,
    ensures
        skip_whitespace_spec(skip_whitespace_spec(s)->Ok_0) == skip_whitespace_spec(s),
    decreases s.len(),
{
    if s.len() == 0 {
    } else if is_whitespace(s[0]) {
        lemma_skipped_once(s.skip(1));
    } else if s[0] == SLASH && s.len() >= 2 && s[1] == SLASH {
        lemma_after_first_len(s.skip(2), LINE_FEED);
        lemma_skipped_once(after_first(s.skip(2), LINE_FEED));
    } else if s[0] == SLASH && s.len() >= 2 && s[1] == STAR {
        lemma_after_comment_end_len(s.skip(2));
        lemma_skipped_once(after_comment_end(s.skip(2))->0);
    }
}

proof fn lemma_plain_shape(lead: Seq<u8>, at_value: Seq<u8>) -> (d: Document)
    requires
        is_gap(lead),
        parse_value_spec(at_value, MAX_DEPTH as nat, false) matches Ok((_, rest))
            && skip_whitespace_spec(rest) == Ok::<Seq<u8>, ErrorKind>(Seq::empty()),
    ensures
        d.laid_out(),
        d.text() == lead + at_value,
        value_of(d.root) == parse_value_spec(at_value, MAX_DEPTH as nat, false)->Ok_0.0,
{
    let root = lemma_value_shape(at_value, MAX_DEPTH as nat);
    let trail = parse_value_spec(at_value, MAX_DEPTH as nat, false)->Ok_0.1;
    Document { lead, root, trail, bare: false }
}

proof fn lemma_bare_shape(lead: Seq<u8>, at_key: Seq<u8>) -> (d: Document)
    requires
        is_gap(lead),
        parse_identifier_spec(at_key) matches Ok((key, after_key)) && (skip_whitespace_spec(
            after_key,
        ) matches Ok(at_colon) && at_colon.len() > 0 && parse_key_value_pairs_spec(
            at_colon,
            key,
            MAX_DEPTH as nat,
            true,
        ) is Ok),
    ensures
        d.laid_out(),
        d.text() == lead + at_key,
        value_of(d.root) == ValueView::Object(
            parse_key_value_pairs_spec(
                skip_whitespace_spec(parse_identifier_spec(at_key)->Ok_0.1)->Ok_0,
                parse_identifier_spec(at_key)->Ok_0.0,
                MAX_DEPTH as nat,
                true,
            )->Ok_0.0,
        ),
{
    let nothing = Seq::<u8>::empty();
    let entries = lemma_keyed_entries(at_key, MAX_DEPTH as nat, true);
    let body = joined_entries(entry_layouts(entries), 0);
    lemma_space_is_gap(nothing);
    assert(body + nothing =~= body);
    Document { lead, root: Shape::Object(nothing, entries), trail: nothing, bare: true }
}

/// Every document that is read is laid out well: it is the text of a
/// gap, a value in a shape that is laid out well, and what is skipped as
/// whitespace after it; and what is read is the value in that shape.
#[verifier::rlimit(40)]
pub proof fn lemma_document_shape(s: Seq<u8>) -> (d: Document)
    requires
        parse_document_spec(s) is Ok,
    ensures
        d.laid_out(),
        d.text() == s,
        value_of(d.root) == parse_document_spec(s)->Ok_0,
{
    let depth = MAX_DEPTH as nat;
    let lead = lemma_skipped_is_gap(s);
    let at_value = skip_whitespace_spec(s)->Ok_0;
    let first = at_value[0];
    let nothing = Seq::<u8>::empty();
    let read = parse_value_spec(at_value, depth, true)->Ok_0;
    assert(skip_whitespace_spec(read.1)->Ok_0 =~= nothing);
    if first == QUOTE || !(first == OPEN_BRACE || first == OPEN_BRACKET || (first == LOWER_R
        && at_value.len() >= 2 && (at_value[1] == QUOTE || at_value[1] == HASH)) || (first
        == LOWER_B && at_value.len() >= 2 && at_value[1] == QUOTE) || is_number_start(first)) {
        let after_key = parse_identifier_spec(at_value)->Ok_0.1;
        let after = skip_whitespace_spec(after_key)->Ok_0;
        lemma_skipped_once(after_key);
        if after.len() > 0 && after[0] == COLON {
            lemma_bare_shape(lead, at_value)
        } else {
            assert(read.1 == after);
            assert(after =~= nothing);
            lemma_plain_shape(lead, at_value)
        }
    } else {
        lemma_plain_shape(lead, at_value)
    }
}

/// A shape holds the same tokens as itself.
pub proof fn lemma_same_tokens_reflexive(shape: Shape)
    ensures
        same_tokens(shape, shape),
    decreases shape,
{
    match shape {
        Shape::Token(_) => {},
        Shape::Array(_, items) => {
            assert forall|i: int| 0 <= i < items.len() implies same_tokens(
                (#[trigger] items[i]).value,
                items[i].value,
            ) by {
                lemma_same_tokens_reflexive(items[i].value);
            }
        },
        Shape::Object(_, entries) => {
            assert forall|i: int| 0 <= i < entries.len() implies same_tokens(
                (#[trigger] entries[i]).value,
                entries[i].value,
            ) by {
                lemma_same_tokens_reflexive(entries[i].value);
            }
        },
    }
}

/// Whether the documents `a` and `b` differ at most in their layout: both
/// are laid out well, with the same tokens in the same places, and differ
/// in the whitespace and the comments between the tokens, in the
/// separators chosen, or in the braces of an object at the root.
pub open spec fn same_but_layout(a: Seq<u8>, b: Seq<u8>) -> bool {
    exists|x: Document, y: Document|
        #![trigger x.text(), y.text()]
        x.laid_out() && y.laid_out() && x.text() == a && y.text() == b && same_tokens(
            x.root,
            y.root,
        )
}

/// The layout of a document does not change what it stands for: two
/// documents that differ at most in their layout are read as the same
/// value.
pub proof fn lemma_layout_does_not_change_the_value(a: Seq<u8>, b: Seq<u8>)
    requires
        same_but_layout(a, b),
    ensures
        parse_document_spec(a) is Ok,
        parse_document_spec(a) == parse_document_spec(b),
{
    let (x, y) = choose|x: Document, y: Document|
        #![trigger x.text(), y.text()]
        x.laid_out() && y.laid_out() && x.text() == a && y.text() == b && same_tokens(
            x.root,
            y.root,
        );
    lemma_same_tokens_same_value(x, y);
}

/// Every document that is read is one of those: it differs from itself
/// in nothing.
pub proof fn lemma_read_document_is_laid_out(s: Seq<u8>)
    requires
        parse_document_spec(s) is Ok,
    ensures
        same_but_layout(s, s),
{
    let d = lemma_document_shape(s);
    lemma_same_tokens_reflexive(d.root);
    assert(d.text() == s);
}

} // verus!
