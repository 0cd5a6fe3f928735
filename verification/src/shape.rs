//! Documents as trees of tokens. What stands between the tokens of a
//! document, whitespace, comments and the separators chosen, does not
//! change what is read: two documents with the same tokens in the same
//! places read as the same value.

use vstd::prelude::*;
use crate::ascii::COLON;
use crate::deserialize::{MAX_DEPTH, parse_document_spec};
use crate::deserialize::value::{parse_identifier_spec, parse_value_spec};
use crate::deserialize::whitespace::skip_whitespace_spec;
use crate::error::ErrorKind;
use crate::layout::{
    array_text, entries_laid_out, entry_laid_out, EntryLayout, is_gap, is_last, is_separator,
    is_tail, items_laid_out, joined_entries, lemma_array_reads, lemma_document_reads,
    lemma_object_reads, lemma_root_object_reads, object_text, reads_as, reads_key,
};
use crate::value::{gathered, ValueView};

verus! {

/// An item of an array as it stands in a document: the item, and what
/// stands after it.
pub struct Item {
    pub value: Shape,
    pub after: Seq<u8>,
}

/// An entry of an object as it stands in a document: the text of its key,
/// the gaps before and after the colon, the value, and what stands after
/// the entry.
pub struct Entry {
    pub key: Seq<u8>,
    pub before_colon: Seq<u8>,
    pub after_colon: Seq<u8>,
    pub value: Shape,
    pub after: Seq<u8>,
}

/// A value as it stands in a document: a token, or an array or an object
/// with the gap after its opening bracket and its items or entries.
pub enum Shape {
    Token(Seq<u8>),
    Array(Seq<u8>, Seq<Item>),
    Object(Seq<u8>, Seq<Entry>),
}

/// The value that a token stands for.
pub open spec fn token_value(text: Seq<u8>) -> ValueView {
    match parse_value_spec(text, 1, false) {
        Ok((v, _)) => v,
        Err(_) => ValueView::Null,
    }
}

/// Whether `text` is a token: it reads as one value wherever a value can
/// stand, however many levels of nesting are left.
pub open spec fn is_token(text: Seq<u8>) -> bool {
    forall|depth: nat| depth >= 1 ==> #[trigger] reads_as(text, token_value(text), depth)
}

/// The key that the text of a key stands for.
pub open spec fn key_of(text: Seq<u8>) -> Seq<char> {
    match parse_identifier_spec(text + seq![COLON]) {
        Ok((key, _)) => key,
        Err(_) => Seq::empty(),
    }
}

/// The texts of the items.
pub open spec fn item_texts(items: Seq<Item>) -> Seq<Seq<u8>>
    decreases items, 0nat,
{
    Seq::new(
        items.len(),
        |i: int|
            if 0 <= i < items.len() {
                text_of(items[i].value)
            } else {
                Seq::empty()
            },
    )
}

/// What stands after each of the items.
pub open spec fn item_ends(items: Seq<Item>) -> Seq<Seq<u8>> {
    Seq::new(items.len(), |i: int| items[i].after)
}

/// The entries with the texts of their values.
pub open spec fn entry_layouts(entries: Seq<Entry>) -> Seq<EntryLayout>
    decreases entries, 0nat,
{
    Seq::new(
        entries.len(),
        |i: int|
            EntryLayout {
                key: entries[i].key,
                before_colon: entries[i].before_colon,
                after_colon: entries[i].after_colon,
                value: if 0 <= i < entries.len() {
                    text_of(entries[i].value)
                } else {
                    Seq::empty()
                },
                after: entries[i].after,
            },
    )
}

/// The text of a value as it stands in a document.
pub open spec fn text_of(shape: Shape) -> Seq<u8>
    decreases shape, 1nat,
{
    match shape {
        Shape::Token(text) => text,
        Shape::Array(inside, items) => array_text(inside, item_texts(items), item_ends(items)),
        Shape::Object(inside, entries) => object_text(inside, entry_layouts(entries)),
    }
}

/// The values of the items.
pub open spec fn item_values(items: Seq<Item>) -> Seq<ValueView>
    decreases items, 0nat,
{
    Seq::new(
        items.len(),
        |i: int|
            if 0 <= i < items.len() {
                value_of(items[i].value)
            } else {
                ValueView::Null
            },
    )
}

/// The keys and the values of the entries, one pair for each entry.
pub open spec fn entry_pairs(entries: Seq<Entry>) -> Seq<(Seq<char>, ValueView)>
    decreases entries, 0nat,
{
    Seq::new(
        entries.len(),
        |i: int|
            (
                key_of(entries[i].key),
                if 0 <= i < entries.len() {
                    value_of(entries[i].value)
                } else {
                    ValueView::Null
                },
            ),
    )
}

/// The value that stands in a document in this shape: of a token the value
/// that it stands for, of an array the values of its items, of an object
/// its entries gathered, a later value in the place of an earlier one with
/// the same key.
pub open spec fn value_of(shape: Shape) -> ValueView
    decreases shape, 1nat,
{
    match shape {
        Shape::Token(text) => token_value(text),
        Shape::Array(_, items) => ValueView::Array(item_values(items)),
        Shape::Object(_, entries) => ValueView::Object(gathered(entry_pairs(entries))),
    }
}

/// Whether the shape is laid out well, with `depth` levels of nesting
/// left: its tokens are tokens and its keys read as keys; gaps stand after
/// the opening brackets and around the colons; a separator stands after
/// each item and each entry but the last of its array or object, and after
/// the last what can stand before the closing bracket. With `root` the
/// shape is an object at the root without its braces, and after its last
/// entry stands what can stand before the end of the input.
pub open spec fn laid_out(shape: Shape, depth: nat, root: bool) -> bool
    decreases shape,
{
    match shape {
        Shape::Token(text) => depth >= 1 && is_token(text),
        Shape::Array(inside, items) => {
            &&& depth >= 1
            &&& is_gap(inside)
            &&& forall|i: int|
                0 <= i < items.len() ==> laid_out(
                    (#[trigger] items[i]).value,
                    (depth - 1) as nat,
                    false,
                )
            &&& forall|i: int| 0 <= i < items.len() - 1 ==> is_separator((#[trigger] items[i]).after)
            &&& items.len() >= 1 ==> is_tail(items[items.len() - 1].after)
        },
        Shape::Object(inside, entries) => {
            &&& depth >= 1
            &&& is_gap(inside)
            &&& forall|i: int|
                0 <= i < entries.len() ==> {
                    &&& reads_key((#[trigger] entries[i]).key, key_of(entries[i].key))
                    &&& is_gap(entries[i].before_colon)
                    &&& is_gap(entries[i].after_colon)
                    &&& laid_out(entries[i].value, (depth - 1) as nat, false)
                }
            &&& forall|i: int|
                0 <= i < entries.len() - 1 ==> is_separator((#[trigger] entries[i]).after)
            &&& entries.len() >= 1 ==> if root {
                is_last(entries[entries.len() - 1].after)
            } else {
                is_tail(entries[entries.len() - 1].after)
            }
        },
    }
}

/// Whether two shapes hold the same tokens in the same places: they
/// differ at most in what stands between the tokens.
pub open spec fn same_tokens(a: Shape, b: Shape) -> bool
    decreases a,
{
    match (a, b) {
        (Shape::Token(x), Shape::Token(y)) => x == y,
        (Shape::Array(_, xs), Shape::Array(_, ys)) => {
            &&& xs.len() == ys.len()
            &&& forall|i: int|
                0 <= i < xs.len() ==> same_tokens((#[trigger] xs[i]).value, ys[i].value)
        },
        (Shape::Object(_, xs), Shape::Object(_, ys)) => {
            &&& xs.len() == ys.len()
            &&& forall|i: int|
                0 <= i < xs.len() ==> (#[trigger] xs[i]).key == ys[i].key && same_tokens(
                    xs[i].value,
                    ys[i].value,
                )
        },
        _ => false,
    }
}

/// A value that is laid out well reads as the value that stands in its
/// shape.
pub proof fn lemma_shape_reads(shape: Shape, depth: nat)
    requires
        laid_out(shape, depth, false),
    ensures
        reads_as(text_of(shape), value_of(shape), depth),
    decreases shape,
{
    match shape {
        Shape::Token(text) => {},
        Shape::Array(inside, items) => {
            let texts = item_texts(items);
            let values = item_values(items);
            assert forall|i: int| 0 <= i < items.len() implies reads_as(
                #[trigger] texts[i],
                values[i],
                (depth - 1) as nat,
            ) by {
                lemma_shape_reads(items[i].value, (depth - 1) as nat);
            }
            assert(items_laid_out(texts, item_ends(items), values, depth));
            lemma_array_reads(inside, texts, item_ends(items), values, depth);
        },
        Shape::Object(inside, entries) => {
            let layout = entry_layouts(entries);
            let pairs = entry_pairs(entries);
            assert forall|i: int| 0 <= i < entries.len() implies entry_laid_out(
                #[trigger] layout[i],
                pairs[i],
                depth,
            ) by {
                lemma_shape_reads(entries[i].value, (depth - 1) as nat);
            }
            assert(entries_laid_out(layout, pairs, depth, false));
            lemma_object_reads(inside, layout, pairs, depth);
        },
    }
}

/// Shapes with the same tokens in the same places hold the same value.
pub proof fn lemma_same_tokens(a: Shape, b: Shape)
    requires
        same_tokens(a, b),
    ensures
        value_of(a) == value_of(b),
    decreases a,
{
    match (a, b) {
        (Shape::Array(_, xs), Shape::Array(_, ys)) => {
            assert forall|i: int| 0 <= i < xs.len() implies item_values(xs)[i] == item_values(
                ys,
            )[i] by {
                lemma_same_tokens(xs[i].value, ys[i].value);
            }
            assert(item_values(xs) =~= item_values(ys));
        },
        (Shape::Object(_, xs), Shape::Object(_, ys)) => {
            assert forall|i: int| 0 <= i < xs.len() implies entry_pairs(xs)[i] == entry_pairs(
                ys,
            )[i] by {
                lemma_same_tokens(xs[i].value, ys[i].value);
            }
            assert(entry_pairs(xs) =~= entry_pairs(ys));
        },
        _ => {},
    }
}

/// A document: a gap, a value, and what is skipped as whitespace after
/// it, or, with `bare`, a gap and the entries of an object without its
/// braces.
pub struct Document {
    pub lead: Seq<u8>,
    pub root: Shape,
    pub trail: Seq<u8>,
    pub bare: bool,
}

impl Document {
    /// The bytes of the document.
    pub open spec fn text(self) -> Seq<u8> {
        if self.bare {
            self.lead + joined_entries(entry_layouts(self.root->Object_1), 0)
        } else {
            self.lead + (text_of(self.root) + self.trail)
        }
    }

    /// Whether the document is laid out well: a gap stands before its
    /// value, the value is laid out well, and what stands after it is
    /// skipped as whitespace; without braces, the value is an object with
    /// an entry.
    pub open spec fn laid_out(self) -> bool {
        &&& is_gap(self.lead)
        &&& laid_out(self.root, MAX_DEPTH as nat, self.bare)
        &&& if self.bare {
            self.root is Object && self.root->Object_1.len() >= 1
        } else {
            skip_whitespace_spec(self.trail) == Ok::<Seq<u8>, ErrorKind>(Seq::empty())
        }
    }
}

/// A document that is laid out well reads as the value that stands in it.
pub proof fn lemma_document_value(d: Document)
    requires
        d.laid_out(),
    ensures
        parse_document_spec(d.text()) == Ok::<ValueView, ErrorKind>(value_of(d.root)),
{
    if d.bare {
        let entries = d.root->Object_1;
        let layout = entry_layouts(entries);
        let pairs = entry_pairs(entries);
        assert forall|i: int| 0 <= i < entries.len() implies entry_laid_out(
            #[trigger] layout[i],
            pairs[i],
            MAX_DEPTH as nat,
        ) by {
            lemma_shape_reads(entries[i].value, (MAX_DEPTH - 1) as nat);
        }
        assert(entries_laid_out(layout, pairs, MAX_DEPTH as nat, true));
        lemma_root_object_reads(d.lead, layout, pairs);
    } else {
        lemma_shape_reads(d.root, MAX_DEPTH as nat);
        lemma_document_reads(d.lead, text_of(d.root), d.trail, value_of(d.root));
    }
}

/// Whitespace, comments and the choice of separators do not change what a
/// document stands for: two documents that are laid out well and hold the
/// same tokens in the same places read as the same value, whatever stands
/// between the tokens of each, and with or without the braces of an object
/// at the root.
pub proof fn lemma_same_tokens_same_value(a: Document, b: Document)
    requires
        a.laid_out(),
        b.laid_out(),
        same_tokens(a.root, b.root),
    ensures
        parse_document_spec(a.text()) == parse_document_spec(b.text()),
        parse_document_spec(a.text()) is Ok,
{
    lemma_document_value(a);
    lemma_document_value(b);
    lemma_same_tokens(a.root, b.root);
}

} // verus!
