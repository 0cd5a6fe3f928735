//! Reading a document: from bytes to a tree.

use vstd::prelude::*;
use crate::deserialize::sound::lemma_parsed_document;
use crate::deserialize::value::{parse_value, parse_value_spec};
use crate::deserialize::whitespace::{
    is_space, lemma_leading_whitespace, skip_whitespace, skip_whitespace_spec,
};
use crate::error::{Error, ErrorKind};
use crate::peek_reader::PeekReader;
use crate::value::{Value, ValueView};

pub mod number;
pub mod sound;
pub mod string;
pub mod value;
pub mod whitespace;

verus! {

/// The number of levels that a document may nest: a value inside as many
/// values is refused.
pub const MAX_DEPTH: u8 = 100;

/// The tree that the document `s` stands for: whitespace, one value at the
/// top level, whitespace, and nothing more.
pub open spec fn parse_document_spec(s: Seq<u8>) -> Result<ValueView, ErrorKind> {
    match skip_whitespace_spec(s) {
        Err(kind) => Err(kind),
        Ok(at_value) => match parse_value_spec(at_value, MAX_DEPTH as nat, true) {
            Err(kind) => Err(kind),
            Ok((value, rest)) => match skip_whitespace_spec(rest) {
                Err(kind) => Err(kind),
                Ok(end) => if end.len() > 0 {
                    Err(ErrorKind::InvalidData)
                } else {
                    Ok(value)
                },
            },
        },
    }
}

/// Whether `r` is what `expected` asks for: a well-formed value with the view,
/// or an error of the kind.
pub open spec fn parsed_as(r: Result<Value, Error>, expected: Result<ValueView, ErrorKind>) -> bool {
    match expected {
        Ok(value) => r matches Ok(v) && v@ == value && v@.well_formed(),
        Err(kind) => r matches Err(e) && e.kind == kind,
    }
}

/// Whitespace before a document changes nothing.
pub proof fn lemma_whitespace_before_document(space: Seq<u8>, s: Seq<u8>)
    requires
        is_space(space),
    ensures
        parse_document_spec(space + s) == parse_document_spec(s),
{
    lemma_leading_whitespace(space, s);
}

/// Reads a document from `reader`, which must hold nothing after it.
pub fn parse_document(reader: &mut PeekReader) -> (r: Result<Value, Error>)
    ensures
        parsed_as(r, parse_document_spec(old(reader).remaining())),
{
    proof {
        lemma_parsed_document(reader.remaining());
    }
    skip_whitespace(reader)?;
    let value: Value = parse_value(reader, MAX_DEPTH, true)?;
    skip_whitespace(reader)?;
    if let Some(garbage) = reader.peek()? {
        return Err(Error::invalid_byte("Trailing garbage after document", garbage));
    }
    Ok(value)
}

/// Reads a document from bytes.
pub fn from_slice(bytes: &[u8]) -> (r: Result<Value, Error>)
    ensures
        parsed_as(r, parse_document_spec(bytes@)),
{
    let mut reader: PeekReader = PeekReader::new(bytes);
    parse_document(&mut reader)
}

/// Reads a document from text.
pub fn from_str(string: &str) -> (r: Result<Value, Error>)
    ensures
        parsed_as(r, parse_document_spec(vstd::utf8::encode_utf8(string@))),
{
    from_slice(string.as_bytes())
}

} // verus!
