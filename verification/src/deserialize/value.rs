//! Values: keys, objects, arrays, and the choice between them by the first
//! bytes.

use vstd::prelude::*;
use vstd::utf8::decode_utf8;
use crate::ascii::{
    alphabetic, alphanumeric, CLOSE_BRACE, CLOSE_BRACKET, COLON, digit, DOT, HASH, is_alphabetic,
    is_alphanumeric, is_digit, LOWER_B, LOWER_R, MINUS, OPEN_BRACE, OPEN_BRACKET, PIPE, PLUS,
    QUOTE, UNDERSCORE,
};
use crate::deserialize::number::{lemma_number_progress, parse_number, parse_number_spec};
use crate::deserialize::string::{
    parse_byte_string, parse_byte_string_spec, parse_multi_line_string, parse_raw_string,
    parse_raw_string_spec, parse_string, parse_string_spec, text_from,
};
use crate::deserialize::whitespace::{
    lemma_parse_sep_len, lemma_skip_whitespace_len, parse_sep, parse_sep_spec, skip_whitespace,
    skip_whitespace_spec,
};
use crate::error::{Error, ErrorKind};
use crate::peek_reader::PeekReader;
use crate::utils::{lemma_ascii_is_utf8, read_as_view};
use crate::value::{insert_entry, Object, same_text, Value, ValueView, view_all};

verus! {

/// Whether `byte` may begin a key that is written without quotes.
pub open spec fn is_identifier_start(byte: u8) -> bool {
    is_alphabetic(byte) || byte == UNDERSCORE
}

/// Whether `byte` may stand in a key that is written without quotes.
pub open spec fn is_identifier_byte(byte: u8) -> bool {
    is_alphanumeric(byte) || byte == UNDERSCORE || byte == MINUS
}

/// The number of bytes that `s` begins with that may stand in such a key.
pub open spec fn identifier_len(s: Seq<u8>) -> nat
    decreases s.len(),
{
    if s.len() == 0 || !is_identifier_byte(s[0]) {
        0
    } else {
        1 + identifier_len(s.skip(1))
    }
}

/// The key that `s` begins with, and what follows it. Between quotes, the
/// key is a string as any other, its escapes replaced; without quotes, a
/// letter or `_` and then letters, digits, `_` and `-`.
pub open spec fn parse_identifier_spec(s: Seq<u8>) -> Result<(Seq<char>, Seq<u8>), ErrorKind> {
    if s.len() == 0 {
        Err(ErrorKind::UnexpectedEof)
    } else if s[0] == QUOTE {
        parse_string_spec(s)
    } else if !is_identifier_start(s[0]) {
        Err(ErrorKind::InvalidData)
    } else {
        let n = 1 + identifier_len(s.skip(1));
        Ok((decode_utf8(s.take(n as int)), s.skip(n as int)))
    }
}

/// The value that a word without quotes names.
pub open spec fn keyword_spec(name: Seq<char>, rest: Seq<u8>) -> Result<
    (ValueView, Seq<u8>),
    ErrorKind,
> {
    if name == "true"@ {
        Ok((ValueView::Bool(true), rest))
    } else if name == "false"@ {
        Ok((ValueView::Bool(false), rest))
    } else if name == "null"@ {
        Ok((ValueView::Null, rest))
    } else {
        Err(ErrorKind::InvalidData)
    }
}

/// Whether a number begins with `byte`.
pub open spec fn is_number_start(byte: u8) -> bool {
    is_digit(byte) || byte == PLUS || byte == MINUS || byte == DOT
}

/// `r` with its value made into a tree by `wrap`.
pub open spec fn map_value<T>(
    r: Result<(T, Seq<u8>), ErrorKind>,
    wrap: spec_fn(T) -> ValueView,
) -> Result<(ValueView, Seq<u8>), ErrorKind> {
    match r {
        Ok((value, rest)) => Ok((wrap(value), rest)),
        Err(kind) => Err(kind),
    }
}

/// The value that `s` begins with, and what follows it, with `depth` levels
/// of nesting left. At the top level a string or a word with `:` after it is
/// the first key of an object without braces, which runs to the end of the
/// input.
pub open spec fn parse_value_spec(s: Seq<u8>, depth: nat, top_level: bool) -> Result<
    (ValueView, Seq<u8>),
    ErrorKind,
>
    decreases depth, 4nat, s.len(),
{
    if depth == 0 {
        Err(ErrorKind::InvalidData)
    } else if s.len() == 0 {
        Err(ErrorKind::UnexpectedEof)
    } else if s[0] == OPEN_BRACE {
        map_value(parse_object_spec(s, depth), |entries| ValueView::Object(entries))
    } else if s[0] == OPEN_BRACKET {
        map_value(parse_array_spec(s, depth), |items| ValueView::Array(items))
    } else if s[0] == QUOTE {
        match parse_string_spec(s) {
            Err(kind) => Err(kind),
            Ok((text, rest)) => if top_level {
                match skip_whitespace_spec(rest) {
                    Err(kind) => Err(kind),
                    Ok(after) => if after.len() > 0 && after[0] == COLON {
                        map_value(
                            parse_key_value_pairs_spec(after, text, depth, true),
                            |entries| ValueView::Object(entries),
                        )
                    } else {
                        Ok((ValueView::String(text), after))
                    },
                }
            } else {
                Ok((ValueView::String(text), rest))
            },
        }
    } else if s[0] == LOWER_R && s.len() >= 2 && (s[1] == QUOTE || s[1] == HASH) {
        map_value(parse_raw_string_spec(s), |text| ValueView::String(text))
    } else if s[0] == LOWER_B && s.len() >= 2 && s[1] == QUOTE {
        map_value(parse_byte_string_spec(s), |bytes| ValueView::ByteString(bytes))
    } else if s[0] == PIPE {
        Err(ErrorKind::InvalidData)
    } else if is_number_start(s[0]) {
        map_value(parse_number_spec(s), |number| ValueView::Number(number))
    } else {
        match parse_identifier_spec(s) {
            Err(kind) => Err(kind),
            Ok((name, rest)) => if top_level {
                match skip_whitespace_spec(rest) {
                    Err(kind) => Err(kind),
                    Ok(after) => if after.len() > 0 && after[0] == COLON {
                        map_value(
                            parse_key_value_pairs_spec(after, name, depth, true),
                            |entries| ValueView::Object(entries),
                        )
                    } else {
                        keyword_spec(name, after)
                    },
                }
            } else {
                keyword_spec(name, rest)
            },
        }
    }
}

/// The array that `s` begins with, and what follows it.
pub open spec fn parse_array_spec(s: Seq<u8>, depth: nat) -> Result<
    (Seq<ValueView>, Seq<u8>),
    ErrorKind,
>
    decreases depth, 3nat, s.len(),
{
    if s.len() == 0 {
        Err(ErrorKind::UnexpectedEof)
    } else if s[0] != OPEN_BRACKET {
        Err(ErrorKind::InvalidData)
    } else {
        match skip_whitespace_spec(s.skip(1)) {
            Err(kind) => Err(kind),
            Ok(inside) => parse_items_spec(inside, depth, Seq::empty()),
        }
    }
}

/// The items of an array from `s` on, after the items `done`, up to the
/// bracket that closes it. After each item comes a separator or the bracket.
pub open spec fn parse_items_spec(s: Seq<u8>, depth: nat, done: Seq<ValueView>) -> Result<
    (Seq<ValueView>, Seq<u8>),
    ErrorKind,
>
    decreases depth, 1nat, s.len(),
{
    if s.len() == 0 {
        Err(ErrorKind::UnexpectedEof)
    } else if s[0] == CLOSE_BRACKET {
        Ok((done, s.skip(1)))
    } else if depth == 0 {
        Err(ErrorKind::InvalidData)
    } else {
        match parse_value_spec(s, (depth - 1) as nat, false) {
            Err(kind) => Err(kind),
            Ok((item, after_item)) => match parse_sep_spec(after_item) {
                Err(kind) => Err(kind),
                Ok((separated, after_sep)) => match skip_whitespace_spec(after_sep) {
                    Err(kind) => Err(kind),
                    Ok(next) => if next.len() == 0 {
                        Err(ErrorKind::UnexpectedEof)
                    } else if !separated && next[0] != CLOSE_BRACKET {
                        Err(ErrorKind::InvalidData)
                    } else if next.len() < s.len() {
                        parse_items_spec(next, depth, done.push(item))
                    } else {
                        Err(ErrorKind::InvalidData)
                    },
                },
            },
        }
    }
}

/// The object in braces that `s` begins with, and what follows it.
pub open spec fn parse_object_spec(s: Seq<u8>, depth: nat) -> Result<
    (Seq<(Seq<char>, ValueView)>, Seq<u8>),
    ErrorKind,
>
    decreases depth, 3nat, s.len(),
{
    if s.len() == 0 {
        Err(ErrorKind::UnexpectedEof)
    } else if s[0] != OPEN_BRACE {
        Err(ErrorKind::InvalidData)
    } else {
        match skip_whitespace_spec(s.skip(1)) {
            Err(kind) => Err(kind),
            Ok(inside) => if inside.len() > 0 && inside[0] == CLOSE_BRACE {
                Ok((Seq::empty(), inside.skip(1)))
            } else {
                match parse_identifier_spec(inside) {
                    Err(kind) => Err(kind),
                    Ok((key, after_key)) => match skip_whitespace_spec(after_key) {
                        Err(kind) => Err(kind),
                        Ok(at_colon) => parse_key_value_pairs_spec(at_colon, key, depth, false),
                    },
                }
            },
        }
    }
}

/// The entries of an object whose first key has been read: from the colon
/// after that key to the end of the object. Inside braces the object ends
/// with `}`; at the top level it ends with the input.
pub open spec fn parse_key_value_pairs_spec(
    s: Seq<u8>,
    first_key: Seq<char>,
    depth: nat,
    top_level: bool,
) -> Result<(Seq<(Seq<char>, ValueView)>, Seq<u8>), ErrorKind>
    decreases depth, 2nat, s.len(),
{
    if s.len() == 0 {
        Err(ErrorKind::UnexpectedEof)
    } else if s[0] != COLON {
        Err(ErrorKind::InvalidData)
    } else {
        match skip_whitespace_spec(s.skip(1)) {
            Err(kind) => Err(kind),
            Ok(at_value) => if depth == 0 {
                Err(ErrorKind::InvalidData)
            } else {
                match parse_value_spec(at_value, (depth - 1) as nat, false) {
                    Err(kind) => Err(kind),
                    Ok((value, rest)) => parse_more_pairs_spec(
                        rest,
                        depth,
                        top_level,
                        seq![(first_key, value)],
                    ),
                }
            },
        }
    }
}

/// The entries of an object from `s` on, after the entries `done`. A key
/// that comes again takes the place of the entry that had it.
pub open spec fn parse_more_pairs_spec(
    s: Seq<u8>,
    depth: nat,
    top_level: bool,
    done: Seq<(Seq<char>, ValueView)>,
) -> Result<(Seq<(Seq<char>, ValueView)>, Seq<u8>), ErrorKind>
    decreases depth, 1nat, s.len(),
{
    match parse_sep_spec(s) {
        Err(kind) => Err(kind),
        Ok((separated, after_sep)) => match skip_whitespace_spec(after_sep) {
            Err(kind) => Err(kind),
            Ok(next) => if next.len() == 0 {
                if top_level {
                    Ok((done, next))
                } else {
                    Err(ErrorKind::UnexpectedEof)
                }
            } else if next[0] == CLOSE_BRACE {
                if top_level {
                    Err(ErrorKind::InvalidData)
                } else {
                    Ok((done, next.skip(1)))
                }
            } else if !separated {
                Err(ErrorKind::InvalidData)
            } else {
                match parse_key_value_pair_spec(next, depth) {
                    Err(kind) => Err(kind),
                    Ok(((key, value), rest)) => if rest.len() < s.len() {
                        parse_more_pairs_spec(
                            rest,
                            depth,
                            top_level,
                            insert_entry(done, key, value),
                        )
                    } else {
                        Err(ErrorKind::InvalidData)
                    },
                }
            },
        },
    }
}

/// The entry that `s` begins with: a key, a colon, a value, with whitespace
/// allowed around the colon.
pub open spec fn parse_key_value_pair_spec(s: Seq<u8>, depth: nat) -> Result<
    ((Seq<char>, ValueView), Seq<u8>),
    ErrorKind,
>
    decreases depth, 0nat, s.len(),
{
    match parse_identifier_spec(s) {
        Err(kind) => Err(kind),
        Ok((key, after_key)) => match skip_whitespace_spec(after_key) {
            Err(kind) => Err(kind),
            Ok(at_colon) => if at_colon.len() == 0 {
                Err(ErrorKind::UnexpectedEof)
            } else if at_colon[0] != COLON {
                Err(ErrorKind::InvalidData)
            } else {
                match skip_whitespace_spec(at_colon.skip(1)) {
                    Err(kind) => Err(kind),
                    Ok(at_value) => if depth == 0 {
                        Err(ErrorKind::InvalidData)
                    } else {
                        match parse_value_spec(at_value, (depth - 1) as nat, false) {
                            Err(kind) => Err(kind),
                            Ok((value, rest)) => Ok(((key, value), rest)),
                        }
                    },
                }
            },
        }
    }
}

/// Reads a key: a string between quotes, read as any other string, or a
/// word without quotes.
pub fn parse_identifier(reader: &mut PeekReader) -> (r: Result<String, Error>)
    ensures
        read_as_view(r, final(reader).remaining(), parse_identifier_spec(old(reader).remaining())),
        r is Ok ==> final(reader).remaining().len() < old(reader).remaining().len(),
{
    let ghost start = reader.remaining();
    let first: u8 = match reader.peek()? {
        Some(byte) => byte,
        None => {
            return Err(Error::unexpected_eof("Got EOF when parsing key"));
        },
    };
    if first == QUOTE {
        return parse_string(reader);
    }
    reader.consume(1);
    if !(alphabetic(first) || first == UNDERSCORE) {
        return Err(Error::invalid_byte("key identifier starts with invalid char", first));
    }
    let mut key: Vec<u8> = Vec::new();
    key.push(first);
    let ghost mut k: int = 1;
    proof {
        assert(key@ =~= start.take(1));
    }
    loop
        invariant
            start == old(reader).remaining(),
            1 <= k <= start.len(),
            reader.remaining() == start.skip(k),
            key@ == start.take(k),
            forall|i: int| 0 <= i < key@.len() ==> #[trigger] key@[i] < 128,
            k + identifier_len(start.skip(k)) == 1 + identifier_len(start.skip(1)),
        ensures
            identifier_len(start.skip(k)) == 0,
        decreases start.len() - k,
    {
        let next: Option<u8> = reader.peek()?;
        let byte: u8 = match next {
            Some(byte) => byte,
            None => {
                break ;
            },
        };
        if !(alphanumeric(byte) || byte == UNDERSCORE || byte == MINUS) {
            break ;
        }
        reader.consume(1);
        key.push(byte);
        proof {
            assert(start.skip(k).skip(1) =~= start.skip(k + 1));
            assert(start.take(k).push(byte) =~= start.take(k + 1));
            k = k + 1;
        }
    }
    proof {
        lemma_ascii_is_utf8(key@);
    }
    text_from(key)
}

/// Reads whitespace and says whether a colon stands after it.
pub fn colon_follows(reader: &mut PeekReader) -> (r: Result<bool, Error>)
    ensures
        match skip_whitespace_spec(old(reader).remaining()) {
            Ok(after) => final(reader).remaining() == after && r == Ok::<bool, Error>(
                after.len() > 0 && after[0] == COLON,
            ),
            Err(kind) => r matches Err(e) && e.kind == kind,
        },
        r is Ok ==> final(reader).remaining().len() <= old(reader).remaining().len(),
{
    proof {
        lemma_skip_whitespace_len(reader.remaining());
    }
    skip_whitespace(reader)?;
    let next: Option<u8> = reader.peek()?;
    match next {
        Some(byte) => Ok(byte == COLON),
        None => Ok(false),
    }
}

/// Whether `r` and the bytes `left` in the reader are what `expected` asks for,
/// for a result that is a list of values.
pub open spec fn read_items_as(
    r: Result<Vec<Value>, Error>,
    left: Seq<u8>,
    expected: Result<(Seq<ValueView>, Seq<u8>), ErrorKind>,
) -> bool {
    match expected {
        Ok((items, rest)) => r matches Ok(v) && view_all(v@) == items && left == rest,
        Err(kind) => r matches Err(e) && e.kind == kind,
    }
}

/// Whether `r` and the bytes `left` in the reader are what `expected` asks for,
/// for a result that is a key with its value.
pub open spec fn read_pair_as(
    r: Result<(String, Value), Error>,
    left: Seq<u8>,
    expected: Result<((Seq<char>, ValueView), Seq<u8>), ErrorKind>,
) -> bool {
    match expected {
        Ok((pair, rest)) => r matches Ok(p) && p.0@ == pair.0 && p.1@ == pair.1 && left == rest,
        Err(kind) => r matches Err(e) && e.kind == kind,
    }
}

/// The value that the word `name` stands for.
pub fn keyword(name: &str) -> (r: Result<Value, Error>)
    ensures
        forall|rest: Seq<u8>| #[trigger] read_as_view(r, rest, keyword_spec(name@, rest)),
{
    if same_text(name, "true") {
        Ok(Value::Bool(true))
    } else if same_text(name, "false") {
        Ok(Value::Bool(false))
    } else if same_text(name, "null") {
        Ok(Value::Null)
    } else {
        Err(Error::invalid_data("malformed value"))
    }
}

/// Reads a value, with `depth` levels of nesting left. With none left it
/// fails before it reads anything.
#[verifier::rlimit(30)]
pub fn parse_value(reader: &mut PeekReader, depth: u8, top_level: bool) -> (r: Result<
    Value,
    Error,
>)
    ensures
        read_as_view(
            r,
            final(reader).remaining(),
            parse_value_spec(old(reader).remaining(), depth as nat, top_level),
        ),
        r is Ok ==> final(reader).remaining().len() < old(reader).remaining().len(),
        depth == 0 ==> final(reader).remaining() == old(reader).remaining(),
        depth == 0 ==> (r matches Err(e) && e.message@ == "max depth exceeded"@ && e.byte is None),
        old(reader).remaining().len() == 0 ==> final(reader).remaining().len() == 0,
    decreases depth, 4nat,
{
    if depth == 0 {
        return Err(Error::invalid_data("max depth exceeded"));
    }
    let first_byte: u8 = match reader.peek()? {
        Some(byte) => byte,
        None => {
            return Err(Error::unexpected_eof("Got EOF when parsing value"));
        },
    };
    if first_byte == OPEN_BRACE {
        let object: Object = parse_object(reader, depth)?;
        return Ok(Value::Object(object));
    }
    if first_byte == OPEN_BRACKET {
        let items: Vec<Value> = parse_array(reader, depth)?;
        return Ok(Value::Array(items));
    }
    if first_byte == QUOTE {
        let text: String = parse_string(reader)?;
        if top_level && colon_follows(reader)? {
            let object: Object = parse_key_value_pairs_after_key(reader, text, depth, true)?;
            return Ok(Value::Object(object));
        }
        return Ok(Value::String(text));
    }
    if first_byte == LOWER_R || first_byte == LOWER_B {
        if let Some(pair) = reader.peek2()? {
            if first_byte == LOWER_R && (pair[1] == QUOTE || pair[1] == HASH) {
                let text: String = parse_raw_string(reader)?;
                return Ok(Value::String(text));
            }
            if first_byte == LOWER_B && pair[1] == QUOTE {
                let bytes: Vec<u8> = parse_byte_string(reader)?;
                return Ok(Value::ByteString(bytes));
            }
        }
    }
    if first_byte == PIPE {
        let text: String = parse_multi_line_string(reader)?;
        return Ok(Value::String(text));
    }
    if digit(first_byte) || first_byte == PLUS || first_byte == MINUS || first_byte == DOT {
        let ghost before = reader.remaining();
        let number = parse_number(reader)?;
        proof {
            lemma_number_progress(before);
        }
        return Ok(Value::Number(number));
    }
    let identifier: String = parse_identifier(reader)?;
    if top_level && colon_follows(reader)? {
        let object: Object = parse_key_value_pairs_after_key(reader, identifier, depth, true)?;
        return Ok(Value::Object(object));
    }
    keyword(identifier.as_str())
}

/// Reads an array: `[`, items with separators between them, `]`.
#[verifier::rlimit(30)]
pub fn parse_array(reader: &mut PeekReader, depth: u8) -> (r: Result<Vec<Value>, Error>)
    ensures
        read_items_as(
            r,
            final(reader).remaining(),
            parse_array_spec(old(reader).remaining(), depth as nat),
        ),
        r is Ok ==> final(reader).remaining().len() < old(reader).remaining().len(),
    decreases depth, 3nat,
{
    let ghost start = reader.remaining();
    match reader.read_byte()? {
        Some(byte) => {
            if byte != OPEN_BRACKET {
                return Err(Error::invalid_byte("array did not start with '['", byte));
            }
        },
        None => {
            return Err(Error::unexpected_eof("got EOF while parsing array"));
        },
    }
    proof {
        lemma_skip_whitespace_len(reader.remaining());
    }
    skip_whitespace(reader)?;
    let mut array: Vec<Value> = Vec::new();
    assert(view_all(array@) =~= Seq::<ValueView>::empty());
    loop
        invariant
            start == old(reader).remaining(),
            reader.remaining().len() < start.len(),
            parse_array_spec(start, depth as nat) == parse_items_spec(
                reader.remaining(),
                depth as nat,
                view_all(array@),
            ),
        decreases reader.remaining().len(),
    {
        let ghost here = reader.remaining();
        let next_byte: u8 = match reader.peek()? {
            Some(byte) => byte,
            None => {
                return Err(Error::unexpected_eof("got EOF while parsing array"));
            },
        };
        if next_byte == CLOSE_BRACKET {
            reader.consume(1);
            return Ok(array);
        }
        if depth == 0 {
            return Err(Error::invalid_data("max depth exceeded"));
        }
        let item: Value = parse_value(reader, depth - 1, false)?;
        proof {
            lemma_parse_sep_len(reader.remaining());
        }
        let valid_sep: bool = parse_sep(reader)?;
        proof {
            lemma_skip_whitespace_len(reader.remaining());
        }
        skip_whitespace(reader)?;
        let after: u8 = match reader.peek()? {
            Some(byte) => byte,
            None => {
                return Err(Error::unexpected_eof("got EOF while parsing array"));
            },
        };
        if !valid_sep && after != CLOSE_BRACKET {
            return Err(Error::invalid_byte("invalid separator", after));
        }
        proof {
            assert(view_all(array@.push(item)) =~= view_all(array@).push(item@));
        }
        array.push(item);
    }
}

/// Reads an object: `{`, entries with separators between them, `}`.
#[verifier::rlimit(30)]
pub fn parse_object(reader: &mut PeekReader, depth: u8) -> (r: Result<Object, Error>)
    ensures
        read_as_view(
            r,
            final(reader).remaining(),
            parse_object_spec(old(reader).remaining(), depth as nat),
        ),
        r is Ok ==> final(reader).remaining().len() < old(reader).remaining().len(),
    decreases depth, 3nat,
{
    match reader.read_byte()? {
        Some(byte) => {
            if byte != OPEN_BRACE {
                return Err(Error::invalid_byte("object does not start with '{'", byte));
            }
        },
        None => {
            return Err(Error::unexpected_eof("got EOF while parsing object"));
        },
    }
    proof {
        lemma_skip_whitespace_len(reader.remaining());
    }
    skip_whitespace(reader)?;
    if let Some(byte) = reader.peek()? {
        if byte == CLOSE_BRACE {
            reader.consume(1);
            return Ok(Object::new());
        }
    }
    let first_key: String = parse_identifier(reader)?;
    proof {
        lemma_skip_whitespace_len(reader.remaining());
    }
    skip_whitespace(reader)?;
    parse_key_value_pairs_after_key(reader, first_key, depth, false)
}

/// Reads the entries of an object whose first key has been read, from the
/// colon after that key on.
#[verifier::rlimit(30)]
pub fn parse_key_value_pairs_after_key(
    reader: &mut PeekReader,
    first_key: String,
    depth: u8,
    top_level: bool,
) -> (r: Result<Object, Error>)
    ensures
        read_as_view(
            r,
            final(reader).remaining(),
            parse_key_value_pairs_spec(
                old(reader).remaining(),
                first_key@,
                depth as nat,
                top_level,
            ),
        ),
        r is Ok ==> final(reader).remaining().len() < old(reader).remaining().len(),
    decreases depth, 2nat,
{
    let ghost start = reader.remaining();
    match reader.read_byte()? {
        Some(byte) => {
            if byte != COLON {
                return Err(Error::invalid_byte("expected ':' after key", byte));
            }
        },
        None => {
            return Err(Error::unexpected_eof("got EOF while parsing object"));
        },
    }
    proof {
        lemma_skip_whitespace_len(reader.remaining());
    }
    skip_whitespace(reader)?;
    if depth == 0 {
        return Err(Error::invalid_data("max depth exceeded"));
    }
    let first_value: Value = parse_value(reader, depth - 1, false)?;
    let mut object: Object = Object::new();
    let ghost first_pair = (first_key@, first_value@);
    object.insert(first_key, first_value);
    assert(object@ =~= seq![first_pair]);
    loop
        invariant
            start == old(reader).remaining(),
            depth > 0,
            first_pair.0 == first_key@,
            reader.remaining().len() < start.len(),
            parse_key_value_pairs_spec(start, first_pair.0, depth as nat, top_level)
                == parse_more_pairs_spec(reader.remaining(), depth as nat, top_level, object@),
        decreases reader.remaining().len(),
    {
        proof {
            lemma_parse_sep_len(reader.remaining());
        }
        let valid_sep: bool = parse_sep(reader)?;
        proof {
            lemma_skip_whitespace_len(reader.remaining());
        }
        skip_whitespace(reader)?;
        let next_byte: u8 = match reader.peek()? {
            Some(byte) => byte,
            None => {
                if top_level {
                    return Ok(object);
                } else {
                    return Err(Error::unexpected_eof("got EOF while parsing object"));
                }
            },
        };
        if next_byte == CLOSE_BRACE {
            if top_level {
                return Err(Error::invalid_data("got closing brace without an opening brace"));
            }
            reader.consume(1);
            return Ok(object);
        }
        if !valid_sep {
            return Err(Error::invalid_byte("invalid separator", next_byte));
        }
        let pair: (String, Value) = parse_key_value_pair(reader, depth)?;
        object.insert(pair.0, pair.1);
    }
}

/// Reads an entry: a key, a colon, a value.
#[verifier::rlimit(30)]
pub fn parse_key_value_pair(reader: &mut PeekReader, depth: u8) -> (r: Result<
    (String, Value),
    Error,
>)
    ensures
        read_pair_as(
            r,
            final(reader).remaining(),
            parse_key_value_pair_spec(old(reader).remaining(), depth as nat),
        ),
        r is Ok ==> final(reader).remaining().len() < old(reader).remaining().len(),
    decreases depth, 0nat,
{
    let key: String = parse_identifier(reader)?;
    proof {
        lemma_skip_whitespace_len(reader.remaining());
    }
    skip_whitespace(reader)?;
    match reader.read_byte()? {
        Some(byte) => {
            if byte != COLON {
                return Err(Error::invalid_byte("got unexpected byte after key", byte));
            }
        },
        None => {
            return Err(Error::unexpected_eof("Got EOF when parsing key-value pair"));
        },
    }
    proof {
        lemma_skip_whitespace_len(reader.remaining());
    }
    skip_whitespace(reader)?;
    if depth == 0 {
        return Err(Error::invalid_data("max depth exceeded"));
    }
    let value: Value = parse_value(reader, depth - 1, false)?;
    Ok((key, value))
}

} // verus!
