use mason_rs::deserialize::value::{
    parse_array, parse_identifier, parse_key_value_pair, parse_key_value_pairs_after_key,
    parse_object, parse_value,
};
use mason_rs::deserialize::{from_slice, from_str, parse_document};
use mason_rs::error::ErrorKind;
use mason_rs::number::Number;
use mason_rs::peek_reader::PeekReader;
use mason_rs::value::{Object, Value};

fn num(x: f64) -> Value {
    let text = format!("{}", x.abs());
    Value::Number(Number::new(x.is_sign_negative(), text.into_bytes()).unwrap())
}

fn object(entries: Vec<(&str, Value)>) -> Object {
    let mut object = Object::new();
    for (key, value) in entries {
        object.insert(key.to_owned(), value);
    }
    object
}

fn kind_of(data: &str) -> ErrorKind {
    from_str(data).unwrap_err().kind()
}

#[test]
fn array_test_parse_array() {
    let data = "[]";
    let mut reader = PeekReader::new(data.as_bytes());
    assert_eq!(parse_array(&mut reader, 100).unwrap(), vec![]);

    let data = "[1, 6, false, null]";
    let mut reader = PeekReader::new(data.as_bytes());
    assert_eq!(
        parse_array(&mut reader, 100).unwrap(),
        vec![num(1.0), num(6.0), Value::Bool(false), Value::Null]
    );

    let data = "\
        [1 // so true
        6 /* hi :)*/ , \t  false  ,   
        null
        \t\r\n
        ]";
    let mut reader = PeekReader::new(data.as_bytes());
    assert_eq!(
        parse_array(&mut reader, 100).unwrap(),
        vec![num(1.0), num(6.0), Value::Bool(false), Value::Null]
    );
}

#[test]
fn object_test_parse_array() {
    let data = "{}";
    let mut reader = PeekReader::new(data.as_bytes());
    assert_eq!(parse_object(&mut reader, 100).unwrap(), Object::new());

    let map: Object = object(vec![
        ("key1", num(1.0)),
        (" a fancy! key \n", num(6.0)),
        ("ğŸ³ï¸â€âš§ï¸", Value::Bool(true)),
        ("key4", Value::Null),
    ]);

    let data = "{key1: 1, \" a fancy! key \n\": 6, \"ğŸ³ï¸â€âš§ï¸\": true, key4: null}";
    let mut reader = PeekReader::new(data.as_bytes());
    assert_eq!(parse_object(&mut reader, 100).unwrap(), map);

    let data = "\
        {/* hey :)*/ key1:   \t 1 // so true
        \t \" a fancy! key \n\"  : /*
        so
        here is a comment */ 6 /* hi :)*/ , \t \"ğŸ³ï¸â€âš§ï¸\" \t  : true  ,   
        key4: null
        \t\r\n
        }";
    let mut reader = PeekReader::new(data.as_bytes());
    assert_eq!(parse_object(&mut reader, 100).unwrap(), map);
}

#[test]
fn test_parse_value() {
    let data = "1";
    let mut reader = PeekReader::new(data.as_bytes());
    assert_eq!(parse_value(&mut reader, 100, true).unwrap(), num(1.0));

    let data = "false";
    let mut reader = PeekReader::new(data.as_bytes());
    assert_eq!(
        parse_value(&mut reader, 100, true).unwrap(),
        Value::Bool(false)
    );

    let data = "false: false";
    let mut reader = PeekReader::new(data.as_bytes());
    assert_eq!(
        parse_value(&mut reader, 100, true).unwrap(),
        Value::Object(object(vec![("false", Value::Bool(false))]))
    );
}

#[test]
fn literal_documents() {
    assert_eq!(from_str("[]").unwrap(), Value::Array(vec![]));
    assert_eq!(
        from_str("[1, 6, false, null]").unwrap(),
        Value::Array(vec![num(1.0), num(6.0), Value::Bool(false), Value::Null])
    );
    assert_eq!(from_str("{}").unwrap(), Value::Object(Object::new()));
    assert_eq!(
        from_str("{key1: 1, \" a fancy! key \\n\": 6}").unwrap(),
        Value::Object(object(vec![("key1", num(1.0)), (" a fancy! key \n", num(6.0))]))
    );
    assert_eq!(
        from_str("{key1: 1, \" a fancy! key \n\": 6}").unwrap(),
        Value::Object(object(vec![("key1", num(1.0)), (" a fancy! key \n", num(6.0))]))
    );
    assert_eq!(
        from_str("\"\\uD83D\\uDE43\"").unwrap(),
        Value::String("\u{1F643}".to_owned())
    );
    assert_eq!(
        from_str("fingerprint: \"x\"\nlocation: \"y\"").unwrap(),
        Value::Object(object(vec![
            ("fingerprint", Value::String("x".to_owned())),
            ("location", Value::String("y".to_owned())),
        ]))
    );
    assert_eq!(kind_of("06.'1245"), ErrorKind::InvalidData);
    assert_eq!(from_str("0xff").unwrap(), num(255.0));
    assert_eq!(from_str("0o712").unwrap(), num(458.0));
    assert_eq!(from_str("0b1100").unwrap(), num(12.0));
    assert_eq!(from_str("0").unwrap(), num(0.0));
}

#[test]
fn depth_guard() {
    let nested = |levels: usize| "[".repeat(levels) + &"]".repeat(levels);
    let mut expected = Value::Array(vec![]);
    for _ in 1..100 {
        expected = Value::Array(vec![expected]);
    }
    assert_eq!(from_str(&nested(100)).unwrap(), expected);
    assert_eq!(kind_of(&nested(101)), ErrorKind::InvalidData);
    assert_eq!(kind_of(&nested(255)), ErrorKind::InvalidData);

    let objects = |levels: usize| "{a:".repeat(levels) + "1" + &"}".repeat(levels);
    assert!(from_str(&objects(99)).is_ok());
    assert_eq!(kind_of(&objects(100)), ErrorKind::InvalidData);

    let mut reader = PeekReader::new(b"1");
    assert_eq!(parse_value(&mut reader, 0, true).unwrap_err().kind(), ErrorKind::InvalidData);
    let mut reader = PeekReader::new(b"[]");
    assert_eq!(parse_array(&mut reader, 0).unwrap(), vec![]);
    let mut reader = PeekReader::new(b"[1]");
    assert_eq!(parse_array(&mut reader, 0).unwrap_err().kind(), ErrorKind::InvalidData);
    let mut reader = PeekReader::new(b"{a: 1}");
    assert_eq!(parse_object(&mut reader, 0).unwrap_err().kind(), ErrorKind::InvalidData);
    let mut reader = PeekReader::new(b"[1]");
    assert_eq!(parse_array(&mut reader, 1).unwrap_err().kind(), ErrorKind::InvalidData);
    let mut reader = PeekReader::new(b"[1]");
    assert_eq!(parse_array(&mut reader, 2).unwrap(), vec![num(1.0)]);
}

#[test]
fn whitespace_comments_and_separators_do_not_change_the_value() {
    let plain = from_str("{a: [1, 2, {b: null}], c: \"d\", e: true}").unwrap();
    for data in [
        "{a:[1,2,{b:null}],c:\"d\",e:true}",
        "{\n  a: [1\n 2\r\n {b: null}]\n  c: \"d\"\r\n  e: true\n}",
        "{a: [1 // one\n 2 /* two */ , {b: null // nothing\n}] // list\n c: \"d\" /* d */ , e: true}",
        " /* head */ { /* in */ a /* k */ : /* v */ [ 1 , 2 , { b : null } , ] , c : \"d\" , e : true , } // tail",
        "a: [1, 2, {b: null}], c: \"d\", e: true",
        "a: [1, 2, {b: null}]\nc: \"d\"\ne: true\n",
        "\"a\": [1, 2, {\"b\": null}]\r\n\"c\": \"d\"\r\n\"e\": true",
        "// first\na: [1, 2, {b: null}] // second\nc: \"d\" // third\ne: true // last",
        "a:[1,2,{b:null}],c:\"d\",e:true,",
    ] {
        assert_eq!(from_str(data).unwrap(), plain, "{data}");
        assert_eq!(from_slice(data.as_bytes()).unwrap(), plain, "{data}");
    }
}

#[test]
fn last_value_of_a_key_wins_and_keeps_its_place() {
    let value = from_str("{a: 1, b: 2, a: 3}").unwrap();
    assert_eq!(value, Value::Object(object(vec![("a", num(3.0)), ("b", num(2.0))])));
    let value = from_str("a: 1\nb: 2\na: 3").unwrap();
    let entries = value.as_object().unwrap();
    assert_eq!(entries.len(), 2);
    assert_eq!(entries.key_at(0), "a");
    assert_eq!(*entries.value_at(0), num(3.0));
    assert_eq!(entries.key_at(1), "b");
}

#[test]
fn value_errors_have_their_kinds() {
    assert_eq!(kind_of(""), ErrorKind::UnexpectedEof);
    assert_eq!(kind_of("   // only a comment"), ErrorKind::UnexpectedEof);
    assert_eq!(kind_of("["), ErrorKind::UnexpectedEof);
    assert_eq!(kind_of("[1"), ErrorKind::UnexpectedEof);
    assert_eq!(kind_of("[1,"), ErrorKind::UnexpectedEof);
    assert_eq!(kind_of("{"), ErrorKind::UnexpectedEof);
    assert_eq!(kind_of("{a"), ErrorKind::UnexpectedEof);
    assert_eq!(kind_of("{a:"), ErrorKind::UnexpectedEof);
    assert_eq!(kind_of("{a: 1"), ErrorKind::UnexpectedEof);
    assert_eq!(kind_of("{a: 1,"), ErrorKind::UnexpectedEof);
    assert_eq!(kind_of("\"open"), ErrorKind::UnexpectedEof);
    assert_eq!(kind_of("/* open"), ErrorKind::UnexpectedEof);
    assert_eq!(kind_of("a:"), ErrorKind::UnexpectedEof);
    assert_eq!(kind_of("a: 1\nb"), ErrorKind::UnexpectedEof);

    assert_eq!(kind_of("[1 2]"), ErrorKind::InvalidData);
    assert_eq!(kind_of("{a: 1 b: 2}"), ErrorKind::InvalidData);
    assert_eq!(kind_of("a: 1 b: 2"), ErrorKind::InvalidData);
    assert_eq!(kind_of("[1] 2"), ErrorKind::InvalidData);
    assert_eq!(kind_of("true false"), ErrorKind::InvalidData);
    assert_eq!(kind_of("maybe"), ErrorKind::InvalidData);
    assert_eq!(kind_of("[maybe]"), ErrorKind::InvalidData);
    assert_eq!(kind_of("[a: 1]"), ErrorKind::InvalidData);
    assert_eq!(kind_of("]"), ErrorKind::InvalidData);
    assert_eq!(kind_of("}"), ErrorKind::InvalidData);
    assert_eq!(kind_of("a: 1}"), ErrorKind::InvalidData);
    assert_eq!(kind_of("a: 1\n}"), ErrorKind::InvalidData);
    assert_eq!(kind_of("{a 1}"), ErrorKind::InvalidData);
    assert_eq!(kind_of("{1: 1}"), ErrorKind::InvalidData);
    assert_eq!(kind_of("| text"), ErrorKind::InvalidData);
    assert_eq!(kind_of("[| text\n]"), ErrorKind::InvalidData);
    assert_eq!(kind_of("\"\\q\""), ErrorKind::InvalidData);
    assert_eq!(kind_of("b\"\u{e9}\""), ErrorKind::InvalidData);
}

#[test]
fn first_key_of_a_root_object() {
    assert_eq!(
        from_str("\"a\\tb\" : 1").unwrap(),
        Value::Object(object(vec![("a\tb", num(1.0))]))
    );
    assert_eq!(
        from_str("true: 1\nnull: 2").unwrap(),
        Value::Object(object(vec![("true", num(1.0)), ("null", num(2.0))]))
    );
    assert_eq!(
        from_str("r: r\"x\"\nb: b\"y\"\nr2: r#\"z\"#").unwrap(),
        Value::Object(object(vec![
            ("r", Value::String("x".to_owned())),
            ("b", Value::ByteString(b"y".to_vec())),
            ("r2", Value::String("z".to_owned())),
        ]))
    );
    assert_eq!(from_str("\"just text\"  ").unwrap(), Value::String("just text".to_owned()));
    assert_eq!(from_str(" null ").unwrap(), Value::Null);
    // inside braces the first key may have whitespace before its colon
    assert_eq!(
        from_str("{a /* c */ : 1}").unwrap(),
        Value::Object(object(vec![("a", num(1.0))]))
    );
    // a key between quotes is a string as any other, wherever it stands
    assert_eq!(
        from_str("{\"a\\tb\": 1}").unwrap(),
        Value::Object(object(vec![("a\tb", num(1.0))]))
    );
    assert_eq!(
        from_str("{x: 1, \"\\u0041\\\"\\\\z\": 2}").unwrap(),
        Value::Object(object(vec![("x", num(1.0)), ("A\"\\z", num(2.0))]))
    );
    assert_eq!(
        from_str("x: 1\n\"a\\nb\": 2").unwrap(),
        Value::Object(object(vec![("x", num(1.0)), ("a\nb", num(2.0))]))
    );
    assert_eq!(from_str("{\"a\\qb\": 1}").unwrap_err().kind(), ErrorKind::InvalidData);
}

#[test]
fn with_no_level_left_nothing_is_read() {
    let mut reader = PeekReader::new(b"[1]");
    let error = parse_value(&mut reader, 0, false).unwrap_err();
    assert_eq!(error.kind(), ErrorKind::InvalidData);
    assert_eq!(error.message(), "max depth exceeded");
    assert_eq!(error.offending_byte(), None);
    assert_eq!(reader.read_byte().unwrap(), Some(b'['));
    let error = from_str(&("[".repeat(101) + &"]".repeat(101))).unwrap_err();
    assert_eq!(error.message(), "max depth exceeded");
}

#[test]
fn identifiers() {
    let mut reader = PeekReader::new(b"some-key_2: 1");
    assert_eq!(parse_identifier(&mut reader).unwrap(), "some-key_2");
    assert_eq!(reader.read_byte().unwrap(), Some(b':'));
    let mut reader = PeekReader::new(b"_x");
    assert_eq!(parse_identifier(&mut reader).unwrap(), "_x");
    let mut reader = PeekReader::new(b"\"quoted key\" rest");
    assert_eq!(parse_identifier(&mut reader).unwrap(), "quoted key");
    assert_eq!(reader.read_byte().unwrap(), Some(b' '));
    let mut reader = PeekReader::new(b"\"a\\tb\\\"c\\u00e9\":");
    assert_eq!(parse_identifier(&mut reader).unwrap(), "a\tb\"c\u{e9}");
    assert_eq!(reader.read_byte().unwrap(), Some(b':'));
    let mut reader = PeekReader::new(b"\"a\\qb\":");
    assert_eq!(parse_identifier(&mut reader).unwrap_err().kind(), ErrorKind::InvalidData);
    let mut reader = PeekReader::new(b"");
    assert_eq!(parse_identifier(&mut reader).unwrap_err().kind(), ErrorKind::UnexpectedEof);
    let mut reader = PeekReader::new(b"-x");
    assert_eq!(parse_identifier(&mut reader).unwrap_err().kind(), ErrorKind::InvalidData);
    let mut reader = PeekReader::new(b"9x");
    assert_eq!(parse_identifier(&mut reader).unwrap_err().kind(), ErrorKind::InvalidData);
    let mut reader = PeekReader::new(b"\"\xff\"");
    assert_eq!(parse_identifier(&mut reader).unwrap_err().kind(), ErrorKind::InvalidData);
    let mut reader = PeekReader::new(b"\"open");
    assert_eq!(parse_identifier(&mut reader).unwrap_err().kind(), ErrorKind::UnexpectedEof);
}

#[test]
fn pairs_one_by_one() {
    let mut reader = PeekReader::new(b"key /* c */ : [1]rest");
    let (key, value) = parse_key_value_pair(&mut reader, 3).unwrap();
    assert_eq!(key, "key");
    assert_eq!(value, Value::Array(vec![num(1.0)]));
    assert_eq!(reader.read_byte().unwrap(), Some(b'r'));

    let mut reader = PeekReader::new(b": 1, b: 2 } tail");
    let entries =
        parse_key_value_pairs_after_key(&mut reader, "a".to_owned(), 3, false).unwrap();
    assert_eq!(entries, object(vec![("a", num(1.0)), ("b", num(2.0))]));
    assert_eq!(reader.read_byte().unwrap(), Some(b' '));

    let mut reader = PeekReader::new(b"x");
    let err = parse_key_value_pairs_after_key(&mut reader, "a".to_owned(), 3, true).unwrap_err();
    assert_eq!(err.kind(), ErrorKind::InvalidData);
}

#[test]
fn documents_through_a_reader() {
    let mut reader = PeekReader::with_capacity(1, b" r#\"a\"# ");
    assert_eq!(parse_document(&mut reader).unwrap(), Value::String("a".to_owned()));
    let mut reader = PeekReader::with_capacity(2, b"b: b\"\\x00\"");
    assert_eq!(
        parse_document(&mut reader).unwrap(),
        Value::Object(object(vec![("b", Value::ByteString(vec![0]))]))
    );
    assert_eq!(from_slice(b"\xff").unwrap_err().kind(), ErrorKind::InvalidData);
}
