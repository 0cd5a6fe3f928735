use mason_rs::error::ErrorKind;
use mason_rs::index::Index;
use mason_rs::number::Number;
use mason_rs::serialize::{
    bare_key, push_all, repeated, serialize_bytes, serialize_key, serialize_string,
    write_indented_value,
};
use mason_rs::value::{clone_value, objects_equal, same_text, values_equal, Object, Value};
use mason_rs::{from_slice, from_str, to_bytes, to_string, to_writer};

fn num(text: &str) -> Value {
    match text.strip_prefix('-') {
        Some(rest) => Value::Number(Number::new(true, rest.as_bytes().to_vec()).unwrap()),
        None => Value::Number(Number::new(false, text.as_bytes().to_vec()).unwrap()),
    }
}

fn text(s: &str) -> Value {
    Value::String(s.to_owned())
}

fn object(entries: Vec<(&str, Value)>) -> Value {
    let mut object = Object::new();
    for (key, value) in entries {
        object.insert(key.to_owned(), value);
    }
    Value::Object(object)
}

fn written(value: &Value, indentation: &str, level: usize) -> String {
    let mut out = Vec::new();
    write_indented_value(value, &mut out, indentation, level);
    String::from_utf8(out).unwrap()
}

#[test]
fn test_to_string() {
    let string = r#"vec: [1, true, false, null]"#;
    assert_eq!(Value::from_str(string).unwrap().to_string(), string);

    let string = r#""nice bytes :)": b"This \b \x0e\t is \x7f bytes!""#;
    assert_eq!(
        Value::from_str(string).unwrap().to_string(),
        r#""nice bytes :)": b"This\x20\b\x20\x0e\t\x20is\x20\x7f\x20bytes!""#
    );
    assert_eq!(
        Value::from_str(&Value::from_str(string).unwrap().to_string()).unwrap(),
        Value::from_str(string).unwrap()
    );

    let value = Value::from_str(
        r#"{
    thing: [1, true, false, null]
    thang: {
        a: "hey",
        "a difficult key ðŸ˜®": "hoy"
    }
    _other: {a: {b: {c: {d: 3.1415}, o: false}, o: true}, o: null},
    some-bytes_: b"This \b \x0e\t is \x7F bytes!"
}"#,
    )
    .unwrap();
    let same_value = Value::from_str(&value.to_string()).unwrap();
    assert_eq!(value, same_value);
}

#[test]
fn scalars_as_they_are_written() {
    assert_eq!(to_string(&Value::Null), "null");
    assert_eq!(to_string(&Value::Bool(true)), "true");
    assert_eq!(to_string(&Value::Bool(false)), "false");
    assert_eq!(to_string(&num("1.50")), "1.50");
    assert_eq!(to_string(&num("-0")), "-0");
    assert_eq!(to_string(&text("plain")), "\"plain\"");
    assert_eq!(to_string(&text("")), "\"\"");
    assert_eq!(to_string(&Value::ByteString(vec![])), "b\"\"");
    assert_eq!(to_bytes(&Value::Null), b"null");
}

#[test]
fn strings_escape_quotes_and_backslashes_only() {
    assert_eq!(to_string(&text("a\"b\\c")), r#""a\"b\\c""#);
    assert_eq!(to_string(&text("line\nbreak\ttab\u{8}")), "\"line\nbreak\ttab\u{8}\"");
    assert_eq!(to_string(&text("\u{e9}\u{1F643}")), "\"\u{e9}\u{1F643}\"");
    let mut out = b"x".to_vec();
    serialize_string(&mut out, "\\\"");
    assert_eq!(out, br#"x"\\\"""#);
}

#[test]
fn byte_strings_escape_what_does_not_print() {
    let mut out = Vec::new();
    serialize_bytes(&mut out, &[b' ', b'!', b'~', 0x7f, 0x1f, 0, 0xff, 9, 13, 10, 8, 12, b'a']);
    assert_eq!(out, br#"b"\x20!~\x7f\x1f\x00\xff\t\r\n\b\fa""#);
    // quotes and backslashes are printable and stay as they are
    let mut out = Vec::new();
    serialize_bytes(&mut out, b"a\"b\\c");
    assert_eq!(out, b"b\"a\"b\\c\"");
}

#[test]
fn keys_as_they_are_written() {
    for (key, expected) in [
        ("key", "key"),
        ("_k-9", "_k-9"),
        ("Key_", "Key_"),
        ("", "\"\""),
        ("9k", "\"9k\""),
        ("-k", "\"-k\""),
        ("two words", "\"two words\""),
        ("k\u{e9}", "\"k\u{e9}\""),
        ("a\"b", "\"a\\\"b\""),
        ("a.b", "\"a.b\""),
    ] {
        let mut out = Vec::new();
        serialize_key(&mut out, key);
        assert_eq!(String::from_utf8(out).unwrap(), expected, "{key:?}");
        assert_eq!(bare_key(key.as_bytes()), key == expected, "{key:?}");
    }
}

#[test]
fn arrays_stand_on_one_line() {
    assert_eq!(to_string(&Value::Array(vec![])), "[]");
    assert_eq!(to_string(&Value::Array(vec![num("1")])), "[1]");
    assert_eq!(
        to_string(&Value::Array(vec![num("1"), Value::Bool(true), Value::Null, text("x")])),
        "[1, true, null, \"x\"]"
    );
    assert_eq!(
        to_string(&Value::Array(vec![Value::Array(vec![]), Value::Array(vec![num("2")])])),
        "[[], [2]]"
    );
}

#[test]
fn objects_at_the_root_have_no_braces() {
    assert_eq!(to_string(&object(vec![])), "");
    assert_eq!(to_string(&object(vec![("a", num("1"))])), "a: 1");
    assert_eq!(
        to_string(&object(vec![("a", num("1")), ("b c", text("d")), ("e", Value::Null)])),
        "a: 1\n\"b c\": \"d\"\ne: null"
    );
}

#[test]
fn nested_objects_open_with_two_line_breaks() {
    let value = object(vec![
        ("outer", object(vec![("x", num("1")), ("inner", object(vec![("y", num("2"))]))])),
        ("empty", object(vec![])),
        ("last", Value::Array(vec![num("3")])),
    ]);
    assert_eq!(
        to_string(&value),
        "outer: {\n\n    x: 1\n    inner: {\n\n        y: 2\n    }\n}\nempty: {\n\n\n}\nlast: [3]"
    );
    assert_eq!(from_str(&to_string(&value)).unwrap(), value);
}

#[test]
fn the_level_and_the_unit_decide_the_indentation() {
    let value = object(vec![("a", object(vec![("b", num("1"))]))]);
    assert_eq!(written(&value, "\t", 0), "a: {\n\n\tb: 1\n}");
    assert_eq!(written(&value, "\t", 1), "{\n\n\ta: {\n\n\t\tb: 1\n\t}\n}");
    assert_eq!(written(&value, "--", 2), "{\n\n----a: {\n\n------b: 1\n----}\n--}");
    assert_eq!(written(&value, "", 3), "{\n\na: {\n\nb: 1\n}\n}");
    // an array does not deepen the level of its items
    let list = Value::Array(vec![object(vec![("k", Value::Null)])]);
    assert_eq!(written(&list, "  ", 1), "[{\n\n  k: null\n}]");
    assert_eq!(written(&list, "  ", 0), "[k: null]");
    assert_eq!(repeated(b"ab", 3), b"ababab");
    assert_eq!(repeated(b"ab", 0), b"");
    let mut out = b"1".to_vec();
    push_all(&mut out, b"23");
    assert_eq!(out, b"123");
}

#[test]
fn writing_and_reading_back_gives_the_same_tree() {
    for value in [
        Value::Null,
        Value::Bool(false),
        num("0"),
        num("-12.5e-3"),
        text("with \"quotes\" and \\ in the middle"),
        text("\u{1F3F3}\u{FE0F}\u{200D}\u{26A7}\u{FE0F}\n\t"),
        Value::ByteString(vec![0, 1, 2, 32, 127, 128, 255, b'a']),
        Value::Array(vec![num("1"), Value::Array(vec![text("x"), Value::Null]), Value::Bool(true)]),
        object(vec![("a", num("1"))]),
        object(vec![
            ("true", Value::Null),
            ("a key", Value::Array(vec![num("1"), num("2")])),
            ("", text("empty key")),
            ("nested", object(vec![
                ("deep", object(vec![("deeper", Value::Array(vec![]))])),
                ("list", Value::Array(vec![object(vec![("in", text("list"))])])),
                ("none", object(vec![])),
            ])),
            ("bytes", Value::ByteString(b"\t\r\n\x08\x0c ok".to_vec())),
        ]),
    ] {
        let document = to_bytes(&value);
        assert_eq!(from_slice(&document).unwrap(), value, "{}", to_string(&value));
        assert_eq!(to_bytes(&from_slice(&document).unwrap()), document);
        assert_eq!(to_string(&value).as_bytes(), document);
        let mut appended = b"[".to_vec();
        value.to_writer(&mut appended);
        assert_eq!(&appended[1..], document);
        to_writer(&value, &mut appended);
        assert_eq!(&appended[1 + document.len()..], document);
    }
}

#[test]
fn what_does_not_come_back_as_it_was() {
    // a root object without entries is an empty document
    assert_eq!(from_str(&to_string(&object(vec![]))).unwrap_err().kind(), ErrorKind::UnexpectedEof);
    // a string that ends in a backslash takes its closing quote for an escaped one
    assert!(from_str(&to_string(&text("ends with \\"))).is_err());
    // a quote in a byte string ends it
    assert!(from_str(&to_string(&Value::ByteString(b"a\"b".to_vec()))).is_err());
    // an object in an array at the root has no braces
    let list = Value::Array(vec![object(vec![("k", Value::Null)])]);
    assert!(from_str(&to_string(&list)).is_err());
    // a key that ends in a backslash, as a string that does
    let value = object(vec![("o", object(vec![("a\\", Value::Null)]))]);
    assert!(from_str(&to_string(&value)).is_err());
}

#[test]
fn keys_with_escapes_come_back() {
    let value = object(vec![
        ("a\"b", Value::Null),
        ("o", object(vec![("a\"b", Value::Null), ("tab\there", text("x")), ("\\n", num("1"))])),
        ("back\\slash", Value::Bool(true)),
        ("", Value::Null),
    ]);
    let written = to_string(&value);
    assert_eq!(from_str(&written).unwrap(), value);
    assert_eq!(to_string(&from_str(&written).unwrap()), written);
}

#[test]
fn kinds_of_value() {
    let value = from_str(r#"{a: 2, b: false, c: null, d: "s", e: b"b", f: [1], g: {}}"#).unwrap();
    assert_eq!(value.value_type(), "object");
    assert_eq!(value.index("a").value_type(), "number");
    assert_eq!(value.index("b").value_type(), "boolean");
    assert_eq!(value.index("c").value_type(), "null");
    assert_eq!(value.index("d").value_type(), "string");
    assert_eq!(value.index("e").value_type(), "byte string");
    assert_eq!(value.index("f").value_type(), "array");
    assert_eq!(value.index("g").value_type(), "object");

    assert!(value.is_object() && value.as_object().is_some());
    assert!(!value.is_array() && value.as_array().is_none());
    assert!(value.index("f").is_array());
    assert_eq!(value.index("f").as_array().unwrap().len(), 1);
    assert!(value.index("d").is_string());
    assert_eq!(value.index("d").as_str(), Some("s"));
    assert_eq!(value.index("b").as_str(), None);
    assert!(value.index("e").is_byte_string());
    assert_eq!(value.index("e").as_bytes(), Some(&b"b"[..]));
    assert!(value.index("a").is_number());
    assert_eq!(value.index("a").as_number().unwrap().text(), b"2");
    assert_eq!(value.index("d").as_number(), None);
    assert!(value.index("b").is_boolean());
    assert_eq!(value.index("b").as_bool(), Some(false));
    assert_eq!(value.index("a").as_bool(), None);
    assert!(value.index("c").is_null());
    assert_eq!(value.index("c").as_null(), Some(()));
    assert_eq!(value.index("b").as_null(), None);
    assert_eq!(Value::default(), Value::Null);
}

#[test]
fn get_never_fails() {
    let object = from_str(r#"{ "A": 65, "B": 66, "C": 67 }"#).unwrap();
    assert_eq!(*object.get("A").unwrap(), num("65"));
    assert_eq!(object.get("D"), None);
    assert_eq!(object.get(0), None);
    assert_eq!(object.get(String::from("B")), Some(&num("66")));
    assert_eq!(object.get(&String::from("C")), Some(&num("67")));
    assert_eq!("A".index_into(&object), Some(&num("65")));

    let array = from_str(r#"[ "A", "B", "C" ]"#).unwrap();
    assert_eq!(*array.get(2).unwrap(), text("C"));
    assert_eq!(array.get(3), None);
    assert_eq!(array.get("A"), None);
    assert_eq!(array.get(&1usize), Some(&text("B")));

    let data = from_str(r#"{ "x": { "y": ["z", "zz"] } }"#).unwrap();
    assert_eq!(*data.index("x").index("y"), Value::Array(vec![text("z"), text("zz")]));
    assert_eq!(*data.index("x").index("y").index(0), text("z"));
    assert_eq!(*data.index("a"), Value::Null);
    assert_eq!(*data.index("a").index("b"), Value::Null);
    assert_eq!(*data.index(0).index("x").index("y").index("z"), Value::Null);
    assert_eq!(*Value::Null.index(7), Value::Null);
}

#[test]
fn writing_through_an_index() {
    let mut data = from_str(r#"{ "x": 0 }"#).unwrap();
    *data.index_mut("x") = num("1");
    *data.index_mut("y") = Value::Array(vec![Value::Bool(false), Value::Bool(true)]);
    *data.index_mut("y").index_mut(0) = Value::Bool(true);
    *data.index_mut("y").index_mut(2) = num("1.3");
    *data.index_mut("a").index_mut("b").index_mut("c").index_mut("d") = Value::Bool(true);
    assert_eq!(
        data,
        from_str(r#"{x: 1, y: [true, true, 1.3], a: {b: {c: {d: true}}}}"#).unwrap()
    );
    // a key that is not there comes with a null value
    assert_eq!(*data.index_mut("new"), Value::Null);
    assert_eq!(data.get("new"), Some(&Value::Null));

    *data.get_mut("x").unwrap() = num("69");
    assert_eq!(data.get("x"), Some(&num("69")));
    assert!(data.get_mut("nothing").is_none());
    assert!(data.get_mut(0).is_none());
    let mut array = from_str(r#"[ "A", "B", "C" ]"#).unwrap();
    *array.get_mut(2).unwrap() = text("D");
    assert_eq!(array, from_str(r#"["A", "B", "D"]"#).unwrap());
    assert!(array.get_mut(3).is_none());
    assert!(array.get_mut("A").is_none());
}

#[test]
fn take_leaves_a_null() {
    let mut v = from_str(r#"{ "x": "y" }"#).unwrap();
    assert_eq!(v.index_mut("x").take(), text("y"));
    assert_eq!(v, from_str(r#"{ "x": null }"#).unwrap());
}

#[test]
fn changing_what_a_value_holds() {
    let mut v = from_str(r#"{ "a": { "nested": true }, "b": ["an", "array"] }"#).unwrap();
    assert_eq!(v.index("a").as_object().unwrap().len(), 1);
    v.index_mut("a").as_object_mut().unwrap().clear();
    v.index_mut("b").as_array_mut().unwrap().clear();
    assert_eq!(v, from_str(r#"{ "a": {}, "b": [] }"#).unwrap());
    assert!(v.index_mut("b").as_object_mut().is_none());
    assert!(v.index_mut("a").as_array_mut().is_none());
}

#[test]
fn objects_keep_one_entry_for_a_key() {
    let mut entries = Object::new();
    assert!(entries.is_empty());
    entries.insert("a".to_owned(), num("1"));
    entries.insert("b".to_owned(), num("2"));
    entries.insert("a".to_owned(), num("3"));
    assert_eq!(entries.len(), 2);
    assert_eq!(entries.position("a"), Some(0));
    assert_eq!(entries.position("b"), Some(1));
    assert_eq!(entries.position("c"), None);
    assert!(entries.contains_key("b") && !entries.contains_key("c"));
    assert_eq!(entries.get("a"), Some(&num("3")));
    assert_eq!(entries.key_at(1), "b");
    assert_eq!(*entries.value_at(1), num("2"));
    *entries.get_mut("b").unwrap() = Value::Null;
    assert_eq!(entries.get("b"), Some(&Value::Null));
    assert!(entries.get_mut("c").is_none());
    assert_eq!(*entries.entry_or_insert("a"), num("3"));
    assert_eq!(*entries.entry_or_insert("c"), Value::Null);
    assert_eq!(entries.len(), 3);
    assert_eq!(entries.remove("a"), Some(num("3")));
    assert_eq!(entries.remove("a"), None);
    assert_eq!(entries.key_at(0), "b");
    assert_eq!(entries.len(), 2);
    entries.clear();
    assert_eq!(entries, Object::new());
}

#[test]
fn equality_and_copies() {
    let a = from_str("{x: [1, \"s\", b\"b\", null, true], y: {z: 2}}").unwrap();
    let b = a.clone();
    assert!(values_equal(&a, &b));
    assert_eq!(clone_value(&a), a);
    assert!(objects_equal(a.as_object().unwrap(), &a.as_object().unwrap().clone()));
    for other in [
        "{x: [1, \"s\", b\"b\", null, true], y: {z: 3}}",
        "{x: [1, \"s\", b\"b\", null], y: {z: 2}}",
        "{x: [1, \"s\", b\"c\", null, true], y: {z: 2}}",
        "{x: [1, \"t\", b\"b\", null, true], y: {z: 2}}",
        "{x: [1, \"s\", b\"b\", null, false], y: {z: 2}}",
        "{x: [1, \"s\", b\"b\", null, true], w: {z: 2}}",
        "{x: [1, \"s\", b\"b\", null, true]}",
        "{x: [1, \"s\", b\"b\", null, true], y: {z: 2}, w: 0}",
        "{x: [1, \"s\", b\"b\", null, true], y: {}}",
        "[1]",
        "null",
    ] {
        assert_ne!(from_str(other).unwrap(), a, "{other}");
    }
    // the entries of an object count in any order, at every depth
    let swapped = from_str("{y: {z: 2}, x: [1, \"s\", b\"b\", null, true]}").unwrap();
    assert_eq!(swapped, a);
    assert_eq!(a, swapped);
    assert!(values_equal(&swapped, &a) && values_equal(&a, &swapped));
    assert_eq!(
        from_str("[{a: 1, b: {c: 2, d: 3}}]").unwrap(),
        from_str("[{b: {d: 3, c: 2}, a: 1}]").unwrap()
    );
    // the items of an array count in their order
    assert_ne!(from_str("[1, 2]").unwrap(), from_str("[2, 1]").unwrap());
    assert_ne!(num("1"), num("1.0"));
    assert_ne!(text("b"), Value::ByteString(b"b".to_vec()));
    assert!(same_text("a", "a") && !same_text("a", "b"));
}
