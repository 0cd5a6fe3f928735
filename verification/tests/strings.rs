use mason_rs::deserialize::string::{
    parse_byte_string, parse_multi_line_string, parse_raw_string, parse_string,
};
use mason_rs::error::ErrorKind;
use mason_rs::peek_reader::PeekReader;
use mason_rs::unescape_string::{parse_unicode_code_point, unescape_string};
use mason_rs::utils::{read_until_pattern, read_until_unquote, to_char};

#[test]
fn test_parse_string() {
    let data = r#""This \" string \n is \"\" a string""#;
    let mut reader = PeekReader::new(data.as_bytes());
    assert_eq!(
        parse_string(&mut reader).unwrap(),
        "This \" string \n is \"\" a string"
    );

    let data = r#""I am missing an end quote :("#;
    let mut reader = PeekReader::new(data.as_bytes());
    assert!(parse_string(&mut reader).is_err());
}

#[test]
fn test_parse_byte_string() {
    let data = r#"b"This \" string \n is \"\" a string""#;
    let mut reader = PeekReader::new(data.as_bytes());
    assert_eq!(
        parse_byte_string(&mut reader).unwrap(),
        b"This \" string \n is \"\" a string"
    );

    let data = r#"b"I contain an emoji ğŸ˜®""#;
    let mut reader = PeekReader::new(data.as_bytes());
    assert!(parse_byte_string(&mut reader).is_err());

    let data = r#"b"I am missing an end quote :("#;
    let mut reader = PeekReader::new(data.as_bytes());
    assert!(parse_string(&mut reader).is_err());
}

#[test]
fn test_parse_raw_string() {
    let data = r###"r##"This "string" can fit so many #"quotes"# :)"##"###;
    let mut reader = PeekReader::new(data.as_bytes());
    assert_eq!(
        parse_raw_string(&mut reader).unwrap(),
        "This \"string\" can fit so many #\"quotes\"# :)"
    );

    let data = r##"r#"I am not closed properly ""##;
    let mut reader = PeekReader::new(data.as_bytes());
    assert!(parse_raw_string(&mut reader).is_err());
}

#[test]
fn test_unescape_string() {
    let escaped_string = "this\\t is \\n a string \\x00 with \\\" special \
        \\xf0\\x9f\\x8f\\xb3\\xef\\xb8\\x8f\\xe2\\x80\\x8d\\xe2\\x9a\\xa7\\xef\\xb8\\x8f \
        characters! \\u3061\\U003053 \\uD83D\\uDE43";
    let unescaped_string = "this\t is \n a string \0 with \" special \u{1F3F3}\u{FE0F}\u{200D}\u{26A7}\u{FE0F} characters! \u{3061}\u{3053} \u{1F643}";
    match unescape_string(escaped_string.as_bytes()) {
        Ok(string) => assert_eq!(
            String::from_utf8(string.to_vec()).unwrap(),
            unescaped_string
        ),
        Err(err) => panic!("unescape_string failed: {err}"),
    }

    let simple_string = "this is a string with normal characters!";
    match unescape_string(simple_string.as_bytes()) {
        Ok(string) => assert_eq!(String::from_utf8(string.to_vec()).unwrap(), simple_string),
        Err(err) => panic!("unescape_string failed: {err}"),
    }
}

fn rest_of(reader: &mut PeekReader) -> Vec<u8> {
    let mut rest = Vec::new();
    while let Some(byte) = reader.read_byte().unwrap() {
        rest.push(byte);
    }
    rest
}

#[test]
fn surrogate_pair_makes_one_code_point() {
    let mut reader = PeekReader::new(br#""\uD83D\uDE43""#);
    assert_eq!(parse_string(&mut reader).unwrap(), "\u{1F643}");
    assert_eq!(
        parse_unicode_code_point(br"\uD83D\uDE43").unwrap(),
        ('\u{1F643}', 12)
    );
    // 0x10000 + (0xD800 - 0xD800) * 0x400 + (0xDC00 - 0xDC00)
    assert_eq!(parse_unicode_code_point(br"\uD800\uDC00 more").unwrap(), ('\u{10000}', 12));
    assert_eq!(parse_unicode_code_point(br"\uDBFF\uDFFF").unwrap(), ('\u{10FFFF}', 12));
    assert_eq!(parse_unicode_code_point(br"\u0041").unwrap(), ('A', 6));
}

#[test]
fn surrogates_without_a_partner_are_refused() {
    for bytes in [
        &br"\uD83D"[..],
        br"\uD83Dxxxxxx",
        br"\uD83D\u0041",
        br"\uD83D\uE000",
        br"\uD83D\uD83D",
        br"\uDE43\uDE43",
        br"\uDE43",
        br"\uD83D\uDE4",
        br"\u12",
        br"\u12G4",
    ] {
        assert!(parse_unicode_code_point(bytes).is_err(), "{bytes:?}");
        assert!(unescape_string(bytes).is_err(), "{bytes:?}");
    }
}

#[test]
fn every_escape_of_one_letter() {
    assert_eq!(
        unescape_string(br#"\n\r\t\b\f\'\"\\\/"#).unwrap(),
        b"\n\r\t\x08\x0c'\"\\/"
    );
    assert_eq!(unescape_string(br"\x41\x7f\xFf").unwrap(), [0x41, 0x7f, 0xff]);
    assert_eq!(unescape_string(br"\U01F643").unwrap(), "\u{1F643}".as_bytes());
    assert_eq!(unescape_string(br"\u00e9\u20AC").unwrap(), "\u{e9}\u{20ac}".as_bytes());
    assert_eq!(unescape_string(br"end\").unwrap(), br"end\");
}

#[test]
fn bad_escapes_are_refused() {
    for bytes in [
        &br"\q"[..],
        br"\x4",
        br"\x",
        br"\xg0",
        br"\U00D800",
        br"\U110000",
        br"\U0041",
        br"\u",
        br"\N",
    ] {
        assert!(unescape_string(bytes).is_err(), "{bytes:?}");
    }
    let mut reader = PeekReader::new(br#""bad \q escape""#);
    assert_eq!(parse_string(&mut reader).unwrap_err().kind(), ErrorKind::InvalidData);
}

#[test]
fn string_errors_have_their_kinds() {
    let mut reader = PeekReader::new(b"");
    assert_eq!(parse_string(&mut reader).unwrap_err().kind(), ErrorKind::UnexpectedEof);
    let mut reader = PeekReader::new(b"x\"");
    assert_eq!(parse_string(&mut reader).unwrap_err().kind(), ErrorKind::InvalidData);
    let mut reader = PeekReader::new(b"\"open");
    assert_eq!(parse_string(&mut reader).unwrap_err().kind(), ErrorKind::UnexpectedEof);
    let mut reader = PeekReader::new(b"\"\xff\"");
    assert_eq!(parse_string(&mut reader).unwrap_err().kind(), ErrorKind::InvalidData);
    let mut reader = PeekReader::new(br#""\xff""#);
    assert_eq!(parse_string(&mut reader).unwrap_err().kind(), ErrorKind::InvalidData);

    let mut reader = PeekReader::new(b"b");
    assert_eq!(parse_byte_string(&mut reader).unwrap_err().kind(), ErrorKind::UnexpectedEof);
    let mut reader = PeekReader::new(b"bx");
    assert_eq!(parse_byte_string(&mut reader).unwrap_err().kind(), ErrorKind::InvalidData);
    let mut reader = PeekReader::new(b"b\"\xc3\xa9\"");
    assert_eq!(parse_byte_string(&mut reader).unwrap_err().kind(), ErrorKind::InvalidData);
    let mut reader = PeekReader::new(br#"b"\xc3\xa9""#);
    assert_eq!(parse_byte_string(&mut reader).unwrap(), [0xc3, 0xa9]);

    let mut reader = PeekReader::new(b"r##");
    assert_eq!(parse_raw_string(&mut reader).unwrap_err().kind(), ErrorKind::UnexpectedEof);
    let mut reader = PeekReader::new(b"r#x\"");
    assert_eq!(parse_raw_string(&mut reader).unwrap_err().kind(), ErrorKind::InvalidData);
    let mut reader = PeekReader::new(b"r#\"open\"");
    assert_eq!(parse_raw_string(&mut reader).unwrap_err().kind(), ErrorKind::UnexpectedEof);
    let mut reader = PeekReader::new(b"r\"\xff\"");
    assert_eq!(parse_raw_string(&mut reader).unwrap_err().kind(), ErrorKind::InvalidData);

    let mut reader = PeekReader::new(b"| text");
    assert_eq!(parse_multi_line_string(&mut reader).unwrap_err().kind(), ErrorKind::InvalidData);
}

#[test]
fn raw_string_ends_at_the_first_closing_pattern() {
    let mut reader = PeekReader::new(br###"r#"a""#tail"###);
    assert_eq!(parse_raw_string(&mut reader).unwrap(), "a\"");
    assert_eq!(rest_of(&mut reader), b"tail");
    let mut reader = PeekReader::new(br##"r"plain \n"rest"##);
    assert_eq!(parse_raw_string(&mut reader).unwrap(), "plain \\n");
    assert_eq!(rest_of(&mut reader), b"rest");
}

#[test]
fn read_until_pattern_finds_overlapping_starts() {
    let mut reader = PeekReader::with_capacity(2, b"aaab-rest");
    assert_eq!(read_until_pattern(&mut reader, b"aab").unwrap(), b"a");
    assert_eq!(rest_of(&mut reader), b"-rest");
    let mut reader = PeekReader::new(b"anything");
    assert_eq!(read_until_pattern(&mut reader, b"").unwrap(), b"");
    assert_eq!(rest_of(&mut reader), b"anything");
    let mut reader = PeekReader::new(b"no end");
    assert_eq!(
        read_until_pattern(&mut reader, b"xyz").unwrap_err().kind(),
        ErrorKind::UnexpectedEof
    );
}

#[test]
fn read_until_unquote_skips_escaped_quotes() {
    let mut reader = PeekReader::with_capacity(1, br#"a\"b"c"#);
    assert_eq!(read_until_unquote(&mut reader).unwrap(), br#"a\"b"#);
    assert_eq!(rest_of(&mut reader), b"c");
    let mut reader = PeekReader::new(b"\"x");
    assert_eq!(read_until_unquote(&mut reader).unwrap(), b"");
    let mut reader = PeekReader::new(br#"only \""#);
    assert_eq!(read_until_unquote(&mut reader).unwrap_err().kind(), ErrorKind::UnexpectedEof);
}

#[test]
fn to_char_keeps_the_number() {
    assert_eq!(to_char(b'a'), 'a');
    assert_eq!(to_char(0), '\0');
    assert_eq!(to_char(0xe9), '\u{e9}');
    assert_eq!(to_char(255) as u32, 255);
}
