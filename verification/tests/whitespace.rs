use mason_rs::deserialize::whitespace::{parse_sep, skip_block_comment, skip_whitespace};
use mason_rs::error::ErrorKind;
use mason_rs::peek_reader::PeekReader;

#[test]
fn test_skip_whitespace() {
    let data = "\
        Hello!   \r\n\t\r // This is a comment, I can contain anything!\n \
            /* this is a block * comment / / ***  */ !olleH
        ";

    let mut reader = PeekReader::new(data.as_bytes());
    skip_whitespace(&mut reader).unwrap();

    let mut buf = [0; 6];
    reader.read_exact(&mut buf).unwrap();
    assert_eq!(&buf, b"Hello!");

    skip_whitespace(&mut reader).unwrap();
    reader.read_exact(&mut buf).unwrap();
    assert_eq!(&buf, b"!olleH");

    skip_whitespace(&mut reader).unwrap();
}

#[test]
fn test_parse_sep() {
    let data = "\
        First/* */ \t  , \
        Secon // the second number
        Third /* */ \t
        Fourt Fift? \t
        ";

    let mut reader = PeekReader::new(data.as_bytes());
    skip_whitespace(&mut reader).unwrap();

    let mut buf = [0; 5];
    reader.read_exact(&mut buf).unwrap();
    assert_eq!(&buf, b"First");

    assert!(parse_sep(&mut reader).unwrap());
    skip_whitespace(&mut reader).unwrap();

    reader.read_exact(&mut buf).unwrap();
    assert_eq!(&buf, b"Secon");

    assert!(parse_sep(&mut reader).unwrap());
    skip_whitespace(&mut reader).unwrap();

    reader.read_exact(&mut buf).unwrap();
    assert_eq!(&buf, b"Third");

    assert!(parse_sep(&mut reader).unwrap());
    skip_whitespace(&mut reader).unwrap();

    reader.read_exact(&mut buf).unwrap();
    assert_eq!(&buf, b"Fourt");

    assert!(!parse_sep(&mut reader).unwrap());

    reader.read_exact(&mut buf).unwrap();
    assert_eq!(&buf, b"Fift?");

    assert!(parse_sep(&mut reader).unwrap());
}

fn rest_after_whitespace(data: &[u8]) -> Vec<u8> {
    let mut reader = PeekReader::new(data);
    skip_whitespace(&mut reader).unwrap();
    let mut rest = Vec::new();
    while let Some(byte) = reader.read_byte().unwrap() {
        rest.push(byte);
    }
    rest
}

fn sep_and_rest(data: &[u8]) -> (bool, Vec<u8>) {
    let mut reader = PeekReader::with_capacity(1, data);
    let found = parse_sep(&mut reader).unwrap();
    let mut rest = Vec::new();
    while let Some(byte) = reader.read_byte().unwrap() {
        rest.push(byte);
    }
    (found, rest)
}

#[test]
fn whitespace_at_the_end_of_input_is_fine() {
    assert_eq!(rest_after_whitespace(b""), b"");
    assert_eq!(rest_after_whitespace(b" \t\r\n"), b"");
    assert_eq!(rest_after_whitespace(b" // no line end"), b"");
    assert_eq!(rest_after_whitespace(b"/**/x"), b"x");
}

#[test]
fn a_lone_slash_is_no_whitespace() {
    assert_eq!(rest_after_whitespace(b"  /"), b"/");
    assert_eq!(rest_after_whitespace(b"  /x"), b"/x");
}

#[test]
fn a_block_comment_ends_at_the_first_star_slash() {
    assert_eq!(rest_after_whitespace(b"/* a **/ b */"), b"b */");
    assert_eq!(rest_after_whitespace(b"/***/x"), b"x");
}

#[test]
fn an_open_block_comment_is_unexpected_eof() {
    for data in [&b"/* never closed"[..], b"/*", b"/* *", b"  /* * /"] {
        let mut reader = PeekReader::new(data);
        let err = skip_whitespace(&mut reader).unwrap_err();
        assert_eq!(err.kind(), ErrorKind::UnexpectedEof);
        let mut reader = PeekReader::new(data);
        let err = parse_sep(&mut reader).unwrap_err();
        assert_eq!(err.kind(), ErrorKind::UnexpectedEof);
    }
    let mut reader = PeekReader::new(b"no end *");
    assert_eq!(skip_block_comment(&mut reader).unwrap_err().kind(), ErrorKind::UnexpectedEof);
}

#[test]
fn each_separator_is_accepted() {
    assert_eq!(sep_and_rest(b",x"), (true, b"x".to_vec()));
    assert_eq!(sep_and_rest(b"\nx"), (true, b"x".to_vec()));
    assert_eq!(sep_and_rest(b"\r\nx"), (true, b"x".to_vec()));
    assert_eq!(sep_and_rest(b"// note\nx"), (true, b"x".to_vec()));
    assert_eq!(sep_and_rest(b" \t/* c */ ,x"), (true, b"x".to_vec()));
    assert_eq!(sep_and_rest(b","), (true, b"".to_vec()));
    assert_eq!(sep_and_rest(b"\n"), (true, b"".to_vec()));
}

#[test]
fn what_is_no_separator_stays() {
    assert_eq!(sep_and_rest(b""), (false, b"".to_vec()));
    assert_eq!(sep_and_rest(b"x"), (false, b"x".to_vec()));
    assert_eq!(sep_and_rest(b"  x"), (false, b"x".to_vec()));
    assert_eq!(sep_and_rest(b"\rx"), (false, b"\rx".to_vec()));
    assert_eq!(sep_and_rest(b"\r"), (false, b"\r".to_vec()));
    assert_eq!(sep_and_rest(b"/x"), (false, b"/x".to_vec()));
    assert_eq!(sep_and_rest(b"/* c */ ]"), (false, b"]".to_vec()));
}
