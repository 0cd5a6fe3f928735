use mason_rs::error::{hex_digit_name, Error, ErrorKind};
use mason_rs::from_str;

#[test]
fn errors_name_the_byte_that_went_wrong() {
    let err = from_str("[1 2]").unwrap_err();
    assert_eq!(err.kind(), ErrorKind::InvalidData);
    assert_eq!(err.offending_byte(), Some(b'2'));
    assert_eq!(err.message(), "invalid separator");
    assert_eq!(err.to_string(), "invalid separator (byte 0x32)");

    let err = from_str("{a: 1} x").unwrap_err();
    assert_eq!(err.offending_byte(), Some(b'x'));
    assert_eq!(err.to_string(), "Trailing garbage after document (byte 0x78)");

    let err = from_str("{a; 1}").unwrap_err();
    assert_eq!(err.offending_byte(), Some(b';'));
    let err = from_str("{\u{e9}: 1}").unwrap_err();
    assert_eq!(err.offending_byte(), Some(0xc3));
    assert_eq!(err.to_string(), "key identifier starts with invalid char (byte 0xc3)");
    let err = from_str("0xg").unwrap_err();
    assert_eq!(err.offending_byte(), Some(b'g'));
    let err = from_str("+-1").unwrap_err();
    assert_eq!(err.offending_byte(), Some(b'-'));
    let err = from_str("r#x").unwrap_err();
    assert_eq!(err.offending_byte(), Some(b'x'));
}

#[test]
fn errors_without_a_byte() {
    let err = from_str("[1").unwrap_err();
    assert_eq!(err.kind(), ErrorKind::UnexpectedEof);
    assert_eq!(err.offending_byte(), None);
    assert_eq!(err.to_string(), err.message());
    let err = from_str("\"\\q\"").unwrap_err();
    assert_eq!(err.kind(), ErrorKind::InvalidData);
    assert_eq!(err.to_string(), "Unexpected escape sequence");
    assert_eq!(Error::eof().kind(), ErrorKind::UnexpectedEof);
    assert_eq!(Error::eof().to_string(), "unexpected end of input");
    assert_eq!(Error::new(ErrorKind::InvalidData, "m").message(), "m");
    assert_eq!(Error::unexpected_eof("m").kind(), ErrorKind::UnexpectedEof);
    assert_eq!(Error::invalid_data("m").kind(), ErrorKind::InvalidData);
    assert_eq!(Error::invalid_byte("m", 0).to_string(), "m (byte 0x00)");
    assert_eq!(Error::invalid_byte("m", 255).to_string(), "m (byte 0xff)");
    for n in 0..16u8 {
        assert_eq!(hex_digit_name(n), format!("{n:x}"));
    }
}
