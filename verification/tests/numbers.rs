use mason_rs::deserialize::number::{parse_number, to_base_digit};
use mason_rs::error::ErrorKind;
use mason_rs::number::{is_valid_text, to_decimal, Number};
use mason_rs::peek_reader::PeekReader;

fn as_f64(number: &Number) -> f64 {
    let magnitude: f64 = std::str::from_utf8(number.text()).unwrap().parse().unwrap();
    if number.is_negative() {
        -magnitude
    } else {
        magnitude
    }
}

fn parse(data: &str) -> Result<f64, ErrorKind> {
    let mut reader = PeekReader::new(data.as_bytes());
    match parse_number(&mut reader) {
        Ok(number) => Ok(as_f64(&number)),
        Err(err) => Err(err.kind()),
    }
}

#[test]
fn test_parse_number() {
    let data = "1";
    let mut reader = PeekReader::new(data.as_bytes());
    assert_eq!(as_f64(&parse_number(&mut reader).unwrap()), 1.0);

    let data = "0";
    let mut reader = PeekReader::new(data.as_bytes());
    assert_eq!(as_f64(&parse_number(&mut reader).unwrap()), 0.0);

    let data = "++0";
    let mut reader = PeekReader::new(data.as_bytes());
    assert!(parse_number(&mut reader).is_err());

    let data = "-0'6.1'2'45";
    let mut reader = PeekReader::new(data.as_bytes());
    assert_eq!(as_f64(&parse_number(&mut reader).unwrap()), -6.1245);

    let data = "06.'1245";
    let mut reader = PeekReader::new(data.as_bytes());
    assert!(parse_number(&mut reader).is_err());

    let data = "+1.0'12e-2";
    let mut reader = PeekReader::new(data.as_bytes());
    assert_eq!(as_f64(&parse_number(&mut reader).unwrap()), 0.01012);

    let data = "-.2E2";
    let mut reader = PeekReader::new(data.as_bytes());
    assert_eq!(as_f64(&parse_number(&mut reader).unwrap()), -20.0);

    let data = "1.23And then";
    let mut reader = PeekReader::new(data.as_bytes());
    assert_eq!(as_f64(&parse_number(&mut reader).unwrap()), 1.23);
    let mut buf = [0; 8];
    reader.read_exact(&mut buf).unwrap();
    assert_eq!(&buf, b"And then");
}

#[test]
fn test_parse_base() {
    let data = "-0xa'bc''76";
    let mut reader = PeekReader::new(data.as_bytes());
    assert_eq!(as_f64(&parse_number(&mut reader).unwrap()), -703606.0);

    let data = "0o'110";
    let mut reader = PeekReader::new(data.as_bytes());
    assert!(parse_number(&mut reader).is_err());

    let data = "+0o712";
    let mut reader = PeekReader::new(data.as_bytes());
    assert_eq!(as_f64(&parse_number(&mut reader).unwrap()), 458.0);

    let data = "0b11'00'11'00";
    let mut reader = PeekReader::new(data.as_bytes());
    assert_eq!(as_f64(&parse_number(&mut reader).unwrap()), 204.0);

    let data = "0xff, ...";
    let mut reader = PeekReader::new(data.as_bytes());
    assert_eq!(as_f64(&parse_number(&mut reader).unwrap()), 255.0);
    let mut buf = [0; 5];
    reader.read_exact(&mut buf).unwrap();
    assert_eq!(&buf, b", ...");
}

#[test]
fn numbers_keep_their_text() {
    let mut reader = PeekReader::new(b"-0'6.1'2'45");
    let number = parse_number(&mut reader).unwrap();
    assert!(number.is_negative());
    assert_eq!(number.text(), b"06.1245");

    let mut reader = PeekReader::new(b"+1.0'12e-2]");
    let number = parse_number(&mut reader).unwrap();
    assert!(!number.is_negative());
    assert_eq!(number.text(), b"1.012e-2");
    assert_eq!(reader.read_byte().unwrap(), Some(b']'));
}

#[test]
fn other_bases_become_decimal_text() {
    for (data, text) in [
        ("0xff", "255"),
        ("0o712", "458"),
        ("0b1100", "12"),
        ("0x0", "0"),
        ("0x000", "0"),
        ("0b0'0'1", "1"),
        ("0xFFFFFFFFFFFFFFFF", "18446744073709551615"),
        ("0x1'0000'0000'0000'0000", "18446744073709551616"),
        ("0o7'7", "63"),
        ("0xdeadBEEF", "3735928559"),
    ] {
        let mut reader = PeekReader::new(data.as_bytes());
        let number = parse_number(&mut reader).unwrap();
        assert_eq!(std::str::from_utf8(number.text()).unwrap(), text, "{data}");
    }
    let mut reader = PeekReader::new(b"-0x0");
    let number = parse_number(&mut reader).unwrap();
    assert!(number.is_negative());
    assert_eq!(number.text(), b"0");
}

#[test]
fn a_lone_zero_is_read() {
    let mut reader = PeekReader::new(b"0");
    let number = parse_number(&mut reader).unwrap();
    assert_eq!(number.text(), b"0");
    assert_eq!(reader.peek().unwrap(), None);
    let mut reader = PeekReader::new(b"-0");
    let number = parse_number(&mut reader).unwrap();
    assert!(number.is_negative());
    assert_eq!(reader.peek().unwrap(), None);
}

#[test]
fn number_errors_have_their_kinds() {
    assert_eq!(parse(""), Err(ErrorKind::UnexpectedEof));
    assert_eq!(parse("+"), Err(ErrorKind::UnexpectedEof));
    assert_eq!(parse("-"), Err(ErrorKind::UnexpectedEof));
    assert_eq!(parse("0x"), Err(ErrorKind::UnexpectedEof));
    assert_eq!(parse("0b"), Err(ErrorKind::UnexpectedEof));
    assert_eq!(parse("++0"), Err(ErrorKind::InvalidData));
    assert_eq!(parse("+-0"), Err(ErrorKind::InvalidData));
    assert_eq!(parse("--1"), Err(ErrorKind::InvalidData));
    assert_eq!(parse("0xg"), Err(ErrorKind::InvalidData));
    assert_eq!(parse("0o8"), Err(ErrorKind::InvalidData));
    assert_eq!(parse("0b2"), Err(ErrorKind::InvalidData));
    assert_eq!(parse("0x'1"), Err(ErrorKind::InvalidData));
    assert_eq!(parse("'1"), Err(ErrorKind::InvalidData));
    assert_eq!(parse("+'1"), Err(ErrorKind::InvalidData));
    assert_eq!(parse("1.'5"), Err(ErrorKind::InvalidData));
    assert_eq!(parse("06.'1245"), Err(ErrorKind::InvalidData));
    assert_eq!(parse("5."), Err(ErrorKind::InvalidData));
    assert_eq!(parse("5.e3"), Err(ErrorKind::InvalidData));
    assert_eq!(parse("5.E3"), Err(ErrorKind::InvalidData));
    assert_eq!(parse("."), Err(ErrorKind::InvalidData));
    assert_eq!(parse("1e"), Err(ErrorKind::InvalidData));
    assert_eq!(parse("1e+"), Err(ErrorKind::InvalidData));
    assert_eq!(parse("1-2"), Err(ErrorKind::InvalidData));
    assert_eq!(parse("1.2.3"), Err(ErrorKind::InvalidData));
    assert_eq!(parse("1e5e5"), Err(ErrorKind::InvalidData));
    assert_eq!(parse("e5"), Err(ErrorKind::InvalidData));
    assert_eq!(parse("+abc"), Err(ErrorKind::InvalidData));
}

#[test]
fn numbers_that_base_ten_accepts() {
    assert_eq!(parse("1'000'000"), Ok(1000000.0));
    assert_eq!(parse("1''0"), Ok(10.0));
    assert_eq!(parse("1'"), Ok(1.0));
    assert_eq!(parse(".5"), Ok(0.5));
    assert_eq!(parse("1E5"), Ok(100000.0));
    assert_eq!(parse("1e'5"), Ok(100000.0));
    assert_eq!(parse("1e+5"), Ok(100000.0));
    assert_eq!(parse("0.0"), Ok(0.0));
    assert_eq!(parse("00"), Ok(0.0));
    assert_eq!(parse("0c"), Ok(0.0));
    assert_eq!(parse("0X1"), Ok(0.0));
}

#[test]
fn the_grammar_agrees_with_the_parser_of_floats() {
    let alphabet = [b'0', b'7', b'.', b'e', b'E', b'+', b'-'];
    let mut texts: Vec<Vec<u8>> = vec![Vec::new()];
    for _ in 0..5 {
        let mut longer = Vec::new();
        for text in &texts {
            for byte in alphabet {
                let mut next = text.clone();
                next.push(byte);
                longer.push(next);
            }
        }
        for text in &longer {
            let as_str = std::str::from_utf8(text).unwrap();
            let by_float = !as_str.starts_with('+')
                && !as_str.starts_with('-')
                && as_str.parse::<f64>().is_ok()
                && !as_str.ends_with('.')
                && !as_str.contains(".e")
                && !as_str.contains(".E");
            assert_eq!(is_valid_text(text), by_float, "{as_str}");
            assert_eq!(Number::new(false, text.clone()).is_some(), by_float, "{as_str}");
        }
        texts = longer;
    }
}

#[test]
fn to_decimal_agrees_with_integer_arithmetic() {
    for base in [2u8, 8, 10, 16] {
        for value in [0u64, 1, 9, 10, 15, 16, 255, 256, 1000, 65535, 123456789, u64::MAX] {
            let mut digits = Vec::new();
            let mut rest = value;
            while rest > 0 {
                digits.push((rest % base as u64) as u8);
                rest /= base as u64;
            }
            digits.reverse();
            assert_eq!(to_decimal(&digits, base), value.to_string().into_bytes());
            let mut padded = vec![0u8, 0];
            padded.extend_from_slice(&digits);
            assert_eq!(to_decimal(&padded, base), value.to_string().into_bytes());
            let number = Number::from_digits(true, &digits, base);
            assert!(number.is_negative());
            assert_eq!(number.text(), value.to_string().as_bytes());
        }
    }
}

#[test]
fn digits_of_each_base() {
    assert_eq!(to_base_digit(b'7', 8), Some(7));
    assert_eq!(to_base_digit(b'8', 8), None);
    assert_eq!(to_base_digit(b'1', 2), Some(1));
    assert_eq!(to_base_digit(b'2', 2), None);
    assert_eq!(to_base_digit(b'f', 16), Some(15));
    assert_eq!(to_base_digit(b'F', 16), Some(15));
    assert_eq!(to_base_digit(b'a', 8), None);
    assert_eq!(to_base_digit(b'\'', 16), None);
}

#[test]
fn number_equality_and_copies() {
    let a = Number::new(true, b"1.50".to_vec()).unwrap();
    let b = a.clone();
    assert_eq!(a, b);
    assert_ne!(a, Number::new(false, b"1.50".to_vec()).unwrap());
    assert_ne!(a, Number::new(true, b"1.5".to_vec()).unwrap());
    let mut out = b"x=".to_vec();
    a.write_to(&mut out);
    assert_eq!(out, b"x=-1.50");
}
