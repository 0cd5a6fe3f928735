use mason_rs::hex::{decode_hex, encode_hex, hex_to_num, num_to_hex};

#[test]
fn test_decode_hex() {
    assert_eq!(decode_hex([b'f', b'F']).unwrap(), 255);
    assert_eq!(decode_hex([b'1', b'2']).unwrap(), 18);
    assert_eq!(decode_hex([b'c', b'3']).unwrap(), 195);
    assert!(decode_hex([b'!', b'?']).is_err());
}

#[test]
fn test_encode_hex() {
    assert_eq!(encode_hex(255), [b'f', b'f']);
    assert_eq!(encode_hex(18), [b'1', b'2']);
    assert_eq!(encode_hex(195), [b'c', b'3']);
}

#[test]
fn test_hex_to_num() {
    assert_eq!(hex_to_num(b'C').unwrap(), 12);
    assert_eq!(hex_to_num(b'a').unwrap(), 10);
    assert_eq!(hex_to_num(b'7').unwrap(), 7);
    assert!(hex_to_num(b'!').is_err());
}

#[test]
fn test_num_to_hex() {
    assert_eq!(num_to_hex(12).unwrap(), b'c');
    assert_eq!(num_to_hex(10).unwrap(), b'a');
    assert_eq!(num_to_hex(7).unwrap(), b'7');
    assert!(num_to_hex(100).is_err());
}

#[test]
fn hex_round_trip_of_every_byte() {
    for num in 0..=255u8 {
        assert_eq!(decode_hex(encode_hex(num)).unwrap(), num);
    }
}

#[test]
fn hex_digits_just_outside_the_ranges() {
    for byte in [b'/', b':', b'@', b'G', b'`', b'g'] {
        assert!(hex_to_num(byte).is_err());
    }
    assert_eq!(num_to_hex(15).unwrap(), b'f');
    assert!(num_to_hex(16).is_err());
}
