use mason_rs::error::ErrorKind;
use mason_rs::peek_reader::PeekReader;

#[test]
fn test_peek_reader() {
    let data = vec![0, 1, 2, 3, 4, 5, 6, 7, 8, 9];
    let mut reader = PeekReader::new(data.as_slice());
    assert_eq!(reader.peek().unwrap(), Some(0));
    assert_eq!(reader.peek2().unwrap(), Some([0, 1]));

    assert_eq!(reader.read_byte().unwrap(), Some(0));
    assert_eq!(reader.peek2().unwrap(), Some([1, 2]));

    let mut buf = [0, 0, 0];
    reader.read_exact(&mut buf).unwrap();
    assert_eq!(buf, [1, 2, 3]);
    assert_eq!(reader.peek().unwrap(), Some(4));
    assert_eq!(reader.peek2().unwrap(), Some([4, 5]));

    let mut buf = [0, 0, 0, 0, 0];
    reader.read_exact(&mut buf).unwrap();
    assert_eq!(buf, [4, 5, 6, 7, 8]);
    assert_eq!(reader.peek().unwrap(), Some(9));
    assert_eq!(reader.peek2().unwrap(), None);

    assert_eq!(reader.read_byte().unwrap(), Some(9));
    assert_eq!(reader.peek().unwrap(), None);
    assert_eq!(reader.read_byte().unwrap(), None);
}

#[test]
fn test_small_buf() {
    let data = vec![9, 8, 7, 6, 5, 4, 3, 2, 1, 0];
    let mut reader = PeekReader::with_capacity(3, data.as_slice());
    assert_eq!(reader.peek().unwrap(), Some(9));
    assert_eq!(reader.peek2().unwrap(), Some([9, 8]));
    assert_eq!(reader.buffer_len(), 3);

    let mut buf = [0, 0];
    reader.read_exact(&mut buf).unwrap();
    assert_eq!(buf, [9, 8]);
    assert_eq!(reader.buffer_len(), 1);

    assert_eq!(reader.peek().unwrap(), Some(7));
    assert!(reader.carry().is_none());
    assert_eq!(reader.peek2().unwrap(), Some([7, 6]));
    assert_eq!(reader.carry(), Some(7));
    assert_eq!(reader.buffer_len(), 3);

    assert_eq!(reader.peek().unwrap(), Some(7));
    assert_eq!(reader.peek2().unwrap(), Some([7, 6]));
    assert_eq!(reader.carry(), Some(7));

    assert_eq!(reader.read_byte().unwrap(), Some(7));
    assert!(reader.carry().is_none());
    assert_eq!(reader.peek2().unwrap(), Some([6, 5]));
    assert!(reader.carry().is_none());

    reader.read_exact(&mut buf).unwrap();
    assert_eq!(buf, [6, 5]);
}

#[test]
fn peeking_never_moves_the_reader() {
    for capacity in 1..6 {
        let mut reader = PeekReader::with_capacity(capacity, b"abcdef");
        for expected in b"abcdef".iter() {
            for _ in 0..3 {
                assert_eq!(reader.peek().unwrap(), Some(*expected));
                let _ = reader.peek2().unwrap();
                assert_eq!(reader.peek().unwrap(), Some(*expected));
            }
            assert_eq!(reader.read_byte().unwrap(), Some(*expected));
        }
        assert_eq!(reader.peek().unwrap(), None);
        assert_eq!(reader.peek2().unwrap(), None);
    }
}

#[test]
fn peek2_across_every_window_boundary() {
    let data = b"0123456789";
    for capacity in 0..12 {
        let mut reader = PeekReader::with_capacity(capacity, data);
        for i in 0..data.len() {
            let pair = reader.peek2().unwrap();
            if i + 1 < data.len() {
                assert_eq!(pair, Some([data[i], data[i + 1]]));
            } else {
                assert_eq!(pair, None);
            }
            reader.consume(1);
        }
        assert_eq!(reader.read_byte().unwrap(), None);
    }
}

#[test]
fn consume_after_peek2_takes_the_carried_byte_first() {
    let mut reader = PeekReader::with_capacity(1, b"xyz");
    assert_eq!(reader.peek2().unwrap(), Some([b'x', b'y']));
    assert_eq!(reader.carry(), Some(b'x'));
    reader.consume(2);
    assert_eq!(reader.carry(), None);
    assert_eq!(reader.read_byte().unwrap(), Some(b'z'));
}

#[test]
fn read_exact_past_the_end_is_unexpected_eof() {
    let mut reader = PeekReader::new(b"ab");
    let mut buf = [0u8; 3];
    let err = reader.read_exact(&mut buf).unwrap_err();
    assert_eq!(err.kind(), ErrorKind::UnexpectedEof);
    assert_eq!(reader.read_byte().unwrap(), None);
}

#[test]
fn skip_until_and_read_until_stop_after_the_delimiter() {
    let mut reader = PeekReader::with_capacity(2, b"one\ntwo\nthree");
    assert_eq!(reader.peek2().unwrap(), Some([b'o', b'n']));
    assert_eq!(reader.skip_until(b'\n').unwrap(), 4);
    let mut line = Vec::new();
    assert_eq!(reader.read_until(b'\n', &mut line).unwrap(), 4);
    assert_eq!(line, b"two\n");
    line.clear();
    assert_eq!(reader.read_until(b'\n', &mut line).unwrap(), 5);
    assert_eq!(line, b"three");
    assert_eq!(reader.skip_until(b'\n').unwrap(), 0);
}

#[test]
fn skip_until_counts_a_carried_byte() {
    let mut reader = PeekReader::with_capacity(1, b"\nab");
    assert_eq!(reader.peek2().unwrap(), Some([b'\n', b'a']));
    assert_eq!(reader.carry(), Some(b'\n'));
    assert_eq!(reader.skip_until(b'\n').unwrap(), 1);
    assert_eq!(reader.read_byte().unwrap(), Some(b'a'));
}

#[test]
fn read_takes_what_the_cell_and_the_window_hold() {
    let mut reader = PeekReader::with_capacity(3, b"abcdefgh");
    let mut buf = [0u8; 5];
    // the first window holds three bytes
    assert_eq!(reader.read(&mut buf).unwrap(), 3);
    assert_eq!(&buf, b"abc\0\0");
    assert_eq!(reader.read(&mut buf[..2]).unwrap(), 2);
    assert_eq!(&buf[..2], b"de");
    // one byte is left in the window: it moves to the cell
    assert_eq!(reader.peek2().unwrap(), Some([b'f', b'g']));
    assert_eq!(reader.carry(), Some(b'f'));
    assert_eq!(reader.read(&mut buf).unwrap(), 3);
    assert_eq!(&buf[..3], b"fgh");
    assert_eq!(reader.read(&mut buf).unwrap(), 0);
    let mut none: [u8; 0] = [];
    let mut reader = PeekReader::new(b"x");
    assert_eq!(reader.read(&mut none).unwrap(), 0);
    assert_eq!(reader.read_byte().unwrap(), Some(b'x'));
}
