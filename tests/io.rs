use http_handler::api::HttpError;
use http_handler::io::{consume, unit};
use http_handler::io::{Buffer, BufferedRead, Fragmented, Source};

#[test]
fn when_empty_there_will_be_nothing_to_read() {
    let buffer = Buffer::with_capacity(8);
    let slice: &[u8] = buffer.as_read();
    assert_eq!(slice.len(), 0);
}

#[test]
fn when_empty_the_write_slice_will_have_the_full_capacity() {
    let buffer = Buffer::with_capacity(8);
    assert_eq!(buffer.writable(), 8);
}

#[test]
fn if_you_write_data_it_becomes_available_to_read() {
    let mut buffer = Buffer::with_capacity(8);
    assert_eq!(buffer.write(&[1, 2]), 2);
    assert_eq!(buffer.read_position, 0);
    assert_eq!(buffer.write_position, 2);

    assert_eq!(buffer.write(&[3, 4]), 2);
    assert_eq!(buffer.read_position, 0);
    assert_eq!(buffer.write_position, 4);

    assert_eq!(buffer.as_read().len(), 4);
    assert_eq!(buffer.read(2), vec![1, 2]);
    assert_eq!(buffer.read_position, 2);
    assert_eq!(buffer.write_position, 4);

    assert_eq!(buffer.as_read().len(), 2);
    assert_eq!(buffer.read(2), vec![3, 4]);
    assert_eq!(buffer.read_position, 0);
    assert_eq!(buffer.write_position, 0);
}

#[test]
fn write_stops_at_capacity() {
    let mut buffer = Buffer::with_capacity(3);
    assert_eq!(buffer.write(&[1, 2, 3, 4, 5]), 3);
    assert_eq!(buffer.writable(), 0);
    buffer.increment_read(1);
    assert_eq!(buffer.as_read(), &[2, 3][..]);
}

#[test]
fn fragmented_hands_out_pieces() {
    let mut source = Fragmented::new(&b"1234567890"[..], 4);
    assert_eq!(source.read(100).unwrap(), b"12".to_vec());
    assert_eq!(source.read(1).unwrap(), b"3".to_vec());
    assert_eq!(source.read(100).unwrap(), b"4".to_vec());
    assert_eq!(source.count(), 2);
    assert_eq!(source.read(100).unwrap(), b"56".to_vec());
    assert_eq!(source.read(100).unwrap(), b"78".to_vec());
    assert_eq!(source.read(100).unwrap(), b"90".to_vec());
    assert_eq!(source.read(100).unwrap(), Vec::<u8>::new());
}

#[test]
fn buffered_read_keeps_fragments() {
    let mut reader = BufferedRead::new(Fragmented::new(&b"1234567890"[..], 4));
    assert_eq!(reader.fill_buf().unwrap(), &b"12"[..]);
    assert_eq!(reader.fill_buf().unwrap(), &b"1234"[..]);
    reader.consume(3);
    assert_eq!(reader.fill_buf().unwrap(), &b"456"[..]);
}

#[test]
fn unit_and_consume() {
    assert_eq!(unit(Ok(3)), Ok(()));
    assert_eq!(unit(Err(HttpError::Io)), Err(HttpError::Io));
    assert_eq!(consume(Ok(1)), Ok(()));
    assert_eq!(consume(Ok(0)), Err(HttpError::Eof));
    assert_eq!(consume(Err(HttpError::Protocol)), Err(HttpError::Protocol));
}

#[test]
fn fragmented_pieces_cover_the_data() {
    let data = b"abcdefg";
    let mut source = Fragmented::new(&data[..], 3);
    let mut pieces = Vec::new();
    loop {
        let piece = source.read_piece(100);
        if piece.is_empty() {
            break;
        }
        pieces.push(piece);
    }
    assert_eq!(pieces, vec![b"ab".to_vec(), b"cd".to_vec(), b"ef".to_vec(), b"g".to_vec()]);
    assert_eq!(source.count(), 4);
}
