use http_handler::api::{HttpError, Message};
use http_handler::ast::MessageBody;
use http_handler::io::{Buffer, Fragmented};
use http_handler::server::{step_after, Step, Stream};

#[test]
fn read_supports_fragmentation() {
    let get = "GET / HTTP/1.1\r\n\r\n";
    let post = "POST /foo HTTP/1.1\r\n\r\n";
    let put = "PUT /bar HTTP/1.1\r\n\r\n";
    let option = "OPTION / HTTP/1.1\r\n\r\n";
    let index = vec![get, post, put, option];
    let requests = index.iter().fold(String::new(), |a, &v| a + v);
    let data = requests.as_bytes();
    let mut buffer = Buffer::with_capacity(data.len());
    let mut read = Fragmented::new(data, 10);
    let mut count = 0;
    let mut calls = 0;

    while count < index.len() {
        calls += 1;
        assert!(calls < 100);
        if let Ok(message) = Stream::read(&mut read, &mut buffer) {
            assert_eq!(message, Message::parse(index[count].as_bytes()).unwrap().0);
            count += 1;
        }
    }
    assert_eq!(buffer.as_read().len(), 0);
}

#[test]
fn read_handles_requests_that_fit_in_buffer() {
    let get = "GET / HTTP/1.1\r\n\r\n";
    let index = vec![get, get, get, get];
    let requests = index.iter().fold(String::new(), |a, &v| a + v);
    let mut data = Fragmented::new(requests.as_bytes(), 1);
    let mut buffer = Buffer::with_capacity(get.len());
    let mut count = 0;

    while count < index.len() {
        let message = Stream::read(&mut data, &mut buffer).expect("No errors");
        assert_eq!(message, Message::parse(index[count].as_bytes()).unwrap().0);
        count += 1;
    }
}

#[test]
fn read_handles_requests_that_head_fits_in_buffer_but_body_is_streamed() {
    let head = "POST /where?q=now HTTP/1.1\r\nContent-Type: plain/text\r\nContent-Length: 26\r\n\r\n";
    let body = "abcdefghijklmnopqrstuvwxyz";
    let request = head.to_owned() + body;
    let index = vec![head, body, head, body];
    let requests = index.iter().fold(String::new(), |a, &v| a + v);
    let mut data = Fragmented::new(requests.as_bytes(), 1);
    let mut buffer = Buffer::with_capacity(head.len());
    let mut count = 0;

    for _ in 0..2 {
        let message = Stream::read(&mut data, &mut buffer).expect("No errors");
        let mut result = Vec::new();
        message.write_to(&mut result);
        if let Message::Request(r) = &message {
            if let MessageBody::Reader(reader) = &r.entity {
                let all = Stream::read_body(&mut data, reader).expect("No errors");
                result.extend_from_slice(&all[reader.buffered.len()..]);
            }
        }
        // Headers are written back as `name:value`.
        assert_eq!(String::from_utf8(result).unwrap(), request.replace(": ", ":"));
        count += 1;
    }
    assert_eq!(count, 2);

    assert!(Stream::read(&mut data, &mut buffer).is_err());
}

#[test]
fn read_handles_requests_where_the_body_is_not_consumed() {
    let head = "POST /where?q=now HTTP/1.1\r\nContent-Type: plain/text\r\nContent-Length: 26\r\n\r\n";
    let body = "abcdefghijklmnopqrstuvwxyz";
    let index = vec![head, body, head, body];
    let requests = index.iter().fold(String::new(), |a, &v| a + v);
    let mut data = Fragmented::new(requests.as_bytes(), 1);
    let mut buffer = Buffer::with_capacity(head.len());
    let mut count = 0;

    for _ in 0..2 {
        let message = Stream::read(&mut data, &mut buffer).expect("No errors");
        // The body is left unread, then drained.
        if let Message::Request(mut r) = message {
            Stream::drain(&mut data, &mut r.entity).expect("No errors");
        }
        count += 1;
    }
    assert_eq!(count, 2);

    assert_eq!(Stream::read(&mut data, &mut buffer), Err(HttpError::Eof));
}

#[test]
fn abandoned_body_through_a_small_buffer() {
    let one = "POST /x HTTP/1.1\r\nContent-Length:26\r\n\r\nabcdefghijklmnopqrstuvwxyz";
    let data = one.to_owned() + one;
    let mut source = Fragmented::new(data.as_bytes(), 1);
    let mut buffer = Buffer::with_capacity(50);
    for _ in 0..2 {
        let message = Stream::read(&mut source, &mut buffer).expect("No errors");
        if let Message::Request(mut r) = message {
            assert_eq!(r.uri.path, b"/x".to_vec());
            Stream::drain(&mut source, &mut r.entity).expect("No errors");
        }
    }
    assert_eq!(Stream::read(&mut source, &mut buffer), Err(HttpError::Eof));
}

#[test]
fn drain_takes_exactly_the_rest_of_the_body() {
    let data = b"0123456789NEXT";
    let mut source = Fragmented::new(&data[..], 3);
    let mut body = MessageBody::Reader(http_handler::ast::BodyReader { buffered: b"ab".to_vec(), upstream: 10 });
    assert_eq!(Stream::drain(&mut source, &mut body), Ok(10));
    assert_eq!(body, MessageBody::Reader(http_handler::ast::BodyReader { buffered: b"ab".to_vec(), upstream: 0 }));
    let mut empty = MessageBody::Empty;
    assert_eq!(Stream::drain(&mut source, &mut empty), Ok(0));
    let mut buffer = Buffer::with_capacity(8);
    buffer.fill(&mut source).unwrap();
    buffer.fill(&mut source).unwrap();
    assert_eq!(buffer.as_read(), &b"NEXT"[..]);
}

#[test]
fn steps_after_a_failed_read() {
    assert_eq!(step_after(HttpError::Incomplete), Step::Retry);
    assert_eq!(step_after(HttpError::Protocol), Step::Reject);
    assert_eq!(step_after(HttpError::Eof), Step::Close);
    assert_eq!(step_after(HttpError::LengthViolation), Step::Close);
    assert_eq!(step_after(HttpError::Io), Step::Close);
}

#[test]
fn chunked_body_drained_through_the_connection_buffer() {
    let data = b"POST /c HTTP/1.1\r\nTransfer-Encoding: chunked\r\n\r\n4\r\nWiki\r\n0\r\n\r\nGET /next HTTP/1.1\r\n\r\n";
    let mut source = Fragmented::new(&data[..], 7);
    let mut buffer = Buffer::with_capacity(128);
    let mut first = None;
    for _ in 0..20 {
        match Stream::read(&mut source, &mut buffer) {
            Ok(m) => {
                first = Some(m);
                break;
            }
            Err(e) => assert_eq!(step_after(e), Step::Retry),
        }
    }
    match first.unwrap() {
        Message::Request(r) => assert_eq!(r.entity, MessageBody::Chunked),
        _ => panic!(),
    }
    Stream::drain_chunked(&mut source, &mut buffer, 100).unwrap();
    let mut next = None;
    for _ in 0..20 {
        if let Ok(m) = Stream::read(&mut source, &mut buffer) {
            next = Some(m);
            break;
        }
    }
    match next.unwrap() {
        Message::Request(r) => assert_eq!(r.uri.path, b"/next".to_vec()),
        _ => panic!(),
    }
}

#[test]
fn a_complete_message_in_the_buffer_is_read_after_the_source_ends() {
    let data = b"GET /a HTTP/1.1\r\n\r\nGET /b HTTP/1.1\r\n\r\n";
    let mut source = Fragmented::new(&data[..], 1);
    let mut buffer = Buffer::with_capacity(64);
    for path in [&b"/a"[..], &b"/b"[..]] {
        match Stream::read(&mut source, &mut buffer).unwrap() {
            Message::Request(r) => assert_eq!(r.uri.path, path.to_vec()),
            _ => panic!(),
        }
    }
    assert_eq!(Stream::read(&mut source, &mut buffer), Err(HttpError::Eof));
}
