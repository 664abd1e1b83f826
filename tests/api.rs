use http_handler::api::{file_response, ChunkStream, ChunkStreamState, HttpError, Message, Request, Response};
use http_handler::ast::{Chunk, ChunkExtensions, Header, Headers, MessageBody};
use http_handler::io::{BufferedRead, Fragmented, Source};
use http_handler::uri::Uri;

fn b(s: &str) -> Vec<u8> {
    s.as_bytes().to_vec()
}

#[test]
fn can_parse_uri() {
    let uri = Uri::parse("http://authority/some/path?query=string#fragment");
    assert_eq!(uri.scheme, Some(b("http")));
    assert_eq!(uri.authority, Some(b("authority")));
    assert_eq!(uri.path, b("/some/path"));
    assert_eq!(uri.query, Some(b("query=string")));
    assert_eq!(uri.fragment, Some(b("fragment")));
}

#[test]
fn supports_relative() {
    let uri = Uri::parse("some/path");
    assert_eq!(uri.scheme, None);
    assert_eq!(uri.authority, None);
    assert_eq!(uri.path, b("some/path"));
    assert_eq!(uri.query, None);
    assert_eq!(uri.fragment, None);
}

#[test]
fn supports_urns() {
    let uri = Uri::parse("uuid:720f11db-1a29-4a68-a034-43f80b27659d");
    assert_eq!(uri.scheme, Some(b("uuid")));
    assert_eq!(uri.authority, None);
    assert_eq!(uri.path, b("720f11db-1a29-4a68-a034-43f80b27659d"));
    assert_eq!(uri.query, None);
    assert_eq!(uri.fragment, None);
}

#[test]
fn is_reverse_able() {
    let full = "http://authority/some/path?query=string#fragment";
    assert_eq!(Uri::parse(full).to_string(), full.to_string());
    let another = "some/path";
    assert_eq!(Uri::parse(another).to_string(), another.to_string());
}

#[test]
fn uri_edge_cases() {
    let uri = Uri::parse("");
    assert_eq!((uri.scheme, uri.authority, uri.path, uri.query, uri.fragment), (None, None, b(""), None, None));
    let uri = Uri::parse("//host?#");
    assert_eq!((uri.scheme, uri.authority, uri.path, uri.query, uri.fragment), (None, Some(b("host")), b(""), Some(b("")), Some(b(""))));
    let uri = Uri::parse(":x/a:b");
    assert_eq!((uri.scheme, uri.path), (None, b(":x/a:b")));
    assert_eq!(Uri::parse("/é?ü#ß").to_string(), "/é?ü#ß");
}

#[test]
fn can_pattern_match_a_request() {
    let request = Request::get("/some/path").header("Content-Type", "text/plain");
    match request {
        Request { ref method, ref uri, ref headers, .. }
            if method == b"GET" && uri.path == b"/some/path" && headers.get("Content-Type") == Some(&b"text/plain"[..]) => {}
        _ => {
            panic!("Should have matched");
        }
    }
}

#[test]
fn request_builders() {
    assert_eq!(Request::post("/a").method, b("POST"));
    assert_eq!(Request::put("/a").method, b("PUT"));
    assert_eq!(Request::delete("/a").method, b("DELETE"));
    assert_eq!(Request::option("/a").method, b("OPTION"));
    let r = Request::get("/a").header("X", "1").header("x", "2").method("HEAD");
    assert_eq!(r.method, b("HEAD"));
    assert_eq!(r.get_header("X"), Some(&b"2"[..]));
    let r = r.remove_header("X");
    assert_eq!(r.get_header("x"), None);
    assert_eq!(Request::get("/where?q=now").header("Host", "h").to_bytes(), b("GET /where?q=now HTTP/1.1\r\nHost:h\r\n\r\n"));
}

#[test]
fn response_builders_keep_content_length() {
    let ok = Response::ok();
    assert_eq!((ok.code, ok.description.clone()), (200, b("OK")));
    assert_eq!(ok.get_header("content-length"), Some(&b"0"[..]));
    assert_eq!(Response::bad_request().code, 400);
    assert_eq!(Response::unauthorized().code, 401);
    assert_eq!(Response::not_found().description, b("Not Found"));
    assert_eq!(Response::method_not_allowed().code, 405);
    let r = Response::not_found().message("Path denotes a directory");
    assert_eq!(r.description, b("Path denotes a directory"));
    assert_eq!(r.get_header("Content-Type"), Some(&b"text/plain"[..]));
    assert_eq!(r.get_header("Content-Length"), Some(&b"24"[..]));
    assert_eq!(r.entity, MessageBody::Slice(b("Path denotes a directory")));
    let r = Response::ok().content_type("text/html").code(201).description("Created").content_length(12345);
    assert_eq!(r.to_string(), "HTTP/1.1 201 Created\r\nContent-Type:text/html\r\nContent-Length:12345\r\n\r\n");
    let r = r.remove_header("CONTENT-LENGTH").header("A", "b");
    assert_eq!(r.to_bytes(), b("HTTP/1.1 201 Created\r\nContent-Type:text/html\r\nA:b\r\n\r\n"));
}

#[test]
fn simple_get_round_trip() {
    let (message, rest) = Message::parse(&b"GET /where?q=now HTTP/1.1\r\nContent-Type:plain/text\r\n\r\n"[..]).unwrap();
    assert_eq!(rest, &b""[..]);
    match message {
        Message::Request(r) => {
            assert_eq!(r.method, b("GET"));
            assert_eq!(r.uri.path, b("/where"));
            assert_eq!(r.uri.query, Some(b("q=now")));
            assert_eq!(r.headers, Headers(vec![Header::new("Content-Type", "plain/text")]));
            assert_eq!(r.entity, MessageBody::Empty);
            assert_eq!(r.to_bytes(), b("GET /where?q=now HTTP/1.1\r\nContent-Type:plain/text\r\n\r\n"));
        }
        _ => panic!(),
    }
}

#[test]
fn response_with_body() {
    let input = b"HTTP/1.1 200 OK\r\nContent-Type:plain/text\r\nContent-Length:3\r\n\r\nabc";
    let (message, rest) = Message::parse(&input[..]).unwrap();
    assert_eq!(rest, &b""[..]);
    match message {
        Message::Response(r) => {
            assert_eq!(r.code, 200);
            assert_eq!(r.description, b("OK"));
            assert_eq!(r.entity, MessageBody::Slice(b("abc")));
            assert_eq!(r.to_bytes(), input.to_vec());
            let (again, _) = Message::parse(&r.to_bytes()[..]).unwrap();
            assert_eq!(again, Message::Response(r));
        }
        _ => panic!(),
    }
}

#[test]
fn request_parse_refuses_a_response() {
    assert!(Request::parse(&b"HTTP/1.1 200 OK\r\n\r\n"[..]).is_err());
    let (r, rest) = Request::parse(&b"POST /x HTTP/1.1\r\nContent-Length:2\r\n\r\nabcd"[..]).unwrap();
    assert_eq!((r.entity, rest), (MessageBody::Slice(b("ab")), &b"cd"[..]));
}

#[test]
fn message_read_counts_head_and_body() {
    let input = b"POST /x HTTP/1.1\r\nContent-Length:3\r\n\r\nabcGET";
    let (m, n) = Message::read(&input[..]).unwrap();
    assert_eq!(n, 41);
    match m {
        Message::Request(r) => assert_eq!(r.entity, MessageBody::Slice(b("abc"))),
        _ => panic!(),
    }
    assert_eq!(Message::read(&b"POST /x HTTP/1.1\r\nTransfer-Encoding: gzip\r\n\r\n"[..]), Err(HttpError::Protocol));
    assert_eq!(Message::read(&b"POST /x HTTP/1.1\r\n"[..]), Err(HttpError::Incomplete));
}

fn chunked_data() -> &'static [u8] {
    &b"4\r\nWiki\r\n5\r\npedia\r\nE\r\n in\r\n\r\nchunks.\r\n0\r\n\r\nGET /new/request HTTP/1.1\r\n"[..]
}

#[test]
fn can_parse_chunk_stream() {
    let buffered = BufferedRead::new(Fragmented::new(chunked_data(), 1));
    let mut stream = ChunkStream::new(buffered);
    if let Some(Ok(chunk)) = stream.next() {
        assert_eq!(chunk, Chunk::Slice(ChunkExtensions(vec![]), b("Wiki")));
    }
    if let Some(Ok(chunk)) = stream.next() {
        assert_eq!(chunk, Chunk::Slice(ChunkExtensions(vec![]), b("pedia")));
    }
    if let Some(Ok(chunk)) = stream.next() {
        assert_eq!(chunk, Chunk::Slice(ChunkExtensions(vec![]), b(" in\r\n\r\nchunks.")));
    }
    if let Some(Ok(chunk)) = stream.next() {
        assert_eq!(chunk, Chunk::Last(ChunkExtensions(vec![]), Headers::new()));
    }
    assert!(stream.next().is_none());

    let remainder = stream.read.fill_buf().unwrap();
    assert_eq!(remainder, &b"GET /new/request HTTP/1.1\r\n"[..]);
}

#[test]
fn can_read_chunked_stream() {
    let producer = BufferedRead::new(Fragmented::new(chunked_data(), 1));
    let mut consumer = BufferedRead::new(ChunkStream::new(producer));
    let mut result = Vec::new();
    loop {
        let piece = consumer.read(1024).unwrap();
        if piece.is_empty() {
            break;
        }
        result.extend_from_slice(&piece);
    }
    assert_eq!(String::from_utf8(result).unwrap(), "Wikipedia in\r\n\r\nchunks.".to_owned());
    assert!(consumer.inner.drain(100));
    let remainder = consumer.inner.read.fill_buf().unwrap();
    assert_eq!(remainder, &b"GET /new/request HTTP/1.1\r\n"[..]);
}

#[test]
fn chunked_stream_always_reads_to_end() {
    let producer = BufferedRead::new(Fragmented::new(chunked_data(), 1));
    let mut stream = ChunkStream::new(producer);
    assert!(stream.drain(100));
    assert_eq!(stream.state, ChunkStreamState::Finished);
    let remainder = stream.read.fill_buf().unwrap();
    assert_eq!(remainder, &b"GET /new/request HTTP/1.1\r\n"[..]);
}

#[test]
fn chunk_stream_over_fragments() {
    let producer = BufferedRead::new(Fragmented::new(chunked_data(), 20));
    let mut stream = ChunkStream::new(producer);
    let mut data = Vec::new();
    while let Some(chunk) = stream.next() {
        match chunk.unwrap() {
            Chunk::Slice(_, d) => data.extend_from_slice(&d),
            Chunk::Last(_, trailers) => assert_eq!(trailers, Headers::new()),
        }
    }
    assert_eq!(data, b("Wikipedia in\r\n\r\nchunks."));
}

#[test]
fn chunk_stream_reports_a_short_body() {
    let producer = BufferedRead::new(Fragmented::new(&b"4\r\nWi"[..], 1));
    let mut stream = ChunkStream::new(producer);
    assert_eq!(stream.next(), Some(Err(HttpError::LengthViolation)));
}

#[test]
fn request_written_and_read_back() {
    let request = Request::post("http://h/a?b#c").header("Host", "h").header("Content-Length", "3");
    let request = Request { entity: MessageBody::Slice(b("xyz")), ..request };
    let bytes = request.to_bytes();
    let (parsed, rest) = Request::parse(&bytes[..]).unwrap();
    assert_eq!(rest, &b""[..]);
    assert_eq!(parsed, request);
}

#[test]
fn file_responses() {
    let outside = file_response(false, false, 7);
    assert_eq!((outside.code, outside.entity), (401, MessageBody::Slice(b("Not allowed outside of base"))));
    let dir = file_response(true, true, 7);
    assert_eq!((dir.code, dir.description), (404, b("Path denotes a directory")));
    let file = file_response(true, false, 7);
    assert_eq!(file.code, 200);
    assert_eq!(file.get_header("Content-Type"), Some(&b"text/plain"[..]));
    assert_eq!(file.get_header("Content-Length"), Some(&b"7"[..]));
    assert_eq!(file.entity, MessageBody::Reader(http_handler::ast::BodyReader { buffered: vec![], upstream: 7 }));
}

#[test]
fn chunk_data_read_in_small_steps() {
    let producer = BufferedRead::new(Fragmented::new(chunked_data(), 3));
    let mut stream = ChunkStream::new(producer);
    assert_eq!(stream.read_data(3).unwrap(), b("Wik"));
    assert_eq!(stream.pending, b("i"));
    assert_eq!(stream.read_data(3).unwrap(), b("i"));
    assert_eq!(stream.read_data(100).unwrap(), b("pedia"));
    assert_eq!(stream.read_data(100).unwrap(), b(" in\r\n\r\nchunks."));
    assert_eq!(stream.read_data(100).unwrap(), b(""));
    assert_eq!(stream.state, ChunkStreamState::Last(5));
    assert!(stream.drain(1));
    assert_eq!(stream.read.fill_buf().unwrap(), &b"GET /new/request HTTP/1.1\r\n"[..]);
}

#[test]
fn message_parse_follows_transfer_encoding() {
    let (m, rest) = Message::parse(&b"POST /x HTTP/1.1\r\nTransfer-Encoding: chunked\r\nContent-Length: 3\r\n\r\n4\r\nWiki\r\n0\r\n\r\n"[..]).unwrap();
    assert_eq!(rest, &b"4\r\nWiki\r\n0\r\n\r\n"[..]);
    match m {
        Message::Request(r) => assert_eq!(r.entity, MessageBody::Chunked),
        _ => panic!(),
    }
    assert!(Message::parse(&b"POST /x HTTP/1.1\r\nTransfer-Encoding: gzip\r\n\r\n"[..]).is_err());
}
