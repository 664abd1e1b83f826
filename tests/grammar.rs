use http_handler::ast::{
    Chunk, ChunkExtension, ChunkExtensions, ChunkedBody, Header, Headers, HttpMessage, HttpVersion, MessageBody,
    MessageHead, RequestLine, StartLine, StatusLine, TransferCoding, TransferParameter,
};
use http_handler::grammar;
use http_handler::grammar::ParseError;

fn b(s: &str) -> Vec<u8> {
    s.as_bytes().to_vec()
}

fn ext(name: &str, value: Option<&str>) -> ChunkExtension {
    ChunkExtension { name: b(name), value: value.map(b) }
}

fn v11() -> HttpVersion {
    HttpVersion { major: 1, minor: 1 }
}

#[test]
fn http_name() {
    assert_eq!(grammar::http_name(&b"HTTP"[..]), Ok((&b""[..], b("HTTP"))));
}

#[test]
fn http_version() {
    assert_eq!(grammar::http_version(&b"HTTP/1.1"[..]), Ok((&b""[..], HttpVersion { major: 1, minor: 1 })));
}

#[test]
fn request_target() {
    assert_eq!(grammar::request_target(&b"/where?q=now "[..]), Ok((&b" "[..], b("/where?q=now"))));
    assert_eq!(
        grammar::request_target(&b"http://www.example.org/pub/WWW/TheProject.html "[..]),
        Ok((&b" "[..], b("http://www.example.org/pub/WWW/TheProject.html")))
    );
    assert_eq!(grammar::request_target(&b"www.example.com:80 "[..]), Ok((&b" "[..], b("www.example.com:80"))));
    assert_eq!(grammar::request_target(&b"* "[..]), Ok((&b" "[..], b("*"))));
}

#[test]
fn tchar() {
    assert_eq!(grammar::tchar(&b"abc"[..]), Ok((&b"bc"[..], b("a"))));
}

#[test]
fn token() {
    assert_eq!(grammar::token(&b"abc"[..]), Ok((&b""[..], b("abc"))));
}

#[test]
fn method() {
    assert_eq!(grammar::method(&b"GET"[..]), Ok((&b""[..], b("GET"))));
}

#[test]
fn request_line() {
    assert_eq!(
        grammar::request_line(&b"GET /where?q=now HTTP/1.1\r\n"[..]),
        Ok((&b""[..], RequestLine { method: b("GET"), request_target: b("/where?q=now"), version: v11() }))
    );
}

#[test]
fn status_code() {
    assert_eq!(grammar::status_code(&b"200"[..]), Ok((&b""[..], 200)));
}

#[test]
fn reason_phrase() {
    assert_eq!(grammar::reason_phrase(&b"OK"[..]), Ok((&b""[..], b("OK"))));
    assert_eq!(grammar::reason_phrase(&b"Not Found"[..]), Ok((&b""[..], b("Not Found"))));
}

#[test]
fn status_line() {
    assert_eq!(
        grammar::status_line(&b"HTTP/1.1 200 OK\r\n"[..]),
        Ok((&b""[..], StatusLine { version: v11(), code: 200, description: b("OK") }))
    );
}

#[test]
fn start_line() {
    assert_eq!(
        grammar::start_line(&b"GET /where?q=now HTTP/1.1\r\n"[..]),
        Ok((
            &b""[..],
            StartLine::RequestLine(RequestLine { method: b("GET"), request_target: b("/where?q=now"), version: v11() })
        ))
    );
    assert_eq!(
        grammar::start_line(&b"HTTP/1.1 200 OK\r\n"[..]),
        Ok((&b""[..], StartLine::StatusLine(StatusLine { version: v11(), code: 200, description: b("OK") })))
    );
}

#[test]
fn field_name() {
    assert_eq!(grammar::field_name(&b"Content-Type"[..]), Ok((&b""[..], b("Content-Type"))));
}

#[test]
fn field_content() {
    assert_eq!(grammar::field_content(&b"a  b"[..]), Ok((&b""[..], b("a  b"))));
    assert_eq!(grammar::field_content(&b"a b"[..]), Ok((&b""[..], b("a b"))));
    assert_eq!(grammar::field_content(&b"a"[..]), Ok((&b""[..], b("a"))));
}

#[test]
fn field_value() {
    assert_eq!(grammar::field_value(&b"plain/text"[..]), Ok((&b""[..], b("plain/text"))));
    assert_eq!(
        grammar::field_value(&b"Spaces are allowed in the middle"[..]),
        Ok((&b""[..], b("Spaces are allowed in the middle")))
    );
    // An obs-fold stands for a single SP in the value.
    assert_eq!(
        grammar::field_value(&b"You can al\r\n so wrap onto new lines!"[..]),
        Ok((&b""[..], b("You can al so wrap onto new lines!")))
    );
}

#[test]
fn header_field() {
    assert_eq!(grammar::header_field(&b"Content-Type:plain/text"[..]), Ok((&b""[..], Header::new("Content-Type", "plain/text"))));
    assert_eq!(grammar::header_field(&b"Content-Type: plain/text"[..]), Ok((&b""[..], Header::new("Content-Type", "plain/text"))));
    assert_eq!(grammar::header_field(&b"Content-Type: plain/text "[..]), Ok((&b""[..], Header::new("Content-Type", "plain/text"))));
    assert_eq!(
        grammar::header_field(&b"Content-Type: plain/\r\n text "[..]),
        Ok((&b""[..], Header::new("Content-Type", "plain/ text")))
    );
}

#[test]
fn http_message() {
    assert_eq!(
        grammar::http_message(&b"GET /where?q=now HTTP/1.1\r\nContent-Type:plain/text\r\n\r\n"[..]),
        Ok((
            &b""[..],
            HttpMessage {
                start_line: StartLine::RequestLine(RequestLine { method: b("GET"), request_target: b("/where?q=now"), version: v11() }),
                headers: Headers(vec![Header::new("Content-Type", "plain/text")]),
                body: MessageBody::Empty,
            }
        ))
    );
    assert_eq!(
        grammar::http_message(&b"HTTP/1.1 200 OK\r\nContent-Type:plain/text\r\n\r\n"[..]),
        Ok((
            &b""[..],
            HttpMessage {
                start_line: StartLine::StatusLine(StatusLine { version: v11(), code: 200, description: b("OK") }),
                headers: Headers(vec![Header::new("Content-Type", "plain/text")]),
                body: MessageBody::Empty,
            }
        ))
    );
    assert_eq!(
        grammar::http_message(&b"HTTP/1.1 200 OK\r\nContent-Type:plain/text\r\nContent-Length:3\r\n\r\nabc"[..]),
        Ok((
            &b""[..],
            HttpMessage {
                start_line: StartLine::StatusLine(StatusLine { version: v11(), code: 200, description: b("OK") }),
                headers: Headers(vec![Header::new("Content-Type", "plain/text"), Header::new("Content-Length", "3")]),
                body: MessageBody::Slice(b("abc")),
            }
        ))
    );
}

#[test]
fn chunk_size() {
    assert_eq!(grammar::chunk_size(&b"4\r\n"[..]), Ok((&b"\r\n"[..], 4)));
    assert_eq!(grammar::chunk_size(&b"E\r\n"[..]), Ok((&b"\r\n"[..], 14)));
    assert_eq!(grammar::chunk_size(&b"e\r\n"[..]), Ok((&b"\r\n"[..], 14)));
}

#[test]
fn quoted_string() {
    assert_eq!(grammar::quoted_string(&b"\"This is a quoted string\""[..]), Ok((&b""[..], b("This is a quoted string"))));
    assert_eq!(
        grammar::quoted_string(&b"\"This is a \\\"quoted\\\" string\""[..]),
        Ok((&b""[..], b("This is a \"quoted\" string")))
    );
}

#[test]
fn chunk_ext() {
    assert_eq!(grammar::chunk_ext(&b";foo=bar"[..]), Ok((&b""[..], ChunkExtensions(vec![ext("foo", Some("bar"))]))));
    assert_eq!(grammar::chunk_ext(&b";foo"[..]), Ok((&b""[..], ChunkExtensions(vec![ext("foo", None)]))));
    assert_eq!(
        grammar::chunk_ext(&b";foo=bar;baz"[..]),
        Ok((&b""[..], ChunkExtensions(vec![ext("foo", Some("bar")), ext("baz", None)])))
    );
    assert_eq!(
        grammar::chunk_ext(&b" ; foo = bar ; baz"[..]),
        Ok((&b""[..], ChunkExtensions(vec![ext("foo", Some("bar")), ext("baz", None)])))
    );
    assert_eq!(grammar::chunk_ext(&b""[..]), Ok((&b""[..], ChunkExtensions(vec![]))));
}

#[test]
fn chunk() {
    assert_eq!(
        grammar::chunk(&b"4;foo=bar\r\nWiki\r\n"[..]),
        Ok((&b""[..], Chunk::Slice(ChunkExtensions(vec![ext("foo", Some("bar"))]), b("Wiki"))))
    );
}

#[test]
fn chunked_body() {
    let chunked_body = ChunkedBody::new(
        vec![
            Chunk::Slice(ChunkExtensions(vec![]), b("Wiki")),
            Chunk::Slice(ChunkExtensions(vec![]), b("pedia")),
            Chunk::Slice(ChunkExtensions(vec![]), b(" in\r\n\r\nchunks.")),
        ],
        ChunkExtensions(vec![]),
        Headers(vec![]),
    );
    assert_eq!(
        grammar::chunked_body(&b"4\r\nWiki\r\n5\r\npedia\r\nE\r\n in\r\n\r\nchunks.\r\n0\r\n\r\n"[..]),
        Ok((&b""[..], chunked_body))
    );
}

#[test]
fn message_head() {
    assert_eq!(
        grammar::message_head(&b"POST /where?q=now HTTP/1.1\r\nContent-Type:plain/text\r\nContent-Length:3\r\n\r\nabc"[..]),
        Ok((
            &b"abc"[..],
            MessageHead {
                start_line: StartLine::RequestLine(RequestLine { method: b("POST"), request_target: b("/where?q=now"), version: v11() }),
                headers: Headers(vec![Header::new("Content-Type", "plain/text"), Header::new("Content-Length", "3")]),
            }
        ))
    );
}

#[test]
fn transfer_coding() {
    assert_eq!(grammar::transfer_coding(&b"chunked"[..]), Ok((&b""[..], TransferCoding::Chunked)));
    assert_eq!(grammar::transfer_coding(&b"compress"[..]), Ok((&b""[..], TransferCoding::Compress)));
    assert_eq!(grammar::transfer_coding(&b"deflate"[..]), Ok((&b""[..], TransferCoding::Deflate)));
    assert_eq!(grammar::transfer_coding(&b"gzip"[..]), Ok((&b""[..], TransferCoding::Gzip)));
    assert_eq!(
        grammar::transfer_coding(&b"cat ; foo=bar"[..]),
        Ok((&b""[..], TransferCoding::Extension(b("cat"), vec![TransferParameter::new("foo", Some("bar"))])))
    );
}

#[test]
fn transfer_encoding() {
    assert_eq!(
        grammar::transfer_encoding(&b"gzip, chunked"[..]),
        Ok((&b""[..], vec![TransferCoding::Gzip, TransferCoding::Chunked]))
    );
    assert_eq!(grammar::transfer_encoding(&b"chunked"[..]), Ok((&b""[..], vec![TransferCoding::Chunked])));
}

#[test]
fn parsers_ask_for_more_input_on_a_prefix() {
    assert_eq!(grammar::http_name(&b"HT"[..]), Err(ParseError::Incomplete));
    assert_eq!(grammar::status_code(&b"20"[..]), Err(ParseError::Incomplete));
    assert_eq!(grammar::request_target(&b"/where"[..]), Err(ParseError::Incomplete));
    assert_eq!(grammar::message_head(&b"GET / HTTP/1.1\r\nHost: x"[..]), Err(ParseError::Incomplete));
    assert_eq!(grammar::message_head(&b"GET / HTTP/1.1\r\n"[..]), Err(ParseError::Incomplete));
    assert_eq!(grammar::http_message(&b"HTTP/1.1 200 OK\r\nContent-Length:3\r\n\r\nab"[..]), Err(ParseError::Incomplete));
}

#[test]
fn parsers_reject_what_breaks_the_grammar() {
    assert_eq!(grammar::http_name(&b"HTTX"[..]), Err(ParseError::Invalid));
    assert_eq!(grammar::token(&b" abc"[..]), Err(ParseError::Invalid));
    assert_eq!(grammar::status_code(&b"2x0"[..]), Err(ParseError::Invalid));
    assert_eq!(grammar::chunk_size(&b"11111111111111111\r\n"[..]), Err(ParseError::Invalid));
    assert_eq!(grammar::message_head(&b"GET / HTTP/1.1\r\nHost x\r\n\r\n"[..]), Err(ParseError::Invalid));
    assert_eq!(grammar::chunk(&b"0\r\n\r\n"[..]), Err(ParseError::Invalid));
}

#[test]
fn chunk_size_reads_sixteen_hex_digits() {
    assert_eq!(grammar::chunk_size(&b"ffffffffffffffff;"[..]), Ok((&b";"[..], u64::MAX)));
    assert_eq!(grammar::chunk_size(&b"0010\r\n"[..]), Ok((&b"\r\n"[..], 16)));
}

#[test]
fn header_value_cut_inside_a_character_needs_more_input() {
    let full = "Name: caf\u{e9}\r\n".as_bytes();
    assert_eq!(grammar::header_field(&full[..10]), Err(ParseError::Incomplete));
    assert_eq!(grammar::header_field(&full[..11]), Ok((&b""[..], Header::new("Name", "caf\u{e9}"))));
    assert_eq!(grammar::header_field(&b"Name: caf\xff\r\n"[..]), Err(ParseError::Invalid));
}

#[test]
fn every_prefix_of_a_head_needs_more_input() {
    let head = b"POST /where?q=now HTTP/1.1\r\nContent-Type: plain/text\r\nContent-Length: 3\r\n\r\n";
    for k in 0..head.len() {
        assert_eq!(grammar::message_head(&head[..k]).map(|_| ()), Err(ParseError::Incomplete), "prefix of {} bytes", k);
    }
    assert!(grammar::message_head(&head[..]).is_ok());
}
