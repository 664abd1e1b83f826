use http_handler::ast::{Header, Headers, HttpMessage, HttpVersion, MessageBody, MessageHead, RequestLine, StartLine, StatusLine, TransferCoding};
use http_handler::ast::{BodyReader, Chunk, ChunkExtensions};
use http_handler::grammar::ParseError;

fn b(s: &str) -> Vec<u8> {
    s.as_bytes().to_vec()
}

#[test]
fn http_version_display() {
    assert_eq!(HttpVersion { major: 1, minor: 1 }.to_string(), "HTTP/1.1");
}

#[test]
fn request_line_display() {
    assert_eq!(
        RequestLine { method: b("GET"), request_target: b("/where?q=now"), version: HttpVersion { major: 1, minor: 1 } }.to_string(),
        "GET /where?q=now HTTP/1.1\r\n"
    );
}

#[test]
fn status_line_display() {
    assert_eq!(
        StatusLine { version: HttpVersion { major: 1, minor: 1 }, code: 200, description: b("OK") }.to_string(),
        "HTTP/1.1 200 OK\r\n"
    );
}

#[test]
fn start_line_display() {
    assert_eq!(
        StartLine::RequestLine(RequestLine { method: b("GET"), request_target: b("/where?q=now"), version: HttpVersion { major: 1, minor: 1 } })
            .to_string(),
        "GET /where?q=now HTTP/1.1\r\n"
    );
}

#[test]
fn headers_display() {
    assert_eq!(
        Headers(vec![Header::new("Content-Type", "plain/text"), Header::new("Content-Length", "3")]).to_string(),
        "Content-Type:plain/text\r\nContent-Length:3\r\n"
    );
}

#[test]
fn message_body_display() {
    assert_eq!(MessageBody::Slice(b("abc")).to_string(), "abc");
    assert_eq!(MessageBody::Empty.to_string(), "");
    assert_eq!(MessageBody::Reader(BodyReader { buffered: vec![], upstream: 3 }).to_string(), "streaming");
}

#[test]
fn http_message_display() {
    assert_eq!(
        HttpMessage {
            start_line: StartLine::StatusLine(StatusLine { version: HttpVersion { major: 1, minor: 1 }, code: 200, description: b("OK") }),
            headers: Headers(vec![Header::new("Content-Type", "plain/text"), Header::new("Content-Length", "3")]),
            body: MessageBody::Slice(b("abc")),
        }
        .to_string(),
        "HTTP/1.1 200 OK\r\nContent-Type:plain/text\r\nContent-Length:3\r\n\r\nabc"
    );
}

#[test]
fn message_head_display() {
    let head = MessageHead {
        start_line: StartLine::StatusLine(StatusLine { version: HttpVersion { major: 1, minor: 0 }, code: 404, description: b("Not Found") }),
        headers: Headers(vec![Header::new("A", "b")]),
    };
    assert_eq!(head.to_string(), "HTTP/1.0 404 Not Found\r\nA:b\r\n\r\n");
}

#[test]
fn can_parse_transfer_encoding() {
    {
        let headers = Headers(vec![Header::new("Transfer-Encoding", "gzip, chunked"), Header::new("Content-Type", "plain/text")]);
        assert_eq!(headers.transfer_encoding(), vec![TransferCoding::Gzip, TransferCoding::Chunked])
    }

    {
        let headers = Headers(vec![
            Header::new("Transfer-Encoding", "gzip"),
            Header::new("Content-Type", "plain/text"),
            Header::new("Transfer-Encoding", "chunked"),
        ]);
        assert_eq!(headers.transfer_encoding(), vec![TransferCoding::Gzip, TransferCoding::Chunked])
    }
}

#[test]
fn transfer_encoding_that_does_not_parse_gives_nothing() {
    let headers = Headers(vec![Header::new("Transfer-Encoding", "gzip"), Header::new("transfer-encoding", "chunked;")]);
    assert_eq!(headers.transfer_encoding(), vec![]);
}

#[test]
fn header_lookup_ignores_ascii_case() {
    let headers = Headers(vec![Header::new("Content-Type", "a"), Header::new("content-type", "b"), Header::new("X", "c")]);
    assert_eq!(headers.get("content-TYPE"), Some(&b"a"[..]));
    assert_eq!(headers.get("CONTENT-TYPE"), headers.get("content-type"));
    assert_eq!(headers.get("Missing"), None);
    assert_eq!(headers.headers("CONTENT-type"), vec![b("a"), b("b")]);
}

#[test]
fn replace_removes_every_case_variant() {
    let mut headers = Headers(vec![Header::new("Content-Type", "a"), Header::new("X", "c"), Header::new("content-type", "b")]);
    headers.replace("CONTENT-TYPE", "z");
    assert_eq!(headers, Headers(vec![Header::new("X", "c"), Header::new("CONTENT-TYPE", "z")]));
    headers.remove("x");
    assert_eq!(headers, Headers(vec![Header::new("CONTENT-TYPE", "z")]));
}

#[test]
fn content_length_reads_the_first_header() {
    let headers = Headers(vec![Header::new("Content-Length", "abc"), Header::new("content-length", "12"), Header::new("Content-Length", "3")]);
    assert_eq!(headers.content_length(), None);
    assert_eq!(headers.framing_length(), Some(12));
    assert_eq!(Headers(vec![Header::new("content-length", "12"), Header::new("Content-Length", "3")]).content_length(), Some(12));
    assert_eq!(Headers::new().content_length(), None);
    assert_eq!(Headers(vec![Header::new("Content-Length", "x")]).content_length(), None);
    assert_eq!(Headers(vec![Header::new("Content-Length", "0")]).content_length(), Some(0));
}

#[test]
fn body_framing() {
    let first_bad = Headers(vec![Header::new("Content-Length", "x"), Header::new("Content-Length", "3")]);
    assert_eq!(MessageBody::read(&first_bad, &b"abcdef"[..]), Ok((MessageBody::Slice(b("abc")), 3)));
    let cl = Headers(vec![Header::new("Content-Length", "3")]);
    assert_eq!(MessageBody::read(&cl, &b"abcdef"[..]), Ok((MessageBody::Slice(b("abc")), 3)));
    assert_eq!(
        MessageBody::read(&cl, &b"a"[..]),
        Ok((MessageBody::Reader(BodyReader { buffered: b("a"), upstream: 2 }), 1))
    );
    let zero = Headers(vec![Header::new("Content-Length", "0")]);
    assert_eq!(MessageBody::read(&zero, &b"abc"[..]), Ok((MessageBody::Empty, 0)));
    let chunked = Headers(vec![Header::new("Content-Length", "3"), Header::new("Transfer-Encoding", "gzip, chunked")]);
    assert_eq!(MessageBody::read(&chunked, &b"abc"[..]), Ok((MessageBody::Chunked, 0)));
    let smuggled = Headers(vec![Header::new("Transfer-Encoding", "chunked, gzip")]);
    assert!(MessageBody::read(&smuggled, &b"abc"[..]).is_err());
}

#[test]
fn chunk_read_reports_what_it_takes() {
    let data = &b"4\r\nWiki\r\n0\r\nA: b\r\n\r\nrest"[..];
    assert_eq!(Chunk::read(data), Ok((Chunk::Slice(ChunkExtensions(vec![]), b("Wiki")), 9)));
    assert_eq!(
        Chunk::read(&data[9..]),
        Ok((Chunk::Last(ChunkExtensions(vec![]), Headers(vec![Header::new("A", "b")])), 11))
    );
    assert_eq!(Chunk::read(&b"4\r\nWi"[..]), Err(ParseError::Incomplete));
    assert_eq!(Chunk::read(&b"4\r\nWikiXY"[..]), Err(ParseError::Invalid));
}
