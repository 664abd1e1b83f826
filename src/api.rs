use vstd::prelude::*;
use vstd::string::StringSliceAdditionalSpecFns;
use vstd::utf8::{valid_utf8, decode_utf8};
use crate::ast::{
    HttpVersion, StartLine, StartLineView, Headers, MessageBody, BodyView, HttpMessage, without,
    lookup, decimal, push_decimal, push_all, push_crlf, headers_bytes, body_bytes, body_text, str_bytes,
    version_bytes, spec_body_framing, FramingError,
};
use crate::grammar::{ParseError, http_message, message_head, spec_http_message, spec_message_head};
use crate::uri::{Uri, UriView, spec_uri, uri_bytes};
use crate::text::text_of;
use crate::io::{Source, BufferedRead};
use crate::ast::{Chunk, ChunkView, spec_chunk_read};
use crate::server::last_chunk_before;

verus! {

/// Why no message could be had from the bytes in hand.
#[derive(PartialEq, Eq, Debug, Clone, Copy)]
pub enum HttpError {
    /// More bytes are needed to decide.
    Incomplete,
    /// The bytes break the grammar or the framing rules.
    Protocol,
    /// Fewer body bytes came than were announced.
    LengthViolation,
    /// The byte source failed.
    Io,
    /// The byte source ended.
    Eof,
}

pub open spec fn content_length_text() -> Seq<u8> {
    crate::ast::content_length_name()
}

#[derive(PartialEq, Eq, Debug, Clone)]
pub struct Request {
    pub method: Vec<u8>,
    pub uri: Uri,
    pub headers: Headers,
    pub entity: MessageBody,
}

/// A request's request line, with the URI written back and version 1.1.
pub open spec fn request_head_line(method: Seq<u8>, uri: UriView) -> Seq<u8> {
    method + seq![32u8] + uri_bytes(uri) + seq![32u8] + version_bytes(HttpVersion { major: 1, minor: 1 })
        + seq![13u8, 10u8]
}

pub open spec fn request_bytes(r: Request) -> Seq<u8> {
    request_head_line(r.method@, r.uri@) + headers_bytes(r.headers@) + seq![13u8, 10u8] + body_bytes(r.entity@)
}

impl Request {
    pub fn new(method: &str, url: &str, headers: Headers, entity: MessageBody) -> (r: Request)
        ensures
            r.method@ == method.spec_bytes(),
            r.uri@ == spec_uri(url.spec_bytes()),
            r.headers == headers,
            r.entity == entity,
    {
        Request { method: str_bytes(method), uri: Uri::parse(url), headers, entity }
    }

    /// A request from the parts of a request line as bytes.
    pub fn from_parts(method: Vec<u8>, target: &[u8], headers: Headers, entity: MessageBody) -> (r: Request)
        ensures
            r.method == method,
            r.uri@ == spec_uri(target@),
            r.headers == headers,
            r.entity == entity,
    {
        Request { method, uri: Uri::parse_bytes(target), headers, entity }
    }

    pub fn request(method: &str, url: &str) -> (r: Request)
        ensures
            r.method@ == method.spec_bytes(),
            r.uri@ == spec_uri(url.spec_bytes()),
            r.headers@ == Seq::<(Seq<u8>, Seq<u8>)>::empty(),
            r.entity == MessageBody::Empty,
    {
        Request::new(method, url, Headers::new(), MessageBody::Empty)
    }

    /// Parses a whole message that must be a request.
    pub fn parse<'a>(slice: &'a [u8]) -> (r: Result<(Request, &'a [u8]), ParseError>)
        ensures
            match r {
                Ok((req, rest)) => match spec_http_message(slice@) {
                    Ok((srest, (StartLineView::Request(l), hs, body))) => rest@ == srest
                        && req.method@ == l.0 && req.uri@ == spec_uri(l.1) && req.headers@ == hs
                        && req.entity@ == body,
                    _ => false,
                },
                Err(e) => match spec_http_message(slice@) {
                    Ok((_, (StartLineView::Status(_), _, _))) => e == ParseError::Invalid,
                    Ok(_) => false,
                    Err(se) => e == se,
                },
            },
    {
        let (rest, message) = http_message(slice)?;
        match message.start_line {
            StartLine::RequestLine(line) => Ok((
                Request::from_parts(line.method, line.request_target.as_slice(), message.headers, message.body),
                rest,
            )),
            StartLine::StatusLine(_) => Err(ParseError::Invalid),
        }
    }

    pub fn get(url: &str) -> (r: Request)
        ensures
            r.method@ == "GET".spec_bytes(),
            r.uri@ == spec_uri(url.spec_bytes()),
            r.headers@.len() == 0,
            r.entity == MessageBody::Empty,
    {
        Request::request("GET", url)
    }

    pub fn post(url: &str) -> (r: Request)
        ensures
            r.method@ == "POST".spec_bytes(),
            r.uri@ == spec_uri(url.spec_bytes()),
            r.headers@.len() == 0,
            r.entity == MessageBody::Empty,
    {
        Request::request("POST", url)
    }

    pub fn put(url: &str) -> (r: Request)
        ensures
            r.method@ == "PUT".spec_bytes(),
            r.uri@ == spec_uri(url.spec_bytes()),
            r.headers@.len() == 0,
            r.entity == MessageBody::Empty,
    {
        Request::request("PUT", url)
    }

    pub fn delete(url: &str) -> (r: Request)
        ensures
            r.method@ == "DELETE".spec_bytes(),
            r.uri@ == spec_uri(url.spec_bytes()),
            r.headers@.len() == 0,
            r.entity == MessageBody::Empty,
    {
        Request::request("DELETE", url)
    }

    pub fn option(url: &str) -> (r: Request)
        ensures
            r.method@ == "OPTION".spec_bytes(),
            r.uri@ == spec_uri(url.spec_bytes()),
            r.headers@.len() == 0,
            r.entity == MessageBody::Empty,
    {
        Request::request("OPTION", url)
    }

    pub fn method(self, method: &str) -> (r: Request)
        ensures
            r.method@ == method.spec_bytes(),
            r.uri == self.uri,
            r.headers == self.headers,
            r.entity == self.entity,
    {
        let mut r = self;
        r.method = str_bytes(method);
        r
    }

    pub fn header(self, name: &str, value: &str) -> (r: Request)
        ensures
            r.headers@ == without(self.headers@, name.spec_bytes()).push((name.spec_bytes(), value.spec_bytes())),
            r.method == self.method,
            r.uri == self.uri,
            r.entity == self.entity,
    {
        let mut r = self;
        r.headers.replace(name, value);
        r
    }

    pub fn get_header(&self, name: &str) -> (r: Option<&[u8]>)
        ensures
            match r {
                Some(v) => lookup(self.headers@, name.spec_bytes()) == Some(v@),
                None => lookup(self.headers@, name.spec_bytes()) is None,
            },
    {
        self.headers.get(name)
    }

    pub fn remove_header(self, name: &str) -> (r: Request)
        ensures
            r.headers@ == without(self.headers@, name.spec_bytes()),
            r.method == self.method,
            r.uri == self.uri,
            r.entity == self.entity,
    {
        let mut r = self;
        r.headers.remove(name);
        r
    }

    /// Writes the request line (version 1.1), the headers, the empty line
    /// and what the body holds in hand.
    pub fn write_to(&self, out: &mut Vec<u8>)
        ensures
            final(out)@ == old(out)@ + request_bytes(*self),
    {
        let ghost start = out@;
        push_all(out, self.method.as_slice());
        out.push(32);
        self.uri.write_to(out);
        out.push(32);
        HttpVersion { major: 1, minor: 1 }.write_to(out);
        push_crlf(out);
        self.headers.write_to(out);
        push_crlf(out);
        self.entity.write_to(out);
        assert(out@ =~= start + request_bytes(*self));
    }

    pub fn to_bytes(&self) -> (r: Vec<u8>)
        ensures
            r@ == request_bytes(*self),
    {
        let mut out: Vec<u8> = Vec::new();
        self.write_to(&mut out);
        assert(out@ =~= request_bytes(*self));
        out
    }

    /// The request as text: as `write_to` writes it, but with the body as
    /// `body_text` shows it.
    pub fn to_string(&self) -> (r: String)
        ensures
            ({
                let t = request_head_line(self.method@, self.uri@) + headers_bytes(self.headers@) + seq![13u8, 10u8]
                    + body_text(self.entity@);
                valid_utf8(t) ==> r@ == decode_utf8(t)
            }),
    {
        let mut out: Vec<u8> = Vec::new();
        push_all(&mut out, self.method.as_slice());
        out.push(32);
        self.uri.write_to(&mut out);
        out.push(32);
        HttpVersion { major: 1, minor: 1 }.write_to(&mut out);
        push_crlf(&mut out);
        self.headers.write_to(&mut out);
        push_crlf(&mut out);
        self.entity.write_text(&mut out);
        assert(out@ =~= request_head_line(self.method@, self.uri@) + headers_bytes(self.headers@) + seq![13u8, 10u8]
            + body_text(self.entity@));
        text_of(out.as_slice())
    }
}

#[derive(PartialEq, Eq, Debug, Clone)]
pub struct Response {
    pub code: u16,
    pub description: Vec<u8>,
    pub headers: Headers,
    pub entity: MessageBody,
}

/// The length of a body that is known without reading: none has 0 bytes, a
/// slice its own length.
pub open spec fn known_length(b: BodyView) -> Option<nat> {
    match b {
        BodyView::Empty => Some(0),
        BodyView::Slice(d) => Some(d.len()),
        _ => None,
    }
}

/// The headers of a response with body `b`: Content-Length set to the
/// body's length where that is known.
pub open spec fn with_length(hs: Seq<(Seq<u8>, Seq<u8>)>, b: BodyView) -> Seq<(Seq<u8>, Seq<u8>)> {
    match known_length(b) {
        Some(n) => without(hs, content_length_text()).push((content_length_text(), decimal(n))),
        None => hs,
    }
}

pub open spec fn status_head_line(code: u16, description: Seq<u8>) -> Seq<u8> {
    version_bytes(HttpVersion { major: 1, minor: 1 }) + seq![32u8] + decimal(code as nat) + seq![32u8] + description
        + seq![13u8, 10u8]
}

pub open spec fn response_bytes(r: Response) -> Seq<u8> {
    status_head_line(r.code, r.description@) + headers_bytes(r.headers@) + seq![13u8, 10u8] + body_bytes(r.entity@)
}

impl Response {
    /// A response whose Content-Length follows its body where the body's
    /// length is known.
    pub fn new(code: u16, description: &str, headers: Headers, entity: MessageBody) -> (r: Response)
        ensures
            r.code == code,
            r.description@ == description.spec_bytes(),
            r.headers@ == with_length(headers@, entity@),
            r.entity == entity,
    {
        Response { code, description: str_bytes(description), headers, entity }.build()
    }

    /// The same, with the description as bytes.
    pub fn from_parts(code: u16, description: Vec<u8>, headers: Headers, entity: MessageBody) -> (r: Response)
        ensures
            r.code == code,
            r.description == description,
            r.headers@ == with_length(headers@, entity@),
            r.entity == entity,
    {
        Response { code, description, headers, entity }.build()
    }

    pub fn response(code: u16, description: &str) -> (r: Response)
        ensures
            r.code == code,
            r.description@ == description.spec_bytes(),
            r.headers@ == with_length(Seq::empty(), BodyView::Empty),
            r.entity == MessageBody::Empty,
    {
        Response::new(code, description, Headers::new(), MessageBody::Empty)
    }

    pub fn ok() -> (r: Response)
        ensures
            r.code == 200,
            r.description@ == "OK".spec_bytes(),
            r.headers@ == with_length(Seq::empty(), BodyView::Empty),
            r.entity == MessageBody::Empty,
    {
        Response::response(200, "OK")
    }

    pub fn bad_request() -> (r: Response)
        ensures
            r.code == 400,
            r.description@ == "Bad Request".spec_bytes(),
            r.headers@ == with_length(Seq::empty(), BodyView::Empty),
            r.entity == MessageBody::Empty,
    {
        Response::response(400, "Bad Request")
    }

    pub fn unauthorized() -> (r: Response)
        ensures
            r.code == 401,
            r.description@ == "Unauthorized".spec_bytes(),
            r.headers@ == with_length(Seq::empty(), BodyView::Empty),
            r.entity == MessageBody::Empty,
    {
        Response::response(401, "Unauthorized")
    }

    pub fn not_found() -> (r: Response)
        ensures
            r.code == 404,
            r.description@ == "Not Found".spec_bytes(),
            r.headers@ == with_length(Seq::empty(), BodyView::Empty),
            r.entity == MessageBody::Empty,
    {
        Response::response(404, "Not Found")
    }

    pub fn method_not_allowed() -> (r: Response)
        ensures
            r.code == 405,
            r.description@ == "Method Not Allowed".spec_bytes(),
            r.headers@ == with_length(Seq::empty(), BodyView::Empty),
            r.entity == MessageBody::Empty,
    {
        Response::response(405, "Method Not Allowed")
    }

    pub fn code(self, code: u16) -> (r: Response)
        ensures
            r.code == code,
            r.description == self.description,
            r.headers == self.headers,
            r.entity == self.entity,
    {
        let mut r = self;
        r.code = code;
        r
    }

    pub fn description(self, description: &str) -> (r: Response)
        ensures
            r.description@ == description.spec_bytes(),
            r.code == self.code,
            r.headers == self.headers,
            r.entity == self.entity,
    {
        let mut r = self;
        r.description = str_bytes(description);
        r
    }

    /// A plain-text response whose description and body are `message`.
    pub fn message(self, message: &str) -> (r: Response)
        ensures
            r.code == self.code,
            r.description@ == message.spec_bytes(),
            r.entity@ == BodyView::Slice(message.spec_bytes()),
            r.headers@ == with_length(
                without(self.headers@, "Content-Type".spec_bytes()).push(("Content-Type".spec_bytes(), "text/plain".spec_bytes())),
                BodyView::Slice(message.spec_bytes()),
            ),
    {
        let bytes = str_bytes(message);
        let body = bytes.clone();
        assert(body@ == bytes@);
        self.description(message).content_type("text/plain").entity(MessageBody::Slice(body))
    }

    pub fn header(self, name: &str, value: &str) -> (r: Response)
        ensures
            r.headers@ == without(self.headers@, name.spec_bytes()).push((name.spec_bytes(), value.spec_bytes())),
            r.code == self.code,
            r.description == self.description,
            r.entity == self.entity,
    {
        let mut r = self;
        r.headers.replace(name, value);
        r
    }

    pub fn get_header(&self, name: &str) -> (r: Option<&[u8]>)
        ensures
            match r {
                Some(v) => lookup(self.headers@, name.spec_bytes()) == Some(v@),
                None => lookup(self.headers@, name.spec_bytes()) is None,
            },
    {
        self.headers.get(name)
    }

    pub fn remove_header(self, name: &str) -> (r: Response)
        ensures
            r.headers@ == without(self.headers@, name.spec_bytes()),
            r.code == self.code,
            r.description == self.description,
            r.entity == self.entity,
    {
        let mut r = self;
        r.headers.remove(name);
        r
    }

    /// Sets the body, and Content-Length with it where its length is known.
    pub fn entity(self, entity: MessageBody) -> (r: Response)
        ensures
            r.entity == entity,
            r.headers@ == with_length(self.headers@, entity@),
            r.code == self.code,
            r.description == self.description,
    {
        let mut r = self;
        r.entity = entity;
        r.build()
    }

    pub fn content_type(self, media_type: &str) -> (r: Response)
        ensures
            r.headers@ == without(self.headers@, "Content-Type".spec_bytes()).push(("Content-Type".spec_bytes(), media_type.spec_bytes())),
            r.code == self.code,
            r.description == self.description,
            r.entity == self.entity,
    {
        self.header("Content-Type", media_type)
    }

    pub fn content_length(self, length: u64) -> (r: Response)
        ensures
            r.headers@ == without(self.headers@, content_length_text()).push((content_length_text(), decimal(length as nat))),
            r.code == self.code,
            r.description == self.description,
            r.entity == self.entity,
    {
        let mut value: Vec<u8> = Vec::new();
        push_decimal(&mut value, length);
        assert(value@ =~= decimal(length as nat));
        let mut r = self;
        proof { reveal_strlit("Content-Length"); }
        assert("Content-Length".spec_bytes() == content_length_text()) by {
            vstd::string::is_ascii_spec_bytes("Content-Length");
            assert("Content-Length".spec_bytes() =~= content_length_text());
        }
        r.headers.replace_value("Content-Length", value);
        r
    }

    fn calculate_length(&self) -> (r: Option<u64>)
        ensures
            match known_length(self.entity@) {
                Some(n) => r == Some(n as u64) && n as u64 as nat == n,
                None => r is None,
            },
    {
        match &self.entity {
            MessageBody::Empty => Some(0),
            MessageBody::Slice(slice) => Some(slice.len() as u64),
            _ => None,
        }
    }

    fn build(self) -> (r: Response)
        ensures
            r.headers@ == with_length(self.headers@, self.entity@),
            r.code == self.code,
            r.description == self.description,
            r.entity == self.entity,
    {
        match self.calculate_length() {
            Some(length) => self.content_length(length),
            None => self,
        }
    }

    /// Writes the status line (version 1.1), the headers, the empty line
    /// and what the body holds in hand.
    pub fn write_to(&self, out: &mut Vec<u8>)
        ensures
            final(out)@ == old(out)@ + response_bytes(*self),
    {
        let ghost start = out@;
        HttpVersion { major: 1, minor: 1 }.write_to(out);
        out.push(32);
        push_decimal(out, self.code as u64);
        out.push(32);
        push_all(out, self.description.as_slice());
        push_crlf(out);
        self.headers.write_to(out);
        push_crlf(out);
        self.entity.write_to(out);
        assert(out@ =~= start + response_bytes(*self));
    }

    pub fn to_bytes(&self) -> (r: Vec<u8>)
        ensures
            r@ == response_bytes(*self),
    {
        let mut out: Vec<u8> = Vec::new();
        self.write_to(&mut out);
        assert(out@ =~= response_bytes(*self));
        out
    }

    /// The response as text: as `write_to` writes it, but with the body as
    /// `body_text` shows it.
    pub fn to_string(&self) -> (r: String)
        ensures
            ({
                let t = status_head_line(self.code, self.description@) + headers_bytes(self.headers@) + seq![13u8, 10u8]
                    + body_text(self.entity@);
                valid_utf8(t) ==> r@ == decode_utf8(t)
            }),
    {
        let mut out: Vec<u8> = Vec::new();
        HttpVersion { major: 1, minor: 1 }.write_to(&mut out);
        out.push(32);
        push_decimal(&mut out, self.code as u64);
        out.push(32);
        push_all(&mut out, self.description.as_slice());
        push_crlf(&mut out);
        self.headers.write_to(&mut out);
        push_crlf(&mut out);
        self.entity.write_text(&mut out);
        assert(out@ =~= status_head_line(self.code, self.description@) + headers_bytes(self.headers@) + seq![13u8, 10u8]
            + body_text(self.entity@));
        text_of(out.as_slice())
    }
}

#[derive(PartialEq, Eq, Debug, Clone)]
pub enum Message {
    Request(Request),
    Response(Response),
}

/// Whether `m` is the message that a parsed start line, headers and body make.
pub open spec fn message_of(m: Message, line: StartLineView, hs: Seq<(Seq<u8>, Seq<u8>)>, body: BodyView) -> bool {
    match (m, line) {
        (Message::Request(r), StartLineView::Request(l)) => r.method@ == l.0 && r.uri@ == spec_uri(l.1)
            && r.headers@ == hs && r.entity@ == body,
        (Message::Response(r), StartLineView::Status(l)) => r.code == l.1 && r.description@ == l.2
            && r.headers@ == with_length(hs, body) && r.entity@ == body,
        _ => false,
    }
}

impl Message {
    pub fn from(message: HttpMessage) -> (r: Message)
        ensures
            message_of(r, message.start_line@, message.headers@, message.body@),
    {
        match message.start_line {
            StartLine::RequestLine(line) => Message::Request(
                Request::from_parts(line.method, line.request_target.as_slice(), message.headers, message.body),
            ),
            StartLine::StatusLine(line) => Message::Response(
                Response::from_parts(line.code, line.description, message.headers, message.body),
            ),
        }
    }

    /// Parses a whole message; its body is framed as `spec_message_body` says.
    pub fn parse<'a>(slice: &'a [u8]) -> (r: Result<(Message, &'a [u8]), ParseError>)
        ensures
            match r {
                Ok((m, rest)) => match spec_http_message(slice@) {
                    Ok((srest, (line, hs, body))) => rest@ == srest && message_of(m, line, hs, body),
                    Err(_) => false,
                },
                Err(e) => spec_http_message(slice@) == Err::<(Seq<u8>, (StartLineView, Seq<(Seq<u8>, Seq<u8>)>, BodyView)), ParseError>(e),
            },
    {
        let (rest, message) = http_message(slice)?;
        Ok((Message::from(message), rest))
    }

    /// Parses a head from the bytes in hand, then frames its body (see
    /// `spec_body_framing`). Returns the message and how many bytes of
    /// `slice` it takes: the head's and, of the body, those in `slice`.
    pub fn read(slice: &[u8]) -> (r: Result<(Message, usize), HttpError>)
        ensures
            r is Ok ==> r->Ok_0.1 <= slice@.len(),
            match r {
                Ok((m, n)) => match spec_message_head(slice@) {
                    Ok((rest, (line, hs))) => match spec_body_framing(hs, rest) {
                        Ok((body, taken)) => message_of(m, line, hs, body)
                            && n == slice@.len() - rest.len() + taken,
                        Err(_) => false,
                    },
                    Err(_) => false,
                },
                Err(HttpError::Incomplete) => spec_message_head(slice@) == Err::<(Seq<u8>, (StartLineView, Seq<(Seq<u8>, Seq<u8>)>)), ParseError>(ParseError::Incomplete),
                Err(HttpError::Protocol) => match spec_message_head(slice@) {
                    Ok((rest, (_, hs))) => spec_body_framing(hs, rest) is Err,
                    Err(e) => e == ParseError::Invalid,
                },
                Err(_) => false,
            },
    {
        let (remainder, head) = match message_head(slice) {
            Ok(x) => x,
            Err(ParseError::Incomplete) => {
                return Err(HttpError::Incomplete);
            },
            Err(ParseError::Invalid) => {
                return Err(HttpError::Protocol);
            },
        };
        let head_length = slice.len() - remainder.len();
        let (body, body_read) = match MessageBody::read(&head.headers, remainder) {
            Ok(x) => x,
            Err(FramingError) => {
                return Err(HttpError::Protocol);
            },
        };
        let message = HttpMessage { start_line: head.start_line, headers: head.headers, body };
        Ok((Message::from(message), head_length + body_read))
    }

    pub fn write_to(&self, out: &mut Vec<u8>)
        ensures
            final(out)@ == old(out)@ + match *self {
                Message::Request(r) => request_bytes(r),
                Message::Response(r) => response_bytes(r),
            },
    {
        match self {
            Message::Request(r) => r.write_to(out),
            Message::Response(r) => r.write_to(out),
        }
    }
}

#[derive(PartialEq, Eq, Structural, Debug, Clone, Copy)]
pub enum ChunkStreamState {
    NotStarted,
    Consumed(usize),
    Last(usize),
    Finished,
}

/// The chunks of a chunked body, read one by one from a buffered source.
/// The bytes of the chunk last handed out stay in the buffer until the next
/// call, which consumes them first.
pub struct ChunkStream<S> {
    pub read: BufferedRead<S>,
    pub state: ChunkStreamState,
    /// Data of the current chunk not handed out yet by `read_data`.
    pub pending: Vec<u8>,
    /// The chunk data that `read_data` has handed out, in order.
    pub delivered: Ghost<Seq<u8>>,
}

impl<S: Source> ChunkStream<S> {
    pub open spec fn wf(&self) -> bool {
        &&& self.read.wf()
        &&& match self.state {
            ChunkStreamState::Consumed(n) => n <= self.read.buffer.readable().len(),
            ChunkStreamState::Last(n) => n <= self.read.buffer.readable().len(),
            _ => true,
        }
    }

    /// The buffered bytes once the chunk handed out last is consumed.
    pub open spec fn after_consuming(&self) -> Seq<u8> {
        match self.state {
            ChunkStreamState::Consumed(n) => self.read.buffer.readable().skip(n as int),
            ChunkStreamState::Last(n) => self.read.buffer.readable().skip(n as int),
            _ => self.read.buffer.readable(),
        }
    }

    fn is_wf(&self) -> (r: bool)
        ensures
            r == self.wf(),
    {
        let b = &self.read.buffer;
        if !(b.read_position <= b.write_position && b.write_position <= b.value.len()) {
            return false;
        }
        match self.state {
            ChunkStreamState::Consumed(n) => n <= b.write_position - b.read_position,
            ChunkStreamState::Last(n) => n <= b.write_position - b.read_position,
            _ => true,
        }
    }

    pub fn new(read: BufferedRead<S>) -> (r: ChunkStream<S>)
        ensures
            r.read == read,
            r.state == ChunkStreamState::NotStarted,
            r.pending@.len() == 0,
            r.delivered@ == Seq::<u8>::empty(),
    {
        ChunkStream { read, state: ChunkStreamState::NotStarted, pending: Vec::new(), delivered: Ghost(Seq::empty()) }
    }

    /// Consumes the bytes of the chunk handed out last; after the last chunk
    /// the stream is finished.
    pub fn update_state(&mut self)
        requires
            old(self).wf(),
        ensures
            final(self).wf(),
            final(self).read.buffer.capacity() == old(self).read.buffer.capacity(),
            match old(self).state {
                ChunkStreamState::Consumed(n) => final(self).state == ChunkStreamState::NotStarted
                    && final(self).read.buffer.readable() == old(self).read.buffer.readable().skip(n as int),
                ChunkStreamState::Last(n) => final(self).state == ChunkStreamState::Finished
                    && final(self).read.buffer.readable() == old(self).read.buffer.readable().skip(n as int),
                _ => final(self).state == old(self).state && final(self).read == old(self).read,
            },
            final(self).read.buffer.readable() == old(self).after_consuming(),
            final(self).pending == old(self).pending,
            final(self).delivered == old(self).delivered,
            old(self).read.holds() ==> final(self).read.holds(),
    {
        match self.state {
            ChunkStreamState::Last(consumed) => {
                self.read.consume(consumed);
                self.state = ChunkStreamState::Finished;
            },
            ChunkStreamState::Consumed(consumed) => {
                self.read.consume(consumed);
                self.state = ChunkStreamState::NotStarted;
            },
            _ => {},
        }
    }

    /// The next chunk: parsed from the buffer, which is filled until the
    /// chunk is all there. None once the last chunk has been handed out or
    /// the source has ended; an error when the bytes break the grammar, when
    /// the source ends or the buffer is full before the chunk is complete,
    /// or when the source fails.
    pub fn next(&mut self) -> (r: Option<Result<Chunk, HttpError>>)
        requires
            old(self).wf(),
        ensures
            final(self).wf(),
            final(self).read.buffer.capacity() == old(self).read.buffer.capacity(),
            old(self).state == ChunkStreamState::Finished ==> r is None,
            final(self).read.buffer.readable().len() >= old(self).after_consuming().len(),
            final(self).read.buffer.readable().take(old(self).after_consuming().len() as int)
                == old(self).after_consuming(),
            r is None ==> old(self).state is Finished || old(self).state is Last
                || final(self).read.buffer.readable().len() == 0,
            old(self).state is Last ==> r is None && final(self).read.buffer.readable() == old(self).after_consuming(),
            final(self).pending == old(self).pending,
            final(self).delivered == old(self).delivered,
            old(self).read.holds() ==> final(self).read.holds(),
            match r {
                Some(Ok(c)) => match final(self).state {
                    ChunkStreamState::Consumed(n) => c@ is Slice
                        && spec_chunk_read(final(self).read.buffer.readable()) == Ok::<(ChunkView, nat), crate::grammar::ParseError>((c@, n as nat)),
                    ChunkStreamState::Last(n) => c@ is Last
                        && spec_chunk_read(final(self).read.buffer.readable()) == Ok::<(ChunkView, nat), crate::grammar::ParseError>((c@, n as nat)),
                    _ => false,
                },
                Some(Err(e)) => match e {
                    HttpError::Protocol => spec_chunk_read(final(self).read.buffer.readable())
                        == Err::<(ChunkView, nat), crate::grammar::ParseError>(crate::grammar::ParseError::Invalid),
                    HttpError::LengthViolation => spec_chunk_read(final(self).read.buffer.readable())
                        == Err::<(ChunkView, nat), crate::grammar::ParseError>(crate::grammar::ParseError::Incomplete),
                    HttpError::Io => true,
                    _ => false,
                },
                None => final(self).state == ChunkStreamState::Finished,
            },
    {
        self.update_state();
        if self.state == ChunkStreamState::Finished {
            return None;
        }
        assert(self.read.buffer.readable().take(old(self).after_consuming().len() as int) =~= old(self).after_consuming());
        loop
            invariant
                self.wf(),
                self.state == ChunkStreamState::NotStarted,
                old(self).state != ChunkStreamState::Finished,
                !(old(self).state is Last),
                self.read.buffer.capacity() == old(self).read.buffer.capacity(),
                self.read.buffer.readable().len() >= old(self).after_consuming().len(),
                self.read.buffer.readable().take(old(self).after_consuming().len() as int) == old(self).after_consuming(),
                self.pending == old(self).pending,
                self.delivered == old(self).delivered,
                old(self).read.holds() ==> self.read.holds(),
            decreases self.read.buffer.capacity() - self.read.buffer.write_position,
        {
            let before = self.read.buffer.write_position;
            let ghost prev = self.read.buffer.readable();
            let buffer = match self.read.fill_buf() {
                Ok(b) => b,
                Err(_) => {
                    return Some(Err(HttpError::Io));
                },
            };
            proof {
                let a = old(self).after_consuming();
                assert(buffer@.take(prev.len() as int).take(a.len() as int) =~= buffer@.take(a.len() as int));
            }
            if buffer.len() == 0 {
                self.state = ChunkStreamState::Finished;
                return None;
            }
            match Chunk::read(buffer) {
                Ok((chunk, consumed)) => {
                    match chunk {
                        Chunk::Last(_, _) => {
                            self.state = ChunkStreamState::Last(consumed);
                        },
                        _ => {
                            self.state = ChunkStreamState::Consumed(consumed);
                        },
                    }
                    return Some(Ok(chunk));
                },
                Err(crate::grammar::ParseError::Incomplete) => {
                    if self.read.buffer.write_position == before {
                        return Some(Err(HttpError::LengthViolation));
                    }
                },
                Err(crate::grammar::ParseError::Invalid) => {
                    return Some(Err(HttpError::Protocol));
                },
            }
        }
    }

    /// Reads on to the end of the chunked body, at most `limit` chunks, so
    /// that the source stands at what follows it. True when the last chunk
    /// was reached; then the buffer holds what follows its final CRLF.
    pub fn drain(&mut self, limit: usize) -> (r: bool)
        requires
            old(self).wf(),
        ensures
            final(self).wf(),
            r ==> final(self).state == ChunkStreamState::Finished,
            old(self).state == ChunkStreamState::Finished ==> r && *final(self) == *old(self),
            r && !(old(self).state is Finished) && !(old(self).state is Last) ==> exists|b: Seq<u8>|
                #[trigger] last_chunk_before(b, final(self).read.buffer.readable()),
    {
        if self.state == ChunkStreamState::Finished {
            return true;
        }
        let entered_last = match self.state {
            ChunkStreamState::Last(_) => true,
            _ => false,
        };
        let mut seen_last = false;
        let mut k: usize = 0;
        while k < limit
            invariant
                old(self).state != ChunkStreamState::Finished,
                entered_last == old(self).state is Last,
                self.wf(),
                seen_last ==> match self.state {
                    ChunkStreamState::Last(n) => match spec_chunk_read(self.read.buffer.readable()) {
                        Ok((ChunkView::Last(_, _), m)) => m == n && n <= self.read.buffer.readable().len(),
                        _ => false,
                    },
                    _ => false,
                },
                !seen_last ==> (self.state is Last ==> entered_last && k == 0),
            decreases limit - k,
        {
            let ghost before = self.read.buffer.readable();
            let was_seen = seen_last;
            match self.next() {
                Some(Ok(c)) => {
                    seen_last = match c {
                        Chunk::Last(_, _) => true,
                        _ => false,
                    };
                },
                Some(Err(_)) => {
                    return false;
                },
                None => {
                    if was_seen {
                        assert(last_chunk_before(before, self.read.buffer.readable()));
                        return true;
                    }
                    return entered_last && k == 0;
                },
            }
            k = k + 1;
        }
        false
    }
}

impl<S: Source> ChunkStream<S> {
    /// The data of the chunks, one after another: at most `max` bytes of
    /// the current chunk's data while some is left, else of the next chunk's
    /// data; nothing after the last chunk or once the source has ended.
    pub fn read_data(&mut self, max: usize) -> (r: Result<Vec<u8>, HttpError>)
        requires
            old(self).wf(),
        ensures
            final(self).wf(),
            old(self).read.holds() ==> final(self).read.holds(),
            final(self).delivered@ == old(self).delivered@ + match r {
                Ok(v) => v@,
                Err(_) => Seq::empty(),
            },
            old(self).pending@.len() > 0 ==> ({
                let n = if max < old(self).pending@.len() { max as nat } else { old(self).pending@.len() };
                &&& r is Ok
                &&& r->Ok_0@ == old(self).pending@.take(n as int)
                &&& final(self).pending@ == old(self).pending@.skip(n as int)
                &&& final(self).read == old(self).read
                &&& final(self).state == old(self).state
            }),
            old(self).pending@.len() == 0 ==> match r {
                Ok(v) => if final(self).state is Consumed {
                    match spec_chunk_read(final(self).read.buffer.readable()) {
                        Ok((ChunkView::Slice(_, d), _)) => v@ + final(self).pending@ == d
                            && v@.len() == (if max < d.len() { max as nat } else { d.len() }),
                        _ => false,
                    }
                } else {
                    v@.len() == 0 && final(self).pending@.len() == 0
                        && (final(self).state is Finished || final(self).state is Last)
                },
                Err(_) => final(self).pending@.len() == 0,
            },
    {
        if self.pending.len() == 0 {
            match self.next() {
                Some(Ok(Chunk::Slice(_, data))) => {
                    self.pending = data;
                },
                Some(Ok(Chunk::Last(_, _))) => {
                    return Ok(Vec::new());
                },
                Some(Err(e)) => {
                    return Err(e);
                },
                None => {
                    return Ok(Vec::new());
                },
            }
        }
        let ghost all = self.pending@;
        let n = if max < self.pending.len() { max } else { self.pending.len() };
        let rest = self.pending.split_off(n);
        let mut out = rest;
        core::mem::swap(&mut out, &mut self.pending);
        assert(out@ + self.pending@ =~= all);
        self.delivered = Ghost(self.delivered@ + out@);
        Ok(out)
    }
}

impl<S: Source> Source for ChunkStream<S> {
    open spec fn yielded(&self) -> Seq<u8> {
        self.delivered@
    }

    open spec fn ready(&self) -> bool {
        self.wf()
    }

    fn read(&mut self, max: usize) -> (r: Result<Vec<u8>, HttpError>) {
        if !self.is_wf() {
            return Ok(Vec::new());
        }
        self.read_data(max)
    }
}

/// The headers of a file's reply: Content-Type text/plain, then its length.
pub open spec fn file_headers(length: u64) -> Seq<(Seq<u8>, Seq<u8>)> {
    without(
        without(with_length(Seq::empty(), BodyView::Empty), "Content-Type".spec_bytes()).push(
            ("Content-Type".spec_bytes(), "text/plain".spec_bytes()),
        ),
        content_length_text(),
    ).push((content_length_text(), decimal(length as nat)))
}

/// The reply to a GET for a file, from what the filesystem said of it: 401
/// when the path leads outside the served directory, 404 when it is a
/// directory, and otherwise 200 with a plain-text body of `length` bytes that
/// the caller streams from the file.
pub fn file_response(within_base: bool, is_directory: bool, length: u64) -> (r: Response)
    ensures
        !within_base ==> r.code == 401 && r.description@ == "Not allowed outside of base".spec_bytes()
            && r.entity@ == BodyView::Slice("Not allowed outside of base".spec_bytes()),
        within_base && is_directory ==> r.code == 404 && r.description@ == "Path denotes a directory".spec_bytes()
            && r.entity@ == BodyView::Slice("Path denotes a directory".spec_bytes()),
        within_base && !is_directory ==> r.code == 200 && r.description@ == "OK".spec_bytes()
            && r.entity@ == BodyView::Reader(Seq::empty(), length as nat) && r.headers@ == file_headers(length),
{
    if !within_base {
        return Response::unauthorized().message("Not allowed outside of base");
    }
    if is_directory {
        return Response::not_found().message("Path denotes a directory");
    }
    let buffered: Vec<u8> = Vec::new();
    assert(buffered@ =~= Seq::<u8>::empty());
    let body = MessageBody::Reader(crate::ast::BodyReader { buffered, upstream: length });
    let mut r = Response::ok().content_type("text/plain").content_length(length);
    r.entity = body;
    r
}
} // verus!
