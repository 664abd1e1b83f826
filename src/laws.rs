use vstd::prelude::*;
use crate::ast::{
    HttpVersion, StartLineView, BodyView, request_line_bytes, status_line_bytes, version_bytes, decimal,
    header_bytes, headers_bytes, body_bytes, spec_framing_length, values_of, transfer_encoding_name,
};
use crate::api::{request_head_line, status_head_line};
use crate::uri::{spec_uri, lemma_uri_round_trip};
use vstd::utf8::valid_utf8;
use crate::grammar::{
    ByteClass, Parsed, ParseError, in_class, run_end, spec_many1, spec_many, spec_byte, spec_tag, spec_one,
    spec_request_target, spec_http_version, spec_request_line, spec_status_code, spec_status_line,
    spec_http_message, spec_message_head, spec_message_body, http_name_bytes, crlf_bytes,
    field_value_items, spec_field_content, spec_obs_fold, field_value_item, header_line, spec_headers,
    spec_header_field, spec_start_line,
};

verus! {

/// The length of a body that a parse framed by Content-Length.
pub open spec fn framed_length(b: BodyView) -> nat {
    match b {
        BodyView::Slice(d) => d.len(),
        _ => 0,
    }
}

/// A parsed message takes its head and then exactly the bytes of its body.
pub proof fn lemma_message_takes_head_and_body(s: Seq<u8>)
    ensures
        match spec_http_message(s) {
            Ok((rest, (_, _, body))) => match spec_message_head(s) {
                Ok((after_head, _)) => s.len() - rest.len() == (s.len() - after_head.len()) + framed_length(body)
                    && rest == after_head.skip(framed_length(body) as int),
                Err(_) => false,
            },
            Err(_) => true,
        },
{
    match spec_message_head(s) {
        Ok((r1, (line, hs))) => {
            match spec_message_body(r1, hs) {
                Ok((r2, body)) => {
                    match body {
                        BodyView::Slice(d) => {
                            assert(d.len() <= r1.len());
                            assert(r2.len() == r1.len() - d.len());
                        },
                        _ => {
                            assert(r1.skip(0) =~= r1);
                        },
                    }
                },
                Err(_) => {},
            }
        },
        Err(_) => {},
    }
}

proof fn lemma_run_to(a: Seq<u8>, b: Seq<u8>, c: ByteClass, i: int)
    requires
        0 <= i <= a.len(),
        forall|k: int| 0 <= k < a.len() ==> in_class(c, #[trigger] a[k]),
        b.len() == 0 || !in_class(c, b[0]),
    ensures
        run_end(a + b, i, c) == a.len(),
    decreases a.len() - i,
{
    if i < a.len() {
        assert((a + b)[i] == a[i]);
        lemma_run_to(a, b, c, i + 1);
    } else if b.len() > 0 {
        assert((a + b)[i] == b[0]);
    }
}

/// One or more bytes of a class, followed by a byte outside it, are read as
/// exactly those bytes.
pub proof fn lemma_many1_prefix(a: Seq<u8>, b: Seq<u8>, c: ByteClass)
    requires
        a.len() > 0,
        forall|k: int| 0 <= k < a.len() ==> in_class(c, #[trigger] a[k]),
        b.len() == 0 || !in_class(c, b[0]),
    ensures
        spec_many1(a + b, c) == Ok::<(Seq<u8>, Seq<u8>), ParseError>((b, a)),
{
    lemma_run_to(a, b, c, 0);
    assert((a + b).skip(a.len() as int) =~= b);
    assert((a + b).take(a.len() as int) =~= a);
}

proof fn lemma_tag_prefix(t: Seq<u8>, b: Seq<u8>)
    ensures
        spec_tag(t + b, t) == Ok::<(Seq<u8>, Seq<u8>), ParseError>((b, t)),
{
    assert((t + b).take(t.len() as int) =~= t);
    assert((t + b).skip(t.len() as int) =~= b);
}

proof fn lemma_byte_prefix(x: u8, b: Seq<u8>)
    ensures
        spec_byte(seq![x] + b, x) == Ok::<(Seq<u8>, Seq<u8>), ParseError>((b, seq![x])),
{
    assert((seq![x] + b).skip(1) =~= b);
    assert((seq![x] + b).take(1) =~= seq![x]);
}

proof fn lemma_digit_prefix(d: u8, b: Seq<u8>)
    requires
        d < 10,
    ensures
        spec_one(decimal(d as nat) + b, ByteClass::Digit) == Ok::<(Seq<u8>, Seq<u8>), ParseError>((b, seq![(48 + d) as u8])),
{
    assert(decimal(d as nat) == seq![(48 + d) as u8]);
    assert((seq![(48 + d) as u8] + b).skip(1) =~= b);
    assert((seq![(48 + d) as u8] + b).take(1) =~= seq![(48 + d) as u8]);
}

/// A version with single-digit numbers, written and read back.
#[verifier::rlimit(60)]
pub proof fn lemma_version_round_trip(v: HttpVersion, b: Seq<u8>)
    requires
        v.major < 10,
        v.minor < 10,
    ensures
        spec_http_version(version_bytes(v) + b) == Ok::<(Seq<u8>, HttpVersion), ParseError>((b, v)),
{
    let s = version_bytes(v) + b;
    let major = decimal(v.major as nat);
    let minor = decimal(v.minor as nat);
    let s1 = seq![47u8] + major + seq![46u8] + minor + b;
    assert(s =~= http_name_bytes() + s1);
    lemma_tag_prefix(http_name_bytes(), s1);
    let s2 = major + seq![46u8] + minor + b;
    assert(s1 =~= seq![47u8] + s2);
    lemma_byte_prefix(47, s2);
    let s3 = seq![46u8] + minor + b;
    assert(s2 =~= major + s3);
    lemma_digit_prefix(v.major, s3);
    let s4 = minor + b;
    assert(s3 =~= seq![46u8] + s4);
    lemma_byte_prefix(46, s4);
    lemma_digit_prefix(v.minor, b);
}

/// A request line whose method is a token, whose target is not empty and
/// holds no space, and whose version has single digits is read back from
/// what it writes, whatever follows it.
#[verifier::rlimit(60)]
pub proof fn lemma_request_line_round_trip(l: (Seq<u8>, Seq<u8>, HttpVersion), b: Seq<u8>)
    requires
        l.0.len() > 0,
        forall|k: int| 0 <= k < l.0.len() ==> in_class(ByteClass::Tchar, #[trigger] l.0[k]),
        l.1.len() > 0,
        forall|k: int| 0 <= k < l.1.len() ==> #[trigger] l.1[k] != 32,
        l.2.major < 10,
        l.2.minor < 10,
    ensures
        spec_request_line(request_line_bytes(l) + b) == Ok::<(Seq<u8>, (Seq<u8>, Seq<u8>, HttpVersion)), ParseError>((b, l)),
{
    let (method, target, version) = l;
    let after_version = crlf_bytes() + b;
    let s4 = version_bytes(version) + after_version;
    let s3 = seq![32u8] + s4;
    let s2 = target + s3;
    let s1 = seq![32u8] + s2;
    assert(request_line_bytes(l) + b =~= method + s1);
    lemma_many1_prefix(method, s1, ByteClass::Tchar);
    lemma_byte_prefix(32, s2);
    lemma_run_to(target, s3, ByteClass::NotSpace, 0);
    assert(s2.skip(target.len() as int) =~= s3);
    assert(s2.take(target.len() as int) =~= target);
    assert(spec_request_target(s2) == Ok::<(Seq<u8>, Seq<u8>), ParseError>((s3, target)));
    lemma_byte_prefix(32, s4);
    lemma_version_round_trip(version, after_version);
    lemma_tag_prefix(crlf_bytes(), b);
}

proof fn lemma_code_round_trip(code: u16, s3: Seq<u8>)
    requires
        100 <= code <= 999,
    ensures
        spec_status_code(decimal(code as nat) + s3) == Ok::<(Seq<u8>, u16), ParseError>((s3, code)),
{
    let s2 = decimal(code as nat) + s3;
    let c = code as nat;
    assert(decimal(c) == seq![(48 + c / 100) as u8, (48 + (c / 10) % 10) as u8, (48 + c % 10) as u8]) by {
        assert(decimal(c / 10) == decimal(c / 10 / 10).push((48 + (c / 10) % 10) as u8));
        assert(c / 10 / 10 == c / 100);
        assert(decimal(c / 100) == seq![(48 + c / 100) as u8]);
    }
    assert(s2[0] == (48 + c / 100) as u8);
    assert(s2[1] == (48 + (c / 10) % 10) as u8);
    assert(s2[2] == (48 + c % 10) as u8);
    assert(s2.skip(3) =~= s3);
    assert(((c / 100) * 100 + ((c / 10) % 10) * 10 + c % 10) == c);
}

/// A status line with a single-digit version, a three-digit code and a
/// description of HTAB, SP, VCHAR and obs-text is read back from what it
/// writes, whatever follows it.
#[verifier::rlimit(60)]
pub proof fn lemma_status_line_round_trip(l: (HttpVersion, u16, Seq<u8>), b: Seq<u8>)
    requires
        l.0.major < 10,
        l.0.minor < 10,
        100 <= l.1 <= 999,
        forall|k: int| 0 <= k < l.2.len() ==> in_class(ByteClass::ReasonChar, #[trigger] l.2[k]),
    ensures
        spec_status_line(status_line_bytes(l) + b) == Ok::<(Seq<u8>, (HttpVersion, u16, Seq<u8>)), ParseError>((b, l)),
{
    let (version, code, reason) = l;
    let after_reason = crlf_bytes() + b;
    let s4 = reason + after_reason;
    let s3 = seq![32u8] + s4;
    let s2 = decimal(code as nat) + s3;
    let s1 = seq![32u8] + s2;
    assert(status_line_bytes(l) + b =~= version_bytes(version) + s1);
    lemma_version_round_trip(version, s1);
    lemma_byte_prefix(32, s2);
    lemma_code_round_trip(code, s3);
    lemma_byte_prefix(32, s4);
    if reason.len() == 0 {
        assert(run_end(s4, 0, ByteClass::ReasonChar) == 0);
        assert(s4.skip(0) =~= after_reason);
        assert(s4.take(0) =~= reason);
    } else {
        lemma_run_to(reason, after_reason, ByteClass::ReasonChar, 0);
        assert(s4.skip(reason.len() as int) =~= after_reason);
        assert(s4.take(reason.len() as int) =~= reason);
    }
    lemma_tag_prefix(crlf_bytes(), b);
}

/// A header that this library writes and reads back unchanged: its name is a
/// token, and its value is UTF-8 made of VCHAR and obs-text only.
pub open spec fn plain_header(h: (Seq<u8>, Seq<u8>)) -> bool {
    &&& h.0.len() > 0
    &&& forall|k: int| 0 <= k < h.0.len() ==> in_class(ByteClass::Tchar, #[trigger] h.0[k])
    &&& forall|k: int| 0 <= k < h.1.len() ==> in_class(ByteClass::FieldVchar, #[trigger] h.1[k])
    &&& valid_utf8(h.1)
}

#[verifier::rlimit(60)]
proof fn lemma_field_value_plain(v: Seq<u8>, y: Seq<u8>)
    requires
        forall|k: int| 0 <= k < v.len() ==> in_class(ByteClass::FieldVchar, #[trigger] v[k]),
        y.len() == 0 || !in_class(ByteClass::Whitespace, y[0]),
    ensures
        field_value_items(v + crlf_bytes() + y) == (crlf_bytes() + y, v),
    decreases v.len(),
{
    let x = crlf_bytes() + y;
    let s = v + x;
    assert(v + crlf_bytes() + y =~= s);
    if v.len() == 0 {
        assert(s =~= x);
        assert(v =~= Seq::<u8>::empty());
        assert(spec_field_content(x) is Err);
        lemma_tag_prefix(crlf_bytes(), y);
        assert(run_end(y, 0, ByteClass::Whitespace) == 0);
        assert(spec_obs_fold(x) is Err);
        assert(field_value_item(x) is None);
    } else {
        assert(s[0] == v[0]);
        assert(s[1] == if v.len() > 1 { v[1] } else { 13u8 });
        assert(run_end(s, 1, ByteClass::Whitespace) == 1);
        let tail = v.skip(1) + x;
        assert(s.skip(1) =~= tail);
        assert(s.take(1) =~= seq![v[0]]);
        lemma_field_value_plain(v.skip(1), y);
        assert(v.skip(1) + crlf_bytes() + y =~= tail);
        assert(seq![v[0]] + v.skip(1) =~= v);
        assert(spec_field_content(s) == Ok::<(Seq<u8>, Seq<u8>), ParseError>((tail, seq![v[0]])));
        assert(field_value_item(s) == Some((tail, seq![v[0]])));
        assert(tail.len() < s.len());
    }
}

#[verifier::rlimit(60)]
proof fn lemma_header_line_plain(h: (Seq<u8>, Seq<u8>), y: Seq<u8>)
    requires
        plain_header(h),
        y.len() == 0 || !in_class(ByteClass::Whitespace, y[0]),
    ensures
        header_line(header_bytes(h) + y) == Ok::<(Seq<u8>, (Seq<u8>, Seq<u8>)), ParseError>((y, h)),
{
    let (name, value) = h;
    let s5 = crlf_bytes() + y;
    let s4 = value + s5;
    let s2 = seq![58u8] + s4;
    assert(header_bytes(h) + y =~= name + s2);
    lemma_many1_prefix(name, s2, ByteClass::Tchar);
    lemma_byte_prefix(58, s4);
    assert(s4[0] == if value.len() > 0 { value[0] } else { 13u8 });
    assert(run_end(s4, 0, ByteClass::Whitespace) == 0);
    assert(s4.skip(0) =~= s4);
    lemma_field_value_plain(value, y);
    assert(value + crlf_bytes() + y =~= s4);
    assert(run_end(s5, 0, ByteClass::Whitespace) == 0);
    assert(s5.skip(0) =~= s5);
    lemma_tag_prefix(crlf_bytes(), y);
}

proof fn lemma_headers_bytes_front(hs: Seq<(Seq<u8>, Seq<u8>)>)
    requires
        hs.len() > 0,
    ensures
        headers_bytes(hs) == header_bytes(hs[0]) + headers_bytes(hs.skip(1)),
    decreases hs.len(),
{
    if hs.len() == 1 {
        assert(hs.drop_last() =~= Seq::<(Seq<u8>, Seq<u8>)>::empty());
        assert(hs.skip(1) =~= Seq::<(Seq<u8>, Seq<u8>)>::empty());
        assert(headers_bytes(hs) =~= header_bytes(hs[0]) + headers_bytes(hs.skip(1)));
    } else {
        lemma_headers_bytes_front(hs.drop_last());
        assert(hs.drop_last()[0] == hs[0]);
        assert(hs.drop_last().skip(1) =~= hs.skip(1).drop_last());
        assert(hs.skip(1).last() == hs.last());
        assert(headers_bytes(hs) =~= header_bytes(hs[0]) + headers_bytes(hs.skip(1)));
    }
}

#[verifier::rlimit(60)]
proof fn lemma_headers_plain(hs: Seq<(Seq<u8>, Seq<u8>)>, z: Seq<u8>)
    requires
        forall|k: int| 0 <= k < hs.len() ==> plain_header(#[trigger] hs[k]),
    ensures
        spec_headers(headers_bytes(hs) + crlf_bytes() + z)
            == Ok::<(Seq<u8>, Seq<(Seq<u8>, Seq<u8>)>), ParseError>((crlf_bytes() + z, hs)),
    decreases hs.len(),
{
    let end = crlf_bytes() + z;
    if hs.len() == 0 {
        assert(headers_bytes(hs) + crlf_bytes() + z =~= end);
        assert(run_end(end, 0, ByteClass::Tchar) == 0);
        assert(spec_header_field(end) == Err::<(Seq<u8>, (Seq<u8>, Seq<u8>)), ParseError>(ParseError::Invalid));
        assert(hs =~= Seq::<(Seq<u8>, Seq<u8>)>::empty());
    } else {
        lemma_headers_bytes_front(hs);
        let rest = headers_bytes(hs.skip(1)) + end;
        assert(headers_bytes(hs) + crlf_bytes() + z =~= header_bytes(hs[0]) + rest);
        assert forall|k: int| 0 <= k < hs.skip(1).len() implies plain_header(#[trigger] hs.skip(1)[k]) by {
            assert(hs.skip(1)[k] == hs[k + 1]);
        }
        if hs.len() > 1 {
            lemma_headers_bytes_front(hs.skip(1));
            assert(hs.skip(1)[0] == hs[1]);
            assert(plain_header(hs[1]));
            assert(rest[0] == hs[1].0[0]);
        } else {
            assert(hs.skip(1) =~= Seq::<(Seq<u8>, Seq<u8>)>::empty());
            assert(rest =~= end);
        }
        assert(rest.len() == 0 || !in_class(ByteClass::Whitespace, rest[0]));
        lemma_header_line_plain(hs[0], rest);
        lemma_headers_plain(hs.skip(1), z);
        assert(headers_bytes(hs.skip(1)) + crlf_bytes() + z =~= rest);
        assert(seq![hs[0]] + hs.skip(1) =~= hs);
        assert(header_bytes(hs[0]).len() > 0);
        assert(rest.len() < (header_bytes(hs[0]) + rest).len());
    }
}

/// A request written by this library is read back as the same request,
/// whatever follows it: where its method is a token, its URI was parsed from
/// a reference without spaces or line feeds, its headers are plain, and its
/// body is empty, or a slice whose length the first Content-Length number
/// gives.
#[verifier::rlimit(60)]
pub proof fn lemma_request_round_trip(
    method: Seq<u8>,
    target: Seq<u8>,
    hs: Seq<(Seq<u8>, Seq<u8>)>,
    body: BodyView,
    rest: Seq<u8>,
)
    requires
        method.len() > 0,
        forall|k: int| 0 <= k < method.len() ==> in_class(ByteClass::Tchar, #[trigger] method[k]),
        0 < target.len() <= usize::MAX,
        forall|k: int| 0 <= k < target.len() ==> #[trigger] target[k] != 32 && target[k] != 10,
        forall|k: int| 0 <= k < hs.len() ==> plain_header(#[trigger] hs[k]),
        values_of(hs, transfer_encoding_name()).len() == 0,
        match body {
            BodyView::Empty => spec_framing_length(hs) is None || spec_framing_length(hs) == Some(0u64),
            BodyView::Slice(d) => 0 < d.len() <= u64::MAX && spec_framing_length(hs) == Some(d.len() as u64),
            _ => false,
        },
    ensures
        spec_http_message(
            request_head_line(method, spec_uri(target)) + headers_bytes(hs) + crlf_bytes() + body_bytes(body) + rest,
        ) == Ok::<(Seq<u8>, (StartLineView, Seq<(Seq<u8>, Seq<u8>)>, BodyView)), ParseError>(
            (rest, (StartLineView::Request((method, target, HttpVersion { major: 1, minor: 1 })), hs, body)),
        ),
{
    lemma_uri_round_trip(target);
    let v11 = HttpVersion { major: 1, minor: 1 };
    let l = (method, target, v11);
    let after_body = body_bytes(body) + rest;
    let s = request_head_line(method, spec_uri(target)) + headers_bytes(hs) + crlf_bytes() + body_bytes(body) + rest;
    assert(request_head_line(method, spec_uri(target)) == request_line_bytes(l));
    assert(s =~= request_line_bytes(l) + headers_bytes(hs) + crlf_bytes() + after_body);
    lemma_head_round_trip(l, hs, after_body);
    lemma_body_round_trip(hs, body, rest);
}

proof fn lemma_body_round_trip(hs: Seq<(Seq<u8>, Seq<u8>)>, body: BodyView, rest: Seq<u8>)
    requires
        values_of(hs, transfer_encoding_name()).len() == 0,
        match body {
            BodyView::Empty => spec_framing_length(hs) is None || spec_framing_length(hs) == Some(0u64),
            BodyView::Slice(d) => 0 < d.len() <= u64::MAX && spec_framing_length(hs) == Some(d.len() as u64),
            _ => false,
        },
    ensures
        spec_message_body(body_bytes(body) + rest, hs) == Ok::<(Seq<u8>, BodyView), ParseError>((rest, body)),
{
    let after_body = body_bytes(body) + rest;
    match body {
        BodyView::Slice(d) => {
            assert(after_body.take(d.len() as int) =~= d);
            assert(after_body.skip(d.len() as int) =~= rest);
        },
        _ => {
            assert(after_body =~= rest);
        },
    }
}

#[verifier::rlimit(60)]
proof fn lemma_head_round_trip(l: (Seq<u8>, Seq<u8>, HttpVersion), hs: Seq<(Seq<u8>, Seq<u8>)>, after: Seq<u8>)
    requires
        l.0.len() > 0,
        forall|k: int| 0 <= k < l.0.len() ==> in_class(ByteClass::Tchar, #[trigger] l.0[k]),
        l.1.len() > 0,
        forall|k: int| 0 <= k < l.1.len() ==> #[trigger] l.1[k] != 32,
        l.2.major < 10,
        l.2.minor < 10,
        forall|k: int| 0 <= k < hs.len() ==> plain_header(#[trigger] hs[k]),
    ensures
        spec_message_head(request_line_bytes(l) + headers_bytes(hs) + crlf_bytes() + after)
            == Ok::<(Seq<u8>, (StartLineView, Seq<(Seq<u8>, Seq<u8>)>)), ParseError>((after, (StartLineView::Request(l), hs))),
{
    let after_line = headers_bytes(hs) + crlf_bytes() + after;
    let s = request_line_bytes(l) + headers_bytes(hs) + crlf_bytes() + after;
    assert(s =~= request_line_bytes(l) + after_line);
    lemma_request_line_round_trip(l, after_line);
    assert(spec_start_line(s) == Ok::<(Seq<u8>, StartLineView), ParseError>((after_line, StartLineView::Request(l))));
    lemma_headers_plain(hs, after);
    lemma_tag_prefix(crlf_bytes(), after);
}
/// A proper prefix of a version needs more input.
#[verifier::rlimit(60)]
pub proof fn lemma_version_prefix(v: HttpVersion, j: int)
    requires
        v.major < 10,
        v.minor < 10,
        0 <= j < 8,
    ensures
        spec_http_version(version_bytes(v).take(j)) == Err::<(Seq<u8>, HttpVersion), ParseError>(ParseError::Incomplete),
{
    let vb = version_bytes(v);
    assert(decimal(v.major as nat) == seq![(48 + v.major) as u8]);
    assert(decimal(v.minor as nat) == seq![(48 + v.minor) as u8]);
    assert(vb =~= seq![72u8, 84u8, 84u8, 80u8, 47u8, (48 + v.major) as u8, 46u8, (48 + v.minor) as u8]);
    let s = vb.take(j);
    if j < 4 {
        assert(http_name_bytes().take(j) =~= s);
    } else {
        assert(s.take(4) =~= http_name_bytes());
        let s1 = s.skip(4);
        if j > 4 {
            assert(s1[0] == 47u8);
            let s2 = s1.skip(1);
            if j > 5 {
                assert(s2[0] == (48 + v.major) as u8);
                let s3 = s2.skip(1);
                if j > 6 {
                    assert(s3[0] == 46u8);
                    assert(s3.skip(1).len() == 0);
                } else {
                    assert(s3.len() == 0);
                }
            } else {
                assert(s2.len() == 0);
            }
        } else {
            assert(s1.len() == 0);
        }
    }
}

pub open spec fn valid_request_line(l: (Seq<u8>, Seq<u8>, HttpVersion)) -> bool {
    &&& l.0.len() > 0
    &&& (forall|i: int| 0 <= i < l.0.len() ==> in_class(ByteClass::Tchar, #[trigger] l.0[i]))
    &&& l.1.len() > 0
    &&& (forall|i: int| 0 <= i < l.1.len() ==> #[trigger] l.1[i] != 32)
    &&& l.2.major < 10
    &&& l.2.minor < 10
}

pub open spec fn incomplete_line() -> Result<(Seq<u8>, (Seq<u8>, Seq<u8>, HttpVersion)), ParseError> {
    Err(ParseError::Incomplete)
}

proof fn lemma_line_layout(l: (Seq<u8>, Seq<u8>, HttpVersion))
    ensures
        request_line_bytes(l) == l.0 + (seq![32u8] + (l.1 + (seq![32u8] + (version_bytes(l.2) + crlf_bytes())))),
{
    assert(request_line_bytes(l) =~= l.0 + (seq![32u8] + (l.1 + (seq![32u8] + (version_bytes(l.2) + crlf_bytes())))));
}

proof fn lemma_prefix_in_method(l: (Seq<u8>, Seq<u8>, HttpVersion), k: int)
    requires
        valid_request_line(l),
        1 <= k <= l.0.len(),
    ensures
        spec_request_line(request_line_bytes(l).take(k)) == incomplete_line(),
{
    lemma_line_layout(l);
    let s = request_line_bytes(l).take(k);
    assert(s =~= l.0.take(k) + Seq::<u8>::empty());
    lemma_many1_prefix(l.0.take(k), Seq::empty(), ByteClass::Tchar);
}

/// After the method and its space, what is left of a prefix `s`.
#[verifier::rlimit(60)]
proof fn lemma_after_method(l: (Seq<u8>, Seq<u8>, HttpVersion), k: int)
    requires
        valid_request_line(l),
        l.0.len() < k <= request_line_bytes(l).len(),
    ensures
        spec_many1(request_line_bytes(l).take(k), ByteClass::Tchar) == Ok::<(Seq<u8>, Seq<u8>), ParseError>(
            (request_line_bytes(l).take(k).skip(l.0.len() as int), l.0),
        ),
        spec_byte(request_line_bytes(l).take(k).skip(l.0.len() as int), 32) == Ok::<(Seq<u8>, Seq<u8>), ParseError>(
            (request_line_bytes(l).take(k).skip(l.0.len() as int + 1), seq![32u8]),
        ),
        request_line_bytes(l).take(k).skip(l.0.len() as int + 1) == (l.1 + (seq![32u8] + (version_bytes(l.2) + crlf_bytes()))).take(k - l.0.len() - 1),
{
    lemma_line_layout(l);
    let m = l.0.len() as int;
    let s = request_line_bytes(l).take(k);
    let s1 = s.skip(m);
    assert(s =~= l.0 + s1);
    assert(s1[0] == 32u8);
    lemma_run_to(l.0, s1, ByteClass::Tchar, 0);
    assert(s.take(m) =~= l.0);
    assert(s1.skip(1) =~= s.skip(m + 1));
    assert(s1.take(1) =~= seq![32u8]);
    assert(s.skip(m + 1) =~= (l.1 + (seq![32u8] + (version_bytes(l.2) + crlf_bytes()))).take(k - m - 1));
}

#[verifier::rlimit(60)]
proof fn lemma_prefix_in_target(l: (Seq<u8>, Seq<u8>, HttpVersion), k: int)
    requires
        valid_request_line(l),
        l.0.len() < k <= l.0.len() + 1 + l.1.len(),
    ensures
        spec_request_line(request_line_bytes(l).take(k)) == incomplete_line(),
{
    lemma_after_method(l, k);
    let j = k - l.0.len() - 1;
    let s2 = request_line_bytes(l).take(k).skip(l.0.len() as int + 1);
    assert(s2 =~= l.1.take(j));
    assert forall|i: int| 0 <= i < j implies in_class(ByteClass::NotSpace, #[trigger] s2[i]) by {
        assert(s2[i] == l.1[i]);
    }
    lemma_run_to(s2, Seq::empty(), ByteClass::NotSpace, 0);
    assert(s2 + Seq::<u8>::empty() =~= s2);
}

#[verifier::rlimit(60)]
proof fn lemma_prefix_after_target(l: (Seq<u8>, Seq<u8>, HttpVersion), k: int)
    requires
        valid_request_line(l),
        l.0.len() + 1 + l.1.len() < k < request_line_bytes(l).len(),
    ensures
        spec_request_line(request_line_bytes(l).take(k)) == incomplete_line(),
{
    lemma_after_method(l, k);
    let t = l.1.len() as int;
    let s2 = request_line_bytes(l).take(k).skip(l.0.len() as int + 1);
    let s3 = s2.skip(t);
    assert(s2 =~= l.1 + s3);
    assert(s3[0] == 32u8);
    lemma_run_to(l.1, s3, ByteClass::NotSpace, 0);
    assert(s2.take(t) =~= l.1);
    assert(spec_request_target(s2) == Ok::<(Seq<u8>, Seq<u8>), ParseError>((s3, l.1)));
    let s4 = s3.skip(1);
    assert(s3.take(1) =~= seq![32u8]);
    let j = k - l.0.len() - 2 - t;
    if j < 8 {
        assert(s4 =~= version_bytes(l.2).take(j));
        lemma_version_prefix(l.2, j);
    } else {
        let c = crlf_bytes().take(j - 8);
        assert(s4 =~= version_bytes(l.2) + c);
        lemma_version_round_trip(l.2, c);
        assert(crlf_bytes().take(c.len() as int) =~= c);
    }
}

/// Restartability of the start line: every proper prefix of a request line
/// that `lemma_request_line_round_trip` reads back makes `start_line` ask
/// for more input, never fail.
pub proof fn lemma_request_line_prefix(l: (Seq<u8>, Seq<u8>, HttpVersion), k: int)
    requires
        valid_request_line(l),
        0 <= k < request_line_bytes(l).len(),
    ensures
        spec_start_line(request_line_bytes(l).take(k)) == Err::<(Seq<u8>, StartLineView), ParseError>(ParseError::Incomplete),
{
    let s = request_line_bytes(l).take(k);
    if k == 0 {
        assert(s.len() == 0);
        assert(run_end(s, 0, ByteClass::Tchar) == 0);
        assert(http_name_bytes().take(0) =~= s);
    } else if k <= l.0.len() {
        lemma_prefix_in_method(l, k);
    } else if k <= l.0.len() + 1 + l.1.len() {
        lemma_prefix_in_target(l, k);
    } else {
        lemma_prefix_after_target(l, k);
    }
}
proof fn lemma_field_value_stop(v: Seq<u8>, x: Seq<u8>)
    requires
        forall|k: int| 0 <= k < v.len() ==> in_class(ByteClass::FieldVchar, #[trigger] v[k]),
        x.len() == 0 || !in_class(ByteClass::Whitespace, x[0]),
        field_value_item(x) is None,
    ensures
        field_value_items(v + x) == (x, v),
    decreases v.len(),
{
    let s = v + x;
    if v.len() == 0 {
        assert(s =~= x);
        assert(v =~= Seq::<u8>::empty());
    } else {
        assert(s[0] == v[0]);
        if s.len() > 1 {
            assert(s[1] == if v.len() > 1 { v[1] } else { x[0] });
        }
        assert(run_end(s, 1, ByteClass::Whitespace) == 1);
        let tail = v.skip(1) + x;
        assert(s.skip(1) =~= tail);
        assert(s.take(1) =~= seq![v[0]]);
        lemma_field_value_stop(v.skip(1), x);
        assert(seq![v[0]] + v.skip(1) =~= v);
        assert(spec_field_content(s) == Ok::<(Seq<u8>, Seq<u8>), ParseError>((tail, seq![v[0]])));
        assert(field_value_item(s) == Some((tail, seq![v[0]])));
        assert(tail.len() < s.len());
    }
}

proof fn lemma_no_item_at_end()
    ensures
        field_value_item(Seq::<u8>::empty()) is None,
        field_value_item(seq![13u8]) is None,
{
    assert(crlf_bytes().take(0) =~= Seq::<u8>::empty());
    assert(crlf_bytes().take(1) =~= seq![13u8]);
}

pub open spec fn needs_more<V>(r: Parsed<V>) -> bool {
    match r {
        Ok((rest, _)) => rest.len() < 2 && rest == crlf_bytes().take(rest.len() as int),
        Err(e) => e == ParseError::Incomplete,
    }
}

/// Every proper, non-empty prefix of a plain header line needs more input.
#[verifier::rlimit(60)]
proof fn lemma_header_line_prefix(h: (Seq<u8>, Seq<u8>), j: int)
    requires
        plain_header(h),
        1 <= j < header_bytes(h).len(),
    ensures
        header_line(header_bytes(h).take(j)) == Err::<(Seq<u8>, (Seq<u8>, Seq<u8>)), ParseError>(ParseError::Incomplete),
{
    let (name, value) = h;
    let m = name.len() as int;
    let hb = header_bytes(h);
    let p = hb.take(j);
    assert(hb =~= name + (seq![58u8] + (value + crlf_bytes())));
    lemma_no_item_at_end();
    if j <= m {
        assert(p =~= name.take(j) + Seq::<u8>::empty());
        lemma_many1_prefix(name.take(j), Seq::empty(), ByteClass::Tchar);
    } else {
        let p1 = p.skip(m);
        assert(p =~= name + p1);
        assert(p1[0] == 58u8);
        lemma_many1_prefix(name, p1, ByteClass::Tchar);
        let p3 = p1.skip(1);
        assert(p1 =~= seq![58u8] + p3);
        lemma_byte_prefix(58, p3);
        assert(p3.len() == 0 || !in_class(ByteClass::Whitespace, p3[0])) by {
            if p3.len() > 0 {
                if value.len() > 0 {
                    assert(p3[0] == value[0]);
                } else {
                    assert(p3[0] == 13u8);
                }
            }
        }
        assert(run_end(p3, 0, ByteClass::Whitespace) == 0);
        assert(p3.skip(0) =~= p3);
        if j <= m + 1 + value.len() {
            let w = value.take(j - m - 1);
            assert(p3 =~= w + Seq::<u8>::empty());
            lemma_field_value_stop(w, Seq::empty());
            assert(run_end(Seq::<u8>::empty(), 0, ByteClass::Whitespace) == 0);
            assert(Seq::<u8>::empty().skip(0) =~= Seq::<u8>::empty());
            assert(crlf_bytes().take(0) =~= Seq::<u8>::empty());
        } else {
            assert(j == m + 2 + value.len());
            assert(p3 =~= value + seq![13u8]);
            lemma_field_value_stop(value, seq![13u8]);
            assert(run_end(seq![13u8], 0, ByteClass::Whitespace) == 0);
            assert(seq![13u8].skip(0) =~= seq![13u8]);
            assert(crlf_bytes().take(1) =~= seq![13u8]);
        }
    }
}

/// Every proper prefix of plain header lines and the empty line after them
/// leaves `headers` needing more input, or stops it before a part of the
/// final CRLF.
#[verifier::rlimit(60)]
proof fn lemma_headers_prefix(hs: Seq<(Seq<u8>, Seq<u8>)>, j: int)
    requires
        forall|k: int| 0 <= k < hs.len() ==> plain_header(#[trigger] hs[k]),
        0 <= j < (headers_bytes(hs) + crlf_bytes()).len(),
    ensures
        needs_more(spec_headers((headers_bytes(hs) + crlf_bytes()).take(j))),
    decreases hs.len(),
{
    let all = headers_bytes(hs) + crlf_bytes();
    let p = all.take(j);
    if j == 0 {
        assert(p.len() == 0);
        assert(run_end(p, 0, ByteClass::Tchar) == 0);
        assert(crlf_bytes().take(0) =~= p);
    } else if hs.len() == 0 {
        assert(headers_bytes(hs) =~= Seq::<u8>::empty());
        assert(p =~= seq![13u8]);
        assert(run_end(p, 0, ByteClass::Tchar) == 0);
        assert(crlf_bytes().take(1) =~= p);
    } else {
        lemma_headers_bytes_front(hs);
        let hb = header_bytes(hs[0]);
        let tail = headers_bytes(hs.skip(1)) + crlf_bytes();
        assert(all =~= hb + tail);
        if j < hb.len() {
            assert(p =~= hb.take(j));
            lemma_header_line_prefix(hs[0], j);
        } else {
            let q = tail.take(j - hb.len());
            assert(p =~= hb + q);
            assert forall|k: int| 0 <= k < hs.skip(1).len() implies plain_header(#[trigger] hs.skip(1)[k]) by {
                assert(hs.skip(1)[k] == hs[k + 1]);
            }
            assert(q.len() == 0 || !in_class(ByteClass::Whitespace, q[0])) by {
                if q.len() > 0 {
                    if hs.len() > 1 {
                        lemma_headers_bytes_front(hs.skip(1));
                        assert(hs.skip(1)[0] == hs[1]);
                        assert(plain_header(hs[1]));
                        assert(q[0] == hs[1].0[0]);
                    } else {
                        assert(hs.skip(1) =~= Seq::<(Seq<u8>, Seq<u8>)>::empty());
                        assert(q[0] == 13u8);
                    }
                }
            }
            lemma_header_line_plain(hs[0], q);
            lemma_headers_prefix(hs.skip(1), j - hb.len());
            assert(hb.len() > 0);
        }
    }
}

/// Restartability of a message head: every proper prefix of the head of a
/// request with a valid request line and plain headers makes `message_head`
/// ask for more input, never fail; the whole head is read back as it was
/// written (`lemma_head_round_trip`).
#[verifier::rlimit(60)]
pub proof fn lemma_message_head_prefix(l: (Seq<u8>, Seq<u8>, HttpVersion), hs: Seq<(Seq<u8>, Seq<u8>)>, k: int)
    requires
        valid_request_line(l),
        forall|i: int| 0 <= i < hs.len() ==> plain_header(#[trigger] hs[i]),
        0 <= k < (request_line_bytes(l) + headers_bytes(hs) + crlf_bytes()).len(),
    ensures
        spec_message_head((request_line_bytes(l) + headers_bytes(hs) + crlf_bytes()).take(k))
            == Err::<(Seq<u8>, (StartLineView, Seq<(Seq<u8>, Seq<u8>)>)), ParseError>(ParseError::Incomplete),
{
    let line = request_line_bytes(l);
    let rest = headers_bytes(hs) + crlf_bytes();
    let head = request_line_bytes(l) + headers_bytes(hs) + crlf_bytes();
    assert(head =~= line + rest);
    if k < line.len() {
        assert(head.take(k) =~= line.take(k));
        lemma_request_line_prefix(l, k);
    } else {
        let p = rest.take(k - line.len());
        assert(head.take(k) =~= line + p);
        lemma_request_line_round_trip(l, p);
        lemma_headers_prefix(hs, k - line.len());
    }
}

/// What a status line starts with is no request line.
proof fn lemma_status_line_is_no_request(l: (HttpVersion, u16, Seq<u8>), b: Seq<u8>)
    requires
        l.0.major < 10,
        l.0.minor < 10,
    ensures
        spec_request_line(status_line_bytes(l) + b)
            == Err::<(Seq<u8>, (Seq<u8>, Seq<u8>, HttpVersion)), ParseError>(ParseError::Invalid),
{
    let s = status_line_bytes(l) + b;
    let name = http_name_bytes();
    let after = s.skip(4);
    assert(s =~= name + after);
    assert(after[0] == 47u8);
    assert forall|k: int| 0 <= k < name.len() implies in_class(ByteClass::Tchar, #[trigger] name[k]) by {}
    lemma_many1_prefix(name, after, ByteClass::Tchar);
}

/// A response written by this library is read back as the same status
/// line, headers and body, whatever follows it: where its version is 1.1,
/// its code has three digits, its description is HTAB, SP, VCHAR and
/// obs-text, its headers are plain, and its body is empty, or a slice whose
/// length the first Content-Length number gives.
#[verifier::rlimit(60)]
pub proof fn lemma_response_round_trip(
    code: u16,
    description: Seq<u8>,
    hs: Seq<(Seq<u8>, Seq<u8>)>,
    body: BodyView,
    rest: Seq<u8>,
)
    requires
        100 <= code <= 999,
        forall|k: int| 0 <= k < description.len() ==> in_class(ByteClass::ReasonChar, #[trigger] description[k]),
        forall|k: int| 0 <= k < hs.len() ==> plain_header(#[trigger] hs[k]),
        values_of(hs, transfer_encoding_name()).len() == 0,
        match body {
            BodyView::Empty => spec_framing_length(hs) is None || spec_framing_length(hs) == Some(0u64),
            BodyView::Slice(d) => 0 < d.len() <= u64::MAX && spec_framing_length(hs) == Some(d.len() as u64),
            _ => false,
        },
    ensures
        spec_http_message(status_head_line(code, description) + headers_bytes(hs) + crlf_bytes() + body_bytes(body) + rest)
            == Ok::<(Seq<u8>, (StartLineView, Seq<(Seq<u8>, Seq<u8>)>, BodyView)), ParseError>(
            (rest, (StartLineView::Status((HttpVersion { major: 1, minor: 1 }, code, description)), hs, body)),
        ),
{
    let l = (HttpVersion { major: 1, minor: 1 }, code, description);
    let after_body = body_bytes(body) + rest;
    let after_line = headers_bytes(hs) + crlf_bytes() + after_body;
    let s = status_head_line(code, description) + headers_bytes(hs) + crlf_bytes() + body_bytes(body) + rest;
    assert(status_head_line(code, description) == status_line_bytes(l));
    assert(s =~= status_line_bytes(l) + after_line);
    lemma_status_line_is_no_request(l, after_line);
    lemma_status_line_round_trip(l, after_line);
    assert(spec_start_line(s) == Ok::<(Seq<u8>, StartLineView), ParseError>((after_line, StartLineView::Status(l))));
    lemma_headers_plain(hs, after_body);
    assert(headers_bytes(hs) + crlf_bytes() + after_body =~= after_line);
    lemma_tag_prefix(crlf_bytes(), after_body);
    lemma_body_round_trip(hs, body, rest);
}

pub open spec fn valid_status_line(l: (HttpVersion, u16, Seq<u8>)) -> bool {
    &&& l.0.major < 10
    &&& l.0.minor < 10
    &&& 100 <= l.1 <= 999
    &&& forall|k: int| 0 <= k < l.2.len() ==> in_class(ByteClass::ReasonChar, #[trigger] l.2[k])
}

proof fn lemma_status_layout(l: (HttpVersion, u16, Seq<u8>))
    ensures
        status_line_bytes(l) == version_bytes(l.0) + (seq![32u8] + (decimal(l.1 as nat) + (seq![32u8] + (l.2 + crlf_bytes())))),
{
    assert(status_line_bytes(l) =~= version_bytes(l.0) + (seq![32u8] + (decimal(l.1 as nat) + (seq![32u8] + (l.2 + crlf_bytes())))));
}

/// The part of a status line after its version: every proper prefix of it
/// needs more input.
#[verifier::rlimit(60)]
proof fn lemma_status_tail_prefix(l: (HttpVersion, u16, Seq<u8>), j: int)
    requires
        valid_status_line(l),
        0 <= j < (seq![32u8] + (decimal(l.1 as nat) + (seq![32u8] + (l.2 + crlf_bytes())))).len(),
    ensures
        ({
            let p = (seq![32u8] + (decimal(l.1 as nat) + (seq![32u8] + (l.2 + crlf_bytes())))).take(j);
            match spec_byte(p, 32) {
                Err(e) => e == ParseError::Incomplete,
                Ok((p1, _)) => match spec_status_code(p1) {
                    Err(e) => e == ParseError::Incomplete,
                    Ok((p2, _)) => match spec_byte(p2, 32) {
                        Err(e) => e == ParseError::Incomplete,
                        Ok((p3, _)) => match spec_many(p3, ByteClass::ReasonChar) {
                            Err(e) => e == ParseError::Incomplete,
                            Ok((p4, _)) => spec_tag(p4, crlf_bytes()) == Err::<(Seq<u8>, Seq<u8>), ParseError>(ParseError::Incomplete),
                        },
                    },
                },
            }
        }),
{
    let code = decimal(l.1 as nat);
    let after_code = seq![32u8] + (l.2 + crlf_bytes());
    let whole = seq![32u8] + (code + after_code);
    let p = whole.take(j);
    lemma_code_round_trip(l.1, after_code);
    let c = l.1 as nat;
    assert(code.len() == 3) by {
        assert(decimal(c / 10) == decimal(c / 10 / 10).push((48 + (c / 10) % 10) as u8));
        assert(c / 10 / 10 == c / 100);
        assert(decimal(c / 100) == seq![(48 + c / 100) as u8]);
    }
    assert forall|i: int| 0 <= i < 3 implies in_class(ByteClass::Digit, #[trigger] code[i]) by {
        assert(decimal(c) == seq![(48 + c / 100) as u8, (48 + (c / 10) % 10) as u8, (48 + c % 10) as u8]) by {
            assert(decimal(c / 10) == decimal(c / 10 / 10).push((48 + (c / 10) % 10) as u8));
            assert(c / 10 / 10 == c / 100);
            assert(decimal(c / 100) == seq![(48 + c / 100) as u8]);
        }
    }
    if j == 0 {
        assert(p.len() == 0);
    } else {
        let p1 = p.skip(1);
        assert(p =~= seq![32u8] + p1);
        lemma_byte_prefix(32, p1);
        if j <= 3 {
            assert(p1 =~= code.take(j - 1));
            assert(forall|k: int| 0 <= k < p1.len() ==> in_class(ByteClass::Digit, #[trigger] p1[k]) ) by {
                assert forall|k: int| 0 <= k < p1.len() implies in_class(ByteClass::Digit, #[trigger] p1[k]) by {
                    assert(p1[k] == code[k]);
                }
            }
        } else {
            let q = after_code.take(j - 4);
            assert(p1 =~= code + q);
            lemma_code_round_trip(l.1, q);
            if j == 4 {
                assert(q.len() == 0);
            } else {
                let q1 = q.skip(1);
                assert(q =~= seq![32u8] + q1);
                lemma_byte_prefix(32, q1);
                let reason = l.2;
                if j <= 5 + reason.len() {
                    let w = reason.take(j - 5);
                    assert(q1 =~= w + Seq::<u8>::empty());
                    assert forall|k: int| 0 <= k < w.len() implies in_class(ByteClass::ReasonChar, #[trigger] w[k]) by {
                        assert(w[k] == reason[k]);
                    }
                    if w.len() > 0 {
                        lemma_run_to(w, Seq::empty(), ByteClass::ReasonChar, 0);
                    }
                    assert(q1.skip(w.len() as int) =~= Seq::<u8>::empty());
                    assert(q1.take(w.len() as int) =~= w);
                    assert(crlf_bytes().take(0) =~= Seq::<u8>::empty());
                } else {
                    assert(q1 =~= reason + seq![13u8]);
                    if reason.len() > 0 {
                        lemma_run_to(reason, seq![13u8], ByteClass::ReasonChar, 0);
                    } else {
                        assert(run_end(q1, 0, ByteClass::ReasonChar) == 0);
                    }
                    assert(q1.skip(reason.len() as int) =~= seq![13u8]);
                    assert(q1.take(reason.len() as int) =~= reason);
                    assert(crlf_bytes().take(1) =~= seq![13u8]);
                }
            }
        }
    }
}

/// Restartability of a status line: every proper prefix of a status line
/// that `lemma_status_line_round_trip` reads back makes `start_line` ask for
/// more input, never fail.
#[verifier::rlimit(60)]
pub proof fn lemma_status_line_prefix(l: (HttpVersion, u16, Seq<u8>), k: int)
    requires
        valid_status_line(l),
        0 <= k < status_line_bytes(l).len(),
    ensures
        spec_start_line(status_line_bytes(l).take(k)) == Err::<(Seq<u8>, StartLineView), ParseError>(ParseError::Incomplete),
{
    lemma_status_layout(l);
    let vb = version_bytes(l.0);
    let tail = seq![32u8] + (decimal(l.1 as nat) + (seq![32u8] + (l.2 + crlf_bytes())));
    let s = status_line_bytes(l).take(k);
    assert(vb =~= http_name_bytes() + (seq![47u8] + (decimal(l.0.major as nat) + (seq![46u8] + decimal(l.0.minor as nat)))));
    assert(decimal(l.0.major as nat) == seq![(48 + l.0.major) as u8]);
    assert(decimal(l.0.minor as nat) == seq![(48 + l.0.minor) as u8]);
    assert(vb.len() == 8);
    if k <= 4 {
        let name = http_name_bytes().take(k);
        assert(s =~= name + Seq::<u8>::empty());
        assert forall|i: int| 0 <= i < name.len() implies in_class(ByteClass::Tchar, #[trigger] name[i]) by {}
        if k == 0 {
            assert(run_end(s, 0, ByteClass::Tchar) == 0);
            assert(http_name_bytes().take(0) =~= s);
        } else {
            lemma_many1_prefix(name, Seq::empty(), ByteClass::Tchar);
        }
    } else {
        let after = s.skip(4);
        assert(s =~= http_name_bytes() + after);
        assert(after[0] == 47u8);
        assert forall|i: int| 0 <= i < 4 implies in_class(ByteClass::Tchar, #[trigger] http_name_bytes()[i]) by {}
        lemma_many1_prefix(http_name_bytes(), after, ByteClass::Tchar);
        if k < 8 {
            assert(s =~= vb.take(k));
            lemma_version_prefix(l.0, k);
        } else {
            let p = tail.take(k - 8);
            assert(s =~= vb + p);
            lemma_version_round_trip(l.0, p);
            lemma_status_tail_prefix(l, k - 8);
        }
    }
}

/// Restartability of a response head: every proper prefix of the head of a
/// response with a valid status line and plain headers makes `message_head`
/// ask for more input, never fail.
#[verifier::rlimit(60)]
pub proof fn lemma_response_head_prefix(l: (HttpVersion, u16, Seq<u8>), hs: Seq<(Seq<u8>, Seq<u8>)>, k: int)
    requires
        valid_status_line(l),
        forall|i: int| 0 <= i < hs.len() ==> plain_header(#[trigger] hs[i]),
        0 <= k < (status_line_bytes(l) + headers_bytes(hs) + crlf_bytes()).len(),
    ensures
        spec_message_head((status_line_bytes(l) + headers_bytes(hs) + crlf_bytes()).take(k))
            == Err::<(Seq<u8>, (StartLineView, Seq<(Seq<u8>, Seq<u8>)>)), ParseError>(ParseError::Incomplete),
{
    let line = status_line_bytes(l);
    let rest = headers_bytes(hs) + crlf_bytes();
    let head = status_line_bytes(l) + headers_bytes(hs) + crlf_bytes();
    assert(head =~= line + rest);
    if k < line.len() {
        assert(head.take(k) =~= line.take(k));
        lemma_status_line_prefix(l, k);
    } else {
        let p = rest.take(k - line.len());
        assert(head.take(k) =~= line + p);
        lemma_status_line_is_no_request(l, p);
        lemma_status_line_round_trip(l, p);
        lemma_headers_prefix(hs, k - line.len());
    }
}

} // verus!
