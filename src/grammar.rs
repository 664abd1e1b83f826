use vstd::prelude::*;
use crate::ast::{
    HttpVersion, RequestLine, StatusLine, StartLine, StartLineView, Header, Headers, MessageHead,
    ChunkExtension, ChunkExtensions, Chunk, ChunkView, ChunkedBody, TransferParameter, TransferCoding,
    CodingView, opt_view, MessageBody, BodyView, HttpMessage, spec_framing_length, spec_transfer_framing,
};
use crate::text::utf8_valid;
use crate::misc::{parse_radix, spec_parse_int};
use vstd::utf8::valid_utf8;

verus! {

/// Why a parser produced no value: it needs more bytes to decide, or the
/// bytes do not follow the grammar.
#[derive(PartialEq, Eq, Debug, Clone, Copy)]
pub enum ParseError {
    Incomplete,
    Invalid,
}

/// What a parser yields on an input: the rest of the input and a value.
pub type Parsed<V> = Result<(Seq<u8>, V), ParseError>;

/// The abstract outcome of an executable parser.
pub open spec fn outcome<'a, T: View>(r: Result<(&'a [u8], T), ParseError>) -> Parsed<T::V> {
    match r {
        Ok((rest, v)) => Ok((rest@, v@)),
        Err(e) => Err(e),
    }
}

/// Classes of single bytes that the grammar names.
#[derive(PartialEq, Eq, Debug, Clone, Copy)]
pub enum ByteClass {
    Digit,
    HexDigit,
    Whitespace,
    Tchar,
    Vchar,
    ObsText,
    FieldVchar,
    ReasonChar,
    QuotedText,
    NotSpace,
    Zero,
}

pub open spec fn is_vchar(b: u8) -> bool {
    0x21 <= b <= 0x7e
}

pub open spec fn is_obs_text(b: u8) -> bool {
    0x80 <= b
}

pub open spec fn is_alpha(b: u8) -> bool {
    (65 <= b <= 90) || (97 <= b <= 122)
}

pub open spec fn is_tchar_symbol(b: u8) -> bool {
    b == 33 || (35 <= b <= 39) || b == 42 || b == 43 || b == 45 || b == 46 || (94 <= b <= 96)
        || b == 124 || b == 126
}

pub open spec fn in_class(c: ByteClass, b: u8) -> bool {
    match c {
        ByteClass::Digit => 48 <= b <= 57,
        ByteClass::HexDigit => (48 <= b <= 57) || (65 <= b <= 70) || (97 <= b <= 102),
        ByteClass::Whitespace => b == 32 || b == 9,
        ByteClass::Tchar => is_tchar_symbol(b) || (48 <= b <= 57) || is_alpha(b),
        ByteClass::Vchar => is_vchar(b),
        ByteClass::ObsText => is_obs_text(b),
        ByteClass::FieldVchar => is_vchar(b) || is_obs_text(b),
        ByteClass::ReasonChar => b == 9 || b == 32 || is_vchar(b) || is_obs_text(b),
        ByteClass::QuotedText => b == 9 || b == 32 || b == 0x21 || (0x23 <= b <= 0x5b)
            || (0x5d <= b <= 0x7e) || is_obs_text(b),
        ByteClass::NotSpace => b != 32,
        ByteClass::Zero => b == 48,
    }
}

pub fn class_has(c: ByteClass, b: u8) -> (r: bool)
    ensures
        r == in_class(c, b),
{
    match c {
        ByteClass::Digit => 48 <= b && b <= 57,
        ByteClass::HexDigit => (48 <= b && b <= 57) || (65 <= b && b <= 70) || (97 <= b && b <= 102),
        ByteClass::Whitespace => b == 32 || b == 9,
        ByteClass::Tchar => b == 33 || (35 <= b && b <= 39) || b == 42 || b == 43 || b == 45 || b == 46
            || (94 <= b && b <= 96) || b == 124 || b == 126 || (48 <= b && b <= 57)
            || (65 <= b && b <= 90) || (97 <= b && b <= 122),
        ByteClass::Vchar => 0x21 <= b && b <= 0x7e,
        ByteClass::ObsText => 0x80 <= b,
        ByteClass::FieldVchar => (0x21 <= b && b <= 0x7e) || 0x80 <= b,
        ByteClass::ReasonChar => b == 9 || b == 32 || (0x21 <= b && b <= 0x7e) || 0x80 <= b,
        ByteClass::QuotedText => b == 9 || b == 32 || b == 0x21 || (0x23 <= b && b <= 0x5b)
            || (0x5d <= b && b <= 0x7e) || 0x80 <= b,
        ByteClass::NotSpace => b != 32,
        ByteClass::Zero => b == 48,
    }
}

/// The end of the longest run of bytes of class `c` that starts at `i`.
pub open spec fn run_end(s: Seq<u8>, i: int, c: ByteClass) -> int
    decreases s.len() - i,
{
    if 0 <= i < s.len() && in_class(c, s[i]) {
        run_end(s, i + 1, c)
    } else {
        i
    }
}

pub proof fn lemma_run_end(s: Seq<u8>, i: int, c: ByteClass)
    requires
        0 <= i <= s.len(),
    ensures
        i <= run_end(s, i, c) <= s.len(),
        forall|k: int| i <= k < run_end(s, i, c) ==> in_class(c, #[trigger] s[k]),
        run_end(s, i, c) < s.len() ==> !in_class(c, s[run_end(s, i, c)]),
    decreases s.len() - i,
{
    if i < s.len() && in_class(c, s[i]) {
        lemma_run_end(s, i + 1, c);
    }
}

/// The end of the longest run of bytes of class `c` that starts at `start`.
pub fn run_from(i: &[u8], start: usize, c: ByteClass) -> (n: usize)
    requires
        start <= i@.len(),
    ensures
        n == run_end(i@, start as int, c),
        start <= n <= i@.len(),
{
    proof { lemma_run_end(i@, start as int, c); }
    let mut k: usize = start;
    while k < i.len() && class_has(c, i[k])
        invariant
            start <= k <= i@.len(),
            run_end(i@, start as int, c) == run_end(i@, k as int, c),
        decreases i@.len() - k,
    {
        k = k + 1;
    }
    k
}

/// Length of the longest run of bytes of class `c` at the start of `i`.
pub fn run(i: &[u8], c: ByteClass) -> (n: usize)
    ensures
        n == run_end(i@, 0, c),
        n <= i@.len(),
{
    proof { lemma_run_end(i@, 0, c); }
    let mut k: usize = 0;
    while k < i.len() && class_has(c, i[k])
        invariant
            k <= i@.len(),
            run_end(i@, 0, c) == run_end(i@, k as int, c),
        decreases i@.len() - k,
    {
        k = k + 1;
    }
    k
}

/// One byte of class `c`.
pub open spec fn spec_one(s: Seq<u8>, c: ByteClass) -> Parsed<Seq<u8>> {
    if s.len() == 0 {
        Err(ParseError::Incomplete)
    } else if in_class(c, s[0]) {
        Ok((s.skip(1), s.take(1)))
    } else {
        Err(ParseError::Invalid)
    }
}

pub fn one<'a>(i: &'a [u8], c: ByteClass) -> (r: Result<(&'a [u8], Vec<u8>), ParseError>)
    ensures
        r is Ok ==> r->Ok_0.0@.len() <= i@.len(),
        outcome(r) == spec_one(i@, c),
{
    if i.len() == 0 {
        Err(ParseError::Incomplete)
    } else if class_has(c, i[0]) {
        let mut v: Vec<u8> = Vec::new();
        v.push(i[0]);
        assert(v@ =~= i@.take(1));
        Ok((&i[1..i.len()], v))
    } else {
        Err(ParseError::Invalid)
    }
}

/// The byte `b`.
pub open spec fn spec_byte(s: Seq<u8>, b: u8) -> Parsed<Seq<u8>> {
    if s.len() == 0 {
        Err(ParseError::Incomplete)
    } else if s[0] == b {
        Ok((s.skip(1), s.take(1)))
    } else {
        Err(ParseError::Invalid)
    }
}

pub fn byte<'a>(i: &'a [u8], b: u8) -> (r: Result<(&'a [u8], Vec<u8>), ParseError>)
    ensures
        r is Ok ==> r->Ok_0.0@.len() <= i@.len(),
        outcome(r) == spec_byte(i@, b),
{
    if i.len() == 0 {
        Err(ParseError::Incomplete)
    } else if i[0] == b {
        let mut v: Vec<u8> = Vec::new();
        v.push(i[0]);
        assert(v@ =~= i@.take(1));
        Ok((&i[1..i.len()], v))
    } else {
        Err(ParseError::Invalid)
    }
}

/// The bytes `t`, in order; a proper prefix of `t` needs more input.
pub open spec fn spec_tag(s: Seq<u8>, t: Seq<u8>) -> Parsed<Seq<u8>> {
    if s.len() >= t.len() {
        if s.take(t.len() as int) == t {
            Ok((s.skip(t.len() as int), t))
        } else {
            Err(ParseError::Invalid)
        }
    } else if t.take(s.len() as int) == s {
        Err(ParseError::Incomplete)
    } else {
        Err(ParseError::Invalid)
    }
}

pub fn tag<'a>(i: &'a [u8], t: &[u8]) -> (r: Result<(&'a [u8], Vec<u8>), ParseError>)
    ensures
        r is Ok ==> r->Ok_0.0@.len() <= i@.len(),
        outcome(r) == spec_tag(i@, t@),
{
    let n = if i.len() < t.len() { i.len() } else { t.len() };
    let mut k: usize = 0;
    while k < n
        invariant
            n <= i@.len(),
            n <= t@.len(),
            n == i@.len() || n == t@.len(),
            k <= n,
            i@.take(k as int) == t@.take(k as int),
        decreases n - k,
    {
        if i[k] != t[k] {
            assert(i@.take(n as int)[k as int] != t@.take(n as int)[k as int]);
            assert(i@.take(t@.len() as int) != t@ || i@.len() < t@.len());
            assert(t@.take(i@.len() as int) != i@ || i@.len() >= t@.len());
            return Err(ParseError::Invalid);
        }
        k = k + 1;
        assert(i@.take(k as int) =~= t@.take(k as int));
    }
    if i.len() < t.len() {
        assert(i@.take(k as int) =~= i@);
        return Err(ParseError::Incomplete);
    }
    let mut v: Vec<u8> = Vec::new();
    let mut j: usize = 0;
    while j < t.len()
        invariant
            j <= t@.len(),
            v@ == t@.take(j as int),
        decreases t@.len() - j,
    {
        v.push(t[j]);
        j = j + 1;
        assert(v@ =~= t@.take(j as int));
    }
    assert(t@.take(k as int) =~= t@);
    assert(v@ =~= t@);
    Ok((&i[t.len()..i.len()], v))
}

/// Zero or more bytes of class `c`, as many as there are.
pub open spec fn spec_many(s: Seq<u8>, c: ByteClass) -> Parsed<Seq<u8>> {
    let n = run_end(s, 0, c);
    Ok((s.skip(n), s.take(n)))
}

/// One or more bytes of class `c`, as many as there are.
pub open spec fn spec_many1(s: Seq<u8>, c: ByteClass) -> Parsed<Seq<u8>> {
    let n = run_end(s, 0, c);
    if n == 0 {
        Err(ParseError::Invalid)
    } else {
        Ok((s.skip(n), s.take(n)))
    }
}

pub fn copy_prefix(i: &[u8], n: usize) -> (r: Vec<u8>)
    requires
        n <= i@.len(),
    ensures
        r@ == i@.take(n as int),
{
    let mut v: Vec<u8> = Vec::new();
    let mut j: usize = 0;
    while j < n
        invariant
            j <= n <= i@.len(),
            v@ == i@.take(j as int),
        decreases n - j,
    {
        v.push(i[j]);
        j = j + 1;
        assert(v@ =~= i@.take(j as int));
    }
    v
}

pub fn many<'a>(i: &'a [u8], c: ByteClass) -> (r: Result<(&'a [u8], Vec<u8>), ParseError>)
    ensures
        r is Ok ==> r->Ok_0.0@.len() <= i@.len(),
        outcome(r) == spec_many(i@, c),
{
    let n = run(i, c);
    Ok((&i[n..i.len()], copy_prefix(i, n)))
}

pub fn many1<'a>(i: &'a [u8], c: ByteClass) -> (r: Result<(&'a [u8], Vec<u8>), ParseError>)
    ensures
        r is Ok ==> r->Ok_0.0@.len() <= i@.len(),
        outcome(r) == spec_many1(i@, c),
{
    let n = run(i, c);
    if n == 0 {
        Err(ParseError::Invalid)
    } else {
        Ok((&i[n..i.len()], copy_prefix(i, n)))
    }
}

pub open spec fn http_name_bytes() -> Seq<u8> {
    seq![72u8, 84u8, 84u8, 80u8]
}

pub open spec fn crlf_bytes() -> Seq<u8> {
    seq![13u8, 10u8]
}

/// HTTP-name = "HTTP", case-sensitive
pub fn http_name<'a>(i: &'a [u8]) -> (r: Result<(&'a [u8], Vec<u8>), ParseError>)
    ensures
        r is Ok ==> r->Ok_0.0@.len() <= i@.len(),
        outcome(r) == spec_tag(i@, http_name_bytes()),
{
    let t: [u8; 4] = [72, 84, 84, 80];
    assert(t@ =~= http_name_bytes());
    tag(i, t.as_slice())
}

/// DIGIT = %x30-39
pub fn digit<'a>(i: &'a [u8]) -> (r: Result<(&'a [u8], Vec<u8>), ParseError>)
    ensures
        r is Ok ==> r->Ok_0.0@.len() <= i@.len(),
        outcome(r) == spec_one(i@, ByteClass::Digit),
{
    one(i, ByteClass::Digit)
}

/// HEXDIG = DIGIT / A-F / a-f
pub fn hex_digit<'a>(i: &'a [u8]) -> (r: Result<(&'a [u8], Vec<u8>), ParseError>)
    ensures
        r is Ok ==> r->Ok_0.0@.len() <= i@.len(),
        outcome(r) == spec_one(i@, ByteClass::HexDigit),
{
    one(i, ByteClass::HexDigit)
}

/// SP = %x20
pub fn space<'a>(i: &'a [u8]) -> (r: Result<(&'a [u8], Vec<u8>), ParseError>)
    ensures
        r is Ok ==> r->Ok_0.0@.len() <= i@.len(),
        outcome(r) == spec_byte(i@, 32),
{
    byte(i, 32)
}

/// HTAB = %x09
pub fn htab<'a>(i: &'a [u8]) -> (r: Result<(&'a [u8], Vec<u8>), ParseError>)
    ensures
        r is Ok ==> r->Ok_0.0@.len() <= i@.len(),
        outcome(r) == spec_byte(i@, 9),
{
    byte(i, 9)
}

/// DQUOTE = %x22
pub fn double_quote<'a>(i: &'a [u8]) -> (r: Result<(&'a [u8], Vec<u8>), ParseError>)
    ensures
        r is Ok ==> r->Ok_0.0@.len() <= i@.len(),
        outcome(r) == spec_byte(i@, 34),
{
    byte(i, 34)
}

/// CRLF = CR LF
pub fn crlf<'a>(i: &'a [u8]) -> (r: Result<(&'a [u8], Vec<u8>), ParseError>)
    ensures
        r is Ok ==> r->Ok_0.0@.len() <= i@.len(),
        outcome(r) == spec_tag(i@, crlf_bytes()),
{
    let t: [u8; 2] = [13, 10];
    assert(t@ =~= crlf_bytes());
    tag(i, t.as_slice())
}

/// VCHAR = %x21-7E
pub fn vchar<'a>(i: &'a [u8]) -> (r: Result<(&'a [u8], Vec<u8>), ParseError>)
    ensures
        r is Ok ==> r->Ok_0.0@.len() <= i@.len(),
        outcome(r) == spec_one(i@, ByteClass::Vchar),
{
    one(i, ByteClass::Vchar)
}

/// obs-text = %x80-FF
pub fn obs_text<'a>(i: &'a [u8]) -> (r: Result<(&'a [u8], Vec<u8>), ParseError>)
    ensures
        r is Ok ==> r->Ok_0.0@.len() <= i@.len(),
        outcome(r) == spec_one(i@, ByteClass::ObsText),
{
    one(i, ByteClass::ObsText)
}

/// OWS = *( SP / HTAB )
pub fn ows<'a>(i: &'a [u8]) -> (r: Result<(&'a [u8], Vec<u8>), ParseError>)
    ensures
        r is Ok ==> r->Ok_0.0@.len() <= i@.len(),
        outcome(r) == spec_many(i@, ByteClass::Whitespace),
{
    many(i, ByteClass::Whitespace)
}

/// RWS = 1*( SP / HTAB )
pub fn rws<'a>(i: &'a [u8]) -> (r: Result<(&'a [u8], Vec<u8>), ParseError>)
    ensures
        r is Ok ==> r->Ok_0.0@.len() <= i@.len(),
        outcome(r) == spec_many1(i@, ByteClass::Whitespace),
{
    many1(i, ByteClass::Whitespace)
}

/// The same as `rws`, where the grammar writes 1*( SP / HTAB ).
pub fn spaces<'a>(i: &'a [u8]) -> (r: Result<(&'a [u8], Vec<u8>), ParseError>)
    ensures
        r is Ok ==> r->Ok_0.0@.len() <= i@.len(),
        outcome(r) == spec_many1(i@, ByteClass::Whitespace),
{
    many1(i, ByteClass::Whitespace)
}

/// tchar = "!" / "#" / "$" / "%" / "&" / "'" / "*" / "+" / "-" / "." / "^" / "_" / "`" / "|" / "~" / DIGIT / ALPHA
pub fn tchar<'a>(i: &'a [u8]) -> (r: Result<(&'a [u8], Vec<u8>), ParseError>)
    ensures
        r is Ok ==> r->Ok_0.0@.len() <= i@.len(),
        outcome(r) == spec_one(i@, ByteClass::Tchar),
{
    one(i, ByteClass::Tchar)
}

/// token = 1*tchar
pub fn token<'a>(i: &'a [u8]) -> (r: Result<(&'a [u8], Vec<u8>), ParseError>)
    ensures
        r is Ok ==> r->Ok_0.0@.len() <= i@.len(),
        outcome(r) == spec_many1(i@, ByteClass::Tchar),
{
    many1(i, ByteClass::Tchar)
}

/// A request target: one or more bytes other than SP, which must be
/// followed by more input.
pub open spec fn spec_request_target(s: Seq<u8>) -> Parsed<Seq<u8>> {
    let n = run_end(s, 0, ByteClass::NotSpace);
    if n == s.len() {
        Err(ParseError::Incomplete)
    } else if n == 0 {
        Err(ParseError::Invalid)
    } else {
        Ok((s.skip(n), s.take(n)))
    }
}

pub fn request_target<'a>(i: &'a [u8]) -> (r: Result<(&'a [u8], Vec<u8>), ParseError>)
    ensures
        r is Ok ==> r->Ok_0.0@.len() <= i@.len(),
        outcome(r) == spec_request_target(i@),
{
    let n = run(i, ByteClass::NotSpace);
    if n == i.len() {
        Err(ParseError::Incomplete)
    } else if n == 0 {
        Err(ParseError::Invalid)
    } else {
        Ok((&i[n..i.len()], copy_prefix(i, n)))
    }
}

/// HTTP-version = HTTP-name "/" DIGIT "." DIGIT
pub open spec fn spec_http_version(s: Seq<u8>) -> Parsed<HttpVersion> {
    match spec_tag(s, http_name_bytes()) {
        Err(e) => Err(e),
        Ok((s1, _)) => match spec_byte(s1, 47) {
            Err(e) => Err(e),
            Ok((s2, _)) => match spec_one(s2, ByteClass::Digit) {
                Err(e) => Err(e),
                Ok((s3, major)) => match spec_byte(s3, 46) {
                    Err(e) => Err(e),
                    Ok((s4, _)) => match spec_one(s4, ByteClass::Digit) {
                        Err(e) => Err(e),
                        Ok((s5, minor)) => Ok(
                            (s5, HttpVersion { major: (major[0] - 48) as u8, minor: (minor[0] - 48) as u8 }),
                        ),
                    },
                },
            },
        },
    }
}

pub fn http_version<'a>(i: &'a [u8]) -> (r: Result<(&'a [u8], HttpVersion), ParseError>)
    ensures
        r is Ok ==> r->Ok_0.0@.len() <= i@.len(),
        outcome(r) == spec_http_version(i@),
{
    let (i1, _) = http_name(i)?;
    let (i2, _) = byte(i1, 47)?;
    let (i3, major) = digit(i2)?;
    let (i4, _) = byte(i3, 46)?;
    let (i5, minor) = digit(i4)?;
    Ok((i5, HttpVersion { major: crate::misc::asci_digit(major.as_slice()), minor: crate::misc::asci_digit(minor.as_slice()) }))
}

/// request-line = method SP request-target SP HTTP-version CRLF
pub open spec fn spec_request_line(s: Seq<u8>) -> Parsed<(Seq<u8>, Seq<u8>, HttpVersion)> {
    match spec_many1(s, ByteClass::Tchar) {
        Err(e) => Err(e),
        Ok((s1, method)) => match spec_byte(s1, 32) {
            Err(e) => Err(e),
            Ok((s2, _)) => match spec_request_target(s2) {
                Err(e) => Err(e),
                Ok((s3, target)) => match spec_byte(s3, 32) {
                    Err(e) => Err(e),
                    Ok((s4, _)) => match spec_http_version(s4) {
                        Err(e) => Err(e),
                        Ok((s5, version)) => match spec_tag(s5, crlf_bytes()) {
                            Err(e) => Err(e),
                            Ok((s6, _)) => Ok((s6, (method, target, version))),
                        },
                    },
                },
            },
        },
    }
}

pub fn request_line<'a>(i: &'a [u8]) -> (r: Result<(&'a [u8], RequestLine), ParseError>)
    ensures
        r is Ok ==> r->Ok_0.0@.len() <= i@.len(),
        outcome(r) == spec_request_line(i@),
{
    let (i1, method) = token(i)?;
    let (i2, _) = space(i1)?;
    let (i3, request_target) = request_target(i2)?;
    let (i4, _) = space(i3)?;
    let (i5, version) = http_version(i4)?;
    let (i6, _) = crlf(i5)?;
    Ok((i6, RequestLine { method, request_target, version }))
}

/// status-code = 3DIGIT; fewer than three digits at the end of the input
/// need more input.
pub open spec fn spec_status_code(s: Seq<u8>) -> Parsed<u16> {
    if s.len() >= 3 && in_class(ByteClass::Digit, s[0]) && in_class(ByteClass::Digit, s[1])
        && in_class(ByteClass::Digit, s[2]) {
        Ok((s.skip(3), ((s[0] - 48) * 100 + (s[1] - 48) * 10 + (s[2] - 48)) as u16))
    } else if s.len() < 3 && forall|k: int| 0 <= k < s.len() ==> in_class(ByteClass::Digit, #[trigger] s[k]) {
        Err(ParseError::Incomplete)
    } else {
        Err(ParseError::Invalid)
    }
}

pub fn status_code<'a>(i: &'a [u8]) -> (r: Result<(&'a [u8], u16), ParseError>)
    ensures
        r is Ok ==> r->Ok_0.0@.len() <= i@.len(),
        outcome(r) == spec_status_code(i@),
{
    let n = run(i, ByteClass::Digit);
    proof { lemma_run_end(i@, 0, ByteClass::Digit); }
    if n >= 3 {
        let d0 = (i[0] - 48) as u16;
        let d1 = (i[1] - 48) as u16;
        let d2 = (i[2] - 48) as u16;
        Ok((&i[3..i.len()], d0 * 100 + d1 * 10 + d2))
    } else if n == i.len() {
        Err(ParseError::Incomplete)
    } else {
        Err(ParseError::Invalid)
    }
}

/// reason-phrase = *( HTAB / SP / VCHAR / obs-text )
pub fn reason_phrase<'a>(i: &'a [u8]) -> (r: Result<(&'a [u8], Vec<u8>), ParseError>)
    ensures
        r is Ok ==> r->Ok_0.0@.len() <= i@.len(),
        outcome(r) == spec_many(i@, ByteClass::ReasonChar),
{
    many(i, ByteClass::ReasonChar)
}

/// status-line = HTTP-version SP status-code SP reason-phrase CRLF
pub open spec fn spec_status_line(s: Seq<u8>) -> Parsed<(HttpVersion, u16, Seq<u8>)> {
    match spec_http_version(s) {
        Err(e) => Err(e),
        Ok((s1, version)) => match spec_byte(s1, 32) {
            Err(e) => Err(e),
            Ok((s2, _)) => match spec_status_code(s2) {
                Err(e) => Err(e),
                Ok((s3, code)) => match spec_byte(s3, 32) {
                    Err(e) => Err(e),
                    Ok((s4, _)) => match spec_many(s4, ByteClass::ReasonChar) {
                        Err(e) => Err(e),
                        Ok((s5, reason)) => match spec_tag(s5, crlf_bytes()) {
                            Err(e) => Err(e),
                            Ok((s6, _)) => Ok((s6, (version, code, reason))),
                        },
                    },
                },
            },
        },
    }
}

pub fn status_line<'a>(i: &'a [u8]) -> (r: Result<(&'a [u8], StatusLine), ParseError>)
    ensures
        r is Ok ==> r->Ok_0.0@.len() <= i@.len(),
        outcome(r) == spec_status_line(i@),
{
    let (i1, version) = http_version(i)?;
    let (i2, _) = space(i1)?;
    let (i3, code) = status_code(i2)?;
    let (i4, _) = space(i3)?;
    let (i5, description) = reason_phrase(i4)?;
    let (i6, _) = crlf(i5)?;
    Ok((i6, StatusLine { version, code, description }))
}

/// start-line = request-line / status-line
pub open spec fn spec_start_line(s: Seq<u8>) -> Parsed<StartLineView> {
    match spec_request_line(s) {
        Ok((rest, l)) => Ok((rest, StartLineView::Request(l))),
        Err(ParseError::Incomplete) => Err(ParseError::Incomplete),
        Err(ParseError::Invalid) => match spec_status_line(s) {
            Ok((rest, l)) => Ok((rest, StartLineView::Status(l))),
            Err(e) => Err(e),
        },
    }
}

pub fn start_line<'a>(i: &'a [u8]) -> (r: Result<(&'a [u8], StartLine), ParseError>)
    ensures
        r is Ok ==> r->Ok_0.0@.len() <= i@.len(),
        outcome(r) == spec_start_line(i@),
{
    match request_line(i) {
        Ok((rest, l)) => Ok((rest, StartLine::RequestLine(l))),
        Err(ParseError::Incomplete) => Err(ParseError::Incomplete),
        Err(ParseError::Invalid) => match status_line(i) {
            Ok((rest, l)) => Ok((rest, StartLine::StatusLine(l))),
            Err(e) => Err(e),
        },
    }
}

/// field-vchar = VCHAR / obs-text
pub fn field_vchar<'a>(i: &'a [u8]) -> (r: Result<(&'a [u8], Vec<u8>), ParseError>)
    ensures
        r is Ok ==> r->Ok_0.0@.len() <= i@.len(),
        outcome(r) == spec_one(i@, ByteClass::FieldVchar),
{
    one(i, ByteClass::FieldVchar)
}

/// The length of a field-content that starts with a field-vchar.
pub open spec fn field_content_len(s: Seq<u8>) -> int {
    let k = run_end(s, 1, ByteClass::Whitespace);
    if k > 1 && k < s.len() && in_class(ByteClass::FieldVchar, s[k]) {
        k + 1
    } else {
        1
    }
}

/// field-content = field-vchar [ 1*( SP / HTAB ) field-vchar ]
pub open spec fn spec_field_content(s: Seq<u8>) -> Parsed<Seq<u8>> {
    if s.len() == 0 {
        Err(ParseError::Incomplete)
    } else if !in_class(ByteClass::FieldVchar, s[0]) {
        Err(ParseError::Invalid)
    } else {
        let n = field_content_len(s);
        Ok((s.skip(n), s.take(n)))
    }
}

pub fn field_content<'a>(i: &'a [u8]) -> (r: Result<(&'a [u8], Vec<u8>), ParseError>)
    ensures
        r is Ok ==> r->Ok_0.0@.len() <= i@.len(),
        outcome(r) == spec_field_content(i@),
{
    if i.len() == 0 {
        return Err(ParseError::Incomplete);
    }
    if !class_has(ByteClass::FieldVchar, i[0]) {
        return Err(ParseError::Invalid);
    }
    let k = run_from(i, 1, ByteClass::Whitespace);
    let n: usize = if k > 1 && k < i.len() && class_has(ByteClass::FieldVchar, i[k]) { k + 1 } else { 1 };
    Ok((&i[n..i.len()], copy_prefix(i, n)))
}

/// obs-fold = CRLF 1*( SP / HTAB ), which stands for a single SP.
pub open spec fn spec_obs_fold(s: Seq<u8>) -> Parsed<Seq<u8>> {
    match spec_tag(s, crlf_bytes()) {
        Err(e) => Err(e),
        Ok((s1, _)) => match spec_many1(s1, ByteClass::Whitespace) {
            Err(e) => Err(e),
            Ok((s2, _)) => Ok((s2, seq![32u8])),
        },
    }
}

pub fn obs_fold<'a>(i: &'a [u8]) -> (r: Result<(&'a [u8], Vec<u8>), ParseError>)
    ensures
        r is Ok ==> r->Ok_0.0@.len() <= i@.len(),
        outcome(r) == spec_obs_fold(i@),
{
    let (i1, _) = crlf(i)?;
    let (i2, _) = spaces(i1)?;
    let mut v: Vec<u8> = Vec::new();
    v.push(32);
    assert(v@ =~= seq![32u8]);
    Ok((i2, v))
}

/// One item of a field-value: field-content, or else obs-fold.
pub open spec fn field_value_item(s: Seq<u8>) -> Option<(Seq<u8>, Seq<u8>)> {
    match spec_field_content(s) {
        Ok((r, v)) => Some((r, v)),
        Err(_) => match spec_obs_fold(s) {
            Ok((r, v)) => Some((r, v)),
            Err(_) => None,
        },
    }
}

/// The rest and the value after as many field-value items as there are.
pub open spec fn field_value_items(s: Seq<u8>) -> (Seq<u8>, Seq<u8>)
    decreases s.len(),
{
    match field_value_item(s) {
        Some((r, v)) => if r.len() < s.len() {
            let (r2, v2) = field_value_items(r);
            (r2, v + v2)
        } else {
            (s, Seq::empty())
        },
        None => (s, Seq::empty()),
    }
}

/// field-value = *( field-content / obs-fold )
pub open spec fn spec_field_value(s: Seq<u8>) -> Parsed<Seq<u8>> {
    Ok(field_value_items(s))
}

pub fn field_value<'a>(i: &'a [u8]) -> (r: Result<(&'a [u8], Vec<u8>), ParseError>)
    ensures
        r is Ok ==> r->Ok_0.0@.len() <= i@.len(),
        outcome(r) == spec_field_value(i@),
{
    let mut cur: &'a [u8] = i;
    let mut acc: Vec<u8> = Vec::new();
    loop
        invariant
            cur@.len() <= i@.len(),
            field_value_items(i@) == (field_value_items(cur@).0, acc@ + field_value_items(cur@).1),
        decreases cur@.len(),
    {
        let item = match field_content(cur) {
            Ok(x) => Some(x),
            Err(_) => match obs_fold(cur) {
                Ok(x) => Some(x),
                Err(_) => None,
            },
        };
        match item {
            Some((rest, piece)) => {
                if rest.len() < cur.len() {
                    let ghost old_acc = acc@;
                    let ghost tail = field_value_items(rest@);
                    let mut piece = piece;
                    acc.append(&mut piece);
                    assert(acc@ + tail.1 =~= old_acc + (field_value_items(cur@).1));
                    cur = rest;
                } else {
                    assert(acc@ =~= acc@ + Seq::<u8>::empty());
                    return Ok((cur, acc));
                }
            },
            None => {
                assert(acc@ =~= acc@ + Seq::<u8>::empty());
                return Ok((cur, acc));
            },
        }
    }
}

/// header-field = field-name ":" OWS field-value OWS, where the value must
/// be UTF-8; a value that is not, with nothing after it, may still be cut
/// short and needs more input.
pub open spec fn spec_header_field(s: Seq<u8>) -> Parsed<(Seq<u8>, Seq<u8>)> {
    match spec_many1(s, ByteClass::Tchar) {
        Err(e) => Err(e),
        Ok((s1, name)) => match spec_byte(s1, 58) {
            Err(e) => Err(e),
            Ok((s2, _)) => match spec_many(s2, ByteClass::Whitespace) {
                Err(e) => Err(e),
                Ok((s3, _)) => match spec_field_value(s3) {
                    Err(e) => Err(e),
                    Ok((s4, value)) => match spec_many(s4, ByteClass::Whitespace) {
                        Err(e) => Err(e),
                        Ok((s5, _)) => if valid_utf8(value) {
                            Ok((s5, (name, value)))
                        } else if s5.len() == 0 {
                            Err(ParseError::Incomplete)
                        } else {
                            Err(ParseError::Invalid)
                        },
                    },
                },
            },
        },
    }
}

pub fn header_field<'a>(i: &'a [u8]) -> (r: Result<(&'a [u8], Header), ParseError>)
    ensures
        r is Ok ==> r->Ok_0.0@.len() <= i@.len(),
        outcome(r) == spec_header_field(i@),
{
    let (i1, name) = token(i)?;
    let (i2, _) = byte(i1, 58)?;
    let (i3, _) = ows(i2)?;
    let (i4, value) = field_value(i3)?;
    let (i5, _) = ows(i4)?;
    if utf8_valid(value.as_slice()) {
        Ok((i5, Header { name, value }))
    } else if i5.len() == 0 {
        Err(ParseError::Incomplete)
    } else {
        Err(ParseError::Invalid)
    }
}

/// header-field CRLF
pub open spec fn header_line(s: Seq<u8>) -> Parsed<(Seq<u8>, Seq<u8>)> {
    match spec_header_field(s) {
        Err(e) => Err(e),
        Ok((s1, h)) => match spec_tag(s1, crlf_bytes()) {
            Err(e) => Err(e),
            Ok((s2, _)) => Ok((s2, h)),
        },
    }
}

/// headers = *( header-field CRLF ); a header line that needs more input
/// makes the whole need more input.
pub open spec fn spec_headers(s: Seq<u8>) -> Parsed<Seq<(Seq<u8>, Seq<u8>)>>
    decreases s.len(),
{
    match header_line(s) {
        Ok((r, h)) => if r.len() < s.len() {
            match spec_headers(r) {
                Ok((r2, hs)) => Ok((r2, seq![h] + hs)),
                Err(e) => Err(e),
            }
        } else {
            Ok((s, Seq::empty()))
        },
        Err(ParseError::Incomplete) => Err(ParseError::Incomplete),
        Err(ParseError::Invalid) => Ok((s, Seq::empty())),
    }
}

pub open spec fn prepend_headers(prefix: Seq<(Seq<u8>, Seq<u8>)>, r: Parsed<Seq<(Seq<u8>, Seq<u8>)>>) -> Parsed<Seq<(Seq<u8>, Seq<u8>)>> {
    match r {
        Ok((rest, hs)) => Ok((rest, prefix + hs)),
        Err(e) => Err(e),
    }
}

pub fn headers<'a>(i: &'a [u8]) -> (r: Result<(&'a [u8], Headers), ParseError>)
    ensures
        r is Ok ==> r->Ok_0.0@.len() <= i@.len(),
        outcome(r) == spec_headers(i@),
{
    let mut cur: &'a [u8] = i;
    let mut acc: Vec<Header> = Vec::new();
    loop
        invariant
            cur@.len() <= i@.len(),
            spec_headers(i@) == prepend_headers(acc@.map_values(|h: Header| h@), spec_headers(cur@)),
        decreases cur@.len(),
    {
        let line = match header_field(cur) {
            Ok((i1, h)) => match crlf(i1) {
                Ok((i2, _)) => Ok((i2, h)),
                Err(e) => Err(e),
            },
            Err(e) => Err(e),
        };
        match line {
            Ok((rest, h)) => {
                if rest.len() < cur.len() {
                    let ghost before = acc@.map_values(|h: Header| h@);
                    acc.push(h);
                    assert(acc@.map_values(|h: Header| h@) =~= before.push(h@));
                    assert(before.push(h@) + Seq::<(Seq<u8>, Seq<u8>)>::empty() =~= before + seq![h@]);
                    proof {
                        match spec_headers(rest@) {
                            Ok((r2, hs)) => {
                                assert(before + (seq![h@] + hs) =~= before.push(h@) + hs);
                            },
                            Err(_) => {},
                        }
                    }
                    cur = rest;
                } else {
                    assert(acc@.map_values(|h: Header| h@) + Seq::<(Seq<u8>, Seq<u8>)>::empty() =~= acc@.map_values(|h: Header| h@));
                    return Ok((cur, Headers(acc)));
                }
            },
            Err(ParseError::Incomplete) => {
                return Err(ParseError::Incomplete);
            },
            Err(ParseError::Invalid) => {
                assert(acc@.map_values(|h: Header| h@) + Seq::<(Seq<u8>, Seq<u8>)>::empty() =~= acc@.map_values(|h: Header| h@));
                return Ok((cur, Headers(acc)));
            },
        }
    }
}

/// message-head = start-line *( header-field CRLF ) CRLF
pub open spec fn spec_message_head(s: Seq<u8>) -> Parsed<(StartLineView, Seq<(Seq<u8>, Seq<u8>)>)> {
    match spec_start_line(s) {
        Err(e) => Err(e),
        Ok((s1, line)) => match spec_headers(s1) {
            Err(e) => Err(e),
            Ok((s2, hs)) => match spec_tag(s2, crlf_bytes()) {
                Err(e) => Err(e),
                Ok((s3, _)) => Ok((s3, (line, hs))),
            },
        },
    }
}

pub fn message_head<'a>(i: &'a [u8]) -> (r: Result<(&'a [u8], MessageHead), ParseError>)
    ensures
        r is Ok ==> r->Ok_0.0@.len() <= i@.len(),
        outcome(r) == spec_message_head(i@),
{
    let (i1, start_line) = start_line(i)?;
    let (i2, headers) = headers(i1)?;
    let (i3, _) = crlf(i2)?;
    Ok((i3, MessageHead { start_line, headers }))
}

/// qdtext = HTAB / SP / %x21 / %x23-5B / %x5D-7E / obs-text
pub fn quoted_text<'a>(i: &'a [u8]) -> (r: Result<(&'a [u8], Vec<u8>), ParseError>)
    ensures
        r is Ok ==> r->Ok_0.0@.len() <= i@.len(),
        outcome(r) == spec_one(i@, ByteClass::QuotedText),
{
    one(i, ByteClass::QuotedText)
}

/// quoted-pair = "\" ( HTAB / SP / VCHAR / obs-text ); its value is the escaped byte.
pub open spec fn spec_quoted_pair(s: Seq<u8>) -> Parsed<Seq<u8>> {
    match spec_byte(s, 92) {
        Err(e) => Err(e),
        Ok((s1, _)) => spec_one(s1, ByteClass::ReasonChar),
    }
}

pub fn quoted_pair<'a>(i: &'a [u8]) -> (r: Result<(&'a [u8], Vec<u8>), ParseError>)
    ensures
        r is Ok ==> r->Ok_0.0@.len() <= i@.len(),
        outcome(r) == spec_quoted_pair(i@),
{
    let (i1, _) = byte(i, 92)?;
    one(i1, ByteClass::ReasonChar)
}

/// One item inside a quoted-string: qdtext, or else quoted-pair.
pub open spec fn quoted_item(s: Seq<u8>) -> Option<(Seq<u8>, Seq<u8>)> {
    match spec_one(s, ByteClass::QuotedText) {
        Ok((r, v)) => Some((r, v)),
        Err(_) => match spec_quoted_pair(s) {
            Ok((r, v)) => Some((r, v)),
            Err(_) => None,
        },
    }
}

pub open spec fn quoted_items(s: Seq<u8>) -> (Seq<u8>, Seq<u8>)
    decreases s.len(),
{
    match quoted_item(s) {
        Some((r, v)) => if r.len() < s.len() {
            let (r2, v2) = quoted_items(r);
            (r2, v + v2)
        } else {
            (s, Seq::empty())
        },
        None => (s, Seq::empty()),
    }
}

/// quoted-string = DQUOTE *( qdtext / quoted-pair ) DQUOTE; the value has
/// the escapes removed.
pub open spec fn spec_quoted_string(s: Seq<u8>) -> Parsed<Seq<u8>> {
    match spec_byte(s, 34) {
        Err(e) => Err(e),
        Ok((s1, _)) => {
            let (s2, v) = quoted_items(s1);
            match spec_byte(s2, 34) {
                Err(e) => Err(e),
                Ok((s3, _)) => Ok((s3, v)),
            }
        },
    }
}

pub fn quoted_string<'a>(i: &'a [u8]) -> (r: Result<(&'a [u8], Vec<u8>), ParseError>)
    ensures
        r is Ok ==> r->Ok_0.0@.len() <= i@.len(),
        outcome(r) == spec_quoted_string(i@),
{
    let (i1, _) = double_quote(i)?;
    let mut cur: &'a [u8] = i1;
    let mut acc: Vec<u8> = Vec::new();
    loop
        invariant
            cur@.len() <= i1@.len(),
            quoted_items(i1@) == (quoted_items(cur@).0, acc@ + quoted_items(cur@).1),
        ensures
        quoted_items(i1@) == (cur@, acc@),
        decreases cur@.len(),
    {
        let item = match quoted_text(cur) {
            Ok(x) => Some(x),
            Err(_) => match quoted_pair(cur) {
                Ok(x) => Some(x),
                Err(_) => None,
            },
        };
        match item {
            Some((rest, piece)) => {
                if rest.len() < cur.len() {
                    let ghost old_acc = acc@;
                    let mut piece = piece;
                    acc.append(&mut piece);
                    assert(acc@ + quoted_items(rest@).1 =~= old_acc + (quoted_items(cur@).1));
                    cur = rest;
                } else {
                    assert(quoted_items(cur@) == (cur@, Seq::<u8>::empty()));
                    assert(acc@ + Seq::<u8>::empty() =~= acc@);
                    break;
                }
            },
            None => {
                assert(quoted_items(cur@) == (cur@, Seq::<u8>::empty()));
                assert(acc@ + Seq::<u8>::empty() =~= acc@);
                break;
            },
        }
    }
    assert(acc@ =~= acc@ + Seq::<u8>::empty());
    let (i3, _) = double_quote(cur)?;
    Ok((i3, acc))
}

/// chunk-size = 1*HEXDIG, read as an unsigned 64-bit number.
pub open spec fn spec_chunk_size(s: Seq<u8>) -> Parsed<u64> {
    match spec_many1(s, ByteClass::HexDigit) {
        Err(e) => Err(e),
        Ok((r, digits)) => match spec_parse_int(digits, 16, u64::MAX as nat) {
            Ok(v) => Ok((r, v as u64)),
            Err(_) => Err(ParseError::Invalid),
        },
    }
}

pub fn chunk_size<'a>(i: &'a [u8]) -> (r: Result<(&'a [u8], u64), ParseError>)
    ensures
        r is Ok ==> r->Ok_0.0@.len() <= i@.len(),
        outcome(r) == spec_chunk_size(i@),
{
    let (rest, digits) = many1(i, ByteClass::HexDigit)?;
    match parse_radix(digits.as_slice(), 16, u64::MAX) {
        Ok(v) => Ok((rest, v)),
        Err(_) => Err(ParseError::Invalid),
    }
}

/// chunk-ext-val = token / quoted-string
pub open spec fn spec_chunk_ext_value(s: Seq<u8>) -> Parsed<Seq<u8>> {
    match spec_many1(s, ByteClass::Tchar) {
        Ok(x) => Ok(x),
        Err(ParseError::Incomplete) => Err(ParseError::Incomplete),
        Err(ParseError::Invalid) => spec_quoted_string(s),
    }
}

pub fn chunk_ext_value<'a>(i: &'a [u8]) -> (r: Result<(&'a [u8], Vec<u8>), ParseError>)
    ensures
        r is Ok ==> r->Ok_0.0@.len() <= i@.len(),
        outcome(r) == spec_chunk_ext_value(i@),
{
    match token(i) {
        Ok(x) => Ok(x),
        Err(ParseError::Incomplete) => Err(ParseError::Incomplete),
        Err(ParseError::Invalid) => quoted_string(i),
    }
}

/// [ BWS "=" BWS value ], where `value` is `spec_chunk_ext_value`: the rest
/// and the value when it is there, `s` itself and none when it is not.
pub open spec fn optional_assignment(s: Seq<u8>) -> (Seq<u8>, Option<Seq<u8>>) {
    match spec_many(s, ByteClass::Whitespace) {
        Err(_) => (s, None),
        Ok((s1, _)) => match spec_byte(s1, 61) {
            Err(_) => (s, None),
            Ok((s2, _)) => match spec_many(s2, ByteClass::Whitespace) {
                Err(_) => (s, None),
                Ok((s3, _)) => match spec_chunk_ext_value(s3) {
                    Err(_) => (s, None),
                    Ok((s4, v)) => (s4, Some(v)),
                },
            },
        },
    }
}

fn optional_assignment_exec<'a>(i: &'a [u8]) -> (r: (&'a [u8], Option<Vec<u8>>))
    ensures
        (r.0@, opt_view(r.1)) == optional_assignment(i@),
        r.0@.len() <= i@.len(),
{
    let attempt = match ows(i) {
        Ok((i1, _)) => match byte(i1, 61) {
            Ok((i2, _)) => match ows(i2) {
                Ok((i3, _)) => chunk_ext_value(i3),
                Err(e) => Err(e),
            },
            Err(e) => Err(e),
        },
        Err(e) => Err(e),
    };
    match attempt {
        Ok((rest, v)) => (rest, Some(v)),
        Err(_) => (i, None),
    }
}

/// BWS ";" BWS chunk-ext-name [ BWS "=" BWS chunk-ext-val ]
pub open spec fn chunk_ext_item(s: Seq<u8>) -> Parsed<(Seq<u8>, Option<Seq<u8>>)> {
    match spec_many(s, ByteClass::Whitespace) {
        Err(e) => Err(e),
        Ok((s1, _)) => match spec_byte(s1, 59) {
            Err(e) => Err(e),
            Ok((s2, _)) => match spec_many(s2, ByteClass::Whitespace) {
                Err(e) => Err(e),
                Ok((s3, _)) => match spec_many1(s3, ByteClass::Tchar) {
                    Err(e) => Err(e),
                    Ok((s4, name)) => {
                        let (s5, value) = optional_assignment(s4);
                        Ok((s5, (name, value)))
                    },
                },
            },
        },
    }
}

fn chunk_ext_item_exec<'a>(i: &'a [u8]) -> (r: Result<(&'a [u8], ChunkExtension), ParseError>)
    ensures
        r is Ok ==> r->Ok_0.0@.len() <= i@.len(),
        outcome(r) == chunk_ext_item(i@),
{
    let (i1, _) = ows(i)?;
    let (i2, _) = byte(i1, 59)?;
    let (i3, _) = ows(i2)?;
    let (i4, name) = token(i3)?;
    let (i5, value) = optional_assignment_exec(i4);
    Ok((i5, ChunkExtension { name, value }))
}

/// chunk-ext = *( BWS ";" BWS chunk-ext-name [ BWS "=" BWS chunk-ext-val ] )
pub open spec fn chunk_ext_items(s: Seq<u8>) -> (Seq<u8>, Seq<(Seq<u8>, Option<Seq<u8>>)>)
    decreases s.len(),
{
    match chunk_ext_item(s) {
        Ok((r, e)) => if r.len() < s.len() {
            let (r2, es) = chunk_ext_items(r);
            (r2, seq![e] + es)
        } else {
            (s, Seq::empty())
        },
        Err(_) => (s, Seq::empty()),
    }
}

pub open spec fn spec_chunk_ext(s: Seq<u8>) -> Parsed<Seq<(Seq<u8>, Option<Seq<u8>>)>> {
    Ok(chunk_ext_items(s))
}

pub fn chunk_ext<'a>(i: &'a [u8]) -> (r: Result<(&'a [u8], ChunkExtensions), ParseError>)
    ensures
        r is Ok ==> r->Ok_0.0@.len() <= i@.len(),
        outcome(r) == spec_chunk_ext(i@),
{
    let mut cur: &'a [u8] = i;
    let mut acc: Vec<ChunkExtension> = Vec::new();
    loop
        invariant
            cur@.len() <= i@.len(),
            chunk_ext_items(i@) == (chunk_ext_items(cur@).0, acc@.map_values(|e: ChunkExtension| e@) + chunk_ext_items(cur@).1),
        ensures
        chunk_ext_items(i@) == (cur@, acc@.map_values(|e: ChunkExtension| e@)),
        decreases cur@.len(),
    {
        match chunk_ext_item_exec(cur) {
            Ok((rest, e)) => {
                if rest.len() < cur.len() {
                    let ghost before = acc@.map_values(|e: ChunkExtension| e@);
                    acc.push(e);
                    assert(acc@.map_values(|e: ChunkExtension| e@) =~= before.push(e@));
                    assert(before + (seq![e@] + chunk_ext_items(rest@).1) =~= before.push(e@) + chunk_ext_items(rest@).1);
                    cur = rest;
                } else {
                    assert(chunk_ext_items(cur@) == (cur@, Seq::<(Seq<u8>, Option<Seq<u8>>)>::empty()));
                    assert(acc@.map_values(|e: ChunkExtension| e@) + Seq::<(Seq<u8>, Option<Seq<u8>>)>::empty() =~= acc@.map_values(|e: ChunkExtension| e@));
                    break;
                }
            },
            Err(_) => {
                assert(chunk_ext_items(cur@) == (cur@, Seq::<(Seq<u8>, Option<Seq<u8>>)>::empty()));
                assert(acc@.map_values(|e: ChunkExtension| e@) + Seq::<(Seq<u8>, Option<Seq<u8>>)>::empty() =~= acc@.map_values(|e: ChunkExtension| e@));
                break;
            },
        }
    }
    assert(acc@.map_values(|e: ChunkExtension| e@) + Seq::<(Seq<u8>, Option<Seq<u8>>)>::empty() =~= acc@.map_values(|e: ChunkExtension| e@));
    Ok((cur, ChunkExtensions(acc)))
}

/// Exactly `n` bytes; fewer need more input.
pub open spec fn spec_take(s: Seq<u8>, n: nat) -> Parsed<Seq<u8>> {
    if s.len() < n {
        Err(ParseError::Incomplete)
    } else {
        Ok((s.skip(n as int), s.take(n as int)))
    }
}

pub fn take<'a>(i: &'a [u8], n: u64) -> (r: Result<(&'a [u8], Vec<u8>), ParseError>)
    ensures
        r is Ok ==> r->Ok_0.0@.len() <= i@.len(),
        outcome(r) == spec_take(i@, n as nat),
{
    if (i.len() as u64) < n {
        Err(ParseError::Incomplete)
    } else {
        let k = n as usize;
        Ok((&i[k..i.len()], copy_prefix(i, k)))
    }
}

/// chunk = chunk-size [ chunk-ext ] CRLF chunk-data CRLF, with a size above zero.
pub open spec fn spec_chunk(s: Seq<u8>) -> Parsed<ChunkView> {
    match spec_chunk_size(s) {
        Err(e) => Err(e),
        Ok((s1, size)) => if size == 0 {
            Err(ParseError::Invalid)
        } else {
            match spec_chunk_ext(s1) {
                Err(e) => Err(e),
                Ok((s2, ext)) => match spec_tag(s2, crlf_bytes()) {
                    Err(e) => Err(e),
                    Ok((s3, _)) => match spec_take(s3, size as nat) {
                        Err(e) => Err(e),
                        Ok((s4, data)) => match spec_tag(s4, crlf_bytes()) {
                            Err(e) => Err(e),
                            Ok((s5, _)) => Ok((s5, ChunkView::Slice(ext, data))),
                        },
                    },
                },
            }
        },
    }
}

pub fn chunk<'a>(i: &'a [u8]) -> (r: Result<(&'a [u8], Chunk), ParseError>)
    ensures
        r is Ok ==> r->Ok_0.0@.len() <= i@.len(),
        outcome(r) == spec_chunk(i@),
{
    let (i1, size) = chunk_size(i)?;
    if size == 0 {
        return Err(ParseError::Invalid);
    }
    let (i2, extensions) = chunk_ext(i1)?;
    let (i3, _) = crlf(i2)?;
    let (i4, data) = take(i3, size)?;
    let (i5, _) = crlf(i4)?;
    Ok((i5, Chunk::Slice(extensions, data)))
}

/// chunk-size [ chunk-ext ] CRLF
pub open spec fn spec_chunk_head(s: Seq<u8>) -> Parsed<(u64, Seq<(Seq<u8>, Option<Seq<u8>>)>)> {
    match spec_chunk_size(s) {
        Err(e) => Err(e),
        Ok((s1, size)) => match spec_chunk_ext(s1) {
            Err(e) => Err(e),
            Ok((s2, ext)) => match spec_tag(s2, crlf_bytes()) {
                Err(e) => Err(e),
                Ok((s3, _)) => Ok((s3, (size, ext))),
            },
        },
    }
}

pub fn chunk_head<'a>(i: &'a [u8]) -> (r: Result<(&'a [u8], (u64, ChunkExtensions)), ParseError>)
    ensures
        r is Ok ==> r->Ok_0.0@.len() <= i@.len(),
        outcome(r) == spec_chunk_head(i@),
{
    let (i1, size) = chunk_size(i)?;
    let (i2, extensions) = chunk_ext(i1)?;
    let (i3, _) = crlf(i2)?;
    Ok((i3, (size, extensions)))
}

/// last-chunk = 1*("0") [ chunk-ext ] CRLF
pub open spec fn spec_last_chunk(s: Seq<u8>) -> Parsed<Seq<(Seq<u8>, Option<Seq<u8>>)>> {
    match spec_many1(s, ByteClass::Zero) {
        Err(e) => Err(e),
        Ok((s1, _)) => match spec_chunk_ext(s1) {
            Err(e) => Err(e),
            Ok((s2, ext)) => match spec_tag(s2, crlf_bytes()) {
                Err(e) => Err(e),
                Ok((s3, _)) => Ok((s3, ext)),
            },
        },
    }
}

pub fn last_chunk<'a>(i: &'a [u8]) -> (r: Result<(&'a [u8], ChunkExtensions), ParseError>)
    ensures
        r is Ok ==> r->Ok_0.0@.len() <= i@.len(),
        outcome(r) == spec_last_chunk(i@),
{
    let (i1, _) = many1(i, ByteClass::Zero)?;
    let (i2, extensions) = chunk_ext(i1)?;
    let (i3, _) = crlf(i2)?;
    Ok((i3, extensions))
}

/// *chunk: stops at the first chunk that does not follow the grammar; one
/// that needs more input makes the whole need more input.
pub open spec fn chunk_items(s: Seq<u8>) -> Parsed<Seq<ChunkView>>
    decreases s.len(),
{
    match spec_chunk(s) {
        Ok((r, c)) => if r.len() < s.len() {
            match chunk_items(r) {
                Ok((r2, cs)) => Ok((r2, seq![c] + cs)),
                Err(e) => Err(e),
            }
        } else {
            Ok((s, Seq::empty()))
        },
        Err(ParseError::Incomplete) => Err(ParseError::Incomplete),
        Err(ParseError::Invalid) => Ok((s, Seq::empty())),
    }
}

pub open spec fn prepend_chunks(prefix: Seq<ChunkView>, r: Parsed<Seq<ChunkView>>) -> Parsed<Seq<ChunkView>> {
    match r {
        Ok((rest, cs)) => Ok((rest, prefix + cs)),
        Err(e) => Err(e),
    }
}

/// chunked-body = *chunk last-chunk trailer-part CRLF
pub open spec fn spec_chunked_body(s: Seq<u8>) -> Parsed<Seq<ChunkView>> {
    match chunk_items(s) {
        Err(e) => Err(e),
        Ok((s1, chunks)) => match spec_last_chunk(s1) {
            Err(e) => Err(e),
            Ok((s2, last)) => match spec_headers(s2) {
                Err(e) => Err(e),
                Ok((s3, trailers)) => match spec_tag(s3, crlf_bytes()) {
                    Err(e) => Err(e),
                    Ok((s4, _)) => Ok((s4, chunks.push(ChunkView::Last(last, trailers)))),
                },
            },
        },
    }
}

pub fn chunked_body<'a>(i: &'a [u8]) -> (r: Result<(&'a [u8], ChunkedBody), ParseError>)
    ensures
        r is Ok ==> r->Ok_0.0@.len() <= i@.len(),
        outcome(r) == spec_chunked_body(i@),
{
    let mut cur: &'a [u8] = i;
    let mut chunks: Vec<Chunk> = Vec::new();
    loop
        invariant
            cur@.len() <= i@.len(),
            chunk_items(i@) == prepend_chunks(chunks@.map_values(|c: Chunk| c@), chunk_items(cur@)),
        ensures
        chunk_items(i@) == Ok::<(Seq<u8>, Seq<ChunkView>), ParseError>((cur@, chunks@.map_values(|c: Chunk| c@))),
        decreases cur@.len(),
    {
        match chunk(cur) {
            Ok((rest, c)) => {
                if rest.len() < cur.len() {
                    let ghost before = chunks@.map_values(|c: Chunk| c@);
                    chunks.push(c);
                    assert(chunks@.map_values(|c: Chunk| c@) =~= before.push(c@));
                    proof {
                        match chunk_items(rest@) {
                            Ok((r2, cs)) => {
                                assert(before + (seq![c@] + cs) =~= before.push(c@) + cs);
                            },
                            Err(_) => {},
                        }
                    }
                    cur = rest;
                } else {
                    assert(chunk_items(cur@) == Ok::<(Seq<u8>, Seq<ChunkView>), ParseError>((cur@, Seq::<ChunkView>::empty())));
                    assert(chunks@.map_values(|c: Chunk| c@) + Seq::<ChunkView>::empty() =~= chunks@.map_values(|c: Chunk| c@));
                    break;
                }
            },
            Err(ParseError::Incomplete) => {
                return Err(ParseError::Incomplete);
            },
            Err(ParseError::Invalid) => {
                assert(chunk_items(cur@) == Ok::<(Seq<u8>, Seq<ChunkView>), ParseError>((cur@, Seq::<ChunkView>::empty())));
                assert(chunks@.map_values(|c: Chunk| c@) + Seq::<ChunkView>::empty() =~= chunks@.map_values(|c: Chunk| c@));
                break;
            },
        }
    }
    assert(chunks@.map_values(|c: Chunk| c@) + Seq::<ChunkView>::empty() =~= chunks@.map_values(|c: Chunk| c@));
    let (i2, last) = last_chunk(cur)?;
    let (i3, trailers) = headers(i2)?;
    let (i4, _) = crlf(i3)?;
    let body = ChunkedBody::new(chunks, last, trailers);
    Ok((i4, body))
}

/// transfer-parameter = token BWS "=" BWS [ token / quoted-string ]
pub open spec fn spec_transfer_parameter(s: Seq<u8>) -> Parsed<(Seq<u8>, Option<Seq<u8>>)> {
    match spec_many1(s, ByteClass::Tchar) {
        Err(e) => Err(e),
        Ok((s1, name)) => match spec_many(s1, ByteClass::Whitespace) {
            Err(e) => Err(e),
            Ok((s2, _)) => match spec_byte(s2, 61) {
                Err(e) => Err(e),
                Ok((s3, _)) => match spec_many(s3, ByteClass::Whitespace) {
                    Err(e) => Err(e),
                    Ok((s4, _)) => match spec_chunk_ext_value(s4) {
                        Ok((s5, v)) => Ok((s5, (name, Some(v)))),
                        Err(_) => Ok((s4, (name, None))),
                    },
                },
            },
        },
    }
}

pub fn transfer_parameter<'a>(i: &'a [u8]) -> (r: Result<(&'a [u8], TransferParameter), ParseError>)
    ensures
        r is Ok ==> r->Ok_0.0@.len() <= i@.len(),
        outcome(r) == spec_transfer_parameter(i@),
{
    let (i1, name) = token(i)?;
    let (i2, _) = ows(i1)?;
    let (i3, _) = byte(i2, 61)?;
    let (i4, _) = ows(i3)?;
    match chunk_ext_value(i4) {
        Ok((i5, v)) => Ok((i5, TransferParameter { name, value: Some(v) })),
        Err(_) => Ok((i4, TransferParameter { name, value: None })),
    }
}

/// OWS ";" OWS transfer-parameter
pub open spec fn parameter_item(s: Seq<u8>) -> Parsed<(Seq<u8>, Option<Seq<u8>>)> {
    match spec_many(s, ByteClass::Whitespace) {
        Err(e) => Err(e),
        Ok((s1, _)) => match spec_byte(s1, 59) {
            Err(e) => Err(e),
            Ok((s2, _)) => match spec_many(s2, ByteClass::Whitespace) {
                Err(e) => Err(e),
                Ok((s3, _)) => spec_transfer_parameter(s3),
            },
        },
    }
}

fn parameter_item_exec<'a>(i: &'a [u8]) -> (r: Result<(&'a [u8], TransferParameter), ParseError>)
    ensures
        r is Ok ==> r->Ok_0.0@.len() <= i@.len(),
        outcome(r) == parameter_item(i@),
{
    let (i1, _) = ows(i)?;
    let (i2, _) = byte(i1, 59)?;
    let (i3, _) = ows(i2)?;
    transfer_parameter(i3)
}

pub open spec fn parameter_items(s: Seq<u8>) -> (Seq<u8>, Seq<(Seq<u8>, Option<Seq<u8>>)>)
    decreases s.len(),
{
    match parameter_item(s) {
        Ok((r, p)) => if r.len() < s.len() {
            let (r2, ps) = parameter_items(r);
            (r2, seq![p] + ps)
        } else {
            (s, Seq::empty())
        },
        Err(_) => (s, Seq::empty()),
    }
}

/// transfer-extension = token *( OWS ";" OWS transfer-parameter )
pub open spec fn spec_transfer_extension(s: Seq<u8>) -> Parsed<CodingView> {
    match spec_many1(s, ByteClass::Tchar) {
        Err(e) => Err(e),
        Ok((s1, name)) => {
            let (s2, params) = parameter_items(s1);
            Ok((s2, CodingView::Extension(name, params)))
        },
    }
}

pub fn transfer_extension<'a>(i: &'a [u8]) -> (r: Result<(&'a [u8], TransferCoding), ParseError>)
    ensures
        r is Ok ==> r->Ok_0.0@.len() <= i@.len(),
        outcome(r) == spec_transfer_extension(i@),
{
    let (i1, name) = token(i)?;
    let mut cur: &'a [u8] = i1;
    let mut acc: Vec<TransferParameter> = Vec::new();
    loop
        invariant
            cur@.len() <= i1@.len(),
            parameter_items(i1@) == (parameter_items(cur@).0, acc@.map_values(|t: TransferParameter| t@) + parameter_items(cur@).1),
        ensures
        parameter_items(i1@) == (cur@, acc@.map_values(|t: TransferParameter| t@)),
        decreases cur@.len(),
    {
        match parameter_item_exec(cur) {
            Ok((rest, p)) => {
                if rest.len() < cur.len() {
                    let ghost before = acc@.map_values(|t: TransferParameter| t@);
                    acc.push(p);
                    assert(acc@.map_values(|t: TransferParameter| t@) =~= before.push(p@));
                    assert(before + (seq![p@] + parameter_items(rest@).1) =~= before.push(p@) + parameter_items(rest@).1);
                    cur = rest;
                } else {
                    assert(parameter_items(cur@) == (cur@, Seq::<(Seq<u8>, Option<Seq<u8>>)>::empty()));
                    assert(acc@.map_values(|t: TransferParameter| t@) + Seq::<(Seq<u8>, Option<Seq<u8>>)>::empty() =~= acc@.map_values(|t: TransferParameter| t@));
                    break;
                }
            },
            Err(_) => {
                assert(parameter_items(cur@) == (cur@, Seq::<(Seq<u8>, Option<Seq<u8>>)>::empty()));
                assert(acc@.map_values(|t: TransferParameter| t@) + Seq::<(Seq<u8>, Option<Seq<u8>>)>::empty() =~= acc@.map_values(|t: TransferParameter| t@));
                break;
            },
        }
    }
    assert(acc@.map_values(|t: TransferParameter| t@) + Seq::<(Seq<u8>, Option<Seq<u8>>)>::empty() =~= acc@.map_values(|t: TransferParameter| t@));
    Ok((cur, TransferCoding::Extension(name, acc)))
}

pub open spec fn chunked_bytes() -> Seq<u8> {
    seq![99u8, 104u8, 117u8, 110u8, 107u8, 101u8, 100u8]
}

pub open spec fn compress_bytes() -> Seq<u8> {
    seq![99u8, 111u8, 109u8, 112u8, 114u8, 101u8, 115u8, 115u8]
}

pub open spec fn deflate_bytes() -> Seq<u8> {
    seq![100u8, 101u8, 102u8, 108u8, 97u8, 116u8, 101u8]
}

pub open spec fn gzip_bytes() -> Seq<u8> {
    seq![103u8, 122u8, 105u8, 112u8]
}

/// transfer-coding = "chunked" / "compress" / "deflate" / "gzip" / transfer-extension
pub open spec fn spec_transfer_coding(s: Seq<u8>) -> Parsed<CodingView> {
    match spec_tag(s, chunked_bytes()) {
        Ok((r, _)) => Ok((r, CodingView::Chunked)),
        Err(ParseError::Incomplete) => Err(ParseError::Incomplete),
        Err(ParseError::Invalid) => match spec_tag(s, compress_bytes()) {
            Ok((r, _)) => Ok((r, CodingView::Compress)),
            Err(ParseError::Incomplete) => Err(ParseError::Incomplete),
            Err(ParseError::Invalid) => match spec_tag(s, deflate_bytes()) {
                Ok((r, _)) => Ok((r, CodingView::Deflate)),
                Err(ParseError::Incomplete) => Err(ParseError::Incomplete),
                Err(ParseError::Invalid) => match spec_tag(s, gzip_bytes()) {
                    Ok((r, _)) => Ok((r, CodingView::Gzip)),
                    Err(ParseError::Incomplete) => Err(ParseError::Incomplete),
                    Err(ParseError::Invalid) => spec_transfer_extension(s),
                },
            },
        },
    }
}

pub fn transfer_coding<'a>(i: &'a [u8]) -> (r: Result<(&'a [u8], TransferCoding), ParseError>)
    ensures
        r is Ok ==> r->Ok_0.0@.len() <= i@.len(),
        outcome(r) == spec_transfer_coding(i@),
{
    let chunked: [u8; 7] = [99, 104, 117, 110, 107, 101, 100];
    let compress: [u8; 8] = [99, 111, 109, 112, 114, 101, 115, 115];
    let deflate: [u8; 7] = [100, 101, 102, 108, 97, 116, 101];
    let gzip: [u8; 4] = [103, 122, 105, 112];
    assert(chunked@ =~= chunked_bytes());
    assert(compress@ =~= compress_bytes());
    assert(deflate@ =~= deflate_bytes());
    assert(gzip@ =~= gzip_bytes());
    match tag(i, chunked.as_slice()) {
        Ok((r, _)) => Ok((r, TransferCoding::Chunked)),
        Err(ParseError::Incomplete) => Err(ParseError::Incomplete),
        Err(ParseError::Invalid) => match tag(i, compress.as_slice()) {
            Ok((r, _)) => Ok((r, TransferCoding::Compress)),
            Err(ParseError::Incomplete) => Err(ParseError::Incomplete),
            Err(ParseError::Invalid) => match tag(i, deflate.as_slice()) {
                Ok((r, _)) => Ok((r, TransferCoding::Deflate)),
                Err(ParseError::Incomplete) => Err(ParseError::Incomplete),
                Err(ParseError::Invalid) => match tag(i, gzip.as_slice()) {
                    Ok((r, _)) => Ok((r, TransferCoding::Gzip)),
                    Err(ParseError::Incomplete) => Err(ParseError::Incomplete),
                    Err(ParseError::Invalid) => transfer_extension(i),
                },
            },
        },
    }
}

/// OWS "," OWS
pub open spec fn list_separator(s: Seq<u8>) -> Parsed<Seq<u8>> {
    match spec_many(s, ByteClass::Whitespace) {
        Err(e) => Err(e),
        Ok((s1, _)) => match spec_byte(s1, 44) {
            Err(e) => Err(e),
            Ok((s2, _)) => spec_many(s2, ByteClass::Whitespace),
        },
    }
}

fn list_separator_exec<'a>(i: &'a [u8]) -> (r: Result<(&'a [u8], Vec<u8>), ParseError>)
    ensures
        r is Ok ==> r->Ok_0.0@.len() <= i@.len(),
        outcome(r) == list_separator(i@),
{
    let (i1, _) = ows(i)?;
    let (i2, _) = byte(i1, 44)?;
    ows(i2)
}

/// *( OWS "," OWS transfer-coding ): stops before a separator that is not
/// followed by a coding; a coding that needs more input makes the whole
/// need more input.
pub open spec fn coding_items(s: Seq<u8>) -> Parsed<Seq<CodingView>>
    decreases s.len(),
{
    match list_separator(s) {
        Err(_) => Ok((s, Seq::empty())),
        Ok((s1, _)) => match spec_transfer_coding(s1) {
            Ok((r, c)) => if r.len() < s.len() {
                match coding_items(r) {
                    Ok((r2, cs)) => Ok((r2, seq![c] + cs)),
                    Err(e) => Err(e),
                }
            } else {
                Ok((s, Seq::empty()))
            },
            Err(ParseError::Incomplete) => Err(ParseError::Incomplete),
            Err(ParseError::Invalid) => Ok((s, Seq::empty())),
        },
    }
}

pub open spec fn prepend_codings(prefix: Seq<CodingView>, r: Parsed<Seq<CodingView>>) -> Parsed<Seq<CodingView>> {
    match r {
        Ok((rest, cs)) => Ok((rest, prefix + cs)),
        Err(e) => Err(e),
    }
}

/// Transfer-Encoding = 1#transfer-coding, that is
/// transfer-coding *( OWS "," OWS transfer-coding )
pub open spec fn spec_transfer_encoding(s: Seq<u8>) -> Parsed<Seq<CodingView>> {
    match spec_transfer_coding(s) {
        Err(e) => Err(e),
        Ok((s1, c)) => prepend_codings(seq![c], coding_items(s1)),
    }
}

pub fn transfer_encoding<'a>(i: &'a [u8]) -> (r: Result<(&'a [u8], Vec<TransferCoding>), ParseError>)
    ensures
        r is Ok ==> r->Ok_0.0@.len() <= i@.len(),
        match r {
            Ok((rest, cs)) => spec_transfer_encoding(i@) == Ok::<(Seq<u8>, Seq<CodingView>), ParseError>(
                (rest@, cs@.map_values(|c: TransferCoding| c@)),
            ),
            Err(e) => spec_transfer_encoding(i@) == Err::<(Seq<u8>, Seq<CodingView>), ParseError>(e),
        },
{
    let (i1, first) = transfer_coding(i)?;
    let mut cur: &'a [u8] = i1;
    let mut acc: Vec<TransferCoding> = Vec::new();
    let ghost first_view = first@;
    acc.push(first);
    assert(acc@.map_values(|c: TransferCoding| c@) =~= seq![first_view]);
    loop
        invariant
            cur@.len() <= i1@.len(),
            spec_transfer_encoding(i@) == prepend_codings(acc@.map_values(|c: TransferCoding| c@), coding_items(cur@)),
        ensures
        spec_transfer_encoding(i@) == Ok::<(Seq<u8>, Seq<CodingView>), ParseError>((cur@, acc@.map_values(|c: TransferCoding| c@))),
        decreases cur@.len(),
    {
        let item = match list_separator_exec(cur) {
            Ok((i2, _)) => match transfer_coding(i2) {
                Ok(x) => Some(Ok(x)),
                Err(ParseError::Incomplete) => Some(Err(ParseError::Incomplete)),
                Err(ParseError::Invalid) => None,
            },
            Err(_) => None,
        };
        match item {
            Some(Ok((rest, c))) => {
                if rest.len() < cur.len() {
                    let ghost before = acc@.map_values(|c: TransferCoding| c@);
                    acc.push(c);
                    assert(acc@.map_values(|c: TransferCoding| c@) =~= before.push(c@));
                    proof {
                        match coding_items(rest@) {
                            Ok((r2, cs)) => {
                                assert(before + (seq![c@] + cs) =~= before.push(c@) + cs);
                            },
                            Err(_) => {},
                        }
                    }
                    cur = rest;
                } else {
                    assert(coding_items(cur@) == Ok::<(Seq<u8>, Seq<CodingView>), ParseError>((cur@, Seq::<CodingView>::empty())));
                    assert(acc@.map_values(|c: TransferCoding| c@) + Seq::<CodingView>::empty() =~= acc@.map_values(|c: TransferCoding| c@));
                    break;
                }
            },
            Some(Err(e)) => {
                return Err(e);
            },
            None => {
                assert(coding_items(cur@) == Ok::<(Seq<u8>, Seq<CodingView>), ParseError>((cur@, Seq::<CodingView>::empty())));
                assert(acc@.map_values(|c: TransferCoding| c@) + Seq::<CodingView>::empty() =~= acc@.map_values(|c: TransferCoding| c@));
                break;
            },
        }
    }
    assert(acc@.map_values(|c: TransferCoding| c@) + Seq::<CodingView>::empty() =~= acc@.map_values(|c: TransferCoding| c@));
    Ok((cur, acc))
}

/// The body that follows a head: chunked, left in the input, when the last
/// transfer coding is chunked; refused when Transfer-Encoding ends in another
/// coding; otherwise the body that Content-Length announces, when it is above
/// zero: exactly that many bytes, fewer need more input. No body otherwise.
pub open spec fn spec_message_body(s: Seq<u8>, hs: Seq<(Seq<u8>, Seq<u8>)>) -> Parsed<BodyView> {
    match spec_transfer_framing(hs) {
        Some(true) => Ok((s, BodyView::Chunked)),
        Some(false) => Err(ParseError::Invalid),
        None => spec_length_body(s, hs),
    }
}

/// The body that Content-Length announces; see `spec_message_body`.
pub open spec fn spec_length_body(s: Seq<u8>, hs: Seq<(Seq<u8>, Seq<u8>)>) -> Parsed<BodyView> {
    match spec_framing_length(hs) {
        Some(n) => if n > 0 {
            match spec_take(s, n as nat) {
                Ok((r, b)) => Ok((r, BodyView::Slice(b))),
                Err(e) => Err(e),
            }
        } else {
            Ok((s, BodyView::Empty))
        },
        None => Ok((s, BodyView::Empty)),
    }
}

pub fn message_body<'a>(i: &'a [u8], headers: &Headers) -> (r: Result<(&'a [u8], MessageBody), ParseError>)
    ensures
        r is Ok ==> r->Ok_0.0@.len() <= i@.len(),
        outcome(r) == spec_message_body(i@, headers@),
{
    match headers.transfer_framing() {
        Some(true) => {
            return Ok((i, MessageBody::Chunked));
        },
        Some(false) => {
            return Err(ParseError::Invalid);
        },
        None => {},
    }
    match headers.framing_length() {
        Some(length) => {
            if length > 0 {
                let (rest, body) = take(i, length)?;
                Ok((rest, MessageBody::Slice(body)))
            } else {
                Ok((i, MessageBody::Empty))
            }
        },
        None => Ok((i, MessageBody::Empty)),
    }
}

/// HTTP-message = start-line *( header-field CRLF ) CRLF [ message-body ]
pub open spec fn spec_http_message(s: Seq<u8>) -> Parsed<(StartLineView, Seq<(Seq<u8>, Seq<u8>)>, BodyView)> {
    match spec_message_head(s) {
        Err(e) => Err(e),
        Ok((s1, (line, hs))) => match spec_message_body(s1, hs) {
            Err(e) => Err(e),
            Ok((s2, body)) => Ok((s2, (line, hs, body))),
        },
    }
}

pub fn http_message<'a>(i: &'a [u8]) -> (r: Result<(&'a [u8], HttpMessage), ParseError>)
    ensures
        r is Ok ==> r->Ok_0.0@.len() <= i@.len(),
        outcome(r) == spec_http_message(i@),
{
    let (i1, head) = message_head(i)?;
    let (i2, body) = message_body(i1, &head.headers)?;
    Ok((i2, HttpMessage { start_line: head.start_line, headers: head.headers, body }))
}

} // verus!

/// trailer-part = *( header-field CRLF )
pub use self::headers as trailer_part;
/// BWS = OWS
pub use self::ows as bws;
/// method = token
pub use self::token as method;
/// field-name = token
pub use self::token as field_name;
/// chunk-ext-name = token
pub use self::token as chunk_ext_name;
