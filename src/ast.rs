use vstd::prelude::*;
use vstd::string::StringSliceAdditionalSpecFns;
use crate::misc::{parse_radix, spec_parse_int};
use crate::text::text_of;
use vstd::utf8::{valid_utf8, decode_utf8};
use crate::grammar::{
    transfer_encoding as parse_transfer_encoding, spec_transfer_encoding, ParseError, chunk_head,
    spec_chunk_head, headers as parse_headers, spec_headers, crlf, crlf_bytes, spec_tag, spec_take, take,
};

verus! {

#[derive(PartialEq, Eq, Debug, Clone, Copy)]
pub struct HttpVersion {
    pub major: u8,
    pub minor: u8,
}

impl View for HttpVersion {
    type V = HttpVersion;

    open spec fn view(&self) -> HttpVersion {
        *self
    }
}

#[derive(PartialEq, Eq, Debug, Clone)]
pub struct RequestLine {
    pub method: Vec<u8>,
    pub request_target: Vec<u8>,
    pub version: HttpVersion,
}

impl View for RequestLine {
    type V = (Seq<u8>, Seq<u8>, HttpVersion);

    open spec fn view(&self) -> Self::V {
        (self.method@, self.request_target@, self.version)
    }
}

#[derive(PartialEq, Eq, Debug, Clone)]
pub struct StatusLine {
    pub version: HttpVersion,
    pub code: u16,
    pub description: Vec<u8>,
}

impl View for StatusLine {
    type V = (HttpVersion, u16, Seq<u8>);

    open spec fn view(&self) -> Self::V {
        (self.version, self.code, self.description@)
    }
}

#[derive(PartialEq, Eq, Debug, Clone)]
pub enum StartLine {
    RequestLine(RequestLine),
    StatusLine(StatusLine),
}

pub enum StartLineView {
    Request((Seq<u8>, Seq<u8>, HttpVersion)),
    Status((HttpVersion, u16, Seq<u8>)),
}

impl View for StartLine {
    type V = StartLineView;

    open spec fn view(&self) -> StartLineView {
        match self {
            StartLine::RequestLine(l) => StartLineView::Request(l@),
            StartLine::StatusLine(l) => StartLineView::Status(l@),
        }
    }
}

/// A header field: its name and its value, as bytes.
#[derive(PartialEq, Eq, Debug, Clone)]
pub struct Header {
    pub name: Vec<u8>,
    pub value: Vec<u8>,
}

impl View for Header {
    type V = (Seq<u8>, Seq<u8>);

    open spec fn view(&self) -> Self::V {
        (self.name@, self.value@)
    }
}

pub fn str_bytes(s: &str) -> (r: Vec<u8>)
    ensures
        r@ == s.spec_bytes(),
{
    let b = s.as_bytes();
    let mut out: Vec<u8> = Vec::new();
    let mut k: usize = 0;
    while k < b.len()
        invariant
            k <= b@.len(),
            out@ == b@.take(k as int),
        decreases b@.len() - k,
    {
        out.push(b[k]);
        k = k + 1;
        assert(out@ =~= b@.take(k as int));
    }
    assert(b@.take(k as int) =~= b@);
    out
}

impl Header {
    pub fn new(name: &str, value: &str) -> (r: Header)
        ensures
            r.name@ == name.spec_bytes(),
            r.value@ == value.spec_bytes(),
    {
        Header { name: str_bytes(name), value: str_bytes(value) }
    }

    /// A copy of the header.
    pub fn duplicate(&self) -> (r: Header)
        ensures
            r@ == self@,
    {
        Header { name: self.name.clone(), value: self.value.clone() }
    }

    pub fn name(&self) -> (r: &[u8])
        ensures
            r@ == self.name@,
    {
        self.name.as_slice()
    }

    pub fn value(&self) -> (r: &[u8])
        ensures
            r@ == self.value@,
    {
        self.value.as_slice()
    }
}

/// Header fields in the order in which they came or were added.
#[derive(PartialEq, Eq, Debug, Clone)]
pub struct Headers(pub Vec<Header>);

impl View for Headers {
    type V = Seq<(Seq<u8>, Seq<u8>)>;

    open spec fn view(&self) -> Self::V {
        self.0@.map_values(|h: Header| h@)
    }
}

/// The bytes of a body still to come from upstream, after those already read.

pub open spec fn ascii_lower(b: u8) -> u8 {
    if 65 <= b <= 90 {
        (b + 32) as u8
    } else {
        b
    }
}

pub open spec fn lower_seq(s: Seq<u8>) -> Seq<u8> {
    s.map_values(|b: u8| ascii_lower(b))
}

/// Whether two header names are equal, ignoring ASCII case.
pub open spec fn same_name(a: Seq<u8>, b: Seq<u8>) -> bool {
    lower_seq(a) == lower_seq(b)
}

pub fn eq_ignore_ascii_case(a: &[u8], b: &[u8]) -> (r: bool)
    ensures
        r == same_name(a@, b@),
{
    if a.len() != b.len() {
        assert(lower_seq(a@).len() != lower_seq(b@).len());
        return false;
    }
    let mut k: usize = 0;
    while k < a.len()
        invariant
            a@.len() == b@.len(),
            k <= a@.len(),
            forall|j: int| 0 <= j < k ==> ascii_lower(#[trigger] a@[j]) == ascii_lower(b@[j]),
        decreases a@.len() - k,
    {
        let x = if 65 <= a[k] && a[k] <= 90 { a[k] + 32 } else { a[k] };
        let y = if 65 <= b[k] && b[k] <= 90 { b[k] + 32 } else { b[k] };
        if x != y {
            assert(lower_seq(a@)[k as int] != lower_seq(b@)[k as int]);
            return false;
        }
        k = k + 1;
    }
    assert(lower_seq(a@) =~= lower_seq(b@));
    true
}

/// The value of the first header named `name`.
pub open spec fn lookup(hs: Seq<(Seq<u8>, Seq<u8>)>, name: Seq<u8>) -> Option<Seq<u8>>
    decreases hs.len(),
{
    if hs.len() == 0 {
        None
    } else if same_name(hs[0].0, name) {
        Some(hs[0].1)
    } else {
        lookup(hs.skip(1), name)
    }
}

/// The values of the headers named `name`, in order.
pub open spec fn values_of(hs: Seq<(Seq<u8>, Seq<u8>)>, name: Seq<u8>) -> Seq<Seq<u8>>
    decreases hs.len(),
{
    if hs.len() == 0 {
        Seq::empty()
    } else if same_name(hs.last().0, name) {
        values_of(hs.drop_last(), name).push(hs.last().1)
    } else {
        values_of(hs.drop_last(), name)
    }
}

/// The headers not named `name`, in order.
pub open spec fn without(hs: Seq<(Seq<u8>, Seq<u8>)>, name: Seq<u8>) -> Seq<(Seq<u8>, Seq<u8>)>
    decreases hs.len(),
{
    if hs.len() == 0 {
        Seq::empty()
    } else if same_name(hs.last().0, name) {
        without(hs.drop_last(), name)
    } else {
        without(hs.drop_last(), name).push(hs.last())
    }
}

pub open spec fn content_length_name() -> Seq<u8> {
    seq![67u8, 111u8, 110u8, 116u8, 101u8, 110u8, 116u8, 45u8, 76u8, 101u8, 110u8, 103u8, 116u8, 104u8]
}

pub open spec fn transfer_encoding_name() -> Seq<u8> {
    seq![84u8, 114u8, 97u8, 110u8, 115u8, 102u8, 101u8, 114u8, 45u8, 69u8, 110u8, 99u8, 111u8, 100u8, 105u8, 110u8, 103u8]
}

/// The value of the first Content-Length header, when it is an unsigned
/// 64-bit number.
pub open spec fn spec_content_length(hs: Seq<(Seq<u8>, Seq<u8>)>) -> Option<u64> {
    match lookup(hs, content_length_name()) {
        Some(v) => match spec_parse_int(v, 10, u64::MAX as nat) {
            Ok(n) => Some(n as u64),
            Err(_) => None,
        },
        None => None,
    }
}

/// The length that frames a body: the first Content-Length value that is an
/// unsigned 64-bit number.
pub open spec fn spec_framing_length(hs: Seq<(Seq<u8>, Seq<u8>)>) -> Option<u64>
    decreases hs.len(),
{
    if hs.len() == 0 {
        None
    } else if same_name(hs[0].0, content_length_name()) && spec_parse_int(hs[0].1, 10, u64::MAX as nat) is Ok {
        Some(spec_parse_int(hs[0].1, 10, u64::MAX as nat)->Ok_0 as u64)
    } else {
        spec_framing_length(hs.skip(1))
    }
}

/// The codings of all the given Transfer-Encoding values, one list after
/// another; none when one of them is not a whole coding list.
pub open spec fn codings_of(values: Seq<Seq<u8>>) -> Option<Seq<crate::ast::CodingView>>
    decreases values.len(),
{
    if values.len() == 0 {
        Some(Seq::empty())
    } else {
        match codings_of(values.drop_last()) {
            None => None,
            Some(prev) => match spec_transfer_encoding(values.last()) {
                Ok((rest, cs)) => if rest.len() == 0 {
                    Some(prev + cs)
                } else {
                    None
                },
                Err(_) => None,
            },
        }
    }
}

/// The codings that the Transfer-Encoding headers list, in order; empty when
/// one of them does not parse.
pub open spec fn spec_transfer_codings(hs: Seq<(Seq<u8>, Seq<u8>)>) -> Seq<crate::ast::CodingView> {
    match codings_of(values_of(hs, transfer_encoding_name())) {
        Some(cs) => cs,
        None => Seq::empty(),
    }
}

pub proof fn lemma_values_of_prefix(hs: Seq<(Seq<u8>, Seq<u8>)>, name: Seq<u8>, k: int)
    requires
        0 <= k < hs.len(),
    ensures
        values_of(hs.take(k + 1), name) == if same_name(hs[k].0, name) {
            values_of(hs.take(k), name).push(hs[k].1)
        } else {
            values_of(hs.take(k), name)
        },
{
    assert(hs.take(k + 1).drop_last() =~= hs.take(k));
    assert(hs.take(k + 1).last() == hs[k]);
}

pub proof fn lemma_without_prefix(hs: Seq<(Seq<u8>, Seq<u8>)>, name: Seq<u8>, k: int)
    requires
        0 <= k < hs.len(),
    ensures
        without(hs.take(k + 1), name) == if same_name(hs[k].0, name) {
            without(hs.take(k), name)
        } else {
            without(hs.take(k), name).push(hs[k])
        },
{
    assert(hs.take(k + 1).drop_last() =~= hs.take(k));
    assert(hs.take(k + 1).last() == hs[k]);
}

impl Headers {
    pub fn new() -> (r: Headers)
        ensures
            r@ == Seq::<(Seq<u8>, Seq<u8>)>::empty(),
    {
        let r = Headers(Vec::new());
        assert(r@ =~= Seq::<(Seq<u8>, Seq<u8>)>::empty());
        r
    }

    fn first_index(&self, name: &[u8]) -> (r: Option<usize>)
        ensures
            match r {
                Some(k) => k < self@.len() && same_name(self@[k as int].0, name@)
                    && lookup(self@, name@) == Some(self@[k as int].1),
                None => lookup(self@, name@) is None,
            },
    {
        let mut k: usize = 0;
        assert(self@.skip(0) =~= self@);
        while k < self.0.len()
            invariant
                k <= self@.len(),
                self@.len() == self.0@.len(),
                lookup(self@, name@) == lookup(self@.skip(k as int), name@),
            decreases self@.len() - k,
        {
            assert(self@.skip(k as int)[0] == self@[k as int]);
            assert(self@.skip(k as int).skip(1) =~= self@.skip(k as int + 1));
            if eq_ignore_ascii_case(name, self.0[k].name.as_slice()) {
                assert(same_name(self@[k as int].0, name@));
                return Some(k);
            }
            k = k + 1;
        }
        None
    }

    /// The value of the first header named `name`, ignoring ASCII case.
    pub fn get(&self, name: &str) -> (r: Option<&[u8]>)
        ensures
            match r {
                Some(v) => lookup(self@, name.spec_bytes()) == Some(v@),
                None => lookup(self@, name.spec_bytes()) is None,
            },
    {
        match self.first_index(name.as_bytes()) {
            Some(k) => Some(self.0[k].value.as_slice()),
            None => None,
        }
    }

    /// The values of all the headers named `name`, ignoring ASCII case, in order.
    pub fn headers(&self, name: &str) -> (r: Vec<Vec<u8>>)
        ensures
            r@.map_values(|v: Vec<u8>| v@) == values_of(self@, name.spec_bytes()),
    {
        self.values(name.as_bytes())
    }

    fn values(&self, name: &[u8]) -> (r: Vec<Vec<u8>>)
        ensures
            r@.map_values(|v: Vec<u8>| v@) == values_of(self@, name@),
    {
        let mut out: Vec<Vec<u8>> = Vec::new();
        let mut k: usize = 0;
        while k < self.0.len()
            invariant
                k <= self@.len(),
                self@.len() == self.0@.len(),
                out@.map_values(|v: Vec<u8>| v@) == values_of(self@.take(k as int), name@),
            decreases self@.len() - k,
        {
            proof { lemma_values_of_prefix(self@, name@, k as int); }
            if eq_ignore_ascii_case(self.0[k].name.as_slice(), name) {
                let ghost before = out@.map_values(|v: Vec<u8>| v@);
                let v = self.0[k].value.clone();
                out.push(v);
                assert(out@.map_values(|v: Vec<u8>| v@) =~= before.push(self@[k as int].1));
                assert(same_name(self@[k as int].0, name@)) by {
                    assert(lower_seq(self@[k as int].0) == lower_seq(name@));
                }
            } else {
                assert(!same_name(self@[k as int].0, name@)) by {
                    assert(lower_seq(self@[k as int].0) != lower_seq(name@));
                }
            }
            k = k + 1;
        }
        assert(self@.take(k as int) =~= self@);
        out
    }

    /// The value of the first Content-Length header as an unsigned 64-bit
    /// number; none when there is no such header or its value is no number.
    pub fn content_length(&self) -> (r: Option<u64>)
        ensures
            r == spec_content_length(self@),
    {
        let name: [u8; 14] = [67, 111, 110, 116, 101, 110, 116, 45, 76, 101, 110, 103, 116, 104];
        assert(name@ =~= content_length_name());
        match self.first_index(name.as_slice()) {
            Some(k) => match parse_radix(self.0[k].value.as_slice(), 10, u64::MAX) {
                Ok(v) => Some(v),
                Err(_) => None,
            },
            None => None,
        }
    }

    /// The length that frames a body; see `spec_framing_length`.
    pub fn framing_length(&self) -> (r: Option<u64>)
        ensures
            r == spec_framing_length(self@),
    {
        let name: [u8; 14] = [67, 111, 110, 116, 101, 110, 116, 45, 76, 101, 110, 103, 116, 104];
        assert(name@ =~= content_length_name());
        let mut k: usize = 0;
        assert(self@.skip(0) =~= self@);
        while k < self.0.len()
            invariant
                k <= self@.len(),
                self@.len() == self.0@.len(),
                name@ == content_length_name(),
                spec_framing_length(self@) == spec_framing_length(self@.skip(k as int)),
            decreases self@.len() - k,
        {
            assert(self@.skip(k as int)[0] == self@[k as int]);
            assert(self@.skip(k as int).skip(1) =~= self@.skip(k as int + 1));
            if eq_ignore_ascii_case(self.0[k].name.as_slice(), name.as_slice()) {
                match parse_radix(self.0[k].value.as_slice(), 10, u64::MAX) {
                    Ok(v) => {
                        return Some(v);
                    },
                    Err(_) => {},
                }
            }
            k = k + 1;
        }
        None
    }

    /// The codings of all the Transfer-Encoding headers, left to right;
    /// empty when one of them is not a whole coding list.
    pub fn transfer_encoding(&self) -> (r: Vec<TransferCoding>)
        ensures
            r@.map_values(|c: TransferCoding| c@) == spec_transfer_codings(self@),
    {
        let name: [u8; 17] = [84, 114, 97, 110, 115, 102, 101, 114, 45, 69, 110, 99, 111, 100, 105, 110, 103];
        assert(name@ =~= transfer_encoding_name());
        let values = self.values(name.as_slice());
        let ghost vals = values@.map_values(|v: Vec<u8>| v@);
        let mut out: Vec<TransferCoding> = Vec::new();
        let mut k: usize = 0;
        assert(vals.take(0) =~= Seq::<Seq<u8>>::empty());
        assert(out@.map_values(|c: TransferCoding| c@) =~= Seq::<CodingView>::empty());
        while k < values.len()
            invariant
                k <= values@.len(),
                vals == values@.map_values(|v: Vec<u8>| v@),
                vals == values_of(self@, transfer_encoding_name()),
                codings_of(vals.take(k as int)) == Some(out@.map_values(|c: TransferCoding| c@)),
            decreases values@.len() - k,
        {
            proof { lemma_codings_step(vals, k as int); }
            let parsed = parse_transfer_encoding(values[k].as_slice());
            let whole = match &parsed {
                Ok((rest, _)) => rest.len() == 0,
                Err(_) => false,
            };
            if !whole {
                proof { lemma_codings_none_stays(vals, k as int); }
                let empty: Vec<TransferCoding> = Vec::new();
                assert(empty@.map_values(|c: TransferCoding| c@) =~= Seq::<CodingView>::empty());
                return empty;
            }
            if let Ok((_, codings)) = parsed {
                let ghost before = out@.map_values(|c: TransferCoding| c@);
                let mut codings = codings;
                let ghost added = codings@.map_values(|c: TransferCoding| c@);
                out.append(&mut codings);
                assert(out@.map_values(|c: TransferCoding| c@) =~= before + added);
            }
            k = k + 1;
        }
        assert(vals.take(k as int) =~= vals);
        out
    }

    /// See `spec_transfer_framing`.
    pub fn transfer_framing(&self) -> (r: Option<bool>)
        ensures
            r == spec_transfer_framing(self@),
    {
        let te: [u8; 17] = [84, 114, 97, 110, 115, 102, 101, 114, 45, 69, 110, 99, 111, 100, 105, 110, 103];
        assert(te@ =~= transfer_encoding_name());
        let te_values = self.values(te.as_slice());
        assert(te_values@.map_values(|v: Vec<u8>| v@).len() == te_values@.len());
        if te_values.len() == 0 {
            return None;
        }
        let codings = self.transfer_encoding();
        let ghost cv = codings@.map_values(|c: TransferCoding| c@);
        assert(cv.len() == codings@.len());
        if codings.len() > 0 {
            assert(cv.last() == codings@[codings@.len() - 1]@);
            match codings[codings.len() - 1] {
                TransferCoding::Chunked => {
                    return Some(true);
                },
                _ => {},
            }
        }
        Some(false)
    }

    /// Drops every header named `name`, ignoring ASCII case.
    pub fn remove(&mut self, name: &str)
        ensures
            final(self)@ == without(old(self)@, name.spec_bytes()),
    {
        self.remove_bytes(name.as_bytes());
    }

    fn remove_bytes(&mut self, name: &[u8])
        ensures
            final(self)@ == without(old(self)@, name@),
    {
        let mut kept: Vec<Header> = Vec::new();
        let mut k: usize = 0;
        while k < self.0.len()
            invariant
                k <= self@.len(),
                self@.len() == self.0@.len(),
                *self == *old(self),
                kept@.map_values(|h: Header| h@) == without(self@.take(k as int), name@),
            decreases self@.len() - k,
        {
            proof { lemma_without_prefix(self@, name@, k as int); }
            if !eq_ignore_ascii_case(self.0[k].name.as_slice(), name) {
                let ghost before = kept@.map_values(|h: Header| h@);
                let h = self.0[k].duplicate();
                kept.push(h);
                assert(kept@.map_values(|h: Header| h@) =~= before.push(self@[k as int]));
            }
            k = k + 1;
        }
        assert(self@.take(k as int) =~= self@);
        self.0 = kept;
    }

    /// Drops every header named `name`, ignoring ASCII case, then adds the
    /// header (`name`, `value`) at the end.
    pub fn replace_value(&mut self, name: &str, value: Vec<u8>)
        ensures
            final(self)@ == without(old(self)@, name.spec_bytes()).push((name.spec_bytes(), value@)),
    {
        self.remove(name);
        let ghost before = self@;
        self.0.push(Header { name: str_bytes(name), value });
        assert(self@ =~= before.push((name.spec_bytes(), value@)));
    }

    /// Drops every header named `name`, ignoring ASCII case, then adds the
    /// header (`name`, `value`) at the end.
    pub fn replace(&mut self, name: &str, value: &str)
        ensures
            final(self)@ == without(old(self)@, name.spec_bytes()).push((name.spec_bytes(), value.spec_bytes())),
    {
        self.remove(name);
        let ghost before = self@;
        self.0.push(Header::new(name, value));
        assert(self@ =~= before.push((name.spec_bytes(), value.spec_bytes())));
    }
}

/// Whether `v` is one whole Transfer-Encoding coding list.
pub open spec fn whole_coding_list(v: Seq<u8>) -> bool {
    match spec_transfer_encoding(v) {
        Ok((rest, _)) => rest.len() == 0,
        Err(_) => false,
    }
}

pub proof fn lemma_codings_step(vals: Seq<Seq<u8>>, k: int)
    requires
        0 <= k < vals.len(),
    ensures
        codings_of(vals.take(k + 1)) == match codings_of(vals.take(k)) {
            None => None,
            Some(prev) => match spec_transfer_encoding(vals[k]) {
                Ok((rest, cs)) => if rest.len() == 0 {
                    Some(prev + cs)
                } else {
                    None
                },
                Err(_) => None,
            },
        },
{
    assert(vals.take(k + 1).drop_last() =~= vals.take(k));
    assert(vals.take(k + 1).last() == vals[k]);
}

pub proof fn lemma_codings_none_stays(vals: Seq<Seq<u8>>, k: int)
    requires
        0 <= k < vals.len(),
        !whole_coding_list(vals[k]),
    ensures
        codings_of(vals) is None,
    decreases vals.len(),
{
    if k == vals.len() - 1 {
        assert(vals.last() == vals[k]);
    } else {
        assert(vals.drop_last()[k] == vals[k]);
        lemma_codings_none_stays(vals.drop_last(), k);
    }
}

#[derive(PartialEq, Eq, Debug, Clone)]
pub struct BodyReader {
    pub buffered: Vec<u8>,
    pub upstream: u64,
}

#[derive(PartialEq, Eq, Debug, Clone)]
pub enum MessageBody {
    Empty,
    Slice(Vec<u8>),
    Reader(BodyReader),
    Chunked,
}

pub enum BodyView {
    Empty,
    Slice(Seq<u8>),
    Reader(Seq<u8>, nat),
    Chunked,
}

impl View for MessageBody {
    type V = BodyView;

    open spec fn view(&self) -> BodyView {
        match self {
            MessageBody::Empty => BodyView::Empty,
            MessageBody::Slice(b) => BodyView::Slice(b@),
            MessageBody::Reader(r) => BodyView::Reader(r.buffered@, r.upstream as nat),
            MessageBody::Chunked => BodyView::Chunked,
        }
    }
}

/// Why the headers leave the body's framing undecidable: a Transfer-Encoding
/// whose last coding is not chunked.
#[derive(PartialEq, Eq, Debug, Clone, Copy)]
pub struct FramingError;

/// What Transfer-Encoding says of the framing: nothing when there is no such
/// header; chunked when the last coding is chunked; otherwise a framing that
/// cannot be trusted.
pub open spec fn spec_transfer_framing(hs: Seq<(Seq<u8>, Seq<u8>)>) -> Option<bool> {
    if values_of(hs, transfer_encoding_name()).len() > 0 {
        let codings = spec_transfer_codings(hs);
        Some(codings.len() > 0 && codings.last() is Chunked)
    } else {
        None
    }
}

/// How the body that follows a head is framed, given the bytes `s` that
/// follow the head, and how many of them belong to the body.
pub open spec fn spec_body_framing(hs: Seq<(Seq<u8>, Seq<u8>)>, s: Seq<u8>) -> Result<(BodyView, nat), FramingError> {
    if values_of(hs, transfer_encoding_name()).len() > 0 {
        let codings = spec_transfer_codings(hs);
        if codings.len() > 0 && codings.last() is Chunked {
            Ok((BodyView::Chunked, 0))
        } else {
            Err(FramingError)
        }
    } else {
        match spec_framing_length(hs) {
            Some(n) => if n == 0 {
                Ok((BodyView::Empty, 0))
            } else if n <= s.len() {
                Ok((BodyView::Slice(s.take(n as int)), n as nat))
            } else {
                Ok((BodyView::Reader(s, (n - s.len()) as nat), s.len()))
            },
            None => Ok((BodyView::Empty, 0)),
        }
    }
}

impl MessageBody {
    /// Decides the body that follows a head with `headers`, where `slice`
    /// holds the bytes after the head that have arrived: chunked when the
    /// last transfer coding is chunked, else the Content-Length bytes, taken
    /// from `slice` when they are all there and otherwise read on from
    /// upstream. Returns the body and how many bytes of `slice` it takes.
    pub fn read(headers: &Headers, slice: &[u8]) -> (r: Result<(MessageBody, usize), FramingError>)
        ensures
            r is Ok ==> r->Ok_0.1 <= slice@.len(),
            match r {
                Ok((body, n)) => spec_body_framing(headers@, slice@) == Ok::<(BodyView, nat), FramingError>((body@, n as nat)),
                Err(e) => spec_body_framing(headers@, slice@) == Err::<(BodyView, nat), FramingError>(e),
            },
    {
        match headers.transfer_framing() {
            Some(true) => {
                return Ok((MessageBody::Chunked, 0));
            },
            Some(false) => {
                return Err(FramingError);
            },
            None => {},
        }
        match headers.framing_length() {
            Some(body_length) => {
                if body_length == 0 {
                    Ok((MessageBody::Empty, 0))
                } else if body_length <= slice.len() as u64 {
                    let length = body_length as usize;
                    Ok((MessageBody::Slice(crate::grammar::copy_prefix(slice, length)), length))
                } else {
                    let buffered = crate::grammar::copy_prefix(slice, slice.len());
                    assert(buffered@ =~= slice@);
                    Ok((MessageBody::Reader(BodyReader { buffered, upstream: body_length - slice.len() as u64 }), slice.len()))
                }
            },
            None => Ok((MessageBody::Empty, 0)),
        }
    }
}

#[derive(PartialEq, Eq, Debug, Clone)]
pub struct MessageHead {
    pub start_line: StartLine,
    pub headers: Headers,
}

impl View for MessageHead {
    type V = (StartLineView, Seq<(Seq<u8>, Seq<u8>)>);

    open spec fn view(&self) -> Self::V {
        (self.start_line@, self.headers@)
    }
}

#[derive(PartialEq, Eq, Debug, Clone)]
pub struct HttpMessage {
    pub start_line: StartLine,
    pub headers: Headers,
    pub body: MessageBody,
}

impl View for HttpMessage {
    type V = (StartLineView, Seq<(Seq<u8>, Seq<u8>)>, BodyView);

    open spec fn view(&self) -> Self::V {
        (self.start_line@, self.headers@, self.body@)
    }
}

pub open spec fn opt_view(o: Option<Vec<u8>>) -> Option<Seq<u8>> {
    match o {
        Some(v) => Some(v@),
        None => None,
    }
}

/// A chunk extension: its name and its value, if it has one.
#[derive(PartialEq, Eq, Debug, Clone)]
pub struct ChunkExtension {
    pub name: Vec<u8>,
    pub value: Option<Vec<u8>>,
}

impl View for ChunkExtension {
    type V = (Seq<u8>, Option<Seq<u8>>);

    open spec fn view(&self) -> Self::V {
        (self.name@, opt_view(self.value))
    }
}

#[derive(PartialEq, Eq, Debug, Clone)]
pub struct ChunkExtensions(pub Vec<ChunkExtension>);

impl View for ChunkExtensions {
    type V = Seq<(Seq<u8>, Option<Seq<u8>>)>;

    open spec fn view(&self) -> Self::V {
        self.0@.map_values(|e: ChunkExtension| e@)
    }
}

#[derive(PartialEq, Eq, Debug, Clone)]
pub enum Chunk {
    Slice(ChunkExtensions, Vec<u8>),
    Last(ChunkExtensions, Headers),
}

pub enum ChunkView {
    Slice(Seq<(Seq<u8>, Option<Seq<u8>>)>, Seq<u8>),
    Last(Seq<(Seq<u8>, Option<Seq<u8>>)>, Seq<(Seq<u8>, Seq<u8>)>),
}

impl View for Chunk {
    type V = ChunkView;

    open spec fn view(&self) -> ChunkView {
        match self {
            Chunk::Slice(e, d) => ChunkView::Slice(e@, d@),
            Chunk::Last(e, h) => ChunkView::Last(e@, h@),
        }
    }
}

#[derive(PartialEq, Eq, Debug, Clone)]
pub struct ChunkedBody {
    pub chunks: Vec<Chunk>,
}

impl View for ChunkedBody {
    type V = Seq<ChunkView>;

    open spec fn view(&self) -> Seq<ChunkView> {
        self.chunks@.map_values(|c: Chunk| c@)
    }
}

impl ChunkedBody {
    /// The chunks followed by the last chunk, with its extensions and trailers.
    pub fn new(chunks: Vec<Chunk>, last: ChunkExtensions, trailers: Headers) -> (r: ChunkedBody)
        ensures
            r@ == chunks@.map_values(|c: Chunk| c@).push(ChunkView::Last(last@, trailers@)),
    {
        let mut chunks = chunks;
        let ghost before = chunks@;
        chunks.push(Chunk::Last(last, trailers));
        let r = ChunkedBody { chunks };
        assert(r@ =~= before.map_values(|c: Chunk| c@).push(ChunkView::Last(last@, trailers@)));
        r
    }
}

#[derive(PartialEq, Eq, Debug, Clone)]
pub struct TransferParameter {
    pub name: Vec<u8>,
    pub value: Option<Vec<u8>>,
}

impl View for TransferParameter {
    type V = (Seq<u8>, Option<Seq<u8>>);

    open spec fn view(&self) -> Self::V {
        (self.name@, opt_view(self.value))
    }
}

#[derive(PartialEq, Eq, Debug, Clone)]
pub enum TransferCoding {
    Chunked,
    Compress,
    Deflate,
    Gzip,
    Extension(Vec<u8>, Vec<TransferParameter>),
}

pub enum CodingView {
    Chunked,
    Compress,
    Deflate,
    Gzip,
    Extension(Seq<u8>, Seq<(Seq<u8>, Option<Seq<u8>>)>),
}

impl View for TransferCoding {
    type V = CodingView;

    open spec fn view(&self) -> CodingView {
        match self {
            TransferCoding::Chunked => CodingView::Chunked,
            TransferCoding::Compress => CodingView::Compress,
            TransferCoding::Deflate => CodingView::Deflate,
            TransferCoding::Gzip => CodingView::Gzip,
            TransferCoding::Extension(n, p) => CodingView::Extension(
                n@,
                p@.map_values(|t: TransferParameter| t@),
            ),
        }
    }
}

/// The decimal digits of `n`, most significant first, without leading zeros.
pub open spec fn decimal(n: nat) -> Seq<u8>
    decreases n,
{
    if n < 10 {
        seq![(48 + n) as u8]
    } else {
        decimal(n / 10).push((48 + n % 10) as u8)
    }
}

pub fn push_all(out: &mut Vec<u8>, b: &[u8])
    ensures
        final(out)@ == old(out)@ + b@,
{
    let mut k: usize = 0;
    while k < b.len()
        invariant
            k <= b@.len(),
            out@ == old(out)@ + b@.take(k as int),
        decreases b@.len() - k,
    {
        out.push(b[k]);
        k = k + 1;
        assert(out@ =~= old(out)@ + b@.take(k as int));
    }
    assert(b@.take(k as int) =~= b@);
}

pub fn push_decimal(out: &mut Vec<u8>, n: u64)
    ensures
        final(out)@ == old(out)@ + decimal(n as nat),
    decreases n,
{
    if n < 10 {
        out.push((48 + n) as u8);
        assert(out@ =~= old(out)@ + decimal(n as nat));
    } else {
        push_decimal(out, n / 10);
        out.push((48 + n % 10) as u8);
        assert(out@ =~= old(out)@ + decimal(n as nat));
    }
}

pub open spec fn sp() -> Seq<u8> {
    seq![32u8]
}

pub open spec fn version_bytes(v: HttpVersion) -> Seq<u8> {
    seq![72u8, 84u8, 84u8, 80u8, 47u8] + decimal(v.major as nat) + seq![46u8] + decimal(v.minor as nat)
}

pub open spec fn request_line_bytes(l: (Seq<u8>, Seq<u8>, HttpVersion)) -> Seq<u8> {
    l.0 + sp() + l.1 + sp() + version_bytes(l.2) + seq![13u8, 10u8]
}

pub open spec fn status_line_bytes(l: (HttpVersion, u16, Seq<u8>)) -> Seq<u8> {
    version_bytes(l.0) + sp() + decimal(l.1 as nat) + sp() + l.2 + seq![13u8, 10u8]
}

pub open spec fn start_line_bytes(l: StartLineView) -> Seq<u8> {
    match l {
        StartLineView::Request(r) => request_line_bytes(r),
        StartLineView::Status(st) => status_line_bytes(st),
    }
}

pub open spec fn header_bytes(h: (Seq<u8>, Seq<u8>)) -> Seq<u8> {
    h.0 + seq![58u8] + h.1 + seq![13u8, 10u8]
}

/// Each header as `name:value` CRLF, in order, with no whitespace around
/// the value, as the grammar reads it back.
pub open spec fn headers_bytes(hs: Seq<(Seq<u8>, Seq<u8>)>) -> Seq<u8>
    decreases hs.len(),
{
    if hs.len() == 0 {
        Seq::empty()
    } else {
        headers_bytes(hs.drop_last()) + header_bytes(hs.last())
    }
}

/// What a body puts on the wire from what is in hand: a slice is written
/// as it is, a reader's bytes already read come first, and nothing else.
pub open spec fn body_bytes(b: BodyView) -> Seq<u8> {
    match b {
        BodyView::Slice(d) => d,
        BodyView::Reader(d, _) => d,
        _ => Seq::empty(),
    }
}

/// The head of a message: start line, headers, and the empty line.
pub open spec fn head_bytes(l: StartLineView, hs: Seq<(Seq<u8>, Seq<u8>)>) -> Seq<u8> {
    start_line_bytes(l) + headers_bytes(hs) + seq![13u8, 10u8]
}

pub fn push_crlf(out: &mut Vec<u8>)
    ensures
        final(out)@ == old(out)@ + seq![13u8, 10u8],
{
    out.push(13);
    out.push(10);
    assert(out@ =~= old(out)@ + seq![13u8, 10u8]);
}

impl HttpVersion {
    pub fn write_to(&self, out: &mut Vec<u8>)
        ensures
            final(out)@ == old(out)@ + version_bytes(*self),
    {
        let name: [u8; 5] = [72, 84, 84, 80, 47];
        push_all(out, name.as_slice());
        push_decimal(out, self.major as u64);
        out.push(46);
        push_decimal(out, self.minor as u64);
        assert(out@ =~= old(out)@ + version_bytes(*self));
    }

    /// The text `HTTP/major.minor`.
    pub fn to_string(&self) -> (r: String)
        ensures
            valid_utf8(version_bytes(*self)) ==> r@ == decode_utf8(version_bytes(*self)),
    {
        let mut out: Vec<u8> = Vec::new();
        self.write_to(&mut out);
        assert(out@ =~= version_bytes(*self));
        text_of(out.as_slice())
    }
}

impl RequestLine {
    pub fn write_to(&self, out: &mut Vec<u8>)
        ensures
            final(out)@ == old(out)@ + request_line_bytes(self@),
    {
        push_all(out, self.method.as_slice());
        out.push(32);
        push_all(out, self.request_target.as_slice());
        out.push(32);
        self.version.write_to(out);
        push_crlf(out);
        assert(out@ =~= old(out)@ + request_line_bytes(self@));
    }

    pub fn to_string(&self) -> (r: String)
        ensures
            valid_utf8(request_line_bytes(self@)) ==> r@ == decode_utf8(request_line_bytes(self@)),
    {
        let mut out: Vec<u8> = Vec::new();
        self.write_to(&mut out);
        assert(out@ =~= request_line_bytes(self@));
        text_of(out.as_slice())
    }
}

impl StatusLine {
    pub fn write_to(&self, out: &mut Vec<u8>)
        ensures
            final(out)@ == old(out)@ + status_line_bytes(self@),
    {
        self.version.write_to(out);
        out.push(32);
        push_decimal(out, self.code as u64);
        out.push(32);
        push_all(out, self.description.as_slice());
        push_crlf(out);
        assert(out@ =~= old(out)@ + status_line_bytes(self@));
    }

    pub fn to_string(&self) -> (r: String)
        ensures
            valid_utf8(status_line_bytes(self@)) ==> r@ == decode_utf8(status_line_bytes(self@)),
    {
        let mut out: Vec<u8> = Vec::new();
        self.write_to(&mut out);
        assert(out@ =~= status_line_bytes(self@));
        text_of(out.as_slice())
    }
}

impl StartLine {
    pub fn write_to(&self, out: &mut Vec<u8>)
        ensures
            final(out)@ == old(out)@ + start_line_bytes(self@),
    {
        match self {
            StartLine::RequestLine(l) => l.write_to(out),
            StartLine::StatusLine(l) => l.write_to(out),
        }
    }

    pub fn to_string(&self) -> (r: String)
        ensures
            valid_utf8(start_line_bytes(self@)) ==> r@ == decode_utf8(start_line_bytes(self@)),
    {
        let mut out: Vec<u8> = Vec::new();
        self.write_to(&mut out);
        assert(out@ =~= start_line_bytes(self@));
        text_of(out.as_slice())
    }
}

impl Headers {
    pub fn write_to(&self, out: &mut Vec<u8>)
        ensures
            final(out)@ == old(out)@ + headers_bytes(self@),
    {
        let mut k: usize = 0;
        while k < self.0.len()
            invariant
                k <= self@.len(),
                self@.len() == self.0@.len(),
                out@ == old(out)@ + headers_bytes(self@.take(k as int)),
            decreases self@.len() - k,
        {
            assert(self@.take(k as int + 1).drop_last() =~= self@.take(k as int));
            assert(self@.take(k as int + 1).last() == self@[k as int]);
            let ghost before = out@;
            push_all(out, self.0[k].name.as_slice());
            out.push(58);
            push_all(out, self.0[k].value.as_slice());
            push_crlf(out);
            assert(out@ =~= before + header_bytes(self@[k as int]));
            k = k + 1;
        }
        assert(self@.take(k as int) =~= self@);
    }

    pub fn to_string(&self) -> (r: String)
        ensures
            valid_utf8(headers_bytes(self@)) ==> r@ == decode_utf8(headers_bytes(self@)),
    {
        let mut out: Vec<u8> = Vec::new();
        self.write_to(&mut out);
        assert(out@ =~= headers_bytes(self@));
        text_of(out.as_slice())
    }
}

/// The text of a body as it is shown: a slice that is UTF-8, or the word
/// `streaming` for a reader; nothing otherwise.
pub open spec fn body_text(b: BodyView) -> Seq<u8> {
    match b {
        BodyView::Slice(d) => if valid_utf8(d) {
            d
        } else {
            Seq::empty()
        },
        BodyView::Reader(_, _) => seq![115u8, 116u8, 114u8, 101u8, 97u8, 109u8, 105u8, 110u8, 103u8],
        _ => Seq::empty(),
    }
}

impl MessageBody {
    /// Writes what the body holds in hand; see `body_bytes`.
    pub fn write_to(&self, out: &mut Vec<u8>)
        ensures
            final(out)@ == old(out)@ + body_bytes(self@),
    {
        match self {
            MessageBody::Slice(d) => push_all(out, d.as_slice()),
            MessageBody::Reader(r) => push_all(out, r.buffered.as_slice()),
            _ => {
                assert(old(out)@ + body_bytes(self@) =~= old(out)@);
            },
        }
    }

    pub fn write_text(&self, out: &mut Vec<u8>)
        ensures
            final(out)@ == old(out)@ + body_text(self@),
    {
        match self {
            MessageBody::Slice(d) => {
                if crate::text::utf8_valid(d.as_slice()) {
                    push_all(out, d.as_slice());
                } else {
                    assert(old(out)@ + body_text(self@) =~= old(out)@);
                }
            },
            MessageBody::Reader(_) => {
                let word: [u8; 9] = [115, 116, 114, 101, 97, 109, 105, 110, 103];
                push_all(out, word.as_slice());
                assert(out@ =~= old(out)@ + body_text(self@));
            },
            _ => {
                assert(old(out)@ + body_text(self@) =~= old(out)@);
            },
        }
    }

    pub fn to_string(&self) -> (r: String)
        ensures
            valid_utf8(body_text(self@)) ==> r@ == decode_utf8(body_text(self@)),
    {
        let mut out: Vec<u8> = Vec::new();
        self.write_text(&mut out);
        assert(out@ =~= body_text(self@));
        text_of(out.as_slice())
    }
}

impl MessageHead {
    pub fn write_to(&self, out: &mut Vec<u8>)
        ensures
            final(out)@ == old(out)@ + head_bytes(self.start_line@, self.headers@),
    {
        self.start_line.write_to(out);
        self.headers.write_to(out);
        push_crlf(out);
        assert(out@ =~= old(out)@ + head_bytes(self.start_line@, self.headers@));
    }

    pub fn to_string(&self) -> (r: String)
        ensures
            valid_utf8(head_bytes(self.start_line@, self.headers@))
                ==> r@ == decode_utf8(head_bytes(self.start_line@, self.headers@)),
    {
        let mut out: Vec<u8> = Vec::new();
        self.write_to(&mut out);
        assert(out@ =~= head_bytes(self.start_line@, self.headers@));
        text_of(out.as_slice())
    }
}

impl HttpMessage {
    pub fn write_to(&self, out: &mut Vec<u8>)
        ensures
            final(out)@ == old(out)@ + head_bytes(self.start_line@, self.headers@) + body_bytes(self.body@),
    {
        self.start_line.write_to(out);
        self.headers.write_to(out);
        push_crlf(out);
        self.body.write_to(out);
        assert(out@ =~= old(out)@ + head_bytes(self.start_line@, self.headers@) + body_bytes(self.body@));
    }

    pub fn to_string(&self) -> (r: String)
        ensures
            valid_utf8(head_bytes(self.start_line@, self.headers@) + body_text(self.body@))
                ==> r@ == decode_utf8(head_bytes(self.start_line@, self.headers@) + body_text(self.body@)),
    {
        let mut out: Vec<u8> = Vec::new();
        self.start_line.write_to(&mut out);
        self.headers.write_to(&mut out);
        push_crlf(&mut out);
        self.body.write_text(&mut out);
        assert(out@ =~= head_bytes(self.start_line@, self.headers@) + body_text(self.body@));
        text_of(out.as_slice())
    }
}

pub open spec fn extensions_bytes(es: Seq<(Seq<u8>, Option<Seq<u8>>)>) -> Seq<u8>
    decreases es.len(),
{
    if es.len() == 0 {
        Seq::empty()
    } else {
        let e = es.last();
        extensions_bytes(es.drop_last()) + seq![59u8] + e.0 + match e.1 {
            Some(v) => seq![61u8] + v,
            None => Seq::empty(),
        }
    }
}

impl ChunkExtensions {
    /// Each extension as `;name=value`, or `;name` when it has no value.
    pub fn write_to(&self, out: &mut Vec<u8>)
        ensures
            final(out)@ == old(out)@ + extensions_bytes(self@),
    {
        let mut k: usize = 0;
        while k < self.0.len()
            invariant
                k <= self@.len(),
                self@.len() == self.0@.len(),
                out@ == old(out)@ + extensions_bytes(self@.take(k as int)),
            decreases self@.len() - k,
        {
            assert(self@.take(k as int + 1).drop_last() =~= self@.take(k as int));
            assert(self@.take(k as int + 1).last() == self@[k as int]);
            let ghost before = out@;
            out.push(59);
            push_all(out, self.0[k].name.as_slice());
            match &self.0[k].value {
                Some(v) => {
                    out.push(61);
                    push_all(out, v.as_slice());
                },
                None => {},
            }
            assert(out@ =~= before + extensions_bytes(self@.take(k as int + 1)).subrange(
                extensions_bytes(self@.take(k as int)).len() as int,
                extensions_bytes(self@.take(k as int + 1)).len() as int,
            ));
            assert(out@ =~= old(out)@ + extensions_bytes(self@.take(k as int + 1)));
            k = k + 1;
        }
        assert(self@.take(k as int) =~= self@);
    }
}

impl TransferParameter {
    pub fn new(name: &str, value: Option<&str>) -> (r: TransferParameter)
        ensures
            r.name@ == name.spec_bytes(),
            r.value is Some == value is Some,
            value is Some ==> r.value->Some_0@ == value->Some_0.spec_bytes(),
    {
        let v = match value {
            Some(t) => Some(str_bytes(t)),
            None => None,
        };
        TransferParameter { name: str_bytes(name), value: v }
    }
}

/// One chunk read from the start of `s`, and how many bytes it takes: a
/// chunk with data and its closing CRLF, or the last chunk with its trailers
/// and the final CRLF.
pub open spec fn spec_chunk_read(s: Seq<u8>) -> Result<(ChunkView, nat), ParseError> {
    match spec_chunk_head(s) {
        Err(e) => Err(e),
        Ok((r1, (size, ext))) => if size > 0 {
            match spec_take(r1, size as nat) {
                Err(e) => Err(e),
                Ok((r2, data)) => match spec_tag(r2, crlf_bytes()) {
                    Err(e) => Err(e),
                    Ok((r3, _)) => Ok((ChunkView::Slice(ext, data), (s.len() - r3.len()) as nat)),
                },
            }
        } else {
            match spec_headers(r1) {
                Err(e) => Err(e),
                Ok((r2, trailers)) => match spec_tag(r2, crlf_bytes()) {
                    Err(e) => Err(e),
                    Ok((r3, _)) => Ok((ChunkView::Last(ext, trailers), (s.len() - r3.len()) as nat)),
                },
            }
        },
    }
}

impl Chunk {
    pub fn read(slice: &[u8]) -> (r: Result<(Chunk, usize), ParseError>)
        ensures
            match r {
                Ok((c, n)) => spec_chunk_read(slice@) == Ok::<(ChunkView, nat), ParseError>((c@, n as nat))
                    && 0 < n <= slice@.len(),
                Err(e) => spec_chunk_read(slice@) == Err::<(ChunkView, nat), ParseError>(e),
            },
    {
        let (r1, (size, extensions)) = chunk_head(slice)?;
        if size > 0 {
            let (r2, data) = take(r1, size)?;
            let (r3, _) = crlf(r2)?;
            Ok((Chunk::Slice(extensions, data), slice.len() - r3.len()))
        } else {
            let (r2, trailers) = parse_headers(r1)?;
            let (r3, _) = crlf(r2)?;
            Ok((Chunk::Last(extensions, trailers), slice.len() - r3.len()))
        }
    }
}

} // verus!

verus! {

/// Header names that differ only in ASCII case find the same headers: the
/// same first value, the same values, and the same headers left after
/// removing them.
pub proof fn lemma_lookup_ignores_case(hs: Seq<(Seq<u8>, Seq<u8>)>, a: Seq<u8>, b: Seq<u8>)
    requires
        same_name(a, b),
    ensures
        lookup(hs, a) == lookup(hs, b),
        values_of(hs, a) == values_of(hs, b),
        without(hs, a) == without(hs, b),
    decreases hs.len(),
{
    if hs.len() > 0 {
        lemma_lookup_ignores_case(hs.skip(1), a, b);
        lemma_lookup_ignores_case(hs.drop_last(), a, b);
    }
}

pub proof fn lemma_lookup_none_iff(hs: Seq<(Seq<u8>, Seq<u8>)>, n: Seq<u8>)
    ensures
        (lookup(hs, n) is None) == (forall|i: int| 0 <= i < hs.len() ==> !same_name(#[trigger] hs[i].0, n)),
    decreases hs.len(),
{
    if hs.len() > 0 {
        lemma_lookup_none_iff(hs.skip(1), n);
        if forall|i: int| 0 <= i < hs.len() ==> !same_name(#[trigger] hs[i].0, n) {
            assert forall|i: int| 0 <= i < hs.skip(1).len() implies !same_name(#[trigger] hs.skip(1)[i].0, n) by {
                assert(hs.skip(1)[i] == hs[i + 1]);
            }
        }
        if !same_name(hs[0].0, n) && lookup(hs.skip(1), n) is None {
            assert forall|i: int| 0 <= i < hs.len() implies !same_name(#[trigger] hs[i].0, n) by {
                if i > 0 {
                    assert(hs.skip(1)[i - 1] == hs[i]);
                }
            }
        }
    }
}

pub proof fn lemma_values_empty_iff(hs: Seq<(Seq<u8>, Seq<u8>)>, n: Seq<u8>)
    ensures
        (values_of(hs, n).len() == 0) == (forall|i: int| 0 <= i < hs.len() ==> !same_name(#[trigger] hs[i].0, n)),
    decreases hs.len(),
{
    if hs.len() > 0 {
        lemma_values_empty_iff(hs.drop_last(), n);
        if forall|i: int| 0 <= i < hs.len() ==> !same_name(#[trigger] hs[i].0, n) {
            assert forall|i: int| 0 <= i < hs.drop_last().len() implies !same_name(#[trigger] hs.drop_last()[i].0, n) by {
                assert(hs.drop_last()[i] == hs[i]);
            }
            assert(!same_name(hs[hs.len() - 1].0, n));
        }
        if !same_name(hs.last().0, n) && values_of(hs.drop_last(), n).len() == 0 {
            assert forall|i: int| 0 <= i < hs.len() implies !same_name(#[trigger] hs[i].0, n) by {
                if i < hs.len() - 1 {
                    assert(hs.drop_last()[i] == hs[i]);
                }
            }
        }
    }
}

pub proof fn lemma_without_names(hs: Seq<(Seq<u8>, Seq<u8>)>, name: Seq<u8>)
    ensures
        forall|i: int| 0 <= i < without(hs, name).len() ==> !same_name(#[trigger] without(hs, name)[i].0, name),
    decreases hs.len(),
{
    if hs.len() > 0 {
        lemma_without_names(hs.drop_last(), name);
        let w = without(hs.drop_last(), name);
        if !same_name(hs.last().0, name) {
            assert forall|i: int| 0 <= i < w.push(hs.last()).len() implies !same_name(#[trigger] w.push(hs.last())[i].0, name) by {
                if i < w.len() {
                    assert(w.push(hs.last())[i] == w[i]);
                }
            }
        }
    }
}

/// No header named `name`, in any case, is left after removing `name`.
pub proof fn lemma_without_leaves_none(hs: Seq<(Seq<u8>, Seq<u8>)>, name: Seq<u8>, other: Seq<u8>)
    requires
        same_name(name, other),
    ensures
        values_of(without(hs, name), other) == Seq::<Seq<u8>>::empty(),
        lookup(without(hs, name), other) is None,
{
    let w = without(hs, name);
    lemma_without_names(hs, name);
    assert forall|i: int| 0 <= i < w.len() implies !same_name(#[trigger] w[i].0, other) by {
        assert(!same_name(w[i].0, name));
    }
    lemma_values_empty_iff(w, other);
    lemma_lookup_none_iff(w, other);
    assert(values_of(w, other) =~= Seq::<Seq<u8>>::empty());
}

/// After `replace(name, value)` every case variant of `name` finds exactly
/// the new value, and only once.
pub proof fn lemma_replace_leaves_one(hs: Seq<(Seq<u8>, Seq<u8>)>, name: Seq<u8>, value: Seq<u8>, other: Seq<u8>)
    requires
        same_name(name, other),
    ensures
        values_of(without(hs, name).push((name, value)), other) == seq![value],
{
    lemma_without_leaves_none(hs, name, other);
    let r = without(hs, name).push((name, value));
    assert(r.drop_last() =~= without(hs, name));
    assert(seq![value] =~= Seq::<Seq<u8>>::empty().push(value));
}

} // verus!
