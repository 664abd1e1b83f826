use vstd::prelude::*;
use vstd::string::StringSliceAdditionalSpecFns;
use vstd::utf8::{valid_utf8, decode_utf8};
use crate::text::text_of;
use crate::grammar::copy_prefix;

verus! {

/// The regular expression of RFC 3986, appendix B, for splitting a URI
/// reference into scheme, authority, path, query and fragment; with Unicode
/// off, each class and `.` stand for single bytes.
pub const REFERENCE_PATTERN: &'static str = "(?-u)^(?:([^:/?\\#]+):)?(?://([^/?\\#]*))?([^?\\#]*)(?:\\?([^\\#]*))?(?:\\#(.*))?";

/// The byte positions of the five parts of a URI reference.
#[derive(PartialEq, Eq, Debug, Clone, Copy)]
pub struct UriSpans {
    pub scheme: Option<(usize, usize)>,
    pub authority: Option<(usize, usize)>,
    pub path: (usize, usize),
    pub query: Option<(usize, usize)>,
    pub fragment: Option<(usize, usize)>,
}

/// The bytes that end each part of a URI reference.
pub enum Delimiters {
    Scheme,
    Authority,
    Path,
    Query,
    Line,
}

pub open spec fn is_delimiter(d: Delimiters, b: u8) -> bool {
    match d {
        Delimiters::Scheme => b == 58 || b == 47 || b == 63 || b == 35,
        Delimiters::Authority => b == 47 || b == 63 || b == 35,
        Delimiters::Path => b == 63 || b == 35,
        Delimiters::Query => b == 35,
        Delimiters::Line => b == 10,
    }
}

/// The first position from `i` on that holds a delimiter of `d`, or the end.
pub open spec fn scan_end(s: Seq<u8>, i: int, d: Delimiters) -> int
    decreases s.len() - i,
{
    if 0 <= i < s.len() && !is_delimiter(d, s[i]) {
        scan_end(s, i + 1, d)
    } else {
        i
    }
}

pub proof fn lemma_scan_end(s: Seq<u8>, i: int, d: Delimiters)
    requires
        0 <= i <= s.len(),
    ensures
        i <= scan_end(s, i, d) <= s.len(),
        forall|k: int| i <= k < scan_end(s, i, d) ==> !is_delimiter(d, #[trigger] s[k]),
        scan_end(s, i, d) < s.len() ==> is_delimiter(d, s[scan_end(s, i, d)]),
    decreases s.len() - i,
{
    if i < s.len() && !is_delimiter(d, s[i]) {
        lemma_scan_end(s, i + 1, d);
    }
}

/// What `REFERENCE_PATTERN` captures on `s`. Every part is optional and the
/// pattern is anchored at the start, so it always matches there; each group
/// takes the longest run it can, and an optional group is taken whenever its
/// literal prefix is present.
#[verifier::opaque]
pub open spec fn spec_uri_spans(s: Seq<u8>) -> UriSpans {
    let e0 = scan_end(s, 0, Delimiters::Scheme);
    let has_scheme = 0 < e0 < s.len() && s[e0] == 58;
    let a0 = if has_scheme { e0 + 1 } else { 0 };
    let has_authority = a0 + 2 <= s.len() && s[a0] == 47 && s[a0 + 1] == 47;
    let a1 = scan_end(s, a0 + 2, Delimiters::Authority);
    let p0 = if has_authority { a1 } else { a0 };
    let p1 = scan_end(s, p0, Delimiters::Path);
    let has_query = p1 < s.len() && s[p1] == 63;
    let q1 = scan_end(s, p1 + 1, Delimiters::Query);
    let f0 = if has_query { q1 } else { p1 };
    let has_fragment = f0 < s.len() && s[f0] == 35;
    let f1 = scan_end(s, f0 + 1, Delimiters::Line);
    UriSpans {
        scheme: if has_scheme { Some((0usize, e0 as usize)) } else { None },
        authority: if has_authority { Some(((a0 + 2) as usize, a1 as usize)) } else { None },
        path: (p0 as usize, p1 as usize),
        query: if has_query { Some(((p1 + 1) as usize, q1 as usize)) } else { None },
        fragment: if has_fragment { Some(((f0 + 1) as usize, f1 as usize)) } else { None },
    }
}

/// Relies on `regex::bytes::Regex::new` and `Regex::captures`: with
/// `REFERENCE_PATTERN` the match starts at 0 and the groups 1 to 5 are the
/// spans that `spec_uri_spans` gives (leftmost-first, greedy matching).
#[verifier::external_body]
fn reference_spans(pattern: &str, value: &[u8]) -> (r: Option<UriSpans>)
    ensures
        pattern@ == REFERENCE_PATTERN@ ==> r == Some(spec_uri_spans(value@)),
{
    let re = regex::bytes::Regex::new(pattern).ok()?;
    let c = re.captures(value)?;
    let span = |i: usize| c.get(i).map(|m| (m.start(), m.end()));
    Some(UriSpans { scheme: span(1), authority: span(2), path: span(3)?, query: span(4), fragment: span(5) })
}

/// A URI reference split into its parts.
#[derive(PartialEq, Eq, Debug, Clone)]
pub struct Uri {
    pub scheme: Option<Vec<u8>>,
    pub authority: Option<Vec<u8>>,
    pub path: Vec<u8>,
    pub query: Option<Vec<u8>>,
    pub fragment: Option<Vec<u8>>,
}

pub struct UriView {
    pub scheme: Option<Seq<u8>>,
    pub authority: Option<Seq<u8>>,
    pub path: Seq<u8>,
    pub query: Option<Seq<u8>>,
    pub fragment: Option<Seq<u8>>,
}

pub open spec fn part(s: Seq<u8>, span: Option<(usize, usize)>) -> Option<Seq<u8>> {
    match span {
        Some((a, b)) => Some(s.subrange(a as int, b as int)),
        None => None,
    }
}

/// The parts of the URI reference `s`.
pub open spec fn spec_uri(s: Seq<u8>) -> UriView {
    let spans = spec_uri_spans(s);
    UriView {
        scheme: part(s, spans.scheme),
        authority: part(s, spans.authority),
        path: s.subrange(spans.path.0 as int, spans.path.1 as int),
        query: part(s, spans.query),
        fragment: part(s, spans.fragment),
    }
}

pub open spec fn opt_bytes(o: Option<Vec<u8>>) -> Option<Seq<u8>> {
    match o {
        Some(v) => Some(v@),
        None => None,
    }
}

impl View for Uri {
    type V = UriView;

    open spec fn view(&self) -> UriView {
        UriView {
            scheme: opt_bytes(self.scheme),
            authority: opt_bytes(self.authority),
            path: self.path@,
            query: opt_bytes(self.query),
            fragment: opt_bytes(self.fragment),
        }
    }
}

/// A URI reference written back: `scheme:`, `//authority`, the path,
/// `?query` and `#fragment`, each part that is there.
pub open spec fn uri_bytes(u: UriView) -> Seq<u8> {
    suffixed(u.scheme, 58) + prefixed2(u.authority) + u.path + prefixed(u.query, 63) + prefixed(u.fragment, 35)
}

/// `x` and then `b`, or nothing.
pub open spec fn suffixed(o: Option<Seq<u8>>, b: u8) -> Seq<u8> {
    match o {
        Some(x) => x.push(b),
        None => Seq::empty(),
    }
}

/// `b` and then `x`, or nothing.
pub open spec fn prefixed(o: Option<Seq<u8>>, b: u8) -> Seq<u8> {
    match o {
        Some(x) => seq![b] + x,
        None => Seq::empty(),
    }
}

/// `//` and then `x`, or nothing.
pub open spec fn prefixed2(o: Option<Seq<u8>>) -> Seq<u8> {
    match o {
        Some(x) => seq![47u8, 47u8] + x,
        None => Seq::empty(),
    }
}

pub proof fn lemma_five_pieces(s: Seq<u8>, a: int, b: int, c: int, d: int)
    requires
        0 <= a <= b <= c <= d <= s.len(),
    ensures
        s.subrange(0, a) + s.subrange(a, b) + s.subrange(b, c) + s.subrange(c, d) + s.subrange(d, s.len() as int) == s,
{
    assert(s.subrange(0, a) + s.subrange(a, b) + s.subrange(b, c) + s.subrange(c, d) + s.subrange(d, s.len() as int) =~= s);
}

fn copy_span(value: &[u8], span: (usize, usize)) -> (r: Vec<u8>)
    requires
        span.0 <= span.1 <= value@.len(),
    ensures
        r@ == value@.subrange(span.0 as int, span.1 as int),
{
    let tail = &value[span.0..value.len()];
    let r = copy_prefix(tail, span.1 - span.0);
    assert(r@ =~= value@.subrange(span.0 as int, span.1 as int));
    r
}

fn copy_part(value: &[u8], span: Option<(usize, usize)>) -> (r: Option<Vec<u8>>)
    requires
        span is Some ==> span->Some_0.0 <= span->Some_0.1 <= value@.len(),
    ensures
        opt_bytes(r) == part(value@, span),
{
    match span {
        Some(s) => Some(copy_span(value, s)),
        None => None,
    }
}

/// Where the parts of a reference start and end: each part begins where the
/// one before it and its delimiter end, and the last one reaches the end of
/// `s` or a line feed.
pub open spec fn uri_layout(s: Seq<u8>, sp: UriSpans) -> bool {
    let a0: int = match sp.scheme { Some((_, e)) => e + 1, None => 0 };
    let f0: int = match sp.query { Some((_, y)) => y as int, None => sp.path.1 as int };
    &&& (sp.scheme is Some ==> sp.scheme->Some_0.0 == 0 && sp.scheme->Some_0.1 < s.len()
        && s[sp.scheme->Some_0.1 as int] == 58)
    &&& (sp.authority is Some ==> sp.authority->Some_0.0 == a0 + 2 && a0 + 2 <= s.len()
        && s[a0] == 47 && s[a0 + 1] == 47 && sp.authority->Some_0.1 == sp.path.0
        && sp.authority->Some_0.0 <= sp.authority->Some_0.1)
    &&& (sp.authority is None ==> sp.path.0 == a0)
    &&& a0 <= sp.path.0 <= sp.path.1 <= s.len()
    &&& (sp.query is Some ==> sp.query->Some_0.0 == sp.path.1 + 1 && sp.path.1 < s.len()
        && s[sp.path.1 as int] == 63 && sp.query->Some_0.0 <= sp.query->Some_0.1 <= s.len())
    &&& (sp.fragment is Some ==> sp.fragment->Some_0.0 == f0 + 1 && f0 < s.len() && s[f0] == 35
        && sp.fragment->Some_0.0 <= sp.fragment->Some_0.1 <= s.len()
        && (sp.fragment->Some_0.1 == s.len() || s[sp.fragment->Some_0.1 as int] == 10))
    &&& (sp.fragment is None ==> f0 == s.len())
}

pub proof fn lemma_uri_layout(s: Seq<u8>)
    requires
        s.len() <= usize::MAX,
    ensures
        uri_layout(s, spec_uri_spans(s)),
{
    reveal(spec_uri_spans);
    let e0 = scan_end(s, 0, Delimiters::Scheme);
    lemma_scan_end(s, 0, Delimiters::Scheme);
    let has_scheme = 0 < e0 < s.len() && s[e0] == 58;
    let a0 = if has_scheme { e0 + 1 } else { 0 };
    let has_authority = a0 + 2 <= s.len() && s[a0] == 47 && s[a0 + 1] == 47;
    if has_authority {
        lemma_scan_end(s, a0 + 2, Delimiters::Authority);
    }
    let a1 = scan_end(s, a0 + 2, Delimiters::Authority);
    let p0 = if has_authority { a1 } else { a0 };
    lemma_scan_end(s, p0, Delimiters::Path);
    let p1 = scan_end(s, p0, Delimiters::Path);
    let has_query = p1 < s.len() && s[p1] == 63;
    if has_query {
        lemma_scan_end(s, p1 + 1, Delimiters::Query);
    }
    let q1 = scan_end(s, p1 + 1, Delimiters::Query);
    let f0 = if has_query { q1 } else { p1 };
    let has_fragment = f0 < s.len() && s[f0] == 35;
    if has_fragment {
        lemma_scan_end(s, f0 + 1, Delimiters::Line);
    }
}

/// Writing back a parsed URI reference gives the reference itself, for
/// every reference without a line feed (the fragment's `.` stops there).
pub proof fn lemma_uri_round_trip(s: Seq<u8>)
    requires
        s.len() <= usize::MAX,
        forall|i: int| 0 <= i < s.len() ==> #[trigger] s[i] != 10,
    ensures
        uri_bytes(spec_uri(s)) == s,
{
    lemma_uri_layout(s);
    let sp = spec_uri_spans(s);
    let u = spec_uri(s);
    let a0: int = match sp.scheme { Some((_, e)) => e + 1, None => 0 };
    let p0 = sp.path.0 as int;
    let p1 = sp.path.1 as int;
    let f0: int = match sp.query { Some((_, y)) => y as int, None => p1 };
    assert(suffixed(u.scheme, 58) =~= s.subrange(0, a0));
    assert(prefixed2(u.authority) =~= s.subrange(a0, p0));
    assert(u.path =~= s.subrange(p0, p1));
    assert(prefixed(u.query, 63) =~= s.subrange(p1, f0));
    assert(prefixed(u.fragment, 35) =~= s.subrange(f0, s.len() as int)) by {
        if sp.fragment is Some {
            let f1 = sp.fragment->Some_0.1 as int;
            if f1 < s.len() {
                assert(s[f1] == 10);
            }
        }
    }
    lemma_five_pieces(s, a0, p0, p1, f0);
}

fn push_suffixed(out: &mut Vec<u8>, o: &Option<Vec<u8>>, b: u8)
    ensures
        final(out)@ == old(out)@ + suffixed(opt_bytes(*o), b),
{
    match o {
        Some(x) => {
            crate::ast::push_all(out, x.as_slice());
            out.push(b);
            assert(out@ =~= old(out)@ + suffixed(opt_bytes(*o), b));
        },
        None => {
            assert(out@ =~= old(out)@ + suffixed(opt_bytes(*o), b));
        },
    }
}

fn push_prefixed(out: &mut Vec<u8>, o: &Option<Vec<u8>>, b: u8)
    ensures
        final(out)@ == old(out)@ + prefixed(opt_bytes(*o), b),
{
    match o {
        Some(x) => {
            out.push(b);
            crate::ast::push_all(out, x.as_slice());
            assert(out@ =~= old(out)@ + prefixed(opt_bytes(*o), b));
        },
        None => {
            assert(out@ =~= old(out)@ + prefixed(opt_bytes(*o), b));
        },
    }
}

fn push_prefixed2(out: &mut Vec<u8>, o: &Option<Vec<u8>>)
    ensures
        final(out)@ == old(out)@ + prefixed2(opt_bytes(*o)),
{
    match o {
        Some(x) => {
            out.push(47);
            out.push(47);
            crate::ast::push_all(out, x.as_slice());
            assert(out@ =~= old(out)@ + prefixed2(opt_bytes(*o)));
        },
        None => {
            assert(out@ =~= old(out)@ + prefixed2(opt_bytes(*o)));
        },
    }
}

impl Uri {
    /// Splits `value` into the parts of a URI reference, as RFC 3986's
    /// regular expression does.
    pub fn parse(value: &str) -> (r: Uri)
        ensures
            r@ == spec_uri(value.spec_bytes()),
    {
        Uri::parse_bytes(value.as_bytes())
    }

    /// The same on bytes.
    pub fn parse_bytes(bytes: &[u8]) -> (r: Uri)
        ensures
            r@ == spec_uri(bytes@),
    {
        let _n = bytes.len();
        proof { lemma_uri_layout(bytes@); }
        match reference_spans(REFERENCE_PATTERN, bytes) {
            Some(spans) => Uri {
                scheme: copy_part(bytes, spans.scheme),
                authority: copy_part(bytes, spans.authority),
                path: copy_span(bytes, spans.path),
                query: copy_part(bytes, spans.query),
                fragment: copy_part(bytes, spans.fragment),
            },
            None => {
                assert(false);
                Uri { scheme: None, authority: None, path: Vec::new(), query: None, fragment: None }
            },
        }
    }

    pub fn write_to(&self, out: &mut Vec<u8>)
        ensures
            final(out)@ == old(out)@ + uri_bytes(self@),
    {
        let ghost start = out@;
        push_suffixed(out, &self.scheme, 58);
        push_prefixed2(out, &self.authority);
        crate::ast::push_all(out, self.path.as_slice());
        push_prefixed(out, &self.query, 63);
        push_prefixed(out, &self.fragment, 35);
        assert(out@ =~= start + uri_bytes(self@));
    }

    pub fn to_bytes(&self) -> (r: Vec<u8>)
        ensures
            r@ == uri_bytes(self@),
    {
        let mut out: Vec<u8> = Vec::new();
        self.write_to(&mut out);
        assert(out@ =~= uri_bytes(self@));
        out
    }

    /// The reference as text; see `uri_bytes`.
    pub fn to_string(&self) -> (r: String)
        ensures
            valid_utf8(uri_bytes(self@)) ==> r@ == decode_utf8(uri_bytes(self@)),
    {
        let out = self.to_bytes();
        text_of(out.as_slice())
    }
}

} // verus!
