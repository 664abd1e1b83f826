use vstd::prelude::*;
use vstd::string::StringSliceAdditionalSpecFns;
use vstd::utf8::{valid_utf8, decode_utf8};
use crate::text::{text_of, utf8_valid};

verus! {

/// A borrowed view into an input buffer, given by its byte positions.
#[derive(Clone, Copy, PartialEq, Eq, Debug)]
pub struct Span {
    pub start: usize,
    pub end: usize,
}

impl Span {
    pub open spec fn wf(self) -> bool {
        self.start <= self.end
    }

    pub open spec fn len(self) -> nat {
        (self.end - self.start) as nat
    }

    pub open spec fn is_empty(self) -> bool {
        self.start == self.end
    }

    /// The bytes of `input` that the span covers.
    pub open spec fn bytes(self, input: Seq<u8>) -> Seq<u8> {
        input.subrange(self.start as int, self.end as int)
    }

    pub open spec fn within(self, input: Seq<u8>) -> bool {
        self.start <= self.end && self.end <= input.len()
    }
}

#[derive(PartialEq, Eq, Debug, Clone, Copy)]
pub enum SliceError {
    NotAdjacent,
}

pub open spec fn empty_span() -> Span {
    Span { start: 0, end: 0 }
}

/// Whether `second` begins exactly where `first` ends.
pub open spec fn spec_adjacent(first: Span, second: Span) -> bool {
    first.end == second.start
}

pub open spec fn spec_join(first: Span, second: Span) -> Result<Span, SliceError> {
    if first.is_empty() {
        Ok(second)
    } else if second.is_empty() {
        Ok(first)
    } else if spec_adjacent(first, second) {
        Ok(Span { start: first.start, end: second.end })
    } else {
        Err(SliceError::NotAdjacent)
    }
}

/// Folds `spans` from the left with `spec_join`, starting from the empty span.
pub open spec fn spec_join_all(spans: Seq<Span>) -> Result<Span, SliceError>
    decreases spans.len(),
{
    if spans.len() == 0 {
        Ok(empty_span())
    } else {
        match spec_join_all(spans.drop_last()) {
            Ok(acc) => spec_join(acc, spans.last()),
            Err(e) => Err(e),
        }
    }
}

/// Folds `spans` from the left, merging adjacent neighbours; `Err` holds the
/// residual sequence once two neighbours are not adjacent.
pub open spec fn spec_reduce_all(spans: Seq<Span>) -> Result<Span, Seq<Span>>
    decreases spans.len(),
{
    if spans.len() == 0 {
        Ok(empty_span())
    } else {
        let next = spans.last();
        match spec_reduce_all(spans.drop_last()) {
            Ok(acc) => match spec_join(acc, next) {
                Ok(joined) => Ok(joined),
                Err(_) => Err(seq![acc, next]),
            },
            Err(rest) => match spec_join(rest.last(), next) {
                Ok(joined) => Err(rest.drop_last().push(joined)),
                Err(_) => Err(rest.push(next)),
            },
        }
    }
}

pub proof fn lemma_reduce_residual_nonempty(spans: Seq<Span>)
    ensures
        spec_reduce_all(spans) is Err ==> spec_reduce_all(spans)->Err_0.len() >= 2,
    decreases spans.len(),
{
    if spans.len() > 0 {
        lemma_reduce_residual_nonempty(spans.drop_last());
    }
}

pub fn is_adjacent(first: Span, second: Span) -> (r: bool)
    ensures
        r == spec_adjacent(first, second),
{
    first.end == second.start
}

pub fn join_slice(first: Span, second: Span) -> (r: Result<Span, SliceError>)
    ensures
        r == spec_join(first, second),
{
    if first.start == first.end {
        return Ok(second);
    }
    if second.start == second.end {
        return Ok(first);
    }
    if is_adjacent(first, second) {
        Ok(Span { start: first.start, end: second.end })
    } else {
        Err(SliceError::NotAdjacent)
    }
}

pub fn reduce_slice(first: Span, second: Span) -> (r: Result<Span, Vec<Span>>)
    ensures
        match r {
            Ok(s) => spec_join(first, second) == Ok::<Span, SliceError>(s),
            Err(v) => spec_join(first, second) is Err && v@ == seq![first, second],
        },
{
    match join_slice(first, second) {
        Ok(s) => Ok(s),
        Err(_) => {
            let mut v: Vec<Span> = Vec::new();
            v.push(first);
            v.push(second);
            assert(v@ =~= seq![first, second]);
            Err(v)
        },
    }
}

pub fn join_pair(pair: (Span, Span)) -> (r: Result<Span, SliceError>)
    ensures
        r == spec_join(pair.0, pair.1),
{
    join_slice(pair.0, pair.1)
}

pub fn join_vec(spans: Vec<Span>) -> (r: Result<Span, SliceError>)
    ensures
        r == spec_join_all(spans@),
{
    let mut acc: Result<Span, SliceError> = Ok(Span { start: 0, end: 0 });
    let mut k: usize = 0;
    while k < spans.len()
        invariant
            k <= spans@.len(),
            acc == spec_join_all(spans@.take(k as int)),
        decreases spans@.len() - k,
    {
        assert(spans@.take(k as int + 1).drop_last() =~= spans@.take(k as int));
        assert(spans@.take(k as int + 1).last() == spans@[k as int]);
        if let Ok(first) = acc {
            acc = join_slice(first, spans[k]);
        }
        k = k + 1;
    }
    assert(spans@.take(k as int) =~= spans@);
    acc
}

pub fn reduce_vec(spans: Vec<Span>) -> (r: Result<Span, Vec<Span>>)
    ensures
        match r {
            Ok(s) => spec_reduce_all(spans@) == Ok::<Span, Seq<Span>>(s),
            Err(v) => spec_reduce_all(spans@) == Err::<Span, Seq<Span>>(v@),
        },
{
    let mut acc: Result<Span, Vec<Span>> = Ok(Span { start: 0, end: 0 });
    let mut k: usize = 0;
    while k < spans.len()
        invariant
            k <= spans@.len(),
            match acc {
                Ok(s) => spec_reduce_all(spans@.take(k as int)) == Ok::<Span, Seq<Span>>(s),
                Err(v) => spec_reduce_all(spans@.take(k as int)) == Err::<Span, Seq<Span>>(v@),
            },
        decreases spans@.len() - k,
    {
        assert(spans@.take(k as int + 1).drop_last() =~= spans@.take(k as int));
        proof {
            lemma_reduce_residual_nonempty(spans@.take(k as int));
        }
        let next = spans[k];
        assert(spans@.take(k as int + 1).last() == next);
        acc = match acc {
            Ok(first) => {
                assert(spec_reduce_all(spans@.take(k as int + 1)) == match spec_join(first, next) {
                    Ok(joined) => Ok::<Span, Seq<Span>>(joined),
                    Err(_) => Err(seq![first, next]),
                });
                reduce_slice(first, next)
            },
            Err(mut rest) => {
                let ghost before = rest@;
                let last = rest.pop().unwrap();
                match join_slice(last, next) {
                    Ok(joined) => {
                        rest.push(joined);
                    },
                    Err(_) => {
                        rest.push(last);
                        rest.push(next);
                        assert(rest@ =~= before.push(next));
                    },
                }
                Err(rest)
            },
        };
        k = k + 1;
    }
    assert(spans@.take(k as int) =~= spans@);
    acc
}

/// Why a run of bytes is not a number.
#[derive(PartialEq, Eq, Debug, Clone, Copy)]
pub enum ParseIntError {
    Empty,
    InvalidDigit,
    Overflow,
}

/// Not valid UTF-8.
#[derive(PartialEq, Eq, Debug, Clone, Copy)]
pub struct Utf8Error;

pub open spec fn is_dec_digit(b: u8) -> bool {
    48 <= b <= 57
}

pub open spec fn is_hex_digit(b: u8) -> bool {
    is_dec_digit(b) || (65 <= b <= 70) || (97 <= b <= 102)
}

pub open spec fn is_radix_digit(b: u8, radix: nat) -> bool {
    if radix == 16 {
        is_hex_digit(b)
    } else {
        is_dec_digit(b)
    }
}

pub open spec fn digit_value(b: u8) -> nat {
    if is_dec_digit(b) {
        (b - 48) as nat
    } else if 65 <= b <= 70 {
        (b - 55) as nat
    } else {
        (b - 87) as nat
    }
}

/// The value of a run of digits, most significant first.
pub open spec fn digits_value(s: Seq<u8>, radix: nat) -> nat
    decreases s.len(),
{
    if s.len() == 0 {
        0
    } else {
        digits_value(s.drop_last(), radix) * radix + digit_value(s.last())
    }
}

/// The digits of a number: what follows an optional leading `+`.
pub open spec fn number_digits(s: Seq<u8>) -> Seq<u8> {
    if s.len() > 0 && s[0] == 43 {
        s.skip(1)
    } else {
        s
    }
}

pub open spec fn all_radix_digits(s: Seq<u8>, radix: nat) -> bool {
    forall|i: int| 0 <= i < s.len() ==> is_radix_digit(#[trigger] s[i], radix)
}

/// An unsigned number in the given radix, at most `max`: an optional `+`
/// and then one or more digits.
pub open spec fn spec_parse_int(s: Seq<u8>, radix: nat, max: nat) -> Result<nat, ParseIntError> {
    let digits = number_digits(s);
    if s.len() == 0 {
        Err(ParseIntError::Empty)
    } else if digits.len() == 0 || !all_radix_digits(digits, radix) {
        Err(ParseIntError::InvalidDigit)
    } else if digits_value(digits, radix) > max {
        Err(ParseIntError::Overflow)
    } else {
        Ok(digits_value(digits, radix))
    }
}

pub open spec fn int_result_matches<T: Integer>(r: Result<T, ParseIntError>, s: Result<nat, ParseIntError>) -> bool {
    match r {
        Ok(v) => s == Ok::<nat, ParseIntError>(v as nat),
        Err(e) => s == Err::<nat, ParseIntError>(e),
    }
}

fn digit_of(b: u8) -> (r: u64)
    requires
        is_hex_digit(b),
    ensures
        r == digit_value(b),
{
    if 48 <= b && b <= 57 {
        (b - 48) as u64
    } else if 65 <= b && b <= 70 {
        (b - 55) as u64
    } else {
        (b - 87) as u64
    }
}

/// Parses `s` as an unsigned number in radix 10 or 16 that is at most `max`.
pub fn parse_radix(s: &[u8], radix: u64, max: u64) -> (r: Result<u64, ParseIntError>)
    requires
        radix == 10 || radix == 16,
    ensures
        int_result_matches(r, spec_parse_int(s@, radix as nat, max as nat)),
{
    if s.len() == 0 {
        return Err(ParseIntError::Empty);
    }
    let start: usize = if s[0] == 43 { 1 } else { 0 };
    let ghost digits = number_digits(s@);
    assert(digits =~= s@.subrange(start as int, s@.len() as int));
    if start == s.len() {
        return Err(ParseIntError::InvalidDigit);
    }
    let mut k: usize = start;
    while k < s.len()
        invariant
            start <= k <= s@.len(),
            digits =~= s@.subrange(start as int, s@.len() as int),
            digits == number_digits(s@),
            radix == 10 || radix == 16,
            forall|i: int| start <= i < k ==> is_radix_digit(#[trigger] s@[i], radix as nat),
        decreases s@.len() - k,
    {
        let b = s[k];
        let ok = if radix == 16 {
            (48 <= b && b <= 57) || (65 <= b && b <= 70) || (97 <= b && b <= 102)
        } else {
            48 <= b && b <= 57
        };
        assert(ok == is_radix_digit(b, radix as nat));
        if !ok {
            assert(digits[k - start] == b);
            assert(!all_radix_digits(digits, radix as nat));
            return Err(ParseIntError::InvalidDigit);
        }
        k = k + 1;
    }
    assert(all_radix_digits(digits, radix as nat)) by {
        assert forall|i: int| 0 <= i < digits.len() implies is_radix_digit(#[trigger] digits[i], radix as nat) by {
            assert(digits[i] == s@[start + i]);
        }
    }
    let mut acc: u64 = 0;
    let mut over = false;
    let mut j: usize = start;
    while j < s.len()
        invariant
            start <= j <= s@.len(),
            digits =~= s@.subrange(start as int, s@.len() as int),
            digits == number_digits(s@),
            radix == 10 || radix == 16,
            all_radix_digits(digits, radix as nat),
            over ==> digits_value(digits.take(j - start), radix as nat) > max,
            !over ==> acc == digits_value(digits.take(j - start), radix as nat) && acc <= max,
        decreases s@.len() - j,
    {
        let ghost prefix = digits.take(j - start);
        let ghost next = digits.take(j - start + 1);
        assert(next.drop_last() =~= prefix);
        assert(next.last() == s@[j as int]);
        assert(is_radix_digit(digits[j - start], radix as nat));
        let d = digit_of(s[j]);
        let ghost pv = digits_value(prefix, radix as nat);
        assert(pv * radix + d >= pv) by (nonlinear_arith)
            requires radix >= 1;
        if !over {
            match acc.checked_mul(radix) {
                Some(m) => match m.checked_add(d) {
                    Some(v) => {
                        if v <= max {
                            acc = v;
                        } else {
                            over = true;
                        }
                    },
                    None => {
                        over = true;
                    },
                },
                None => {
                    over = true;
                },
            }
        }
        j = j + 1;
    }
    assert(digits.take(j - start) =~= digits);
    if over {
        Err(ParseIntError::Overflow)
    } else {
        Ok(acc)
    }
}

/// The value of an ASCII decimal digit, the first byte of `slice`.
pub fn asci_digit(slice: &[u8]) -> (r: u8)
    requires
        slice@.len() >= 1,
        slice@[0] >= 48,
    ensures
        r == slice@[0] - 48,
{
    slice[0] - 48
}

pub fn parse_u8(value: &str) -> (r: Result<u8, ParseIntError>)
    ensures
        int_result_matches(r, spec_parse_int(value.spec_bytes(), 10, 255)),
{
    match parse_radix(value.as_bytes(), 10, 255) {
        Ok(v) => Ok(v as u8),
        Err(e) => Err(e),
    }
}

pub fn parse_u16(value: &str) -> (r: Result<u16, ParseIntError>)
    ensures
        int_result_matches(r, spec_parse_int(value.spec_bytes(), 10, 65535)),
{
    match parse_radix(value.as_bytes(), 10, 65535) {
        Ok(v) => Ok(v as u16),
        Err(e) => Err(e),
    }
}

pub fn parse_hex(value: &str) -> (r: Result<u64, ParseIntError>)
    ensures
        int_result_matches(r, spec_parse_int(value.spec_bytes(), 16, u64::MAX as nat)),
{
    parse_radix(value.as_bytes(), 16, u64::MAX)
}

/// The bytes that `spans` cover in `input`, one after another.
pub open spec fn concat_spans(input: Seq<u8>, spans: Seq<Span>) -> Seq<u8>
    decreases spans.len(),
{
    if spans.len() == 0 {
        Seq::empty()
    } else {
        concat_spans(input, spans.drop_last()) + spans.last().bytes(input)
    }
}

pub open spec fn spans_within(input: Seq<u8>, spans: Seq<Span>) -> bool {
    forall|i: int| 0 <= i < spans.len() ==> (#[trigger] spans[i]).within(input)
}

fn copy_span(input: &[u8], span: Span, out: &mut Vec<u8>)
    requires
        span.within(input@),
    ensures
        final(out)@ == old(out)@ + span.bytes(input@),
{
    let mut k: usize = span.start;
    while k < span.end
        invariant
            span.within(input@),
            span.start <= k <= span.end,
            out@ == old(out)@ + input@.subrange(span.start as int, k as int),
        decreases span.end - k,
    {
        out.push(input[k]);
        k = k + 1;
        assert(out@ =~= old(out)@ + input@.subrange(span.start as int, k as int));
    }
}

pub fn gather(input: &[u8], spans: &Vec<Span>) -> (r: Vec<u8>)
    requires
        spans_within(input@, spans@),
    ensures
        r@ == concat_spans(input@, spans@),
{
    let mut out: Vec<u8> = Vec::new();
    let mut k: usize = 0;
    while k < spans.len()
        invariant
            k <= spans@.len(),
            spans_within(input@, spans@),
            out@ == concat_spans(input@, spans@.take(k as int)),
        decreases spans@.len() - k,
    {
        assert(spans@.take(k as int + 1).drop_last() =~= spans@.take(k as int));
        assert(spans@.take(k as int + 1).last() == spans@[k as int]);
        copy_span(input, spans[k], &mut out);
        k = k + 1;
    }
    assert(spans@.take(k as int) =~= spans@);
    out
}

/// Text decoded from spans of an input: a span of it where the spans join
/// up, a copy where they do not.
#[derive(PartialEq, Eq, Debug, Clone)]
pub enum CowText {
    Borrowed(Span),
    Owned(String),
}

pub fn to_string(input: &[u8], spans: &Vec<Span>) -> (r: Result<String, Utf8Error>)
    requires
        spans_within(input@, spans@),
    ensures
        match r {
            Ok(t) => valid_utf8(concat_spans(input@, spans@)) && t@ == decode_utf8(concat_spans(input@, spans@)),
            Err(_) => !valid_utf8(concat_spans(input@, spans@)),
        },
{
    let bytes = gather(input, spans);
    if utf8_valid(bytes.as_slice()) {
        Ok(text_of(bytes.as_slice()))
    } else {
        Err(Utf8Error)
    }
}

pub fn to_cow_str(input: &[u8], spans: Vec<Span>) -> (r: Result<CowText, Utf8Error>)
    requires
        spans_within(input@, spans@),
    ensures
        match r {
            Ok(CowText::Borrowed(s)) => spec_reduce_all(spans@) == Ok::<Span, Seq<Span>>(s)
                && valid_utf8(s.bytes(input@)),
            Ok(CowText::Owned(t)) => spec_reduce_all(spans@) is Err
                && valid_utf8(concat_spans(input@, spans@)) && t@ == decode_utf8(concat_spans(input@, spans@)),
            Err(_) => match spec_reduce_all(spans@) {
                Ok(s) => !valid_utf8(s.bytes(input@)),
                Err(_) => !valid_utf8(concat_spans(input@, spans@)),
            },
        },
{
    let copy = spans.clone();
    assert(copy@ =~= spans@);
    match reduce_vec(spans) {
        Ok(s) => {
            proof { lemma_reduce_within(input@, copy@); }
            if s.start == s.end {
                assert(s.bytes(input@) =~= Seq::<u8>::empty());
                let empty: Vec<u8> = Vec::new();
                if utf8_valid(empty.as_slice()) {
                    return Ok(CowText::Borrowed(s));
                } else {
                    return Err(Utf8Error);
                }
            }
            let view = &input[s.start..s.end];
            if utf8_valid(view) {
                Ok(CowText::Borrowed(s))
            } else {
                Err(Utf8Error)
            }
        },
        Err(_) => match to_string(input, &copy) {
            Ok(t) => Ok(CowText::Owned(t)),
            Err(e) => Err(e),
        },
    }
}

/// What `spec_reduce_all` returns on success lies within the input, or is empty.
pub proof fn lemma_reduce_within(input: Seq<u8>, spans: Seq<Span>)
    requires
        spans_within(input, spans),
    ensures
        spec_reduce_all(spans) is Ok ==> (spec_reduce_all(spans)->Ok_0.within(input)
            || spec_reduce_all(spans)->Ok_0.is_empty()),
    decreases spans.len(),
{
    if spans.len() > 0 {
        lemma_reduce_within(input, spans.drop_last());
        assert(spans.last() == spans[spans.len() - 1]);
    }
}

} // verus!

verus! {

/// Joining two spans gives a span over their bytes, one after the other.
pub proof fn lemma_join_bytes(input: Seq<u8>, a: Span, b: Span)
    requires
        a.within(input),
        b.within(input),
    ensures
        spec_join(a, b) is Ok ==> spec_join(a, b)->Ok_0.within(input)
            && spec_join(a, b)->Ok_0.bytes(input) == a.bytes(input) + b.bytes(input),
{
    if a.is_empty() {
        assert(a.bytes(input) =~= Seq::<u8>::empty());
        assert(b.bytes(input) =~= a.bytes(input) + b.bytes(input));
    } else if b.is_empty() {
        assert(b.bytes(input) =~= Seq::<u8>::empty());
        assert(a.bytes(input) =~= a.bytes(input) + b.bytes(input));
    } else if spec_adjacent(a, b) {
        assert(input.subrange(a.start as int, b.end as int) =~= a.bytes(input) + b.bytes(input));
    }
}

proof fn lemma_concat_push(input: Seq<u8>, spans: Seq<Span>, x: Span)
    ensures
        concat_spans(input, spans.push(x)) == concat_spans(input, spans) + x.bytes(input),
{
    assert(spans.push(x).drop_last() =~= spans);
}

/// Joining all the spans gives a span over all their bytes, in order.
pub proof fn lemma_join_all_bytes(input: Seq<u8>, spans: Seq<Span>)
    requires
        spans_within(input, spans),
    ensures
        spec_join_all(spans) is Ok ==> spec_join_all(spans)->Ok_0.within(input)
            && spec_join_all(spans)->Ok_0.bytes(input) == concat_spans(input, spans),
    decreases spans.len(),
{
    if spans.len() == 0 {
        assert(empty_span().bytes(input) =~= Seq::<u8>::empty());
    } else {
        let prefix = spans.drop_last();
        assert(spans_within(input, prefix)) by {
            assert forall|i: int| 0 <= i < prefix.len() implies (#[trigger] prefix[i]).within(input) by {
                assert(prefix[i] == spans[i]);
            }
        }
        lemma_join_all_bytes(input, prefix);
        assert(spans.last() == spans[spans.len() - 1]);
        if spec_join_all(prefix) is Ok {
            lemma_join_bytes(input, spec_join_all(prefix)->Ok_0, spans.last());
        }
    }
}

/// Reducing the spans keeps their bytes: a single span over all of them, or
/// leftover spans whose bytes, one after another, are the same.
pub proof fn lemma_reduce_all_bytes(input: Seq<u8>, spans: Seq<Span>)
    requires
        spans_within(input, spans),
    ensures
        match spec_reduce_all(spans) {
            Ok(s) => s.within(input) && s.bytes(input) == concat_spans(input, spans),
            Err(v) => spans_within(input, v) && concat_spans(input, v) == concat_spans(input, spans),
        },
    decreases spans.len(),
{
    if spans.len() == 0 {
        assert(empty_span().bytes(input) =~= Seq::<u8>::empty());
    } else {
        let prefix = spans.drop_last();
        let next = spans.last();
        assert(spans_within(input, prefix)) by {
            assert forall|i: int| 0 <= i < prefix.len() implies (#[trigger] prefix[i]).within(input) by {
                assert(prefix[i] == spans[i]);
            }
        }
        assert(next == spans[spans.len() - 1]);
        lemma_reduce_all_bytes(input, prefix);
        lemma_reduce_residual_nonempty(prefix);
        match spec_reduce_all(prefix) {
            Ok(acc) => {
                lemma_join_bytes(input, acc, next);
                if spec_join(acc, next) is Err {
                    let v = seq![acc, next];
                    assert(v =~= Seq::<Span>::empty().push(acc).push(next));
                    lemma_concat_push(input, Seq::<Span>::empty().push(acc), next);
                    lemma_concat_push(input, Seq::<Span>::empty(), acc);
                    assert(Seq::<u8>::empty() + acc.bytes(input) =~= acc.bytes(input));
                    assert(spans_within(input, v)) by {
                        assert forall|i: int| 0 <= i < v.len() implies (#[trigger] v[i]).within(input) by {}
                    }
                }
            },
            Err(rest) => {
                let last = rest.last();
                assert(last == rest[rest.len() - 1]);
                lemma_join_bytes(input, last, next);
                let front = rest.drop_last();
                assert(rest =~= front.push(last));
                lemma_concat_push(input, front, last);
                match spec_join(last, next) {
                    Ok(joined) => {
                        lemma_concat_push(input, front, joined);
                        let v = front.push(joined);
                        assert(spans_within(input, v)) by {
                            assert forall|i: int| 0 <= i < v.len() implies (#[trigger] v[i]).within(input) by {
                                if i < front.len() {
                                    assert(v[i] == rest[i]);
                                }
                            }
                        }
                    },
                    Err(_) => {
                        lemma_concat_push(input, rest, next);
                        let v = rest.push(next);
                        assert(spans_within(input, v)) by {
                            assert forall|i: int| 0 <= i < v.len() implies (#[trigger] v[i]).within(input) by {
                                if i < rest.len() {
                                    assert(v[i] == rest[i]);
                                }
                            }
                        }
                    },
                }
            },
        }
    }
}

} // verus!
