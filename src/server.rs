use vstd::prelude::*;
use crate::api::{HttpError, Message, message_of};
use crate::ast::{MessageBody, BodyReader, Chunk, ChunkView, spec_body_framing, spec_chunk_read};
use crate::grammar::ParseError;
use crate::grammar::spec_message_head;
use crate::io::{Source, Buffer};

verus! {

/// Whether `m` is the message that `filled` starts with, and `n` the number
/// of bytes of `filled` that it takes.
pub open spec fn parsed_from(filled: Seq<u8>, m: Message, n: nat) -> bool {
    match spec_message_head(filled) {
        Ok((rest, (line, hs))) => match spec_body_framing(hs, rest) {
            Ok((body, taken)) => message_of(m, line, hs, body) && n == filled.len() - rest.len() + taken,
            Err(_) => false,
        },
        Err(_) => false,
    }
}

/// What a connection does after a read that gave no message.
#[derive(PartialEq, Eq, Structural, Debug, Clone, Copy)]
pub enum Step {
    /// Read again: more bytes are needed.
    Retry,
    /// Answer 400 Bad Request, then close.
    Reject,
    /// Close at once.
    Close,
}

/// The step after a read that failed with `e`: more input is waited for, a
/// message that breaks the grammar or the framing rules is answered with
/// 400, and anything else ends the connection.
pub fn step_after(e: HttpError) -> (r: Step)
    ensures
        e == HttpError::Incomplete ==> r == Step::Retry,
        e == HttpError::Protocol ==> r == Step::Reject,
        e != HttpError::Incomplete && e != HttpError::Protocol ==> r == Step::Close,
{
    match e {
        HttpError::Incomplete => Step::Retry,
        HttpError::Protocol => Step::Reject,
        _ => Step::Close,
    }
}

/// Whether `b` starts with the last chunk of a chunked body and `after` is
/// what follows it.
pub open spec fn last_chunk_before(b: Seq<u8>, after: Seq<u8>) -> bool {
    match spec_chunk_read(b) {
        Ok((ChunkView::Last(_, _), n)) => n <= b.len() && after == b.skip(n as int),
        _ => false,
    }
}

/// Reads messages one after another from a connection.
pub struct Stream;

impl Stream {
    /// Reads once from `reader` into `buffer`, then takes a message from the
    /// start of what the buffer holds. On success the message's bytes in the
    /// buffer are consumed; on failure nothing is, and a later call, after
    /// more bytes have come, starts again from the same place.
    pub fn read<S: Source>(reader: &mut S, buffer: &mut Buffer) -> (r: Result<Message, HttpError>)
        requires
            old(buffer).wf(),
        ensures
            final(buffer).wf(),
            final(buffer).capacity() == old(buffer).capacity(),
            match r {
                Ok(m) => exists|filled: Seq<u8>, n: nat|
                    #[trigger] parsed_from(filled, m, n)
                    && filled.take(old(buffer).readable().len() as int) == old(buffer).readable()
                    && n <= filled.len()
                    && final(buffer).readable() == filled.skip(n as int)
                    && (old(reader).ready() ==> final(reader).ready()
                        && filled == old(buffer).readable() + final(reader).yielded().skip(old(reader).yielded().len() as int)),
                Err(e) => final(buffer).readable().len() >= old(buffer).readable().len()
                    && final(buffer).readable().take(old(buffer).readable().len() as int) == old(buffer).readable()
                    && (old(reader).ready() ==> final(reader).ready()
                        && final(buffer).readable() == old(buffer).readable()
                            + final(reader).yielded().skip(old(reader).yielded().len() as int))
                    && (e == HttpError::Eof ==> final(buffer).readable() == old(buffer).readable()),
            },
    {
        let count = buffer.fill(reader)?;
        if buffer.read_position == buffer.write_position {
            assert(buffer.readable().take(old(buffer).readable().len() as int) =~= old(buffer).readable());
            return Err(HttpError::Eof);
        }
        let ghost filled = buffer.readable();
        match Message::read(buffer.as_read()) {
            Ok((message, consumed)) => {
                buffer.increment_read(consumed);
                assert(parsed_from(filled, message, consumed as nat));
                Ok(message)
            },
            Err(HttpError::Incomplete) => {
                if count == 0 {
                    assert(buffer.readable() =~= old(buffer).readable());
                    Err(HttpError::Eof)
                } else {
                    Err(HttpError::Incomplete)
                }
            },
            Err(e) => Err(e),
        }
    }

    /// Reads and drops what is left of a body from upstream, so that the
    /// next read starts at the next message. Returns how many bytes it took
    /// from `reader`: exactly the bytes that the body still had upstream.
    pub fn drain<S: Source>(reader: &mut S, body: &mut MessageBody) -> (r: Result<u64, HttpError>)
        ensures
            match *old(body) {
                MessageBody::Reader(b) => match r {
                    Ok(n) => n == b.upstream
                        && *final(body) == MessageBody::Reader(BodyReader { buffered: b.buffered, upstream: 0 }),
                    Err(_) => b.upstream > 0,
                },
                _ => *final(body) == *old(body) && r == Ok::<u64, HttpError>(0),
            },
            (*old(body)) is Reader && old(body)->Reader_0.upstream == 0 ==> r == Ok::<u64, HttpError>(0),
            old(reader).ready() ==> final(reader).ready()
                && final(reader).yielded().len() >= old(reader).yielded().len()
                && final(reader).yielded().take(old(reader).yielded().len() as int) == old(reader).yielded()
                && (r is Ok ==> final(reader).yielded().len() == old(reader).yielded().len() + r->Ok_0),
    {
        let total: u64 = match body {
            MessageBody::Reader(b) => b.upstream,
            _ => {
                return Ok(0);
            },
        };
        let mut left: u64 = total;
        while left > 0
            invariant
                *body == *old(body),
                (*old(body)) is Reader,
                total == old(body)->Reader_0.upstream,
                left <= total,
                old(reader).ready() ==> reader.ready()
                    && reader.yielded().len() == old(reader).yielded().len() + (total - left)
                    && reader.yielded().take(old(reader).yielded().len() as int) == old(reader).yielded(),
            decreases left,
        {
            let want: usize = if left < 4096 { left as usize } else { 4096 };
            let ghost y0 = reader.yielded();
            let got = reader.read(want)?;
            proof {
                if old(reader).ready() {
                    assert(reader.yielded().take(old(reader).yielded().len() as int)
                        =~= y0.take(old(reader).yielded().len() as int));
                }
            }
            if got.len() == 0 {
                return Err(HttpError::LengthViolation);
            }
            left = left - got.len() as u64;
        }
        match body {
            MessageBody::Reader(b) => {
                b.upstream = 0;
            },
            _ => {},
        }
        Ok(total)
    }

    /// Reads and drops the rest of a chunked body, up to `limit` chunks,
    /// through the connection's own buffer: on success the buffer holds what
    /// follows the last chunk's final CRLF.
    pub fn drain_chunked<S: Source>(reader: &mut S, buffer: &mut Buffer, limit: usize) -> (r: Result<(), HttpError>)
        requires
            old(buffer).wf(),
        ensures
            final(buffer).wf(),
            final(buffer).capacity() == old(buffer).capacity(),
            old(reader).ready() ==> final(reader).ready(),
            r is Ok ==> exists|b: Seq<u8>| #[trigger] last_chunk_before(b, final(buffer).readable()),
    {
        let mut k: usize = 0;
        while k < limit
            invariant
                buffer.wf(),
                buffer.capacity() == old(buffer).capacity(),
                old(reader).ready() ==> reader.ready(),
            decreases limit - k,
        {
            if buffer.read_position == buffer.write_position {
                let got = buffer.fill(reader)?;
                if got == 0 {
                    return Err(HttpError::LengthViolation);
                }
            }
            let ghost b = buffer.readable();
            match Chunk::read(buffer.as_read()) {
                Ok((chunk, n)) => {
                    let last = match chunk {
                        Chunk::Last(_, _) => true,
                        _ => false,
                    };
                    buffer.increment_read(n);
                    if last {
                        assert(last_chunk_before(b, buffer.readable()));
                        return Ok(());
                    }
                },
                Err(ParseError::Incomplete) => {
                    let got = buffer.fill(reader)?;
                    if got == 0 {
                        return Err(HttpError::LengthViolation);
                    }
                },
                Err(ParseError::Invalid) => {
                    return Err(HttpError::Protocol);
                },
            }
            k = k + 1;
        }
        Err(HttpError::LengthViolation)
    }

    /// The whole of a body that is read on from upstream: the bytes in hand,
    /// then exactly `upstream` more.
    pub fn read_body<S: Source>(reader: &mut S, body: &BodyReader) -> (r: Result<Vec<u8>, HttpError>)
        ensures
            match r {
                Ok(v) => v@.len() == body.buffered@.len() + body.upstream
                    && v@.take(body.buffered@.len() as int) == body.buffered@,
                Err(_) => body.upstream > 0,
            },
            body.upstream == 0 ==> r is Ok && r->Ok_0@ == body.buffered@,
            old(reader).ready() ==> final(reader).ready()
                && final(reader).yielded().len() >= old(reader).yielded().len()
                && final(reader).yielded().take(old(reader).yielded().len() as int) == old(reader).yielded()
                && (r is Ok ==> r->Ok_0@ == body.buffered@ + final(reader).yielded().skip(old(reader).yielded().len() as int)),
    {
        let mut out = body.buffered.clone();
        assert(out@ == body.buffered@);
        let mut left: u64 = body.upstream;
        while left > 0
            invariant
                out@.len() + left == body.buffered@.len() + body.upstream,
                out@.take(body.buffered@.len() as int) == body.buffered@,
                out@.len() >= body.buffered@.len(),
                left <= body.upstream,
                old(reader).ready() ==> reader.ready()
                    && reader.yielded().len() >= old(reader).yielded().len()
                    && reader.yielded().take(old(reader).yielded().len() as int) == old(reader).yielded()
                    && out@ == body.buffered@ + reader.yielded().skip(old(reader).yielded().len() as int),
            decreases left,
        {
            let want: usize = if left < 4096 { left as usize } else { 4096 };
            let ghost y0 = reader.yielded();
            let got = reader.read(want)?;
            proof {
                if old(reader).ready() {
                    let k = old(reader).yielded().len() as int;
                    assert(reader.yielded().take(k) =~= y0.take(k));
                    assert(reader.yielded().skip(k) =~= y0.skip(k) + got@);
                }
            }
            if got.len() == 0 {
                return Err(HttpError::LengthViolation);
            }
            let ghost before = out@;
            crate::ast::push_all(&mut out, got.as_slice());
            assert(out@.take(body.buffered@.len() as int) =~= before.take(body.buffered@.len() as int));
            assert(out@ =~= before + got@);
            left = left - got.len() as u64;
        }
        Ok(out)
    }
}

} // verus!
