use vstd::prelude::*;
use crate::api::HttpError;

verus! {

/// Where bytes come from: a socket, a file, or bytes in memory.
pub trait Source {
    /// The bytes that the source has handed out so far, in order.
    open spec fn yielded(&self) -> Seq<u8> {
        Seq::empty()
    }

    /// Whether the source's own state holds together, so that `yielded` is
    /// what it has handed out. A source that does not model itself is never
    /// ready, and its reads promise only their length.
    open spec fn ready(&self) -> bool {
        false
    }

    /// Reads at most `max` bytes; none means that the source has ended.
    /// What is handed out is added to `yielded`.
    fn read(&mut self, max: usize) -> (r: Result<Vec<u8>, HttpError>)
        ensures
            r is Ok ==> r->Ok_0@.len() <= max,
            old(self).ready() ==> final(self).ready() && final(self).yielded() == old(self).yielded() + match r {
                Ok(v) => v@,
                Err(_) => Seq::empty(),
            };
}

/// Forgets the count of a successful read or write.
pub fn unit(result: Result<usize, HttpError>) -> (r: Result<(), HttpError>)
    ensures
        match result {
            Ok(_) => r is Ok,
            Err(e) => r == Err::<(), HttpError>(e),
        },
{
    match result {
        Ok(_) => Ok(()),
        Err(e) => Err(e),
    }
}

/// Succeeds when a read or write moved at least one byte; moving none means
/// that the source has ended.
pub fn consume(result: Result<usize, HttpError>) -> (r: Result<(), HttpError>)
    ensures
        match result {
            Ok(n) => if n > 0 {
                r is Ok
            } else {
                r == Err::<(), HttpError>(HttpError::Eof)
            },
            Err(e) => r == Err::<(), HttpError>(e),
        },
{
    match result {
        Ok(value) => {
            if value > 0 {
                Ok(())
            } else {
                Err(HttpError::Eof)
            }
        },
        Err(e) => Err(e),
    }
}

/// A region of bytes with a read position and a write position: the bytes
/// between them have been written and not yet read. Both return to the start
/// whenever they meet.
#[derive(Debug)]
pub struct Buffer {
    pub value: Vec<u8>,
    pub read_position: usize,
    pub write_position: usize,
}

impl Buffer {
    pub open spec fn wf(&self) -> bool {
        self.read_position <= self.write_position <= self.value@.len()
    }

    pub open spec fn capacity(&self) -> nat {
        self.value@.len()
    }

    /// The bytes written and not yet read.
    pub open spec fn readable(&self) -> Seq<u8> {
        self.value@.subrange(self.read_position as int, self.write_position as int)
    }

    pub fn with_capacity(capacity: usize) -> (r: Buffer)
        ensures
            r.wf(),
            r.capacity() == capacity,
            r.read_position == 0,
            r.write_position == 0,
    {
        Buffer { value: vec![0u8; capacity], read_position: 0, write_position: 0 }
    }

    pub fn as_read(&self) -> (r: &[u8])
        requires
            self.wf(),
        ensures
            r@ == self.readable(),
    {
        let v = self.value.as_slice();
        &v[self.read_position..self.write_position]
    }

    /// How many bytes can still be written.
    pub fn writable(&self) -> (r: usize)
        requires
            self.wf(),
        ensures
            r == self.capacity() - self.write_position,
    {
        self.value.len() - self.write_position
    }

    /// Marks `value` more bytes as read; both positions return to the start
    /// once everything written has been read.
    pub fn increment_read(&mut self, value: usize)
        requires
            old(self).wf(),
            old(self).read_position + value <= old(self).write_position,
        ensures
            final(self).wf(),
            final(self).capacity() == old(self).capacity(),
            final(self).readable() == old(self).readable().skip(value as int),
            final(self).read_position == (if old(self).read_position + value == old(self).write_position {
                0
            } else {
                old(self).read_position + value
            }),
            final(self).write_position == (if old(self).read_position + value == old(self).write_position {
                0
            } else {
                old(self).write_position
            }),
    {
        self.read_position = self.read_position + value;
        if self.read_position == self.write_position {
            self.read_position = 0;
            self.write_position = 0;
        }
        assert(self.readable() =~= old(self).readable().skip(value as int));
    }

    /// Marks `value` more bytes as written.
    pub fn increment_write(&mut self, value: usize)
        requires
            old(self).wf(),
            old(self).write_position + value <= old(self).capacity(),
        ensures
            final(self).wf(),
            final(self).capacity() == old(self).capacity(),
            final(self).read_position == old(self).read_position,
            final(self).write_position == old(self).write_position + value,
            final(self).value == old(self).value,
    {
        let _cap = self.value.len();
        self.write_position = self.write_position + value;
    }

    /// Copies as much of `data` as fits after the written bytes; returns how
    /// many bytes were copied.
    pub fn write(&mut self, data: &[u8]) -> (n: usize)
        requires
            old(self).wf(),
        ensures
            final(self).wf(),
            final(self).capacity() == old(self).capacity(),
            n == if data@.len() < old(self).capacity() - old(self).write_position {
                data@.len()
            } else {
                (old(self).capacity() - old(self).write_position) as nat
            },
            final(self).read_position == old(self).read_position,
            final(self).write_position == old(self).write_position + n,
            final(self).readable() == old(self).readable() + data@.take(n as int),
    {
        let cap = self.value.len();
        let room = cap - self.write_position;
        let n = if data.len() < room { data.len() } else { room };
        let mut k: usize = 0;
        while k < n
            invariant
                old(self).wf(),
                cap == self.value@.len(),
                k <= n <= data@.len(),
                n <= old(self).capacity() - old(self).write_position,
                self.value@.len() == old(self).value@.len(),
                self.read_position == old(self).read_position,
                self.write_position == old(self).write_position,
                self.value@.subrange(0, self.write_position as int) == old(self).value@.subrange(0, self.write_position as int),
                self.value@.subrange(self.write_position as int, self.write_position + k) == data@.take(k as int),
            decreases n - k,
        {
            let ghost before = self.value@;
            self.value.set(self.write_position + k, data[k]);
            assert(self.value@.subrange(0, self.write_position as int) =~= before.subrange(0, self.write_position as int));
            assert(self.value@.subrange(self.write_position as int, self.write_position + k + 1) =~= data@.take(k + 1));
            k = k + 1;
        }
        let ghost mid = self.value@;
        self.write_position = self.write_position + n;
        assert(self.readable() =~= old(self).readable() + data@.take(n as int)) by {
            assert(old(self).readable() =~= mid.subrange(0, old(self).write_position as int).subrange(
                old(self).read_position as int, old(self).write_position as int));
        }
        n
    }

    /// Reads from `source` into the space after the written bytes; returns
    /// how many bytes came.
    pub fn fill<S: Source>(&mut self, source: &mut S) -> (r: Result<usize, HttpError>)
        requires
            old(self).wf(),
        ensures
            r is Err && old(source).ready() ==> final(source).yielded() == old(source).yielded(),
            old(source).ready() ==> final(source).ready()
                && final(source).yielded().len() >= old(source).yielded().len()
                && final(source).yielded().take(old(source).yielded().len() as int) == old(source).yielded()
                && final(self).readable() == old(self).readable() + final(source).yielded().skip(old(source).yielded().len() as int),
            final(self).wf(),
            final(self).capacity() == old(self).capacity(),
            final(self).read_position == old(self).read_position,
            match r {
                Ok(n) => n <= old(self).capacity() - old(self).write_position
                    && final(self).write_position == old(self).write_position + n
                    && final(self).readable().len() == old(self).readable().len() + n
                    && final(self).readable().take(old(self).readable().len() as int) == old(self).readable(),
                Err(_) => final(self).readable() == old(self).readable()
                    && final(self).write_position == old(self).write_position,
            },
    {
        let room = self.value.len() - self.write_position;
        let data = source.read(room)?;
        let n = self.write(data.as_slice());
        assert(n == data@.len());
        assert(data@.take(n as int) =~= data@);
        proof {
            if old(source).ready() {
                assert(source.yielded().take(old(source).yielded().len() as int) =~= old(source).yielded());
                assert(source.yielded().skip(old(source).yielded().len() as int) =~= data@);
            }
        }
        assert(self.readable().take(old(self).readable().len() as int) =~= old(self).readable());
        Ok(n)
    }

    /// Copies at most `max` of the readable bytes out, and marks them read.
    pub fn read(&mut self, max: usize) -> (r: Vec<u8>)
        requires
            old(self).wf(),
        ensures
            final(self).wf(),
            final(self).capacity() == old(self).capacity(),
            r@ == old(self).readable().take(r@.len() as int),
            r@.len() == if max < old(self).readable().len() { max as nat } else { old(self).readable().len() },
            final(self).readable() == old(self).readable().skip(r@.len() as int),
    {
        let avail = self.write_position - self.read_position;
        let n = if max < avail { max } else { avail };
        let out = crate::grammar::copy_prefix(self.as_read(), n);
        self.increment_read(n);
        out
    }
}

/// A reader with a buffer in front: reads come from the buffer, which is
/// filled from `inner` on demand. Unlike a buffered reader that empties its
/// buffer before each fill, it keeps partial input, so a message can arrive
/// in fragments.
#[derive(Debug)]
pub struct BufferedRead<S> {
    pub inner: S,
    pub buffer: Buffer,
}

impl<S: Source> BufferedRead<S> {
    pub open spec fn wf(&self) -> bool {
        self.buffer.wf()
    }

    /// The inner source holds together, and the buffer holds the last bytes
    /// that it handed out.
    pub open spec fn holds(&self) -> bool {
        &&& self.buffer.wf()
        &&& self.inner.ready()
        &&& self.inner.yielded().len() >= self.buffer.readable().len()
        &&& self.inner.yielded().skip(self.inner.yielded().len() - self.buffer.readable().len())
            == self.buffer.readable()
    }

    /// The bytes handed out by this reader: those of `inner`, less what the
    /// buffer still holds.
    pub open spec fn handed_out(&self) -> Seq<u8> {
        self.inner.yielded().take(self.inner.yielded().len() - self.buffer.readable().len())
    }

    pub fn new(inner: S) -> (r: BufferedRead<S>)
        ensures
            r.wf(),
            r.inner == inner,
            r.buffer.capacity() == 4096,
            r.buffer.read_position == 0,
            r.buffer.write_position == 0,
    {
        BufferedRead { inner, buffer: Buffer::with_capacity(4096) }
    }

    pub fn fill(&mut self) -> (r: Result<usize, HttpError>)
        requires
            old(self).wf(),
        ensures
            old(self).inner.ready() ==> final(self).inner.ready()
                && final(self).buffer.readable() == old(self).buffer.readable()
                    + final(self).inner.yielded().skip(old(self).inner.yielded().len() as int)
                && final(self).inner.yielded().take(old(self).inner.yielded().len() as int) == old(self).inner.yielded()
                && final(self).inner.yielded().len() >= old(self).inner.yielded().len(),
            old(self).holds() ==> final(self).holds() && final(self).handed_out() == old(self).handed_out(),
            final(self).wf(),
            final(self).buffer.capacity() == old(self).buffer.capacity(),
            final(self).buffer.read_position == old(self).buffer.read_position,
            final(self).buffer.write_position >= old(self).buffer.write_position,
            match r {
                Ok(n) => final(self).buffer.readable().len() == old(self).buffer.readable().len() + n
                    && final(self).buffer.readable().take(old(self).buffer.readable().len() as int)
                        == old(self).buffer.readable(),
                Err(_) => final(self).buffer.readable() == old(self).buffer.readable(),
            },
    {
        let ghost y0 = self.inner.yielded();
        let ghost r0 = self.buffer.readable();
        let r = self.buffer.fill(&mut self.inner);
        proof {
            if old(self).holds() {
                let y1 = self.inner.yielded();
                let d = y0.len() - r0.len();
                assert(y1.skip(d) =~= y0.skip(d) + y1.skip(y0.len() as int));
                assert(y1.take(d) =~= y0.take(d));
            }
        }
        r
    }

    /// Fills the buffer from `inner` where there is room, then shows what it holds.
    pub fn fill_buf(&mut self) -> (r: Result<&[u8], HttpError>)
        requires
            old(self).wf(),
        ensures
            final(self).wf(),
            final(self).buffer.capacity() == old(self).buffer.capacity(),
            final(self).buffer.read_position == old(self).buffer.read_position,
            final(self).buffer.write_position >= old(self).buffer.write_position,
            old(self).holds() ==> final(self).holds(),
            match r {
                Ok(b) => b@ == final(self).buffer.readable()
                    && b@.take(old(self).buffer.readable().len() as int) == old(self).buffer.readable(),
                Err(_) => final(self).buffer.readable() == old(self).buffer.readable(),
            },
    {
        let _ = self.fill()?;
        Ok(self.buffer.as_read())
    }

    pub fn consume(&mut self, amt: usize)
        requires
            old(self).wf(),
            amt <= old(self).buffer.readable().len(),
        ensures
            final(self).wf(),
            final(self).buffer.capacity() == old(self).buffer.capacity(),
            final(self).buffer.readable() == old(self).buffer.readable().skip(amt as int),
            final(self).inner == old(self).inner,
            old(self).holds() ==> final(self).holds(),
    {
        self.buffer.increment_read(amt);
        proof {
            if old(self).holds() {
                let y = self.inner.yielded();
                let d = y.len() - old(self).buffer.readable().len();
                assert(y.skip(d + amt) =~= old(self).buffer.readable().skip(amt as int));
            }
        }
    }
}

impl<S: Source> BufferedRead<S> {
    /// Fills the buffer from `inner`, then hands out at most `max` of the
    /// buffered bytes, the oldest first.
    pub fn read_buffered(&mut self, max: usize) -> (r: Result<Vec<u8>, HttpError>)
        requires
            old(self).wf(),
        ensures
            final(self).wf(),
            final(self).buffer.capacity() == old(self).buffer.capacity(),
            old(self).holds() ==> final(self).holds(),
            match r {
                Ok(v) => v@.len() <= max
                    && (old(self).buffer.readable().len() >= v@.len() ==> v@ == old(self).buffer.readable().take(v@.len() as int))
                    && (old(self).holds() ==> final(self).handed_out() == old(self).handed_out() + v@),
                Err(_) => final(self).buffer.readable() == old(self).buffer.readable()
                    && (old(self).holds() ==> final(self).handed_out() == old(self).handed_out()),
            },
    {
        let ghost before = self.buffer.readable();
        let _ = self.fill()?;
        let ghost filled = self.buffer.readable();
        let out = self.buffer.read(max);
        proof {
            if old(self).holds() {
                let y = self.inner.yielded();
                let d = y.len() - filled.len();
                assert(y.skip(d + out@.len()) =~= filled.skip(out@.len() as int));
                assert(y.take(d + out@.len()) =~= y.take(d) + filled.take(out@.len() as int));
            }
            if before.len() >= out@.len() {
                assert(filled.take(before.len() as int).take(out@.len() as int) =~= filled.take(out@.len() as int));
            }
        }
        Ok(out)
    }
}

impl<S: Source> Source for BufferedRead<S> {
    open spec fn yielded(&self) -> Seq<u8> {
        self.handed_out()
    }

    open spec fn ready(&self) -> bool {
        self.holds()
    }

    fn read(&mut self, max: usize) -> (r: Result<Vec<u8>, HttpError>) {
        if !(self.buffer.read_position <= self.buffer.write_position
            && self.buffer.write_position <= self.buffer.value.len()) {
            return Ok(Vec::new());
        }
        self.read_buffered(max)
    }
}

/// The bytes of `pieces`, one after another.
pub open spec fn flatten(pieces: Seq<Seq<u8>>) -> Seq<u8>
    decreases pieces.len(),
{
    if pieces.len() == 0 {
        Seq::empty()
    } else {
        flatten(pieces.drop_last()) + pieces.last()
    }
}

/// The pieces that `Fragmented::new` cuts `data` into.
pub open spec fn fragments_of(data: Seq<u8>, fragments: nat) -> Seq<Seq<u8>> {
    let k = data.len() / fragments;
    Seq::new(fragments + 1, |i: int| if i < fragments {
        data.subrange(i * k, (i + 1) * k)
    } else {
        data.subrange((fragments * k) as int, data.len() as int)
    })
}

/// Bytes in memory handed out in pieces of a fixed size, for trying what
/// happens when input arrives in fragments.
#[derive(Debug)]
pub struct Fragmented {
    data: Vec<Vec<u8>>,
    count: usize,
    offset: usize,
}

impl Fragmented {
    /// `data` cut into `fragments` pieces of `data.len() / fragments` bytes,
    /// and one more piece with what is left.
    pub fn new(data: &[u8], fragments: usize) -> (r: Fragmented)
        requires
            fragments > 0,
        ensures
            r.pieces() == fragments_of(data@, fragments as nat),
            r.pieces_read() == 0,
            r.offset() == 0,
            r.ready(),
            r.yielded() == Seq::<u8>::empty(),
    {
        let size = data.len() / fragments;
        let ghost k = data@.len() / (fragments as nat);
        let mut pieces: Vec<Vec<u8>> = Vec::new();
        let mut start: usize = 0;
        let mut i: usize = 0;
        assert(fragments * size <= data@.len()) by (nonlinear_arith)
            requires size == data@.len() / (fragments as nat), fragments > 0;
        while i < fragments
            invariant
                i <= fragments,
                size == k,
                k == data@.len() / (fragments as nat),
                fragments * size <= data@.len(),
                start == i * size,
                pieces@.map_values(|v: Vec<u8>| v@) =~= Seq::new(i as nat, |j: int| data@.subrange(j * k, (j + 1) * k)),
            decreases fragments - i,
        {
            assert(start + size <= data@.len()) by (nonlinear_arith)
                requires start == i * size, i < fragments, fragments * size <= data@.len();
            let tail = &data[start..data.len()];
            let piece = crate::grammar::copy_prefix(tail, size);
            assert(piece@ =~= data@.subrange(i * k, (i + 1) * k)) by {
                assert((i + 1) * k == i * k + k) by (nonlinear_arith);
            }
            let ghost before = pieces@.map_values(|v: Vec<u8>| v@);
            pieces.push(piece);
            assert(pieces@.map_values(|v: Vec<u8>| v@) =~= before.push(piece@));
            assert(before.push(piece@) =~= Seq::new((i + 1) as nat, |j: int| data@.subrange(j * k, (j + 1) * k)));
            start = start + size;
            i = i + 1;
            assert(start == i * size) by (nonlinear_arith)
                requires start == (i - 1) * size + size;
        }
        let tail = &data[start..data.len()];
        let last = crate::grammar::copy_prefix(tail, tail.len());
        assert(last@ =~= data@.subrange(fragments * k, data@.len() as int));
        let ghost before = pieces@.map_values(|v: Vec<u8>| v@);
        pieces.push(last);
        let r = Fragmented { data: pieces, count: 0, offset: 0 };
        assert(r.pieces() =~= before.push(last@));
        assert forall|j: int| 0 <= j < fragments + 1 implies #[trigger] r.pieces()[j] == fragments_of(data@, fragments as nat)[j] by {
            if j < fragments {
                assert(before[j] == data@.subrange(j * k, (j + 1) * k));
            }
        }
        assert(r.pieces() =~= fragments_of(data@, fragments as nat));
        assert(r.pieces().take(0) =~= Seq::<Seq<u8>>::empty());
        r
    }

    /// The pieces, in order.
    pub closed spec fn pieces(&self) -> Seq<Seq<u8>> {
        self.data@.map_values(|v: Vec<u8>| v@)
    }

    /// How many pieces have been handed out in full.
    pub closed spec fn pieces_read(&self) -> nat {
        self.count as nat
    }

    /// How much of the current piece has been handed out.
    pub closed spec fn offset(&self) -> nat {
        self.offset as nat
    }

    /// How many pieces have been handed out in full.
    pub fn count(&self) -> (r: usize)
        ensures
            r == self.pieces_read(),
    {
        self.count
    }

    fn is_ready(&self) -> (r: bool)
        ensures
            r == self.ready(),
    {
        if self.count < self.data.len() {
            self.offset <= self.data[self.count].len()
        } else {
            self.count == self.data.len() && self.offset == 0
        }
    }

    /// The rest of the current piece, at most `max` bytes of it; nothing
    /// once every piece has been handed out.
    pub fn read_piece(&mut self, max: usize) -> (r: Vec<u8>)
        requires
            old(self).ready(),
        ensures
            final(self).ready(),
            final(self).pieces() == old(self).pieces(),
            final(self).yielded() == old(self).yielded() + r@,
            old(self).pieces_read() >= old(self).pieces().len() ==> r@.len() == 0 && *final(self) == *old(self),
            old(self).pieces_read() < old(self).pieces().len() ==> ({
                let rest = old(self).pieces()[old(self).pieces_read() as int].skip(old(self).offset() as int);
                let n = if max < rest.len() { max as nat } else { rest.len() };
                &&& r@ == rest.take(n as int)
                &&& n == rest.len() ==> final(self).pieces_read() == old(self).pieces_read() + 1 && final(self).offset() == 0
                &&& n < rest.len() ==> final(self).pieces_read() == old(self).pieces_read()
                    && final(self).offset() == old(self).offset() + n
            }),
    {
        if self.count >= self.data.len() {
            return Vec::new();
        }
        let ghost p = self.pieces();
        let ghost c = self.count as int;
        let piece = &self.data[self.count];
        let rest = &piece.as_slice()[self.offset..piece.len()];
        let n = if max < rest.len() { max } else { rest.len() };
        let out = crate::grammar::copy_prefix(rest, n);
        assert(p[c] == self.data@[c]@);
        assert(rest@ =~= p[c].skip(self.offset as int));
        if n == rest.len() {
            proof {
                assert(p.take(c + 1).drop_last() =~= p.take(c));
                assert(p.take(c + 1).last() == p[c]);
            }
            self.count = self.count + 1;
            self.offset = 0;
        } else {
            self.offset = self.offset + n;
        }
        out
    }
}

impl Source for Fragmented {
    /// The pieces handed out so far in full, and the part of the current one.
    closed spec fn yielded(&self) -> Seq<u8> {
        flatten(self.pieces().take(self.count as int)) + if self.count < self.data@.len() {
            self.pieces()[self.count as int].take(self.offset as int)
        } else {
            Seq::empty()
        }
    }

    closed spec fn ready(&self) -> bool {
        &&& self.count <= self.data@.len()
        &&& self.count < self.data@.len() ==> self.offset <= self.data@[self.count as int]@.len()
        &&& self.count == self.data@.len() ==> self.offset == 0
    }

    fn read(&mut self, max: usize) -> (r: Result<Vec<u8>, HttpError>) {
        if !self.is_ready() {
            return Ok(Vec::new());
        }
        Ok(self.read_piece(max))
    }
}

} // verus!
