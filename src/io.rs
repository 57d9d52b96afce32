//! Byte sinks and sources with a fixed error type, usable without `std`.
use vstd::prelude::*;

pub use embedded_io::ErrorKind;

verus! {

#[verifier::external_type_specification]
pub struct ExErrorKind(embedded_io::ErrorKind);

#[verifier::external_type_specification]
pub struct ExStdErrorKind(std::io::ErrorKind);

/// The kind of this crate that stands for a kind of `std::io`: the kinds
/// both have keep their name, all others become `Other`.
pub open spec fn kind_of_std(kind: std::io::ErrorKind) -> ErrorKind {
    match kind {
        std::io::ErrorKind::NotFound => ErrorKind::NotFound,
        std::io::ErrorKind::PermissionDenied => ErrorKind::PermissionDenied,
        std::io::ErrorKind::ConnectionRefused => ErrorKind::ConnectionRefused,
        std::io::ErrorKind::ConnectionReset => ErrorKind::ConnectionReset,
        std::io::ErrorKind::ConnectionAborted => ErrorKind::ConnectionAborted,
        std::io::ErrorKind::NotConnected => ErrorKind::NotConnected,
        std::io::ErrorKind::AddrInUse => ErrorKind::AddrInUse,
        std::io::ErrorKind::AddrNotAvailable => ErrorKind::AddrNotAvailable,
        std::io::ErrorKind::BrokenPipe => ErrorKind::BrokenPipe,
        std::io::ErrorKind::AlreadyExists => ErrorKind::AlreadyExists,
        std::io::ErrorKind::InvalidInput => ErrorKind::InvalidInput,
        std::io::ErrorKind::InvalidData => ErrorKind::InvalidData,
        std::io::ErrorKind::TimedOut => ErrorKind::TimedOut,
        std::io::ErrorKind::Interrupted => ErrorKind::Interrupted,
        std::io::ErrorKind::WriteZero => ErrorKind::WriteZero,
        std::io::ErrorKind::OutOfMemory => ErrorKind::OutOfMemory,
        _ => ErrorKind::Other,
    }
}

/// The kind of `std::io` that stands for a kind of this crate: the kinds
/// both have keep their name, all others become `Other`.
pub open spec fn std_kind_of(kind: ErrorKind) -> std::io::ErrorKind {
    match kind {
        ErrorKind::NotFound => std::io::ErrorKind::NotFound,
        ErrorKind::PermissionDenied => std::io::ErrorKind::PermissionDenied,
        ErrorKind::ConnectionRefused => std::io::ErrorKind::ConnectionRefused,
        ErrorKind::ConnectionReset => std::io::ErrorKind::ConnectionReset,
        ErrorKind::ConnectionAborted => std::io::ErrorKind::ConnectionAborted,
        ErrorKind::NotConnected => std::io::ErrorKind::NotConnected,
        ErrorKind::AddrInUse => std::io::ErrorKind::AddrInUse,
        ErrorKind::AddrNotAvailable => std::io::ErrorKind::AddrNotAvailable,
        ErrorKind::BrokenPipe => std::io::ErrorKind::BrokenPipe,
        ErrorKind::AlreadyExists => std::io::ErrorKind::AlreadyExists,
        ErrorKind::InvalidInput => std::io::ErrorKind::InvalidInput,
        ErrorKind::InvalidData => std::io::ErrorKind::InvalidData,
        ErrorKind::TimedOut => std::io::ErrorKind::TimedOut,
        ErrorKind::Interrupted => std::io::ErrorKind::Interrupted,
        ErrorKind::WriteZero => std::io::ErrorKind::WriteZero,
        ErrorKind::OutOfMemory => std::io::ErrorKind::OutOfMemory,
        _ => std::io::ErrorKind::Other,
    }
}

/// Converts a kind of `std::io` to the kind of this crate that stands for it.
pub fn kind_from_std(kind: std::io::ErrorKind) -> (r: ErrorKind)
    ensures
        r == kind_of_std(kind),
{
    match kind {
        std::io::ErrorKind::NotFound => ErrorKind::NotFound,
        std::io::ErrorKind::PermissionDenied => ErrorKind::PermissionDenied,
        std::io::ErrorKind::ConnectionRefused => ErrorKind::ConnectionRefused,
        std::io::ErrorKind::ConnectionReset => ErrorKind::ConnectionReset,
        std::io::ErrorKind::ConnectionAborted => ErrorKind::ConnectionAborted,
        std::io::ErrorKind::NotConnected => ErrorKind::NotConnected,
        std::io::ErrorKind::AddrInUse => ErrorKind::AddrInUse,
        std::io::ErrorKind::AddrNotAvailable => ErrorKind::AddrNotAvailable,
        std::io::ErrorKind::BrokenPipe => ErrorKind::BrokenPipe,
        std::io::ErrorKind::AlreadyExists => ErrorKind::AlreadyExists,
        std::io::ErrorKind::InvalidInput => ErrorKind::InvalidInput,
        std::io::ErrorKind::InvalidData => ErrorKind::InvalidData,
        std::io::ErrorKind::TimedOut => ErrorKind::TimedOut,
        std::io::ErrorKind::Interrupted => ErrorKind::Interrupted,
        std::io::ErrorKind::WriteZero => ErrorKind::WriteZero,
        std::io::ErrorKind::OutOfMemory => ErrorKind::OutOfMemory,
        _ => ErrorKind::Other,
    }
}

/// Converts a kind of this crate to the kind of `std::io` that stands for it.
pub fn kind_to_std(kind: ErrorKind) -> (r: std::io::ErrorKind)
    ensures
        r == std_kind_of(kind),
{
    match kind {
        ErrorKind::NotFound => std::io::ErrorKind::NotFound,
        ErrorKind::PermissionDenied => std::io::ErrorKind::PermissionDenied,
        ErrorKind::ConnectionRefused => std::io::ErrorKind::ConnectionRefused,
        ErrorKind::ConnectionReset => std::io::ErrorKind::ConnectionReset,
        ErrorKind::ConnectionAborted => std::io::ErrorKind::ConnectionAborted,
        ErrorKind::NotConnected => std::io::ErrorKind::NotConnected,
        ErrorKind::AddrInUse => std::io::ErrorKind::AddrInUse,
        ErrorKind::AddrNotAvailable => std::io::ErrorKind::AddrNotAvailable,
        ErrorKind::BrokenPipe => std::io::ErrorKind::BrokenPipe,
        ErrorKind::AlreadyExists => std::io::ErrorKind::AlreadyExists,
        ErrorKind::InvalidInput => std::io::ErrorKind::InvalidInput,
        ErrorKind::InvalidData => std::io::ErrorKind::InvalidData,
        ErrorKind::TimedOut => std::io::ErrorKind::TimedOut,
        ErrorKind::Interrupted => std::io::ErrorKind::Interrupted,
        ErrorKind::WriteZero => std::io::ErrorKind::WriteZero,
        ErrorKind::OutOfMemory => std::io::ErrorKind::OutOfMemory,
        _ => std::io::ErrorKind::Other,
    }
}

/// I/O error: carries the kind of failure.
#[derive(Debug)]
pub struct IoError {
    kind: ErrorKind,
}

impl IoError {
    /// The kind this error was made with.
    pub closed spec fn spec_kind(&self) -> ErrorKind {
        self.kind
    }

    /// Creates an error of the given kind.
    pub fn new(kind: ErrorKind) -> (r: Self)
        ensures
            r.spec_kind() == kind,
    {
        IoError { kind }
    }

    /// Returns the error kind.
    pub fn kind(&self) -> (r: ErrorKind)
        ensures
            r == self.spec_kind(),
    {
        self.kind
    }
}

impl From<ErrorKind> for IoError {
    fn from(kind: ErrorKind) -> (r: Self) {
        IoError::new(kind)
    }
}

impl vstd::std_specs::convert::FromSpecImpl<ErrorKind> for IoError {
    open spec fn obeys_from_spec() -> bool {
        true
    }

    closed spec fn from_spec(kind: ErrorKind) -> Self {
        IoError { kind }
    }
}

/// Result of an I/O operation.
pub type Result<T> = core::result::Result<T, IoError>;

/// A byte sink.
pub trait Write {
    /// `sink_bytes` describes the sink: the sink's writes append to it.
    /// Sinks that do not describe their contents leave this false.
    open spec fn tracks_bytes(&self) -> bool {
        false
    }

    /// Every byte the sink has taken so far, in order, where it tracks them.
    open spec fn sink_bytes(&self) -> Seq<u8> {
        Seq::empty()
    }

    /// The sink takes every byte it is given and never fails.
    open spec fn accepts_all(&self) -> bool {
        false
    }

    /// Writes a prefix of `buf`, returning how many bytes it took.
    fn write(&mut self, buf: &[u8]) -> (r: Result<usize>)
        ensures
            r matches Ok(n) ==> n <= buf@.len(),
            r matches Ok(n) ==> ((*old(self)).tracks_bytes() ==> (*final(self)).tracks_bytes()
                && (*final(self)).sink_bytes() == (*old(self)).sink_bytes() + buf@.take(n as int)),
            (*old(self)).accepts_all() ==> (r matches Ok(n) && n == buf@.len() && (*final(self)).accepts_all());

    /// Writes all of `buf`; a write that takes no bytes fails with `WriteZero`.
    fn write_all(&mut self, buf: &[u8]) -> (r: Result<()>)
        ensures
            r is Ok ==> ((*old(self)).tracks_bytes() ==> (*final(self)).tracks_bytes()
                && (*final(self)).sink_bytes() == (*old(self)).sink_bytes() + buf@),
            (*old(self)).accepts_all() ==> r is Ok && (*final(self)).accepts_all(),
    {
        let mut rest = buf;
        let ghost start = self.sink_bytes();
        let ghost accepts = self.accepts_all();
        assert(buf@.skip(0) =~= buf@);
        while rest.len() > 0
            invariant
                rest@ == buf@.skip(buf@.len() - rest@.len()),
                rest@.len() <= buf@.len(),
                old(self).tracks_bytes() ==> self.tracks_bytes()
                    && self.sink_bytes() == start + buf@.take(buf@.len() - rest@.len()),
                accepts ==> self.accepts_all(),
                accepts == (*old(self)).accepts_all(),
                start == (*old(self)).sink_bytes(),
            decreases rest@.len(),
        {
            let ghost done = (buf@.len() - rest@.len()) as int;
            match self.write(rest) {
                Ok(0) => {
                    return Err(IoError::new(ErrorKind::WriteZero));
                },
                Ok(n) => {
                    proof {
                        assert(buf@.take(done) + rest@.take(n as int) =~= buf@.take(done + n));
                        assert(rest@.subrange(n as int, rest@.len() as int) =~= buf@.skip(done + n));
                    }
                    rest = &rest[n..rest.len()];
                },
                Err(e) => {
                    return Err(e);
                },
            }
        }
        assert(buf@.take(buf@.len() as int) =~= buf@);
        Ok(())
    }

    /// Flushes buffered output.
    fn flush(&mut self) -> (r: Result<()>)
        ensures
            r is Ok ==> ((*old(self)).tracks_bytes() ==> (*final(self)).tracks_bytes()
                && (*final(self)).sink_bytes() == (*old(self)).sink_bytes()),
            (*old(self)).accepts_all() ==> r is Ok && (*final(self)).accepts_all();
}

impl Write for Vec<u8> {
    open spec fn tracks_bytes(&self) -> bool {
        true
    }

    open spec fn sink_bytes(&self) -> Seq<u8> {
        self@
    }

    open spec fn accepts_all(&self) -> bool {
        true
    }

    fn write(&mut self, buf: &[u8]) -> (r: Result<usize>)
        ensures
            r matches Ok(n) && n == buf@.len(),
            final(self)@ == old(self)@ + buf@,
    {
        self.write_all(buf)?;
        assert(buf@.take(buf@.len() as int) =~= buf@);
        Ok(buf.len())
    }

    fn write_all(&mut self, buf: &[u8]) -> (r: Result<()>)
        ensures
            r is Ok,
            final(self)@ == old(self)@ + buf@,
    {
        let mut i: usize = 0;
        while i < buf.len()
            invariant
                i <= buf@.len(),
                self@ == old(self)@ + buf@.take(i as int),
            decreases buf@.len() - i,
        {
            self.push(buf[i]);
            i = i + 1;
            assert(buf@.take(i as int) =~= buf@.take(i as int - 1).push(buf@[i as int - 1]));
        }
        assert(buf@.take(i as int) =~= buf@);
        Ok(())
    }

    fn flush(&mut self) -> (r: Result<()>)
        ensures
            r is Ok,
            final(self)@ == old(self)@,
    {
        Ok(())
    }
}

impl Write for &mut Vec<u8> {
    open spec fn tracks_bytes(&self) -> bool {
        true
    }

    open spec fn sink_bytes(&self) -> Seq<u8> {
        (**self)@
    }

    open spec fn accepts_all(&self) -> bool {
        true
    }

    fn write(&mut self, buf: &[u8]) -> (r: Result<usize>) {
        (**self).write(buf)
    }

    fn write_all(&mut self, buf: &[u8]) -> (r: Result<()>) {
        (**self).write_all(buf)
    }

    fn flush(&mut self) -> (r: Result<()>) {
        Ok(())
    }
}

impl Write for &mut [u8] {
    /// Fills the front of the slice with a prefix of `buf` and keeps the rest
    /// of the slice for later writes.
    fn write(&mut self, buf: &[u8]) -> (r: Result<usize>)
        ensures
            r matches Ok(n) && n == if buf@.len() < old(self)@.len() { buf@.len() } else { old(self)@.len() },
            final(self)@ == old(self)@.skip(
                if buf@.len() < old(self)@.len() { buf@.len() as int } else { old(self)@.len() as int },
            ),
    {
        let amt = if buf.len() < self.len() { buf.len() } else { self.len() };
        let mut whole: &mut [u8] = &mut [];
        std::mem::swap(self, &mut whole);
        let (front, back) = whole.split_at_mut(amt);
        let mut i: usize = 0;
        while i < amt
            invariant
                i <= amt <= buf@.len(),
                front@.len() == amt,
            decreases amt - i,
        {
            front[i] = buf[i];
            i = i + 1;
        }
        *self = back;
        Ok(amt)
    }

    fn flush(&mut self) -> (r: Result<()>)
        ensures
            r is Ok,
            final(self)@ == old(self)@,
    {
        Ok(())
    }
}

/// A byte source.
pub trait Read {
    /// Reads into a prefix of `buf`, returning how many bytes it filled.
    fn read(&mut self, buf: &mut [u8]) -> (r: Result<usize>)
        ensures
            final(buf)@.len() == old(buf)@.len(),
            r matches Ok(n) ==> n <= old(buf)@.len();

    /// Fills all of `buf`; a read that yields no bytes before it is full
    /// fails with `Other`.
    fn read_exact(&mut self, buf: &mut [u8]) -> (r: Result<()>) {
        let len = buf.len();
        let mut pos: usize = 0;
        while pos < len
            invariant
                pos <= len,
                buf@.len() == len,
            decreases len - pos,
        {
            let want = len - pos;
            let mut chunk: Vec<u8> = vec![0u8; want];
            match self.read(chunk.as_mut_slice()) {
                Ok(0) => {
                    return Err(IoError::new(ErrorKind::Other));
                },
                Ok(n) => {
                    let mut i: usize = 0;
                    while i < n
                        invariant
                            i <= n <= chunk@.len(),
                            pos + chunk@.len() == len,
                            buf@.len() == len,
                        decreases n - i,
                    {
                        buf[pos + i] = chunk[i];
                        i = i + 1;
                    }
                    pos = pos + n;
                },
                Err(e) => {
                    return Err(e);
                },
            }
        }
        Ok(())
    }
}

/// A byte source with an internal buffer.
pub trait BufRead: Read {
    /// Returns buffered data, reading more if needed.
    fn fill_buf(&mut self) -> Result<&[u8]>;

    /// Marks bytes as consumed.
    fn consume(&mut self, amt: usize);
}

/// Sources that can be wrapped in a `BufReader`.
pub trait ReadBuf: Read {}

impl<T: Read> ReadBuf for T {}

impl Read for &[u8] {
    fn read(&mut self, buf: &mut [u8]) -> (r: Result<usize>)
        ensures
            final(buf)@.len() == old(buf)@.len(),
            r matches Ok(n) && n == if old(buf)@.len() < old(self)@.len() { old(buf)@.len() } else {
                old(self)@.len()
            } && final(buf)@.take(n as int) == old(self)@.take(n as int)
                && final(self)@ == old(self)@.skip(n as int),
    {
        let amt = if buf.len() < self.len() { buf.len() } else { self.len() };
        let (a, b) = self.split_at(amt);
        let mut i: usize = 0;
        while i < amt
            invariant
                i <= amt <= buf@.len(),
                buf@.len() == old(buf)@.len(),
                a@ == old(self)@.take(amt as int),
                a@.len() == amt,
                buf@.take(i as int) == a@.take(i as int),
            decreases amt - i,
        {
            buf[i] = a[i];
            i = i + 1;
            assert(buf@.take(i as int) =~= a@.take(i as int));
        }
        assert(a@.take(amt as int) =~= a@);
        *self = b;
        Ok(amt)
    }
}

impl BufRead for &[u8] {
    fn fill_buf(&mut self) -> (r: Result<&[u8]>)
        ensures
            r matches Ok(s) && s@ == old(self)@,
            final(self)@ == old(self)@,
    {
        Ok(*self)
    }

    fn consume(&mut self, amt: usize)
        ensures
            final(self)@ == if amt <= old(self)@.len() { old(self)@.skip(amt as int) } else {
                Seq::<u8>::empty()
            },
    {
        let amt = if amt <= self.len() { amt } else { self.len() };
        *self = &self[amt..self.len()];
        proof {
            if amt == old(self)@.len() {
                assert(old(self)@.skip(amt as int) =~= Seq::<u8>::empty());
            }
        }
    }
}

/// The buffer of a `BufReader`: the bytes read from the source and not yet
/// consumed stand at `pos..cap` of `buf`.
struct Buffer {
    buf: Vec<u8>,
    pos: usize,
    cap: usize,
}

impl Buffer {
    #[verifier::type_invariant]
    closed spec fn inv(&self) -> bool {
        self.pos <= self.cap <= self.buf@.len()
    }

    closed spec fn size(&self) -> nat {
        self.buf@.len()
    }

    closed spec fn pending(&self) -> Seq<u8> {
        self.buf@.subrange(self.pos as int, self.cap as int)
    }

    fn with_capacity(capacity: usize) -> (r: Buffer)
        ensures
            r.size() == capacity,
            r.pending().len() == 0,
    {
        Buffer { buf: vec![0u8; capacity], pos: 0, cap: 0 }
    }

    fn len(&self) -> (r: usize)
        ensures
            r == self.size(),
    {
        self.buf.len()
    }

    fn is_empty(&self) -> (r: bool)
        ensures
            r == (self.pending().len() == 0),
            self.pending().len() <= self.size(),
    {
        proof {
            use_type_invariant(self);
        }
        self.pos >= self.cap
    }

    /// Replaces the pending bytes with one read from `inner`.
    fn refill<R: Read>(&mut self, inner: &mut R) -> (r: Result<()>)
        ensures
            final(self).size() == old(self).size(),
            final(self).pending().len() <= final(self).size(),
            r is Err ==> final(self).pending().len() == 0,
    {
        proof {
            use_type_invariant(&*self);
        }
        let mut taken = Buffer { buf: Vec::new(), pos: 0, cap: 0 };
        std::mem::swap(self, &mut taken);
        let mut data = taken.buf;
        let res = inner.read(data.as_mut_slice());
        let n = match res {
            Ok(n) => n,
            Err(_) => 0,
        };
        *self = Buffer { buf: data, pos: 0, cap: n };
        match res {
            Ok(_) => Ok(()),
            Err(e) => Err(e),
        }
    }

    fn pending_slice(&self) -> (r: &[u8])
        ensures
            r@ == self.pending(),
    {
        proof {
            use_type_invariant(self);
        }
        &self.buf.as_slice()[self.pos..self.cap]
    }

    /// Moves up to `buf.len()` pending bytes into `buf`.
    fn take_into(&mut self, buf: &mut [u8]) -> (r: usize)
        ensures
            final(buf)@.len() == old(buf)@.len(),
            r == if old(buf)@.len() < old(self).pending().len() { old(buf)@.len() } else {
                old(self).pending().len()
            },
            final(buf)@.take(r as int) == old(self).pending().take(r as int),
            final(self).pending() == old(self).pending().skip(r as int),
            final(self).size() == old(self).size(),
    {
        proof {
            use_type_invariant(&*self);
        }
        let avail = self.cap - self.pos;
        let amt = if buf.len() < avail { buf.len() } else { avail };
        let mut i: usize = 0;
        while i < amt
            invariant
                i <= amt <= buf@.len(),
                amt <= avail,
                avail == self.cap - self.pos,
                self.pos + avail <= self.buf@.len(),
                buf@.len() == old(buf)@.len(),
                buf@.take(i as int) == self.buf@.subrange(self.pos as int, self.pos + i),
            decreases amt - i,
        {
            buf[i] = self.buf[self.pos + i];
            i = i + 1;
            assert(buf@.take(i as int) =~= self.buf@.subrange(self.pos as int, self.pos + i));
        }
        let ghost before = self.pending();
        assert(before.take(amt as int) =~= self.buf@.subrange(self.pos as int, self.pos + amt));
        self.pos = self.pos + amt;
        assert(self.pending() =~= before.skip(amt as int));
        amt
    }

    /// Drops up to `amt` pending bytes.
    fn consume(&mut self, amt: usize)
        ensures
            final(self).pending() == if amt <= old(self).pending().len() {
                old(self).pending().skip(amt as int)
            } else {
                Seq::<u8>::empty()
            },
            final(self).size() == old(self).size(),
    {
        proof {
            use_type_invariant(&*self);
        }
        let avail = self.cap - self.pos;
        let ghost before = self.pending();
        if amt <= avail {
            self.pos = self.pos + amt;
            assert(self.pending() =~= before.skip(amt as int));
        } else {
            self.pos = self.cap;
            assert(self.pending() =~= Seq::<u8>::empty());
        }
    }
}

/// A buffered reader.
pub struct BufReader<R> {
    inner: R,
    buffer: Buffer,
}

/// Default buffer capacity.
pub const DEFAULT_BUF_SIZE: usize = 8192;

impl<R> BufReader<R> {
    /// The underlying reader.
    pub closed spec fn spec_inner(&self) -> R {
        self.inner
    }

    /// The size of the internal buffer.
    pub closed spec fn spec_capacity(&self) -> nat {
        self.buffer.size()
    }

    /// The buffered bytes not yet consumed.
    pub closed spec fn spec_buffered(&self) -> Seq<u8> {
        self.buffer.pending()
    }

    /// Creates a new buffered reader with default buffer capacity.
    pub fn new(inner: R) -> (r: Self)
        ensures
            r.spec_inner() == inner,
            r.spec_capacity() == DEFAULT_BUF_SIZE,
            r.spec_buffered().len() == 0,
    {
        Self::with_capacity(DEFAULT_BUF_SIZE, inner)
    }

    /// Creates a new buffered reader with the specified buffer capacity.
    pub fn with_capacity(capacity: usize, inner: R) -> (r: Self)
        ensures
            r.spec_inner() == inner,
            r.spec_capacity() == capacity,
            r.spec_buffered().len() == 0,
    {
        BufReader { inner, buffer: Buffer::with_capacity(capacity) }
    }

    /// Gets a reference to the underlying reader.
    pub fn get_ref(&self) -> (r: &R)
        ensures
            *r == self.spec_inner(),
    {
        &self.inner
    }

    /// Gets a mutable reference to the underlying reader.
    pub fn get_mut(&mut self) -> (r: &mut R)
        ensures
            *r == old(self).spec_inner(),
            final(self).spec_inner() == *final(r),
            final(self).spec_buffered() == old(self).spec_buffered(),
    {
        &mut self.inner
    }

    /// Unwraps this `BufReader`, returning the underlying reader.
    pub fn into_inner(self) -> (r: R)
        ensures
            r == self.spec_inner(),
    {
        self.inner
    }
}

impl<R: Read> Read for BufReader<R> {
    fn read(&mut self, buf: &mut [u8]) -> (r: Result<usize>)
        ensures
            final(buf)@.len() == old(buf)@.len(),
            r matches Ok(n) ==> n <= old(buf)@.len(),
            final(self).spec_capacity() == old(self).spec_capacity(),
            old(self).spec_buffered().len() > 0 ==> {
                let n = if old(buf)@.len() < old(self).spec_buffered().len() {
                    old(buf)@.len()
                } else {
                    old(self).spec_buffered().len()
                };
                &&& r matches Ok(k) && k == n
                &&& final(buf)@.take(n as int) == old(self).spec_buffered().take(n as int)
                &&& final(self).spec_buffered() == old(self).spec_buffered().skip(n as int)
                &&& final(self).spec_inner() == old(self).spec_inner()
            },
    {
        if self.buffer.is_empty() {
            if buf.len() >= self.buffer.len() {
                return self.inner.read(buf);
            }
            self.buffer.refill(&mut self.inner)?;
        }
        Ok(self.buffer.take_into(buf))
    }
}

impl<R: Read> BufRead for BufReader<R> {
    fn fill_buf(&mut self) -> (r: Result<&[u8]>)
        ensures
            r matches Ok(s) ==> s@ == final(self).spec_buffered(),
            final(self).spec_capacity() == old(self).spec_capacity(),
            final(self).spec_buffered().len() <= final(self).spec_capacity(),
            old(self).spec_buffered().len() > 0 ==> {
                &&& r is Ok
                &&& final(self).spec_buffered() == old(self).spec_buffered()
                &&& final(self).spec_inner() == old(self).spec_inner()
            },
            r is Err ==> final(self).spec_buffered().len() == 0,
    {
        if self.buffer.is_empty() {
            self.buffer.refill(&mut self.inner)?;
        }
        Ok(self.buffer.pending_slice())
    }

    fn consume(&mut self, amt: usize)
        ensures
            final(self).spec_buffered() == if amt <= old(self).spec_buffered().len() {
                old(self).spec_buffered().skip(amt as int)
            } else {
                Seq::<u8>::empty()
            },
            final(self).spec_capacity() == old(self).spec_capacity(),
            final(self).spec_inner() == old(self).spec_inner(),
    {
        self.buffer.consume(amt)
    }
}

} // verus!
