//! The pass-through engine: raw buffer I/O with no tracing and no limits.

use vstd::prelude::*;

verus! {

use crate::Middleware;
use crate::error::Error;

/// Raw cursor I/O on a byte region: append at the tail, consume at the cursor.
pub trait CowRw {
    /// The whole byte region.
    spec fn bytes(&self) -> Seq<u8>;

    /// How many bytes reads have consumed.
    spec fn cursor(&self) -> nat;

    /// Appends raw bytes at the tail. Always succeeds.
    fn write(&mut self, data: &[u8]) -> (r: Result<(), Error>)
        ensures
            r is Ok,
            final(self).bytes() == old(self).bytes() + data@,
            final(self).cursor() == old(self).cursor(),
    ;

    /// Takes the `nbytes` bytes at the cursor and advances it; fails with
    /// `InvalidLength` when fewer remain, leaving the cursor in place.
    fn read(&mut self, nbytes: usize) -> (r: Result<Vec<u8>, Error>)
        requires
            old(self).cursor() <= old(self).bytes().len(),
        ensures
            final(self).bytes() == old(self).bytes(),
            final(self).cursor() <= final(self).bytes().len(),
            nbytes <= old(self).bytes().len() - old(self).cursor() ==> r is Ok,
            r matches Ok(d) ==> d@ == old(self).bytes().subrange(
                old(self).cursor() as int,
                old(self).cursor() + nbytes,
            ) && final(self).cursor() == old(self).cursor() + nbytes,
            r is Err ==> final(self).cursor() == old(self).cursor() && r == Err::<Vec<u8>, Error>(
                Error::InvalidLength {
                    expected: nbytes,
                    found: (old(self).bytes().len() - old(self).cursor()) as usize,
                },
            ),
    ;
}

impl CowRw for (Vec<u8>, usize) {
    open spec fn bytes(&self) -> Seq<u8> {
        self.0@
    }

    open spec fn cursor(&self) -> nat {
        self.1 as nat
    }

    fn write(&mut self, data: &[u8]) -> (r: Result<(), Error>) {
        let mut i: usize = 0;
        while i < data.len()
            invariant
                i <= data@.len(),
                self.0@ == old(self).0@ + data@.take(i as int),
                self.1 == old(self).1,
            decreases data@.len() - i,
        {
            self.0.push(data[i]);
            i += 1;
        }
        proof {
            assert(data@.take(data@.len() as int) == data@);
        }
        Ok(())
    }

    fn read(&mut self, nbytes: usize) -> (r: Result<Vec<u8>, Error>) {
        let len = self.0.len();
        if nbytes > len - self.1 {
            return Err(Error::InvalidLength { expected: nbytes, found: len - self.1 });
        }
        let mut out: Vec<u8> = Vec::new();
        let mut i: usize = 0;
        while i < nbytes
            invariant
                i <= nbytes,
                self.0@ == old(self).0@,
                self.1 == old(self).1,
                self.1 + nbytes <= self.0@.len(),
                self.0@.len() <= usize::MAX,
                out@ == self.0@.subrange(self.1 as int, self.1 + i as int),
            decreases nbytes - i,
        {
            out.push(self.0[self.1 + i]);
            proof {
                assert(out@ =~= self.0@.subrange(self.1 as int, self.1 + (i + 1) as int));
            }
            i += 1;
        }
        self.1 = self.1 + nbytes;
        Ok(out)
    }
}

/// The pass-through engine: a growable byte buffer with a read cursor. It
/// applies no nesting limit and records no path; every conversion it carries
/// goes straight to the buffer.
pub struct Next {
    buf: (Vec<u8>, usize),
}

impl Next {
    /// An engine whose buffer starts as a copy of the given bytes, cursor at
    /// the start: the decode side of a session.
    pub fn from_bytes(data: &[u8]) -> (r: Next)
        ensures
            r.buf() == data@,
            r.pos() == 0,
    {
        let mut next = Next { buf: (Vec::new(), 0) };
        let _ = next.buf.write(data);
        next
    }

    /// An engine with an empty buffer: the encode side of a session. The
    /// given transfer unit size only pre-allocates.
    pub fn with_mtu(mtu: usize) -> (r: Next)
        ensures
            r.buf() == Seq::<u8>::empty(),
            r.pos() == 0,
    {
        let next = Next { buf: (Vec::with_capacity(mtu), 0) };
        proof {
            assert(next.buf.0@ =~= Seq::<u8>::empty());
        }
        next
    }

    /// A copy of everything written so far.
    pub fn serialized(&self) -> (r: Vec<u8>)
        ensures
            r@ == self.buf(),
    {
        let mut out: Vec<u8> = Vec::new();
        let mut i: usize = 0;
        while i < self.buf.0.len()
            invariant
                i <= self.buf.0@.len(),
                out@ == self.buf.0@.take(i as int),
            decreases self.buf.0@.len() - i,
        {
            out.push(self.buf.0[i]);
            i += 1;
        }
        proof {
            assert(self.buf.0@.take(self.buf.0@.len() as int) == self.buf.0@);
        }
        out
    }

    /// The buffer as a borrowed slice.
    pub fn as_slice(&self) -> (r: &[u8])
        ensures
            r@ == self.buf(),
    {
        self.buf.0.as_slice()
    }
}

/// A pass-through engine's buffer always fits addressable memory, so any
/// wire form found in it does too.
pub proof fn lemma_next_buf_bounded(n: Next)
    ensures
        n.buf().len() <= usize::MAX,
{
    assert(n.buf.0.len() == n.buf.0@.len());
}

impl Default for Next {
    /// An engine with an empty buffer.
    fn default() -> (r: Next)
        ensures
            r.buf() == Seq::<u8>::empty(),
            r.pos() == 0,
    {
        Next::with_mtu(0)
    }
}

impl Middleware for Next {
    closed spec fn buf(&self) -> Seq<u8> {
        self.buf.0@
    }

    closed spec fn pos(&self) -> nat {
        self.buf.1 as nat
    }

    closed spec fn trace(&self) -> Seq<Seq<char>> {
        Seq::empty()
    }

    closed spec fn depth(&self) -> nat {
        0
    }

    open spec fn limitless() -> bool {
        true
    }

    fn write(&mut self, data: &[u8]) -> (r: Result<(), Error>) {
        self.buf.write(data)
    }

    fn read(&mut self, nbytes: usize) -> (r: Result<Vec<u8>, Error>) {
        self.buf.read(nbytes)
    }

    fn enter(&mut self, name: &'static str) -> (r: Result<(), Error>) {
        let _ = name;
        Ok(())
    }

    fn leave(&mut self) {
    }

    fn wrap_into(&self, e: Error) -> (r: Error) {
        e
    }

    fn wrap_from(&self, e: Error) -> (r: Error) {
        e
    }
}

} // verus!
