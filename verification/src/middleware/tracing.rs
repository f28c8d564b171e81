//! The tracing engine: a decorator state over the same buffer I/O that limits
//! recursion depth and records the path of type names for diagnostics.

use vstd::prelude::*;

verus! {

use crate::Middleware;
use crate::error::Error;
use crate::join_path;
use crate::middleware::next::CowRw;

/// The nesting depth the tracing engine allows by default.
pub const MAX_NESTED_DEPTH: usize = 255;

/// The tracing engine: buffer I/O as in [`crate::middleware::next::Next`],
/// plus a recursion-depth limit and an ordered path of the type names
/// currently being converted. The path annotates errors and the limit is the
/// defense against unbounded recursion through cyclic type definitions.
pub struct NextTrace {
    buf: (Vec<u8>, usize),
    depth: usize,
    path: Vec<&'static str>,
}

/// Joining a path extended by one more name appends a separator and the name.
proof fn lemma_join_push(path: Seq<Seq<char>>, sep: Seq<char>, x: Seq<char>)
    ensures
        join_path(path.push(x), sep) == if path.len() == 0 {
            x
        } else {
            join_path(path, sep) + sep + x
        },
    decreases path.len(),
{
    if path.len() == 0 {
        assert(path.push(x) =~= seq![x]);
    } else if path.len() == 1 {
        assert(path.push(x).drop_first() =~= seq![x]);
        assert(join_path(seq![x], sep) == x);
        assert(path.push(x)[0] == path[0]);
        assert(join_path(path.push(x), sep) == path[0] + sep + x);
        assert(join_path(path, sep) == path[0]);
    } else {
        lemma_join_push(path.drop_first(), sep, x);
        assert(path.push(x).drop_first() =~= path.drop_first().push(x));
        assert(path.push(x)[0] == path[0]);
        assert(join_path(path.push(x), sep) == path[0] + sep + join_path(
            path.drop_first().push(x),
            sep,
        ));
        assert(join_path(path.drop_first().push(x), sep) == join_path(path.drop_first(), sep) + sep
            + x);
        assert(join_path(path, sep) == path[0] + sep + join_path(path.drop_first(), sep));
        assert((path[0] + sep + (join_path(path.drop_first(), sep) + sep + x)) =~= ((path[0] + sep
            + join_path(path.drop_first(), sep)) + sep + x));
    }
}

impl NextTrace {
    /// An engine whose buffer starts as a copy of the given bytes, with the
    /// default nesting limit.
    pub fn from_bytes(data: &[u8]) -> (r: NextTrace)
        ensures
            r.buf() == data@,
            r.pos() == 0,
            r.trace() == Seq::<Seq<char>>::empty(),
            r.depth() == MAX_NESTED_DEPTH,
    {
        let mut next = NextTrace { buf: (Vec::new(), 0), depth: MAX_NESTED_DEPTH, path: Vec::new() };
        let _ = next.buf.write(data);
        proof {
            assert(next.path@.map_values(|s: &'static str| s@) =~= Seq::<Seq<char>>::empty());
        }
        next
    }

    /// An engine with an empty buffer and the default nesting limit. The
    /// given transfer unit size only pre-allocates.
    pub fn with_mtu(mtu: usize) -> (r: NextTrace)
        ensures
            r.buf() == Seq::<u8>::empty(),
            r.pos() == 0,
            r.trace() == Seq::<Seq<char>>::empty(),
            r.depth() == MAX_NESTED_DEPTH,
    {
        let next = NextTrace { buf: (Vec::with_capacity(mtu), 0), depth: MAX_NESTED_DEPTH, path: Vec::new() };
        proof {
            assert(next.buf.0@ =~= Seq::<u8>::empty());
            assert(next.path@.map_values(|s: &'static str| s@) =~= Seq::<Seq<char>>::empty());
        }
        next
    }

    /// An engine with an empty buffer and the given nesting limit.
    pub fn with_depth(depth: usize) -> (r: NextTrace)
        ensures
            r.buf() == Seq::<u8>::empty(),
            r.pos() == 0,
            r.trace() == Seq::<Seq<char>>::empty(),
            r.depth() == depth,
    {
        let next = NextTrace { buf: (Vec::new(), 0), depth, path: Vec::new() };
        proof {
            assert(next.buf.0@ =~= Seq::<u8>::empty());
            assert(next.path@.map_values(|s: &'static str| s@) =~= Seq::<Seq<char>>::empty());
        }
        next
    }

    /// A copy of everything written so far.
    pub fn serialized(&self) -> (r: Vec<u8>)
        ensures
            r@ == self.buf(),
    {
        let mut out: Vec<u8> = Vec::new();
        let mut i: usize = 0;
        while i < self.buf.0.len()
            invariant
                i <= self.buf.0@.len(),
                out@ == self.buf.0@.take(i as int),
            decreases self.buf.0@.len() - i,
        {
            out.push(self.buf.0[i]);
            i += 1;
        }
        proof {
            assert(self.buf.0@.take(self.buf.0@.len() as int) == self.buf.0@);
        }
        out
    }

    /// The buffer as a borrowed slice.
    pub fn as_slice(&self) -> (r: &[u8])
        ensures
            r@ == self.buf(),
    {
        self.buf.0.as_slice()
    }

    /// The current path joined with a separator.
    fn joined(&self, sep: &str) -> (r: String)
        ensures
            r@ == join_path(self.trace(), sep@),
    {
        let ghost t = self.trace();
        let mut s = String::new();
        let mut i: usize = 0;
        while i < self.path.len()
            invariant
                i <= self.path@.len(),
                t == self.path@.map_values(|n: &'static str| n@),
                t.len() == self.path@.len(),
                s@ == join_path(t.take(i as int), sep@),
            decreases self.path@.len() - i,
        {
            if i > 0 {
                s.append(sep);
            }
            s.append(self.path[i]);
            proof {
                lemma_join_push(t.take(i as int), sep@, t[i as int]);
                assert(t.take(i + 1 as int) =~= t.take(i as int).push(t[i as int]));
            }
            i += 1;
        }
        proof {
            assert(t.take(t.len() as int) =~= t);
        }
        s
    }
}

/// A tracing engine's buffer always fits addressable memory, so any wire
/// form found in it does too.
pub proof fn lemma_next_trace_buf_bounded(n: NextTrace)
    ensures
        n.buf().len() <= usize::MAX,
{
    assert(n.buf.0.len() == n.buf.0@.len());
}

impl Default for NextTrace {
    /// An engine with an empty buffer and the default nesting limit.
    fn default() -> (r: NextTrace)
        ensures
            r.buf() == Seq::<u8>::empty(),
            r.pos() == 0,
            r.trace() == Seq::<Seq<char>>::empty(),
            r.depth() == MAX_NESTED_DEPTH,
    {
        NextTrace::with_depth(MAX_NESTED_DEPTH)
    }
}

impl Middleware for NextTrace {
    closed spec fn buf(&self) -> Seq<u8> {
        self.buf.0@
    }

    closed spec fn pos(&self) -> nat {
        self.buf.1 as nat
    }

    closed spec fn trace(&self) -> Seq<Seq<char>> {
        self.path@.map_values(|s: &'static str| s@)
    }

    closed spec fn depth(&self) -> nat {
        self.depth as nat
    }

    open spec fn limitless() -> bool {
        false
    }

    fn write(&mut self, data: &[u8]) -> (r: Result<(), Error>) {
        self.buf.write(data)
    }

    fn read(&mut self, nbytes: usize) -> (r: Result<Vec<u8>, Error>) {
        self.buf.read(nbytes)
    }

    fn enter(&mut self, name: &'static str) -> (r: Result<(), Error>) {
        if self.path.len() > self.depth {
            Err(Error::NestedDepthLimit(String::from_str(name)))
        } else {
            self.path.push(name);
            proof {
                assert(self.path@.map_values(|s: &'static str| s@) =~= old(self).path@.map_values(
                    |s: &'static str| s@,
                ).push(name@));
            }
            Ok(())
        }
    }

    fn leave(&mut self) {
        if self.path.len() > 0 {
            let _ = self.path.pop();
            proof {
                assert(self.path@.map_values(|s: &'static str| s@) =~= old(self).path@.map_values(
                    |s: &'static str| s@,
                ).drop_last());
            }
        }
    }

    fn wrap_into(&self, e: Error) -> (r: Error) {
        match e {
            Error::Traced(m, p) => Error::Traced(m, p),
            other => {
                let msg = other.message();
                Error::Traced(msg, self.joined(" -> "))
            },
        }
    }

    fn wrap_from(&self, e: Error) -> (r: Error) {
        match e {
            Error::Traced(m, p) => Error::Traced(m, p),
            other => {
                let msg = other.message();
                Error::Traced(msg, self.joined(" <- "))
            },
        }
    }
}

} // verus!
