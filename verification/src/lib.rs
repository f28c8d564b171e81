//! A binary payload codec: typed values are converted to a compact byte wire
//! format and reconstructed from bytes, with a caller-supplied context threaded
//! through every nested conversion.
//!
//! Every encodable type implements the capability traits [`IntoPayload`] and
//! [`FromPayload`] (combined in [`Payload`]), stating its exact wire form as a
//! specification function. The byte buffer and the cross-cutting tracing state
//! live behind the [`Middleware`] trait, with two engines: the pass-through
//! [`middleware::next::Next`] and the depth-limiting, path-tracing
//! [`middleware::tracing::NextTrace`].

use vstd::prelude::*;

pub mod error;
pub mod info;
pub mod middleware;
pub mod payload;

pub use error::Error;
pub use info::TypeDescriptor;
pub use middleware::next::CowRw;
pub use middleware::next::Next;
pub use middleware::tracing::NextTrace;
pub use middleware::tracing::MAX_NESTED_DEPTH;

verus! {

use crate::error::error_text;
use crate::info::xxh3_of;

/// The engine's cursor never passes the end of its buffer.
pub open spec fn wf<M: Middleware>(m: M) -> bool {
    m.pos() <= m.buf().len()
}

/// The bytes of `m`'s buffer that the read cursor has not yet consumed.
pub open spec fn remaining<M: Middleware>(m: M) -> Seq<u8> {
    m.buf().subrange(m.pos() as int, m.buf().len() as int)
}

/// The greater of two nesting depths.
pub open spec fn depth_max(a: nat, b: nat) -> nat {
    if a < b {
        b
    } else {
        a
    }
}

/// The type names of a trace path joined with a separator, innermost last.
pub open spec fn join_path(path: Seq<Seq<char>>, sep: Seq<char>) -> Seq<char>
    decreases path.len(),
{
    if path.len() == 0 {
        Seq::empty()
    } else if path.len() == 1 {
        path[0]
    } else {
        path[0] + sep + join_path(path.drop_first(), sep)
    }
}

/// The byte engine every conversion runs against: it owns the buffer that
/// encode appends to and decode consumes from, and carries the tracing state
/// (a path of type names and a nesting limit) where the engine supports it.
pub trait Middleware: Sized {
    /// The whole byte buffer, written and read so far.
    spec fn buf(&self) -> Seq<u8>;

    /// The read cursor: how many bytes of `buf` decoding has consumed.
    spec fn pos(&self) -> nat;

    /// The names of the types currently being converted, outermost first.
    spec fn trace(&self) -> Seq<Seq<char>>;

    /// The configured maximum nesting depth.
    spec fn depth(&self) -> nat;

    /// Whether this engine never limits nesting nor records a path.
    spec fn limitless() -> bool;

    /// Appends raw bytes to the buffer. Always succeeds.
    fn write(&mut self, data: &[u8]) -> (r: Result<(), Error>)
        requires
            old(self).pos() <= old(self).buf().len(),
        ensures
            final(self).pos() <= final(self).buf().len(),
            r is Ok,
            final(self).buf() == old(self).buf() + data@,
            final(self).pos() == old(self).pos(),
            final(self).trace() == old(self).trace(),
            final(self).depth() == old(self).depth(),
    ;

    /// Takes the next `nbytes` bytes at the cursor, advancing it; fails with
    /// `InvalidLength` when fewer bytes remain, leaving the cursor in place.
    fn read(&mut self, nbytes: usize) -> (r: Result<Vec<u8>, Error>)
        requires
            old(self).pos() <= old(self).buf().len(),
        ensures
            final(self).pos() <= final(self).buf().len(),
            final(self).buf() == old(self).buf(),
            final(self).trace() == old(self).trace(),
            final(self).depth() == old(self).depth(),
            nbytes <= old(self).buf().len() - old(self).pos() ==> r is Ok,
            r matches Ok(d) ==> d@ == old(self).buf().subrange(
                old(self).pos() as int,
                old(self).pos() + nbytes,
            ) && final(self).pos() == old(self).pos() + nbytes,
            r is Err ==> final(self).pos() == old(self).pos() && r == Err::<Vec<u8>, Error>(
                Error::InvalidLength {
                    expected: nbytes,
                    found: #[verifier::truncate] ((old(self).buf().len() - old(self).pos())
                        as usize),
                },
            ),
    ;

    /// Marks the start of one typed conversion: refuses with
    /// `NestedDepthLimit` when the path is already deeper than the configured
    /// limit, otherwise pushes the type name onto the path.
    fn enter(&mut self, name: &'static str) -> (r: Result<(), Error>)
        requires
            old(self).pos() <= old(self).buf().len(),
        ensures
            final(self).pos() <= final(self).buf().len(),
            final(self).buf() == old(self).buf(),
            final(self).pos() == old(self).pos(),
            final(self).depth() == old(self).depth(),
            Self::limitless() ==> r is Ok && final(self).trace() == old(self).trace(),
            !Self::limitless() ==> (r is Ok <==> old(self).trace().len() <= old(self).depth()),
            !Self::limitless() && r is Ok ==> final(self).trace() == old(self).trace().push(
                name@,
            ),
            r is Err ==> final(self).trace() == old(self).trace(),
            r matches Err(e) ==> (e matches Error::NestedDepthLimit(s) && s@ == name@),
    ;

    /// Marks the successful end of the innermost typed conversion, popping its
    /// name from the path. On failure the path is left as it stands instead,
    /// frozen for diagnostics.
    fn leave(&mut self)
        requires
            old(self).pos() <= old(self).buf().len(),
            !Self::limitless() ==> old(self).trace().len() > 0,
        ensures
            final(self).pos() <= final(self).buf().len(),
            final(self).buf() == old(self).buf(),
            final(self).pos() == old(self).pos(),
            final(self).depth() == old(self).depth(),
            Self::limitless() ==> final(self).trace() == old(self).trace(),
            !Self::limitless() ==> final(self).trace() == old(self).trace().drop_last(),
    ;

    /// Annotates an encode-side failure with the path of types visited, once:
    /// an already-traced error passes through unchanged.
    fn wrap_into(&self, e: Error) -> (r: Error)
        ensures
            Self::limitless() ==> r == e,
            e is Traced ==> r == e,
            !Self::limitless() && !(e is Traced) ==> (r matches Error::Traced(m, p) && m@
                == error_text(e) && p@ == join_path(self.trace(), " -> "@)),
    ;

    /// As [`Middleware::wrap_into`], for decode-side failures.
    fn wrap_from(&self, e: Error) -> (r: Error)
        ensures
            Self::limitless() ==> r == e,
            e is Traced ==> r == e,
            !Self::limitless() && !(e is Traced) ==> (r matches Error::Traced(m, p) && m@
                == error_text(e) && p@ == join_path(self.trace(), " <- "@)),
    ;
}

/// The metadata half of the capability contract: the mathematical model of a
/// value, its exact wire form, and the diagnostic descriptor (name, stable
/// hash, optional fixed size).
pub trait PayloadInfo: Sized {
    /// The mathematical value of this type: its structural contents, with
    /// strings as character sequences and collections as sequences.
    type Model;

    /// The model of this value; two values encode alike exactly when their
    /// models agree.
    spec fn model(&self) -> Self::Model;

    /// The exact byte sequence this value takes on the wire.
    spec fn wire(&self) -> Seq<u8>;

    /// How many levels of typed conversions encoding this value passes
    /// through, itself included: the nesting depth the tracing engine must
    /// allow for the conversion to succeed.
    spec fn nest_depth(&self) -> nat;

    /// The declared type name.
    spec fn spec_name() -> Seq<char>;

    /// The stable fingerprint of the declared type name: a content hash used
    /// for diagnostics, never as a wire-format discriminator.
    open spec fn spec_hash() -> u64 {
        xxh3_of(Self::spec_name())
    }

    fn name() -> (r: &'static str)
        ensures
            r@ == Self::spec_name(),
    ;

    fn hash() -> (r: u64)
        ensures
            r == Self::spec_hash(),
    ;

    /// The byte width every value of this type takes on the wire, where that
    /// width is one fixed number; `None` where it varies by value.
    spec fn spec_fixed_size() -> Option<usize>;

    fn fixed_size() -> (r: Option<usize>)
        ensures
            r == Self::spec_fixed_size(),
            r matches Some(n) ==> forall|v: Self| (#[trigger] v.wire()).len() == n,
    ;

    /// The diagnostic descriptor of this type.
    fn describe() -> (r: TypeDescriptor)
        ensures
            r.name@ == Self::spec_name(),
            r.hash == Self::spec_hash(),
            r.size == Self::spec_fixed_size(),
            r.size matches Some(n) ==> forall|v: Self| (#[trigger] v.wire()).len() == n,
    {
        TypeDescriptor {
            name: Self::name(),
            hash: Self::hash(),
            size: Self::fixed_size(),
        }
    }
}

/// Decode soundness, on every engine, bounded or not: whenever the call
/// succeeded and the unread bytes began with the wire form of some value `v`
/// that fits addressable memory, the result carries `v`'s model and exactly
/// `v`'s wire form was consumed. The tracing engine is a pure decorator: it
/// can refuse a conversion, never change what an accepted one means.
pub open spec fn decode_sound<M: Middleware, T: PayloadInfo>(
    pre: M,
    post: M,
    r: Result<T, Error>,
) -> bool {
    forall|v: T|
        (#[trigger] v.wire()).is_prefix_of(remaining(pre)) && v.wire().len() <= usize::MAX && r
            is Ok ==> (r matches Ok(res) && res.model() == v.model() && post.pos() == pre.pos()
            + v.wire().len())
}

/// Decode completeness: on an engine without a nesting limit, whenever the
/// unread bytes begin with the wire form of some value that fits addressable
/// memory, the call succeeds. Together with [`decode_sound`] and the encode
/// contract this is the round-trip law: decoding what encode produced
/// succeeds and yields the encoded value again.
pub open spec fn decode_complete<M: Middleware, T: PayloadInfo>(pre: M, r: Result<T, Error>) -> bool {
    forall|v: T|
        M::limitless() && (#[trigger] v.wire()).is_prefix_of(remaining(pre)) && v.wire().len()
            <= usize::MAX ==> r is Ok
}

/// The encoding half of the capability contract.
pub trait IntoPayload<C>: PayloadInfo {
    /// Serializes `self` by appending exactly [`PayloadInfo::wire`]`(self)` to
    /// the engine's buffer, in declared field order, leaving the read cursor
    /// in place. On an engine without a nesting limit it always succeeds; on
    /// any engine it succeeds whenever the current path together with this
    /// value's [`PayloadInfo::nest_depth`] stays within the configured limit,
    /// so raising the limit never turns success into a depth failure.
    fn into_payload<M: Middleware>(&self, ctx: &mut C, next: &mut M) -> (r: Result<(), Error>)
        requires
            wf(*old(next)),
        ensures
            wf(*final(next)),
            final(next).pos() == old(next).pos(),
            final(next).depth() == old(next).depth(),
            old(next).buf().is_prefix_of(final(next).buf()),
            r is Ok ==> final(next).buf() == old(next).buf() + self.wire(),
            r is Ok ==> final(next).trace() == old(next).trace(),
            M::limitless() ==> r is Ok && final(next).trace() == old(next).trace(),
            old(next).trace().len() + self.nest_depth() <= old(next).depth() + 1 ==> r is Ok,
    ;
}

/// The decoding half of the capability contract.
pub trait FromPayload<C>: PayloadInfo {
    /// Reconstructs a value from the bytes at the engine's read cursor,
    /// advancing it; the buffer itself is never changed. Decoding is sound
    /// and unambiguous on every engine in the sense of [`decode_sound`], and
    /// complete on an engine without a nesting limit in the sense of
    /// [`decode_complete`].
    fn from_payload<M: Middleware>(ctx: &mut C, next: &mut M) -> (r: Result<Self, Error>)
        requires
            wf(*old(next)),
        ensures
            wf(*final(next)),
            final(next).buf() == old(next).buf(),
            final(next).depth() == old(next).depth(),
            old(next).pos() <= final(next).pos(),
            r is Ok ==> final(next).trace() == old(next).trace(),
            M::limitless() ==> final(next).trace() == old(next).trace(),
            decode_sound(*old(next), *final(next), r),
            decode_complete(*old(next), r),
    ;
}

/// The full capability contract, with the session entry points.
pub trait Payload<C>: IntoPayload<C> + FromPayload<C> {
    /// Serializes `self` into the engine's buffer: the encode session entry
    /// point.
    fn into_packet<M: Middleware>(&self, ctx: &mut C, next: &mut M) -> (r: Result<(), Error>)
        requires
            wf(*old(next)),
        ensures
            wf(*final(next)),
            final(next).pos() == old(next).pos(),
            old(next).buf().is_prefix_of(final(next).buf()),
            r is Ok ==> final(next).buf() == old(next).buf() + self.wire(),
            M::limitless() ==> r is Ok,
            old(next).trace().len() + self.nest_depth() <= old(next).depth() + 1 ==> r is Ok,
    {
        self.into_payload(ctx, next)
    }

    /// Deserializes a value from the engine's buffer: the decode session entry
    /// point.
    fn from_packet<M: Middleware>(ctx: &mut C, next: &mut M) -> (r: Result<Self, Error>)
        requires
            wf(*old(next)),
        ensures
            wf(*final(next)),
            final(next).buf() == old(next).buf(),
            old(next).pos() <= final(next).pos(),
            decode_sound(*old(next), *final(next), r),
            decode_complete(*old(next), r),
    {
        Self::from_payload(ctx, next)
    }
}

/// A sequence is a prefix of itself extended by anything.
pub proof fn lemma_prefix_append(a: Seq<u8>, t: Seq<u8>)
    ensures
        a.is_prefix_of(a + t),
{
    assert(a =~= (a + t).subrange(0, a.len() as int));
}

/// A concatenation that begins a sequence splits into a head prefix and a
/// tail prefix of what follows the head.
pub proof fn lemma_prefix_drop(head: Seq<u8>, tail: Seq<u8>, rem: Seq<u8>)
    requires
        (head + tail).is_prefix_of(rem),
    ensures
        head.is_prefix_of(rem),
        tail.is_prefix_of(rem.skip(head.len() as int)),
{
    let n = head.len() as int;
    let m = tail.len() as int;
    assert((head + tail) =~= rem.subrange(0, n + m));
    assert(head =~= rem.subrange(0, n));
    assert forall|i: int| 0 <= i < m implies rem.skip(n).subrange(0, m)[i] == tail[i] by {
        assert(tail[i] == (head + tail)[n + i]);
        assert((head + tail)[n + i] == rem.subrange(0, n + m)[n + i]);
    };
    assert(tail =~= rem.skip(n).subrange(0, m));
}

/// Closes one typed encode conversion: pops the path on success, annotates
/// the failure with the path otherwise.
pub(crate) fn close_into<M: Middleware>(next: &mut M, r: Result<(), Error>) -> (out: Result<
    (),
    Error,
>)
    requires
        old(next).pos() <= old(next).buf().len(),
        r is Ok && !M::limitless() ==> old(next).trace().len() > 0,
    ensures
        final(next).pos() <= final(next).buf().len(),
        final(next).buf() == old(next).buf(),
        final(next).pos() == old(next).pos(),
        final(next).depth() == old(next).depth(),
        out is Ok <==> r is Ok,
        M::limitless() ==> final(next).trace() == old(next).trace(),
        r is Ok && !M::limitless() ==> final(next).trace() == old(next).trace().drop_last(),
        r matches Err(e) ==> (out matches Err(e2) && (M::limitless() ==> e2 == e) && (e is Traced
            ==> e2 == e) && (!M::limitless() && !(e is Traced) ==> (e2 matches Error::Traced(m, p)
            && m@ == error_text(e) && p@ == join_path(old(next).trace(), " -> "@)))),
{
    match r {
        Ok(()) => {
            next.leave();
            Ok(())
        },
        Err(e) => Err(next.wrap_into(e)),
    }
}

/// Closes one typed decode conversion, as [`close_into`] does for encodes.
pub(crate) fn close_from<M: Middleware, T>(next: &mut M, r: Result<T, Error>) -> (out: Result<
    T,
    Error,
>)
    requires
        old(next).pos() <= old(next).buf().len(),
        r is Ok && !M::limitless() ==> old(next).trace().len() > 0,
    ensures
        final(next).pos() <= final(next).buf().len(),
        final(next).buf() == old(next).buf(),
        final(next).pos() == old(next).pos(),
        final(next).depth() == old(next).depth(),
        out is Ok <==> r is Ok,
        r matches Ok(v) ==> out == Ok::<T, Error>(v),
        M::limitless() ==> final(next).trace() == old(next).trace(),
        r is Ok && !M::limitless() ==> final(next).trace() == old(next).trace().drop_last(),
        r matches Err(e) ==> (out matches Err(e2) && (M::limitless() ==> e2 == e) && (e is Traced
            ==> e2 == e) && (!M::limitless() && !(e is Traced) ==> (e2 matches Error::Traced(m, p)
            && m@ == error_text(e) && p@ == join_path(old(next).trace(), " <- "@)))),
{
    match r {
        Ok(v) => {
            next.leave();
            Ok(v)
        },
        Err(e) => Err(next.wrap_from(e)),
    }
}


} // verus!
