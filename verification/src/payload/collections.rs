//! Payload implementations for sequences of values: a variable-length count,
//! then each element in order.

use vstd::prelude::*;

verus! {

use crate::FromPayload;
use crate::IntoPayload;
use crate::Middleware;
use crate::Payload;
use crate::PayloadInfo;
use crate::close_from;
use crate::close_into;
use crate::depth_max;
use crate::error::Error;
use crate::info::payload_hash;
use crate::lemma_prefix_append;
use crate::lemma_prefix_drop;
use crate::payload::primitive::lemma_varint_same_prefix;
use crate::payload::primitive::varint;
use crate::remaining;
use std::collections::VecDeque;

/// The wire forms of a sequence of values, in order.
pub open spec fn concat_wires<T: PayloadInfo>(s: Seq<T>) -> Seq<u8>
    decreases s.len(),
{
    if s.len() == 0 {
        Seq::empty()
    } else {
        s[0].wire() + concat_wires(s.drop_first())
    }
}

/// The deepest nesting among a sequence of values.
pub open spec fn seq_needs<T: PayloadInfo>(s: Seq<T>) -> nat
    decreases s.len(),
{
    if s.len() == 0 {
        0
    } else {
        depth_max(s[0].nest_depth(), seq_needs(s.drop_first()))
    }
}

/// Every element of a sequence nests no deeper than the sequence's deepest.
pub(crate) proof fn lemma_seq_needs_bound<T: PayloadInfo>(s: Seq<T>, i: int)
    requires
        0 <= i < s.len(),
    ensures
        s[i].nest_depth() <= seq_needs(s),
    decreases i,
{
    if i > 0 {
        lemma_seq_needs_bound(s.drop_first(), i - 1);
        assert(s.drop_first()[i - 1] == s[i]);
    }
}

/// The models of a sequence of values, in order.
pub open spec fn models<T: PayloadInfo>(s: Seq<T>) -> Seq<T::Model> {
    s.map_values(|t: T| t.model())
}

/// One more value appends its wire form to a concatenation.
pub(crate) proof fn lemma_concat_push<T: PayloadInfo>(s: Seq<T>, x: T)
    ensures
        concat_wires(s.push(x)) == concat_wires(s) + x.wire(),
    decreases s.len(),
{
    if s.len() == 0 {
        assert(s.push(x) =~= seq![x]);
        assert(seq![x].drop_first() =~= Seq::<T>::empty());
        assert(concat_wires(seq![x]) == x.wire() + concat_wires(Seq::<T>::empty()));
        assert(x.wire() + Seq::<u8>::empty() =~= x.wire());
        assert(Seq::<u8>::empty() + x.wire() =~= x.wire());
    } else {
        lemma_concat_push(s.drop_first(), x);
        assert(s.push(x).drop_first() =~= s.drop_first().push(x));
        assert(s.push(x)[0] == s[0]);
        assert((s[0].wire() + (concat_wires(s.drop_first()) + x.wire())) =~= ((s[0].wire()
            + concat_wires(s.drop_first())) + x.wire()));
    }
}

/// A concatenation is the concatenation of its two halves.
pub(crate) proof fn lemma_concat_split<T: PayloadInfo>(s: Seq<T>, i: int)
    requires
        0 <= i <= s.len(),
    ensures
        concat_wires(s) == concat_wires(s.take(i)) + concat_wires(s.skip(i)),
    decreases i,
{
    if i == 0 {
        assert(s.take(0) =~= Seq::<T>::empty());
        assert(s.skip(0) =~= s);
        assert(Seq::<u8>::empty() + concat_wires(s) =~= concat_wires(s));
    } else {
        lemma_concat_split(s.drop_first(), i - 1);
        assert(s.take(i).drop_first() =~= s.drop_first().take(i - 1));
        assert(s.skip(i) =~= s.drop_first().skip(i - 1));
        assert(s.take(i)[0] == s[0]);
        assert((s[0].wire() + (concat_wires(s.drop_first().take(i - 1)) + concat_wires(
            s.drop_first().skip(i - 1),
        ))) =~= ((s[0].wire() + concat_wires(s.drop_first().take(i - 1))) + concat_wires(
            s.drop_first().skip(i - 1),
        )));
    }
}

/// A concatenation splits at any element boundary.
pub(crate) proof fn lemma_concat_skip_step<T: PayloadInfo>(s: Seq<T>, i: int)
    requires
        0 <= i < s.len(),
    ensures
        concat_wires(s.skip(i)) == s[i].wire() + concat_wires(s.skip(i + 1)),
{
    assert(s.skip(i)[0] == s[i]);
    assert(s.skip(i).drop_first() =~= s.skip(i + 1));
}

/// The length-prefix law: the wire form of a sequence of length `L` begins
/// with a variable-length integer, and the only number that integer can be
/// read back as is `L` itself.
pub proof fn lemma_length_prefix<T: PayloadInfo>(v: Vec<T>)
    ensures
        varint(v@.len()).is_prefix_of(v.wire()),
        forall|n: nat| (#[trigger] varint(n)).is_prefix_of(v.wire()) ==> n == v@.len(),
{
    lemma_prefix_append(varint(v@.len()), concat_wires(v@));
    assert forall|n: nat| (#[trigger] varint(n)).is_prefix_of(v.wire()) implies n == v@.len() by {
        lemma_varint_same_prefix(n, v@.len(), v.wire());
    };
}

impl<T: PayloadInfo> PayloadInfo for Vec<T> {
    type Model = Seq<T::Model>;

    open spec fn model(&self) -> Seq<T::Model> {
        models(self@)
    }

    open spec fn wire(&self) -> Seq<u8> {
        varint(self@.len()) + concat_wires(self@)
    }

    open spec fn nest_depth(&self) -> nat {
        1 + depth_max(1, seq_needs(self@))
    }

    open spec fn spec_name() -> Seq<char> {
        "Vec<T>"@
    }

    open spec fn spec_fixed_size() -> Option<usize> {
        None
    }

    fn name() -> (r: &'static str) {
        "Vec<T>"
    }

    fn hash() -> (r: u64) {
        payload_hash(Self::name())
    }

    fn fixed_size() -> (r: Option<usize>) {
        None
    }
}

impl<C, T: IntoPayload<C>> IntoPayload<C> for Vec<T> {
    fn into_payload<M: Middleware>(&self, ctx: &mut C, next: &mut M) -> (r: Result<(), Error>) {
        if let Err(e) = next.enter(Self::name()) {
            proof {
                lemma_prefix_append(old(next).buf(), Seq::empty());
                assert(old(next).buf() + Seq::<u8>::empty() =~= old(next).buf());
            }
            return Err(e);
        }
        let ghost t1 = next.trace();
        let mut res: Result<(), Error> = self.len().into_payload(ctx, next);
        let ghost base = old(next).buf() + varint(self@.len());
        proof {
            assert(self@.take(0) =~= Seq::<T>::empty());
            assert(base + concat_wires(self@.take(0)) =~= base);
        }
        let mut i: usize = 0;
        while i < self.len() && res.is_ok()
            invariant
                i <= self@.len(),
                base == old(next).buf() + varint(self@.len()),
                next.pos() == old(next).pos(),
                next.pos() <= next.buf().len(),
                next.depth() == old(next).depth(),
                old(next).buf().is_prefix_of(next.buf()),
                res is Ok ==> next.buf() == base + concat_wires(self@.take(i as int))
                    && next.trace() == t1,
                M::limitless() ==> res is Ok && next.trace() == old(next).trace(),
                !M::limitless() ==> t1.len() == old(next).trace().len() + 1,
                M::limitless() ==> t1 == old(next).trace(),
                old(next).trace().len() + self.nest_depth() <= old(next).depth() + 1 ==> res
                    is Ok,
            decreases self@.len() - i,
        {
            proof {
                lemma_seq_needs_bound(self@, i as int);
            }
            res = self[i].into_payload(ctx, next);
            proof {
                if res is Ok {
                    lemma_concat_push(self@.take(i as int), self@[i as int]);
                    assert(self@.take(i + 1) =~= self@.take(i as int).push(self@[i as int]));
                    assert((base + concat_wires(self@.take(i as int))) + self@[i as int].wire()
                        =~= base + (concat_wires(self@.take(i as int)) + self@[i as int].wire()));
                }
                lemma_prefix_append(
                    old(next).buf(),
                    next.buf().skip(old(next).buf().len() as int),
                );
                assert(old(next).buf() + next.buf().skip(old(next).buf().len() as int)
                    =~= next.buf());
            }
            i += 1;
        }
        let out = close_into(next, res);
        proof {
            if res is Ok {
                assert(self@.take(self@.len() as int) =~= self@);
                assert(base + concat_wires(self@) =~= old(next).buf() + self.wire());
            }
            lemma_prefix_append(old(next).buf(), next.buf().skip(old(next).buf().len() as int));
            assert(old(next).buf() + next.buf().skip(old(next).buf().len() as int) =~= next.buf());
        }
        out
    }
}

impl<C, T: FromPayload<C>> FromPayload<C> for Vec<T> {
    fn from_payload<M: Middleware>(ctx: &mut C, next: &mut M) -> (r: Result<Self, Error>) {
        let ghost pre = *old(next);
        if let Err(e) = next.enter(Self::name()) {
            return Err(e);
        }
        let ghost mid = *next;
        proof {
            assert(remaining(mid) =~= remaining(pre));
        }
        let count = match usize::from_payload(ctx, next) {
            Ok(c) => c,
            Err(e) => {
                proof {
                    assert forall|u: Vec<T>|
                        M::limitless() && (#[trigger] u.wire()).is_prefix_of(
                            remaining(pre),
                        ) && u.wire().len() <= usize::MAX implies false by {
                        assert(u.len() == u@.len());
                        lemma_prefix_drop(varint(u@.len()), concat_wires(u@), remaining(mid));
                        assert(((u@.len() as usize) as nat) == u@.len());
                        assert(((u@.len() as usize)).wire() == varint(u@.len()));
                    };
                }
                return Err(next.wrap_from(e));
            },
        };
        let ghost mid2 = *next;
        let mut out_vec: Vec<T> = Vec::new();
        let mut i: usize = 0;
        proof {
            assert(models(Seq::<T>::empty()) =~= Seq::<T::Model>::empty());
            assert forall|u: Vec<T>|
                (#[trigger] u.wire()).is_prefix_of(remaining(pre))
                    && u.wire().len() <= usize::MAX implies (count == u@.len() && models(out_vec@) == models(u@.take(0)) && next.pos() == mid2.pos()
                + concat_wires(u@.take(0)).len() && concat_wires(u@.skip(0)).is_prefix_of(
                remaining(*next),
            )) by {
                assert(u.len() == u@.len());
                lemma_prefix_drop(varint(u@.len()), concat_wires(u@), remaining(mid));
                assert(((u@.len() as usize) as nat) == u@.len());
                assert(((u@.len() as usize)).wire() == varint(u@.len()));
                assert(u@.take(0) =~= Seq::<T>::empty());
                assert(u@.skip(0) =~= u@);
                assert(remaining(mid2) =~= remaining(mid).skip(varint(u@.len()).len() as int));
            };
        }
        while i < count
            invariant
                pre == *old(next),
                i <= count,
                next.buf() == mid2.buf(),
                next.buf() == pre.buf(),
                next.depth() == pre.depth(),
                mid2.pos() <= next.pos(),
                next.pos() <= next.buf().len(),
                pre.pos() <= mid2.pos(),
                out_vec@.len() == i,
                next.trace() == mid2.trace(),
                M::limitless() ==> next.trace() == pre.trace(),
                remaining(mid) =~= remaining(pre),
                forall|u: Vec<T>|
                    (#[trigger] u.wire()).is_prefix_of(remaining(pre))
                        && u.wire().len() <= usize::MAX ==> (
                    count == u@.len() && i <= u@.len() && models(out_vec@) == models(
                        u@.take(i as int),
                    ) && next.pos() == mid2.pos() + concat_wires(u@.take(i as int)).len()
                        && concat_wires(u@.skip(i as int)).is_prefix_of(remaining(*next))),
            decreases count - i,
        {
            let ghost st = *next;
            match T::from_payload(ctx, next) {
                Ok(v) => {
                    let ghost prev = out_vec@;
                    out_vec.push(v);
                    proof {
                        assert forall|u: Vec<T>|
                            (#[trigger] u.wire()).is_prefix_of(
                                remaining(pre),
                            ) && u.wire().len() <= usize::MAX implies (count == u@.len() && i + 1 <= u@.len() && models(out_vec@)
                            == models(u@.take(i + 1)) && next.pos() == mid2.pos() + concat_wires(
                            u@.take(i + 1),
                        ).len() && concat_wires(u@.skip(i + 1)).is_prefix_of(
                            remaining(*next),
                        )) by {
                            lemma_concat_split(u@, i as int);
                            lemma_concat_skip_step(u@, i as int);
                            assert(u@[i as int].wire().len() <= u.wire().len());
                            lemma_prefix_drop(
                                u@[i as int].wire(),
                                concat_wires(u@.skip(i + 1)),
                                remaining(st),
                            );
                            assert(u@[i as int].wire().is_prefix_of(remaining(st)));
                            assert(v.model() == u@[i as int].model());
                            assert(remaining(*next) =~= remaining(st).skip(
                                u@[i as int].wire().len() as int,
                            ));
                            lemma_concat_push(u@.take(i as int), u@[i as int]);
                            assert(u@.take(i + 1) =~= u@.take(i as int).push(u@[i as int]));
                            assert(out_vec@ == prev.push(v));
                            assert(models(prev.push(v)) =~= models(prev).push(v.model()));
                            assert(models(u@.take(i as int)).push(u@[i as int].model()) =~= models(
                                u@.take(i + 1),
                            ));
                        };
                    }
                },
                Err(e) => {
                    proof {
                        assert forall|u: Vec<T>|
                            M::limitless() && (#[trigger] u.wire()).is_prefix_of(
                                remaining(pre),
                            ) && u.wire().len() <= usize::MAX implies false by {
                            lemma_concat_split(u@, i as int);
                            lemma_concat_skip_step(u@, i as int);
                            assert(u@[i as int].wire().len() <= u.wire().len());
                            lemma_prefix_drop(
                                u@[i as int].wire(),
                                concat_wires(u@.skip(i + 1)),
                                remaining(st),
                            );
                            assert(u@[i as int].wire().is_prefix_of(remaining(st)));
                        };
                    }
                    return Err(next.wrap_from(e));
                },
            }
            i += 1;
        }
        let out = close_from(next, Ok(out_vec));
        proof {
            assert forall|u: Vec<T>|
                (#[trigger] u.wire()).is_prefix_of(remaining(pre)) && u.wire().len() <= usize::MAX implies (out
            matches Ok(res) && res.model() == u.model() && next.pos() == pre.pos()
                + u.wire().len()) by {
                assert(u@.take(count as int) =~= u@);
                assert(u@.skip(count as int) =~= Seq::<T>::empty());
                assert(u.len() == u@.len());
                lemma_prefix_drop(varint(u@.len()), concat_wires(u@), remaining(mid));
                assert(((u@.len() as usize) as nat) == u@.len());
                assert(((u@.len() as usize)).wire() == varint(u@.len()));
            };
        }
        out
    }
}

impl<C, T: Payload<C>> Payload<C> for Vec<T> {
}


impl<T: PayloadInfo> PayloadInfo for VecDeque<T> {
    type Model = Seq<T::Model>;

    open spec fn model(&self) -> Seq<T::Model> {
        models(self@)
    }

    open spec fn wire(&self) -> Seq<u8> {
        varint(self@.len()) + concat_wires(self@)
    }

    open spec fn nest_depth(&self) -> nat {
        1 + depth_max(1, seq_needs(self@))
    }

    open spec fn spec_name() -> Seq<char> {
        "VecDeque<T>"@
    }

    open spec fn spec_fixed_size() -> Option<usize> {
        None
    }

    fn name() -> (r: &'static str) {
        "VecDeque<T>"
    }

    fn hash() -> (r: u64) {
        payload_hash(Self::name())
    }

    fn fixed_size() -> (r: Option<usize>) {
        None
    }
}

impl<C, T: IntoPayload<C>> IntoPayload<C> for VecDeque<T> {
    fn into_payload<M: Middleware>(&self, ctx: &mut C, next: &mut M) -> (r: Result<(), Error>) {
        if let Err(e) = next.enter(Self::name()) {
            proof {
                lemma_prefix_append(old(next).buf(), Seq::empty());
                assert(old(next).buf() + Seq::<u8>::empty() =~= old(next).buf());
            }
            return Err(e);
        }
        let ghost t1 = next.trace();
        let mut res: Result<(), Error> = self.len().into_payload(ctx, next);
        let ghost base = old(next).buf() + varint(self@.len());
        proof {
            assert(self@.take(0) =~= Seq::<T>::empty());
            assert(base + concat_wires(self@.take(0)) =~= base);
        }
        let mut i: usize = 0;
        while i < self.len() && res.is_ok()
            invariant
                i <= self@.len(),
                base == old(next).buf() + varint(self@.len()),
                next.pos() == old(next).pos(),
                next.pos() <= next.buf().len(),
                next.depth() == old(next).depth(),
                old(next).buf().is_prefix_of(next.buf()),
                res is Ok ==> next.buf() == base + concat_wires(self@.take(i as int))
                    && next.trace() == t1,
                M::limitless() ==> res is Ok && next.trace() == old(next).trace(),
                !M::limitless() ==> t1.len() == old(next).trace().len() + 1,
                M::limitless() ==> t1 == old(next).trace(),
                old(next).trace().len() + self.nest_depth() <= old(next).depth() + 1 ==> res
                    is Ok,
            decreases self@.len() - i,
        {
            proof {
                lemma_seq_needs_bound(self@, i as int);
            }
            res = self[i].into_payload(ctx, next);
            proof {
                if res is Ok {
                    lemma_concat_push(self@.take(i as int), self@[i as int]);
                    assert(self@.take(i + 1) =~= self@.take(i as int).push(self@[i as int]));
                    assert((base + concat_wires(self@.take(i as int))) + self@[i as int].wire()
                        =~= base + (concat_wires(self@.take(i as int)) + self@[i as int].wire()));
                }
                lemma_prefix_append(
                    old(next).buf(),
                    next.buf().skip(old(next).buf().len() as int),
                );
                assert(old(next).buf() + next.buf().skip(old(next).buf().len() as int)
                    =~= next.buf());
            }
            i += 1;
        }
        let out = close_into(next, res);
        proof {
            if res is Ok {
                assert(self@.take(self@.len() as int) =~= self@);
                assert(base + concat_wires(self@) =~= old(next).buf() + self.wire());
            }
            lemma_prefix_append(old(next).buf(), next.buf().skip(old(next).buf().len() as int));
            assert(old(next).buf() + next.buf().skip(old(next).buf().len() as int) =~= next.buf());
        }
        out
    }
}

impl<C, T: FromPayload<C>> FromPayload<C> for VecDeque<T> {
    fn from_payload<M: Middleware>(ctx: &mut C, next: &mut M) -> (r: Result<Self, Error>) {
        let ghost pre = *old(next);
        if let Err(e) = next.enter(Self::name()) {
            return Err(e);
        }
        let ghost mid = *next;
        proof {
            assert(remaining(mid) =~= remaining(pre));
        }
        let count = match usize::from_payload(ctx, next) {
            Ok(c) => c,
            Err(e) => {
                proof {
                    assert forall|u: VecDeque<T>|
                        M::limitless() && (#[trigger] u.wire()).is_prefix_of(
                            remaining(pre),
                        ) && u.wire().len() <= usize::MAX implies false by {
                        assert(u.len() == u@.len());
                        lemma_prefix_drop(varint(u@.len()), concat_wires(u@), remaining(mid));
                        assert(((u@.len() as usize) as nat) == u@.len());
                        assert(((u@.len() as usize)).wire() == varint(u@.len()));
                    };
                }
                return Err(next.wrap_from(e));
            },
        };
        let ghost mid2 = *next;
        let mut out_vec: VecDeque<T> = VecDeque::new();
        let mut i: usize = 0;
        proof {
            assert(models(Seq::<T>::empty()) =~= Seq::<T::Model>::empty());
            assert forall|u: VecDeque<T>|
                (#[trigger] u.wire()).is_prefix_of(remaining(pre))
                    && u.wire().len() <= usize::MAX implies (count == u@.len() && models(out_vec@) == models(u@.take(0)) && next.pos() == mid2.pos()
                + concat_wires(u@.take(0)).len() && concat_wires(u@.skip(0)).is_prefix_of(
                remaining(*next),
            )) by {
                assert(u.len() == u@.len());
                lemma_prefix_drop(varint(u@.len()), concat_wires(u@), remaining(mid));
                assert(((u@.len() as usize) as nat) == u@.len());
                assert(((u@.len() as usize)).wire() == varint(u@.len()));
                assert(u@.take(0) =~= Seq::<T>::empty());
                assert(u@.skip(0) =~= u@);
                assert(remaining(mid2) =~= remaining(mid).skip(varint(u@.len()).len() as int));
            };
        }
        while i < count
            invariant
                pre == *old(next),
                i <= count,
                next.buf() == mid2.buf(),
                next.buf() == pre.buf(),
                next.depth() == pre.depth(),
                mid2.pos() <= next.pos(),
                next.pos() <= next.buf().len(),
                pre.pos() <= mid2.pos(),
                out_vec@.len() == i,
                next.trace() == mid2.trace(),
                M::limitless() ==> next.trace() == pre.trace(),
                remaining(mid) =~= remaining(pre),
                forall|u: VecDeque<T>|
                    (#[trigger] u.wire()).is_prefix_of(remaining(pre))
                        && u.wire().len() <= usize::MAX ==> (
                    count == u@.len() && i <= u@.len() && models(out_vec@) == models(
                        u@.take(i as int),
                    ) && next.pos() == mid2.pos() + concat_wires(u@.take(i as int)).len()
                        && concat_wires(u@.skip(i as int)).is_prefix_of(remaining(*next))),
            decreases count - i,
        {
            let ghost st = *next;
            match T::from_payload(ctx, next) {
                Ok(v) => {
                    let ghost prev = out_vec@;
                    out_vec.push_back(v);
                    proof {
                        assert forall|u: VecDeque<T>|
                            (#[trigger] u.wire()).is_prefix_of(
                                remaining(pre),
                            ) && u.wire().len() <= usize::MAX implies (count == u@.len() && i + 1 <= u@.len() && models(out_vec@)
                            == models(u@.take(i + 1)) && next.pos() == mid2.pos() + concat_wires(
                            u@.take(i + 1),
                        ).len() && concat_wires(u@.skip(i + 1)).is_prefix_of(
                            remaining(*next),
                        )) by {
                            lemma_concat_split(u@, i as int);
                            lemma_concat_skip_step(u@, i as int);
                            assert(u@[i as int].wire().len() <= u.wire().len());
                            lemma_prefix_drop(
                                u@[i as int].wire(),
                                concat_wires(u@.skip(i + 1)),
                                remaining(st),
                            );
                            assert(u@[i as int].wire().is_prefix_of(remaining(st)));
                            assert(v.model() == u@[i as int].model());
                            assert(remaining(*next) =~= remaining(st).skip(
                                u@[i as int].wire().len() as int,
                            ));
                            lemma_concat_push(u@.take(i as int), u@[i as int]);
                            assert(u@.take(i + 1) =~= u@.take(i as int).push(u@[i as int]));
                            assert(out_vec@ == prev.push(v));
                            assert(models(prev.push(v)) =~= models(prev).push(v.model()));
                            assert(models(u@.take(i as int)).push(u@[i as int].model()) =~= models(
                                u@.take(i + 1),
                            ));
                        };
                    }
                },
                Err(e) => {
                    proof {
                        assert forall|u: VecDeque<T>|
                            M::limitless() && (#[trigger] u.wire()).is_prefix_of(
                                remaining(pre),
                            ) && u.wire().len() <= usize::MAX implies false by {
                            lemma_concat_split(u@, i as int);
                            lemma_concat_skip_step(u@, i as int);
                            assert(u@[i as int].wire().len() <= u.wire().len());
                            lemma_prefix_drop(
                                u@[i as int].wire(),
                                concat_wires(u@.skip(i + 1)),
                                remaining(st),
                            );
                            assert(u@[i as int].wire().is_prefix_of(remaining(st)));
                        };
                    }
                    return Err(next.wrap_from(e));
                },
            }
            i += 1;
        }
        let out = close_from(next, Ok(out_vec));
        proof {
            assert forall|u: VecDeque<T>|
                (#[trigger] u.wire()).is_prefix_of(remaining(pre)) && u.wire().len() <= usize::MAX implies (out
            matches Ok(res) && res.model() == u.model() && next.pos() == pre.pos()
                + u.wire().len()) by {
                assert(u@.take(count as int) =~= u@);
                assert(u@.skip(count as int) =~= Seq::<T>::empty());
                assert(u.len() == u@.len());
                lemma_prefix_drop(varint(u@.len()), concat_wires(u@), remaining(mid));
                assert(((u@.len() as usize) as nat) == u@.len());
                assert(((u@.len() as usize)).wire() == varint(u@.len()));
            };
        }
        out
    }
}

impl<C, T: Payload<C>> Payload<C> for VecDeque<T> {
}

} // verus!
