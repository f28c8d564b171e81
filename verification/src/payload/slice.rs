//! Payload implementations for fixed-size arrays: the elements in order with
//! no count prefix, since the length is part of the type.

use vstd::prelude::*;

verus! {

use crate::FromPayload;
use crate::IntoPayload;
use crate::Middleware;
use crate::Payload;
use crate::PayloadInfo;
use crate::close_from;
use crate::close_into;
use crate::depth_max;
use crate::error::Error;
use crate::info::payload_hash;
use crate::lemma_prefix_append;
use crate::lemma_prefix_drop;
use crate::payload::collections::concat_wires;
use crate::payload::collections::lemma_concat_push;
use crate::payload::collections::lemma_concat_skip_step;
use crate::payload::collections::lemma_concat_split;
use crate::payload::collections::models;
use crate::payload::collections::lemma_seq_needs_bound;
use crate::payload::collections::seq_needs;
use crate::remaining;
use vstd::array::array_as_slice;
use vstd::slice::slice_index_get;

/// Relies on `<Vec<T> as TryInto<[T; N]>>::try_into`: a vector of exactly `N`
/// items becomes the array of those items.
#[verifier::external_body]
fn vec_into_array<T, const N: usize>(v: Vec<T>) -> (r: [T; N])
    requires
        v@.len() == N,
    ensures
        r@ == v@,
{
    v.try_into().ok().unwrap()
}

/// A concatenation of wire forms that are all `n` bytes wide is `n` bytes per
/// element.
proof fn lemma_concat_uniform_len<T: PayloadInfo>(s: Seq<T>, n: int)
    requires
        forall|j: int| 0 <= j < s.len() ==> (#[trigger] s[j].wire()).len() == n,
    ensures
        concat_wires(s).len() == n * s.len(),
    decreases s.len(),
{
    if s.len() == 0 {
    } else {
        assert(s[0].wire().len() == n);
        assert forall|j: int| 0 <= j < s.drop_first().len() implies (#[trigger] s.drop_first()[
        j].wire()).len() == n by {
            assert(s.drop_first()[j] == s[j + 1]);
        };
        lemma_concat_uniform_len(s.drop_first(), n);
        assert(n * s.len() == n * s.drop_first().len() + n) by (nonlinear_arith)
            requires
                s.len() == s.drop_first().len() + 1,
        ;
    }
}

impl<T: PayloadInfo, const N: usize> PayloadInfo for [T; N] {
    type Model = Seq<T::Model>;

    open spec fn model(&self) -> Seq<T::Model> {
        models(self@)
    }

    open spec fn wire(&self) -> Seq<u8> {
        concat_wires(self@)
    }

    open spec fn nest_depth(&self) -> nat {
        1 + seq_needs(self@)
    }

    open spec fn spec_name() -> Seq<char> {
        "[T; N] "@
    }

    open spec fn spec_fixed_size() -> Option<usize> {
        match T::spec_fixed_size() {
            Some(n) => if n * (N as int) <= usize::MAX {
                Some((n * (N as int)) as usize)
            } else {
                None
            },
            None => None,
        }
    }

    fn name() -> (r: &'static str) {
        "[T; N] "
    }

    fn hash() -> (r: u64) {
        payload_hash(Self::name())
    }

    fn fixed_size() -> (r: Option<usize>) {
        let n = match T::fixed_size() {
            Some(v) => v,
            None => {
                return None;
            },
        };
        let total = match n.checked_mul(N) {
            Some(v) => v,
            None => {
                return None;
            },
        };
        proof {
            assert forall|v: [T; N]| (#[trigger] v.wire()).len() == total by {
                lemma_concat_uniform_len(v@, n as int);
            };
        }
        Some(total)
    }
}

impl<C, T: IntoPayload<C>, const N: usize> IntoPayload<C> for [T; N] {
    fn into_payload<M: Middleware>(&self, ctx: &mut C, next: &mut M) -> (r: Result<(), Error>) {
        if let Err(e) = next.enter(Self::name()) {
            proof {
                lemma_prefix_append(old(next).buf(), Seq::empty());
                assert(old(next).buf() + Seq::<u8>::empty() =~= old(next).buf());
            }
            return Err(e);
        }
        let ghost t1 = next.trace();
        let elems: &[T] = array_as_slice(self);
        let mut res: Result<(), Error> = Ok(());
        proof {
            assert(self@.take(0) =~= Seq::<T>::empty());
            assert(old(next).buf() + concat_wires(self@.take(0)) =~= old(next).buf());
        }
        let mut i: usize = 0;
        while i < N && res.is_ok()
            invariant
                i <= N,
                elems@ == self@,
                self@.len() == N,
                next.pos() == old(next).pos(),
                next.pos() <= next.buf().len(),
                next.depth() == old(next).depth(),
                old(next).buf().is_prefix_of(next.buf()),
                res is Ok ==> next.buf() == old(next).buf() + concat_wires(self@.take(i as int))
                    && next.trace() == t1,
                M::limitless() ==> res is Ok && next.trace() == old(next).trace(),
                !M::limitless() ==> t1.len() == old(next).trace().len() + 1,
                M::limitless() ==> t1 == old(next).trace(),
                old(next).trace().len() + self.nest_depth() <= old(next).depth() + 1 ==> res
                    is Ok,
            decreases N - i,
        {
            proof {
                lemma_seq_needs_bound(self@, i as int);
            }
            let elem = slice_index_get(elems, i);
            res = elem.into_payload(ctx, next);
            proof {
                if res is Ok {
                    lemma_concat_push(self@.take(i as int), self@[i as int]);
                    assert(self@.take(i + 1) =~= self@.take(i as int).push(self@[i as int]));
                    assert((old(next).buf() + concat_wires(self@.take(i as int))) + self@[
                    i as int].wire() =~= old(next).buf() + (concat_wires(self@.take(i as int))
                        + self@[i as int].wire()));
                }
                lemma_prefix_append(
                    old(next).buf(),
                    next.buf().skip(old(next).buf().len() as int),
                );
                assert(old(next).buf() + next.buf().skip(old(next).buf().len() as int)
                    =~= next.buf());
            }
            i += 1;
        }
        let out = close_into(next, res);
        proof {
            if res is Ok {
                assert(self@.take(N as int) =~= self@);
            }
            lemma_prefix_append(old(next).buf(), next.buf().skip(old(next).buf().len() as int));
            assert(old(next).buf() + next.buf().skip(old(next).buf().len() as int) =~= next.buf());
        }
        out
    }
}

impl<C, T: FromPayload<C>, const N: usize> FromPayload<C> for [T; N] {
    fn from_payload<M: Middleware>(ctx: &mut C, next: &mut M) -> (r: Result<Self, Error>) {
        let ghost pre = *old(next);
        if let Err(e) = next.enter(Self::name()) {
            return Err(e);
        }
        let ghost mid = *next;
        let mut out_vec: Vec<T> = Vec::new();
        let mut i: usize = 0;
        proof {
            assert(remaining(mid) =~= remaining(pre));
            assert(models(Seq::<T>::empty()) =~= Seq::<T::Model>::empty());
            assert forall|u: [T; N]|
                (#[trigger] u.wire()).is_prefix_of(remaining(pre))
                    && u.wire().len() <= usize::MAX implies (models(out_vec@) == models(
                u@.take(0),
            ) && next.pos() == mid.pos() + concat_wires(u@.take(0)).len() && concat_wires(
                u@.skip(0),
            ).is_prefix_of(remaining(*next))) by {
                assert(u@.take(0) =~= Seq::<T>::empty());
                assert(u@.skip(0) =~= u@);
            };
        }
        while i < N
            invariant
                pre == *old(next),
                i <= N,
                next.buf() == mid.buf(),
                next.buf() == pre.buf(),
                next.depth() == pre.depth(),
                mid.pos() <= next.pos(),
                next.pos() <= next.buf().len(),
                pre.pos() <= mid.pos(),
                mid.pos() == pre.pos(),
                out_vec@.len() == i,
                next.trace() == mid.trace(),
                M::limitless() ==> next.trace() == pre.trace(),
                remaining(mid) =~= remaining(pre),
                forall|u: [T; N]|
                    (#[trigger] u.wire()).is_prefix_of(remaining(pre))
                        && u.wire().len() <= usize::MAX ==> (i <= u@.len() && models(out_vec@)
                        == models(u@.take(i as int)) && next.pos() == mid.pos() + concat_wires(
                        u@.take(i as int),
                    ).len() && concat_wires(u@.skip(i as int)).is_prefix_of(remaining(*next))),
            decreases N - i,
        {
            let ghost st = *next;
            match T::from_payload(ctx, next) {
                Ok(v) => {
                    let ghost prev = out_vec@;
                    out_vec.push(v);
                    proof {
                        assert forall|u: [T; N]|
                            (#[trigger] u.wire()).is_prefix_of(remaining(pre))
                                && u.wire().len() <= usize::MAX implies (i + 1 <= u@.len()
                            && models(out_vec@) == models(u@.take(i + 1)) && next.pos() == mid.pos()
                            + concat_wires(u@.take(i + 1)).len() && concat_wires(
                            u@.skip(i + 1),
                        ).is_prefix_of(remaining(*next))) by {
                            lemma_concat_split(u@, i as int);
                            lemma_concat_skip_step(u@, i as int);
                            assert(u@[i as int].wire().len() <= u.wire().len());
                            lemma_prefix_drop(
                                u@[i as int].wire(),
                                concat_wires(u@.skip(i + 1)),
                                remaining(st),
                            );
                            assert(u@[i as int].wire().is_prefix_of(remaining(st)));
                            assert(v.model() == u@[i as int].model());
                            assert(remaining(*next) =~= remaining(st).skip(
                                u@[i as int].wire().len() as int,
                            ));
                            lemma_concat_push(u@.take(i as int), u@[i as int]);
                            assert(u@.take(i + 1) =~= u@.take(i as int).push(u@[i as int]));
                            assert(out_vec@ == prev.push(v));
                            assert(models(prev.push(v)) =~= models(prev).push(v.model()));
                            assert(models(u@.take(i as int)).push(u@[i as int].model()) =~= models(
                                u@.take(i + 1),
                            ));
                        };
                    }
                },
                Err(e) => {
                    proof {
                        assert forall|u: [T; N]|
                            M::limitless() && (#[trigger] u.wire()).is_prefix_of(remaining(pre))
                                && u.wire().len() <= usize::MAX implies false by {
                            lemma_concat_split(u@, i as int);
                            lemma_concat_skip_step(u@, i as int);
                            assert(u@[i as int].wire().len() <= u.wire().len());
                            lemma_prefix_drop(
                                u@[i as int].wire(),
                                concat_wires(u@.skip(i + 1)),
                                remaining(st),
                            );
                            assert(u@[i as int].wire().is_prefix_of(remaining(st)));
                        };
                    }
                    return Err(next.wrap_from(e));
                },
            }
            i += 1;
        }
        let arr: [T; N] = vec_into_array(out_vec);
        let out = close_from(next, Ok(arr));
        proof {
            assert forall|u: [T; N]|
                (#[trigger] u.wire()).is_prefix_of(remaining(pre))
                    && u.wire().len() <= usize::MAX implies (out matches Ok(res) && res.model()
                == u.model() && next.pos() == pre.pos() + u.wire().len()) by {
                assert(u@.take(N as int) =~= u@);
                assert(u@.skip(N as int) =~= Seq::<T>::empty());
                assert(arr@ == out_vec@);
            };
        }
        out
    }
}

impl<C, T: Payload<C>, const N: usize> Payload<C> for [T; N] {
}

impl<T: PayloadInfo> PayloadInfo for core::ops::Range<T> {
    type Model = (T::Model, T::Model);

    open spec fn model(&self) -> (T::Model, T::Model) {
        (self.start.model(), self.end.model())
    }

    open spec fn wire(&self) -> Seq<u8> {
        self.start.wire() + self.end.wire()
    }

    open spec fn nest_depth(&self) -> nat {
        1 + depth_max(self.start.nest_depth(), self.end.nest_depth())
    }

    open spec fn spec_name() -> Seq<char> {
        "Range<T>"@
    }

    open spec fn spec_fixed_size() -> Option<usize> {
        match T::spec_fixed_size() {
            Some(n) => if n + n <= usize::MAX {
                Some((n + n) as usize)
            } else {
                None
            },
            None => None,
        }
    }

    fn name() -> (r: &'static str) {
        "Range<T>"
    }

    fn hash() -> (r: u64) {
        payload_hash(Self::name())
    }

    fn fixed_size() -> (r: Option<usize>) {
        let n = match T::fixed_size() {
            Some(v) => v,
            None => {
                return None;
            },
        };
        let total = match n.checked_add(n) {
            Some(v) => v,
            None => {
                return None;
            },
        };
        proof {
            assert forall|v: core::ops::Range<T>| (#[trigger] v.wire()).len() == total by {
                assert(v.start.wire().len() == n);
                assert(v.end.wire().len() == n);
            };
        }
        Some(total)
    }
}

impl<C, T: IntoPayload<C>> IntoPayload<C> for core::ops::Range<T> {
    fn into_payload<M: Middleware>(&self, ctx: &mut C, next: &mut M) -> (r: Result<(), Error>) {
        if let Err(e) = next.enter(Self::name()) {
            proof {
                lemma_prefix_append(old(next).buf(), Seq::empty());
                assert(old(next).buf() + Seq::<u8>::empty() =~= old(next).buf());
            }
            return Err(e);
        }
        let res: Result<(), Error> = match self.start.into_payload(ctx, next) {
            Ok(()) => self.end.into_payload(ctx, next),
            Err(e) => Err(e),
        };
        let out = close_into(next, res);
        proof {
            if res is Ok {
                assert(old(next).buf() + self.start.wire() + self.end.wire() =~= old(next).buf()
                    + self.wire());
            }
            lemma_prefix_append(old(next).buf(), next.buf().skip(old(next).buf().len() as int));
            assert(old(next).buf() + next.buf().skip(old(next).buf().len() as int) =~= next.buf());
        }
        out
    }
}

impl<C, T: FromPayload<C>> FromPayload<C> for core::ops::Range<T> {
    fn from_payload<M: Middleware>(ctx: &mut C, next: &mut M) -> (r: Result<Self, Error>) {
        let ghost pre = *old(next);
        if let Err(e) = next.enter(Self::name()) {
            return Err(e);
        }
        let ghost s0 = *next;
        proof {
            assert(remaining(s0) =~= remaining(pre));
        }
        let start = match T::from_payload(ctx, next) {
            Ok(v) => v,
            Err(e) => {
                proof {
                    assert forall|u: core::ops::Range<T>|
                        M::limitless() && (#[trigger] u.wire()).is_prefix_of(remaining(pre))
                            && u.wire().len() <= usize::MAX implies false by {
                        lemma_prefix_drop(u.start.wire(), u.end.wire(), remaining(s0));
                    };
                }
                return Err(next.wrap_from(e));
            },
        };
        let ghost s1 = *next;
        let end = match T::from_payload(ctx, next) {
            Ok(v) => v,
            Err(e) => {
                proof {
                    assert forall|u: core::ops::Range<T>|
                        M::limitless() && (#[trigger] u.wire()).is_prefix_of(remaining(pre))
                            && u.wire().len() <= usize::MAX implies false by {
                        lemma_prefix_drop(u.start.wire(), u.end.wire(), remaining(s0));
                        assert(remaining(s1) =~= remaining(s0).skip(u.start.wire().len() as int));
                        assert(u.end.wire().is_prefix_of(remaining(s1)));
                    };
                }
                return Err(next.wrap_from(e));
            },
        };
        let out = close_from(next, Ok(start..end));
        proof {
            assert forall|u: core::ops::Range<T>|
                (#[trigger] u.wire()).is_prefix_of(remaining(pre))
                    && u.wire().len() <= usize::MAX implies (out matches Ok(res) && res.model()
                == u.model() && next.pos() == pre.pos() + u.wire().len()) by {
                lemma_prefix_drop(u.start.wire(), u.end.wire(), remaining(s0));
                assert(remaining(s1) =~= remaining(s0).skip(u.start.wire().len() as int));
                assert(u.end.wire().is_prefix_of(remaining(s1)));
            };
        }
        out
    }
}

impl<C, T: Payload<C>> Payload<C> for core::ops::Range<T> {
}

} // verus!
