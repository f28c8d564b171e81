//! Payload implementations for tuples of arity one to eight: the components'
//! wire forms in order, with no prefix or separator.

use vstd::prelude::*;

verus! {

use crate::FromPayload;
use crate::IntoPayload;
use crate::Middleware;
use crate::Payload;
use crate::PayloadInfo;
use crate::close_from;
use crate::close_into;
use crate::depth_max;
use crate::decode_complete;
use crate::decode_sound;
use crate::error::Error;
use crate::info::payload_hash;
use crate::lemma_prefix_append;
use crate::lemma_prefix_drop;
use crate::remaining;

impl<A: PayloadInfo> PayloadInfo for (A,) {
    type Model = (A::Model,);

    open spec fn model(&self) -> (A::Model,) {
        (self.0.model(),)
    }

    open spec fn wire(&self) -> Seq<u8> {
        self.0.wire()
    }

    open spec fn nest_depth(&self) -> nat {
        1 + self.0.nest_depth()
    }

    open spec fn spec_name() -> Seq<char> {
        "tuple"@
    }

    open spec fn spec_fixed_size() -> Option<usize> {
        if A::spec_fixed_size() is Some {
            let total = A::spec_fixed_size()->0;
            if total <= usize::MAX {
                Some(total as usize)
            } else {
                None
            }
        } else {
            None
        }
    }

    fn name() -> (r: &'static str) {
        "tuple"
    }

    fn hash() -> (r: u64) {
        payload_hash(Self::name())
    }

    fn fixed_size() -> (r: Option<usize>) {
        let n0 = match A::fixed_size() {
            Some(v) => v,
            None => {
                return None;
            },
        };
        let mut acc: usize = n0;
        proof {
            assert forall|v: (A,)| (#[trigger] v.wire()).len() == acc by {
                assert(v.0.wire().len() == n0);
            };
        }
        Some(acc)
    }
}

impl<X, A: IntoPayload<X>> IntoPayload<X> for (A,) {
    fn into_payload<M: Middleware>(&self, ctx: &mut X, next: &mut M) -> (r: Result<(), Error>) {
        if let Err(e) = next.enter(Self::name()) {
            proof {
                lemma_prefix_append(old(next).buf(), Seq::empty());
                assert(old(next).buf() + Seq::<u8>::empty() =~= old(next).buf());
            }
            return Err(e);
        }
        let res: Result<(), Error> = self.0.into_payload(ctx, next);
        let out = close_into(next, res);
        proof {
            if res is Ok {
                assert(old(next).buf() + self.0.wire() =~= old(next).buf() + self.wire());
            }
            lemma_prefix_append(old(next).buf(), next.buf().skip(old(next).buf().len() as int));
            assert(old(next).buf() + next.buf().skip(old(next).buf().len() as int) =~= next.buf());
        }
        out
    }
}

impl<X, A: FromPayload<X>> FromPayload<X> for (A,) {
    fn from_payload<M: Middleware>(ctx: &mut X, next: &mut M) -> (r: Result<Self, Error>) {
        let ghost pre = *old(next);
        if let Err(e) = next.enter(Self::name()) {
            return Err(e);
        }
        let ghost s0 = *next;
        proof {
            assert(remaining(s0) =~= remaining(pre));
        }
        let v0 = match A::from_payload(ctx, next) {
            Ok(v) => v,
            Err(e) => {
                proof {
                    assert forall|u: (A,)|
                        M::limitless() && (#[trigger] u.wire()).is_prefix_of(remaining(pre))
                            && u.wire().len() <= usize::MAX implies false by {

                    };
                }
                return Err(next.wrap_from(e));
            },
        };
        let ghost s1 = *next;
        let out = close_from(next, Ok((v0,)));
        proof {
            assert forall|u: (A,)|
                (#[trigger] u.wire()).is_prefix_of(remaining(pre))
                    && u.wire().len() <= usize::MAX implies (out matches Ok(res) && res.model()
                == u.model() && next.pos() == pre.pos() + u.wire().len()) by {

            };
        }
        out
    }
}

impl<X, A: Payload<X>> Payload<X> for (A,) {
}

impl<A: PayloadInfo, B: PayloadInfo> PayloadInfo for (A, B) {
    type Model = (A::Model, B::Model);

    open spec fn model(&self) -> (A::Model, B::Model) {
        (self.0.model(), self.1.model())
    }

    open spec fn wire(&self) -> Seq<u8> {
        self.0.wire() + (self.1.wire())
    }

    open spec fn nest_depth(&self) -> nat {
        1 + depth_max(self.0.nest_depth(), self.1.nest_depth())
    }

    open spec fn spec_name() -> Seq<char> {
        "tuple"@
    }

    open spec fn spec_fixed_size() -> Option<usize> {
        if A::spec_fixed_size() is Some && B::spec_fixed_size() is Some {
            let total = A::spec_fixed_size()->0 + B::spec_fixed_size()->0;
            if total <= usize::MAX {
                Some(total as usize)
            } else {
                None
            }
        } else {
            None
        }
    }

    fn name() -> (r: &'static str) {
        "tuple"
    }

    fn hash() -> (r: u64) {
        payload_hash(Self::name())
    }

    fn fixed_size() -> (r: Option<usize>) {
        let n0 = match A::fixed_size() {
            Some(v) => v,
            None => {
                return None;
            },
        };
        let n1 = match B::fixed_size() {
            Some(v) => v,
            None => {
                return None;
            },
        };
        let mut acc: usize = n0;
        acc = match acc.checked_add(n1) {
            Some(v) => v,
            None => {
                return None;
            },
        };
        proof {
            assert forall|v: (A, B)| (#[trigger] v.wire()).len() == acc by {
                assert(v.0.wire().len() == n0);
                assert(v.1.wire().len() == n1);
            };
        }
        Some(acc)
    }
}

impl<X, A: IntoPayload<X>, B: IntoPayload<X>> IntoPayload<X> for (A, B) {
    fn into_payload<M: Middleware>(&self, ctx: &mut X, next: &mut M) -> (r: Result<(), Error>) {
        if let Err(e) = next.enter(Self::name()) {
            proof {
                lemma_prefix_append(old(next).buf(), Seq::empty());
                assert(old(next).buf() + Seq::<u8>::empty() =~= old(next).buf());
            }
            return Err(e);
        }
        let res: Result<(), Error> = match self.0.into_payload(ctx, next) {
            Ok(()) => self.1.into_payload(ctx, next),
            Err(e) => Err(e),
        };
        let out = close_into(next, res);
        proof {
            if res is Ok {
                assert(old(next).buf() + self.0.wire() + self.1.wire() =~= old(next).buf() + self.wire());
            }
            lemma_prefix_append(old(next).buf(), next.buf().skip(old(next).buf().len() as int));
            assert(old(next).buf() + next.buf().skip(old(next).buf().len() as int) =~= next.buf());
        }
        out
    }
}

impl<X, A: FromPayload<X>, B: FromPayload<X>> FromPayload<X> for (A, B) {
    fn from_payload<M: Middleware>(ctx: &mut X, next: &mut M) -> (r: Result<Self, Error>) {
        let ghost pre = *old(next);
        if let Err(e) = next.enter(Self::name()) {
            return Err(e);
        }
        let ghost s0 = *next;
        proof {
            assert(remaining(s0) =~= remaining(pre));
        }
        let v0 = match A::from_payload(ctx, next) {
            Ok(v) => v,
            Err(e) => {
                proof {
                    assert forall|u: (A, B)|
                        M::limitless() && (#[trigger] u.wire()).is_prefix_of(remaining(pre))
                            && u.wire().len() <= usize::MAX implies false by {
                        lemma_prefix_drop(u.0.wire(), u.1.wire(), remaining(s0));
                    };
                }
                return Err(next.wrap_from(e));
            },
        };
        let ghost s1 = *next;
        let v1 = match B::from_payload(ctx, next) {
            Ok(v) => v,
            Err(e) => {
                proof {
                    assert forall|u: (A, B)|
                        M::limitless() && (#[trigger] u.wire()).is_prefix_of(remaining(pre))
                            && u.wire().len() <= usize::MAX implies false by {
                        lemma_prefix_drop(u.0.wire(), u.1.wire(), remaining(s0));
                        assert(remaining(s1) =~= remaining(s0).skip(u.0.wire().len() as int));
                    };
                }
                return Err(next.wrap_from(e));
            },
        };
        let ghost s2 = *next;
        let out = close_from(next, Ok((v0, v1)));
        proof {
            assert forall|u: (A, B)|
                (#[trigger] u.wire()).is_prefix_of(remaining(pre))
                    && u.wire().len() <= usize::MAX implies (out matches Ok(res) && res.model()
                == u.model() && next.pos() == pre.pos() + u.wire().len()) by {
                        lemma_prefix_drop(u.0.wire(), u.1.wire(), remaining(s0));
                        assert(remaining(s1) =~= remaining(s0).skip(u.0.wire().len() as int));
            };
        }
        out
    }
}

impl<X, A: Payload<X>, B: Payload<X>> Payload<X> for (A, B) {
}

impl<A: PayloadInfo, B: PayloadInfo, C: PayloadInfo> PayloadInfo for (A, B, C) {
    type Model = (A::Model, B::Model, C::Model);

    open spec fn model(&self) -> (A::Model, B::Model, C::Model) {
        (self.0.model(), self.1.model(), self.2.model())
    }

    open spec fn wire(&self) -> Seq<u8> {
        self.0.wire() + (self.1.wire() + (self.2.wire()))
    }

    open spec fn nest_depth(&self) -> nat {
        1 + depth_max(self.0.nest_depth(), depth_max(self.1.nest_depth(), self.2.nest_depth()))
    }

    open spec fn spec_name() -> Seq<char> {
        "tuple"@
    }

    open spec fn spec_fixed_size() -> Option<usize> {
        if A::spec_fixed_size() is Some && B::spec_fixed_size() is Some && C::spec_fixed_size() is Some {
            let total = A::spec_fixed_size()->0 + B::spec_fixed_size()->0 + C::spec_fixed_size()->0;
            if total <= usize::MAX {
                Some(total as usize)
            } else {
                None
            }
        } else {
            None
        }
    }

    fn name() -> (r: &'static str) {
        "tuple"
    }

    fn hash() -> (r: u64) {
        payload_hash(Self::name())
    }

    fn fixed_size() -> (r: Option<usize>) {
        let n0 = match A::fixed_size() {
            Some(v) => v,
            None => {
                return None;
            },
        };
        let n1 = match B::fixed_size() {
            Some(v) => v,
            None => {
                return None;
            },
        };
        let n2 = match C::fixed_size() {
            Some(v) => v,
            None => {
                return None;
            },
        };
        let mut acc: usize = n0;
        acc = match acc.checked_add(n1) {
            Some(v) => v,
            None => {
                return None;
            },
        };
        acc = match acc.checked_add(n2) {
            Some(v) => v,
            None => {
                return None;
            },
        };
        proof {
            assert forall|v: (A, B, C)| (#[trigger] v.wire()).len() == acc by {
                assert(v.0.wire().len() == n0);
                assert(v.1.wire().len() == n1);
                assert(v.2.wire().len() == n2);
            };
        }
        Some(acc)
    }
}

impl<X, A: IntoPayload<X>, B: IntoPayload<X>, C: IntoPayload<X>> IntoPayload<X> for (A, B, C) {
    fn into_payload<M: Middleware>(&self, ctx: &mut X, next: &mut M) -> (r: Result<(), Error>) {
        if let Err(e) = next.enter(Self::name()) {
            proof {
                lemma_prefix_append(old(next).buf(), Seq::empty());
                assert(old(next).buf() + Seq::<u8>::empty() =~= old(next).buf());
            }
            return Err(e);
        }
        let res: Result<(), Error> = match self.0.into_payload(ctx, next) {
            Ok(()) => match self.1.into_payload(ctx, next) {
            Ok(()) => self.2.into_payload(ctx, next),
            Err(e) => Err(e),
        },
            Err(e) => Err(e),
        };
        let out = close_into(next, res);
        proof {
            if res is Ok {
                assert(old(next).buf() + self.0.wire() + self.1.wire() + self.2.wire() =~= old(next).buf() + self.wire());
            }
            lemma_prefix_append(old(next).buf(), next.buf().skip(old(next).buf().len() as int));
            assert(old(next).buf() + next.buf().skip(old(next).buf().len() as int) =~= next.buf());
        }
        out
    }
}

impl<X, A: FromPayload<X>, B: FromPayload<X>, C: FromPayload<X>> FromPayload<X> for (A, B, C) {
    fn from_payload<M: Middleware>(ctx: &mut X, next: &mut M) -> (r: Result<Self, Error>) {
        let ghost pre = *old(next);
        if let Err(e) = next.enter(Self::name()) {
            return Err(e);
        }
        let ghost s0 = *next;
        proof {
            assert(remaining(s0) =~= remaining(pre));
        }
        let v0 = match A::from_payload(ctx, next) {
            Ok(v) => v,
            Err(e) => {
                proof {
                    assert forall|u: (A, B, C)|
                        M::limitless() && (#[trigger] u.wire()).is_prefix_of(remaining(pre))
                            && u.wire().len() <= usize::MAX implies false by {
                        lemma_prefix_drop(u.0.wire(), u.1.wire() + (u.2.wire()), remaining(s0));
                    };
                }
                return Err(next.wrap_from(e));
            },
        };
        let ghost s1 = *next;
        let v1 = match B::from_payload(ctx, next) {
            Ok(v) => v,
            Err(e) => {
                proof {
                    assert forall|u: (A, B, C)|
                        M::limitless() && (#[trigger] u.wire()).is_prefix_of(remaining(pre))
                            && u.wire().len() <= usize::MAX implies false by {
                        lemma_prefix_drop(u.0.wire(), u.1.wire() + (u.2.wire()), remaining(s0));
                        assert(remaining(s1) =~= remaining(s0).skip(u.0.wire().len() as int));
                        lemma_prefix_drop(u.1.wire(), u.2.wire(), remaining(s1));
                    };
                }
                return Err(next.wrap_from(e));
            },
        };
        let ghost s2 = *next;
        let v2 = match C::from_payload(ctx, next) {
            Ok(v) => v,
            Err(e) => {
                proof {
                    assert forall|u: (A, B, C)|
                        M::limitless() && (#[trigger] u.wire()).is_prefix_of(remaining(pre))
                            && u.wire().len() <= usize::MAX implies false by {
                        lemma_prefix_drop(u.0.wire(), u.1.wire() + (u.2.wire()), remaining(s0));
                        assert(remaining(s1) =~= remaining(s0).skip(u.0.wire().len() as int));
                        lemma_prefix_drop(u.1.wire(), u.2.wire(), remaining(s1));
                        assert(remaining(s2) =~= remaining(s1).skip(u.1.wire().len() as int));
                    };
                }
                return Err(next.wrap_from(e));
            },
        };
        let ghost s3 = *next;
        let out = close_from(next, Ok((v0, v1, v2)));
        proof {
            assert forall|u: (A, B, C)|
                (#[trigger] u.wire()).is_prefix_of(remaining(pre))
                    && u.wire().len() <= usize::MAX implies (out matches Ok(res) && res.model()
                == u.model() && next.pos() == pre.pos() + u.wire().len()) by {
                        lemma_prefix_drop(u.0.wire(), u.1.wire() + (u.2.wire()), remaining(s0));
                        assert(remaining(s1) =~= remaining(s0).skip(u.0.wire().len() as int));
                        lemma_prefix_drop(u.1.wire(), u.2.wire(), remaining(s1));
                        assert(remaining(s2) =~= remaining(s1).skip(u.1.wire().len() as int));
            };
        }
        out
    }
}

impl<X, A: Payload<X>, B: Payload<X>, C: Payload<X>> Payload<X> for (A, B, C) {
}

impl<A: PayloadInfo, B: PayloadInfo, C: PayloadInfo, D: PayloadInfo> PayloadInfo for (A, B, C, D) {
    type Model = (A::Model, B::Model, C::Model, D::Model);

    open spec fn model(&self) -> (A::Model, B::Model, C::Model, D::Model) {
        (self.0.model(), self.1.model(), self.2.model(), self.3.model())
    }

    open spec fn wire(&self) -> Seq<u8> {
        self.0.wire() + (self.1.wire() + (self.2.wire() + (self.3.wire())))
    }

    open spec fn nest_depth(&self) -> nat {
        1 + depth_max(self.0.nest_depth(), depth_max(self.1.nest_depth(), depth_max(self.2.nest_depth(), self.3.nest_depth())))
    }

    open spec fn spec_name() -> Seq<char> {
        "tuple"@
    }

    open spec fn spec_fixed_size() -> Option<usize> {
        if A::spec_fixed_size() is Some && B::spec_fixed_size() is Some && C::spec_fixed_size() is Some && D::spec_fixed_size() is Some {
            let total = A::spec_fixed_size()->0 + B::spec_fixed_size()->0 + C::spec_fixed_size()->0 + D::spec_fixed_size()->0;
            if total <= usize::MAX {
                Some(total as usize)
            } else {
                None
            }
        } else {
            None
        }
    }

    fn name() -> (r: &'static str) {
        "tuple"
    }

    fn hash() -> (r: u64) {
        payload_hash(Self::name())
    }

    fn fixed_size() -> (r: Option<usize>) {
        let n0 = match A::fixed_size() {
            Some(v) => v,
            None => {
                return None;
            },
        };
        let n1 = match B::fixed_size() {
            Some(v) => v,
            None => {
                return None;
            },
        };
        let n2 = match C::fixed_size() {
            Some(v) => v,
            None => {
                return None;
            },
        };
        let n3 = match D::fixed_size() {
            Some(v) => v,
            None => {
                return None;
            },
        };
        let mut acc: usize = n0;
        acc = match acc.checked_add(n1) {
            Some(v) => v,
            None => {
                return None;
            },
        };
        acc = match acc.checked_add(n2) {
            Some(v) => v,
            None => {
                return None;
            },
        };
        acc = match acc.checked_add(n3) {
            Some(v) => v,
            None => {
                return None;
            },
        };
        proof {
            assert forall|v: (A, B, C, D)| (#[trigger] v.wire()).len() == acc by {
                assert(v.0.wire().len() == n0);
                assert(v.1.wire().len() == n1);
                assert(v.2.wire().len() == n2);
                assert(v.3.wire().len() == n3);
            };
        }
        Some(acc)
    }
}

impl<X, A: IntoPayload<X>, B: IntoPayload<X>, C: IntoPayload<X>, D: IntoPayload<X>> IntoPayload<X> for (A, B, C, D) {
    fn into_payload<M: Middleware>(&self, ctx: &mut X, next: &mut M) -> (r: Result<(), Error>) {
        if let Err(e) = next.enter(Self::name()) {
            proof {
                lemma_prefix_append(old(next).buf(), Seq::empty());
                assert(old(next).buf() + Seq::<u8>::empty() =~= old(next).buf());
            }
            return Err(e);
        }
        let res: Result<(), Error> = match self.0.into_payload(ctx, next) {
            Ok(()) => match self.1.into_payload(ctx, next) {
            Ok(()) => match self.2.into_payload(ctx, next) {
            Ok(()) => self.3.into_payload(ctx, next),
            Err(e) => Err(e),
        },
            Err(e) => Err(e),
        },
            Err(e) => Err(e),
        };
        let out = close_into(next, res);
        proof {
            if res is Ok {
                assert(old(next).buf() + self.0.wire() + self.1.wire() + self.2.wire() + self.3.wire() =~= old(next).buf() + self.wire());
            }
            lemma_prefix_append(old(next).buf(), next.buf().skip(old(next).buf().len() as int));
            assert(old(next).buf() + next.buf().skip(old(next).buf().len() as int) =~= next.buf());
        }
        out
    }
}

impl<X, A: FromPayload<X>, B: FromPayload<X>, C: FromPayload<X>, D: FromPayload<X>> FromPayload<X> for (A, B, C, D) {
    fn from_payload<M: Middleware>(ctx: &mut X, next: &mut M) -> (r: Result<Self, Error>) {
        let ghost pre = *old(next);
        if let Err(e) = next.enter(Self::name()) {
            return Err(e);
        }
        let ghost s0 = *next;
        proof {
            assert(remaining(s0) =~= remaining(pre));
        }
        let v0 = match A::from_payload(ctx, next) {
            Ok(v) => v,
            Err(e) => {
                proof {
                    assert forall|u: (A, B, C, D)|
                        M::limitless() && (#[trigger] u.wire()).is_prefix_of(remaining(pre))
                            && u.wire().len() <= usize::MAX implies false by {
                        lemma_prefix_drop(u.0.wire(), u.1.wire() + (u.2.wire() + (u.3.wire())), remaining(s0));
                    };
                }
                return Err(next.wrap_from(e));
            },
        };
        let ghost s1 = *next;
        let v1 = match B::from_payload(ctx, next) {
            Ok(v) => v,
            Err(e) => {
                proof {
                    assert forall|u: (A, B, C, D)|
                        M::limitless() && (#[trigger] u.wire()).is_prefix_of(remaining(pre))
                            && u.wire().len() <= usize::MAX implies false by {
                        lemma_prefix_drop(u.0.wire(), u.1.wire() + (u.2.wire() + (u.3.wire())), remaining(s0));
                        assert(remaining(s1) =~= remaining(s0).skip(u.0.wire().len() as int));
                        lemma_prefix_drop(u.1.wire(), u.2.wire() + (u.3.wire()), remaining(s1));
                    };
                }
                return Err(next.wrap_from(e));
            },
        };
        let ghost s2 = *next;
        let v2 = match C::from_payload(ctx, next) {
            Ok(v) => v,
            Err(e) => {
                proof {
                    assert forall|u: (A, B, C, D)|
                        M::limitless() && (#[trigger] u.wire()).is_prefix_of(remaining(pre))
                            && u.wire().len() <= usize::MAX implies false by {
                        lemma_prefix_drop(u.0.wire(), u.1.wire() + (u.2.wire() + (u.3.wire())), remaining(s0));
                        assert(remaining(s1) =~= remaining(s0).skip(u.0.wire().len() as int));
                        lemma_prefix_drop(u.1.wire(), u.2.wire() + (u.3.wire()), remaining(s1));
                        assert(remaining(s2) =~= remaining(s1).skip(u.1.wire().len() as int));
                        lemma_prefix_drop(u.2.wire(), u.3.wire(), remaining(s2));
                    };
                }
                return Err(next.wrap_from(e));
            },
        };
        let ghost s3 = *next;
        let v3 = match D::from_payload(ctx, next) {
            Ok(v) => v,
            Err(e) => {
                proof {
                    assert forall|u: (A, B, C, D)|
                        M::limitless() && (#[trigger] u.wire()).is_prefix_of(remaining(pre))
                            && u.wire().len() <= usize::MAX implies false by {
                        lemma_prefix_drop(u.0.wire(), u.1.wire() + (u.2.wire() + (u.3.wire())), remaining(s0));
                        assert(remaining(s1) =~= remaining(s0).skip(u.0.wire().len() as int));
                        lemma_prefix_drop(u.1.wire(), u.2.wire() + (u.3.wire()), remaining(s1));
                        assert(remaining(s2) =~= remaining(s1).skip(u.1.wire().len() as int));
                        lemma_prefix_drop(u.2.wire(), u.3.wire(), remaining(s2));
                        assert(remaining(s3) =~= remaining(s2).skip(u.2.wire().len() as int));
                    };
                }
                return Err(next.wrap_from(e));
            },
        };
        let ghost s4 = *next;
        let out = close_from(next, Ok((v0, v1, v2, v3)));
        proof {
            assert forall|u: (A, B, C, D)|
                (#[trigger] u.wire()).is_prefix_of(remaining(pre))
                    && u.wire().len() <= usize::MAX implies (out matches Ok(res) && res.model()
                == u.model() && next.pos() == pre.pos() + u.wire().len()) by {
                        lemma_prefix_drop(u.0.wire(), u.1.wire() + (u.2.wire() + (u.3.wire())), remaining(s0));
                        assert(remaining(s1) =~= remaining(s0).skip(u.0.wire().len() as int));
                        lemma_prefix_drop(u.1.wire(), u.2.wire() + (u.3.wire()), remaining(s1));
                        assert(remaining(s2) =~= remaining(s1).skip(u.1.wire().len() as int));
                        lemma_prefix_drop(u.2.wire(), u.3.wire(), remaining(s2));
                        assert(remaining(s3) =~= remaining(s2).skip(u.2.wire().len() as int));
            };
        }
        out
    }
}

impl<X, A: Payload<X>, B: Payload<X>, C: Payload<X>, D: Payload<X>> Payload<X> for (A, B, C, D) {
}

impl<A: PayloadInfo, B: PayloadInfo, C: PayloadInfo, D: PayloadInfo, E: PayloadInfo> PayloadInfo for (A, B, C, D, E) {
    type Model = (A::Model, B::Model, C::Model, D::Model, E::Model);

    open spec fn model(&self) -> (A::Model, B::Model, C::Model, D::Model, E::Model) {
        (self.0.model(), self.1.model(), self.2.model(), self.3.model(), self.4.model())
    }

    open spec fn wire(&self) -> Seq<u8> {
        self.0.wire() + (self.1.wire() + (self.2.wire() + (self.3.wire() + (self.4.wire()))))
    }

    open spec fn nest_depth(&self) -> nat {
        1 + depth_max(self.0.nest_depth(), depth_max(self.1.nest_depth(), depth_max(self.2.nest_depth(), depth_max(self.3.nest_depth(), self.4.nest_depth()))))
    }

    open spec fn spec_name() -> Seq<char> {
        "tuple"@
    }

    open spec fn spec_fixed_size() -> Option<usize> {
        if A::spec_fixed_size() is Some && B::spec_fixed_size() is Some && C::spec_fixed_size() is Some && D::spec_fixed_size() is Some && E::spec_fixed_size() is Some {
            let total = A::spec_fixed_size()->0 + B::spec_fixed_size()->0 + C::spec_fixed_size()->0 + D::spec_fixed_size()->0 + E::spec_fixed_size()->0;
            if total <= usize::MAX {
                Some(total as usize)
            } else {
                None
            }
        } else {
            None
        }
    }

    fn name() -> (r: &'static str) {
        "tuple"
    }

    fn hash() -> (r: u64) {
        payload_hash(Self::name())
    }

    fn fixed_size() -> (r: Option<usize>) {
        let n0 = match A::fixed_size() {
            Some(v) => v,
            None => {
                return None;
            },
        };
        let n1 = match B::fixed_size() {
            Some(v) => v,
            None => {
                return None;
            },
        };
        let n2 = match C::fixed_size() {
            Some(v) => v,
            None => {
                return None;
            },
        };
        let n3 = match D::fixed_size() {
            Some(v) => v,
            None => {
                return None;
            },
        };
        let n4 = match E::fixed_size() {
            Some(v) => v,
            None => {
                return None;
            },
        };
        let mut acc: usize = n0;
        acc = match acc.checked_add(n1) {
            Some(v) => v,
            None => {
                return None;
            },
        };
        acc = match acc.checked_add(n2) {
            Some(v) => v,
            None => {
                return None;
            },
        };
        acc = match acc.checked_add(n3) {
            Some(v) => v,
            None => {
                return None;
            },
        };
        acc = match acc.checked_add(n4) {
            Some(v) => v,
            None => {
                return None;
            },
        };
        proof {
            assert forall|v: (A, B, C, D, E)| (#[trigger] v.wire()).len() == acc by {
                assert(v.0.wire().len() == n0);
                assert(v.1.wire().len() == n1);
                assert(v.2.wire().len() == n2);
                assert(v.3.wire().len() == n3);
                assert(v.4.wire().len() == n4);
            };
        }
        Some(acc)
    }
}

impl<X, A: IntoPayload<X>, B: IntoPayload<X>, C: IntoPayload<X>, D: IntoPayload<X>, E: IntoPayload<X>> IntoPayload<X> for (A, B, C, D, E) {
    fn into_payload<M: Middleware>(&self, ctx: &mut X, next: &mut M) -> (r: Result<(), Error>) {
        if let Err(e) = next.enter(Self::name()) {
            proof {
                lemma_prefix_append(old(next).buf(), Seq::empty());
                assert(old(next).buf() + Seq::<u8>::empty() =~= old(next).buf());
            }
            return Err(e);
        }
        let res: Result<(), Error> = match self.0.into_payload(ctx, next) {
            Ok(()) => match self.1.into_payload(ctx, next) {
            Ok(()) => match self.2.into_payload(ctx, next) {
            Ok(()) => match self.3.into_payload(ctx, next) {
            Ok(()) => self.4.into_payload(ctx, next),
            Err(e) => Err(e),
        },
            Err(e) => Err(e),
        },
            Err(e) => Err(e),
        },
            Err(e) => Err(e),
        };
        let out = close_into(next, res);
        proof {
            if res is Ok {
                assert(old(next).buf() + self.0.wire() + self.1.wire() + self.2.wire() + self.3.wire() + self.4.wire() =~= old(next).buf() + self.wire());
            }
            lemma_prefix_append(old(next).buf(), next.buf().skip(old(next).buf().len() as int));
            assert(old(next).buf() + next.buf().skip(old(next).buf().len() as int) =~= next.buf());
        }
        out
    }
}

impl<X, A: FromPayload<X>, B: FromPayload<X>, C: FromPayload<X>, D: FromPayload<X>, E: FromPayload<X>> FromPayload<X> for (A, B, C, D, E) {
    #[verifier::rlimit(100)]
    #[verifier::spinoff_prover]
    fn from_payload<M: Middleware>(ctx: &mut X, next: &mut M) -> (r: Result<Self, Error>) {
        let ghost pre = *old(next);
        if let Err(e) = next.enter(Self::name()) {
            return Err(e);
        }
        let ghost s0 = *next;
        proof {
            assert(remaining(s0) =~= remaining(pre));
        }
        let v0 = match A::from_payload(ctx, next) {
            Ok(v) => v,
            Err(e) => {
                proof {
                    assert forall|u: (A, B, C, D, E)|
                        M::limitless() && (#[trigger] u.wire()).is_prefix_of(remaining(pre))
                            && u.wire().len() <= usize::MAX implies false by {
                        lemma_prefix_drop(u.0.wire(), u.1.wire() + (u.2.wire() + (u.3.wire() + (u.4.wire()))), remaining(s0));
                    };
                }
                return Err(next.wrap_from(e));
            },
        };
        let ghost s1 = *next;
        let v1 = match B::from_payload(ctx, next) {
            Ok(v) => v,
            Err(e) => {
                proof {
                    assert forall|u: (A, B, C, D, E)|
                        M::limitless() && (#[trigger] u.wire()).is_prefix_of(remaining(pre))
                            && u.wire().len() <= usize::MAX implies false by {
                        lemma_prefix_drop(u.0.wire(), u.1.wire() + (u.2.wire() + (u.3.wire() + (u.4.wire()))), remaining(s0));
                        assert(remaining(s1) =~= remaining(s0).skip(u.0.wire().len() as int));
                        lemma_prefix_drop(u.1.wire(), u.2.wire() + (u.3.wire() + (u.4.wire())), remaining(s1));
                    };
                }
                return Err(next.wrap_from(e));
            },
        };
        let ghost s2 = *next;
        let v2 = match C::from_payload(ctx, next) {
            Ok(v) => v,
            Err(e) => {
                proof {
                    assert forall|u: (A, B, C, D, E)|
                        M::limitless() && (#[trigger] u.wire()).is_prefix_of(remaining(pre))
                            && u.wire().len() <= usize::MAX implies false by {
                        lemma_prefix_drop(u.0.wire(), u.1.wire() + (u.2.wire() + (u.3.wire() + (u.4.wire()))), remaining(s0));
                        assert(remaining(s1) =~= remaining(s0).skip(u.0.wire().len() as int));
                        lemma_prefix_drop(u.1.wire(), u.2.wire() + (u.3.wire() + (u.4.wire())), remaining(s1));
                        assert(remaining(s2) =~= remaining(s1).skip(u.1.wire().len() as int));
                        lemma_prefix_drop(u.2.wire(), u.3.wire() + (u.4.wire()), remaining(s2));
                    };
                }
                return Err(next.wrap_from(e));
            },
        };
        let ghost s3 = *next;
        let v3 = match D::from_payload(ctx, next) {
            Ok(v) => v,
            Err(e) => {
                proof {
                    assert forall|u: (A, B, C, D, E)|
                        M::limitless() && (#[trigger] u.wire()).is_prefix_of(remaining(pre))
                            && u.wire().len() <= usize::MAX implies false by {
                        lemma_prefix_drop(u.0.wire(), u.1.wire() + (u.2.wire() + (u.3.wire() + (u.4.wire()))), remaining(s0));
                        assert(remaining(s1) =~= remaining(s0).skip(u.0.wire().len() as int));
                        lemma_prefix_drop(u.1.wire(), u.2.wire() + (u.3.wire() + (u.4.wire())), remaining(s1));
                        assert(remaining(s2) =~= remaining(s1).skip(u.1.wire().len() as int));
                        lemma_prefix_drop(u.2.wire(), u.3.wire() + (u.4.wire()), remaining(s2));
                        assert(remaining(s3) =~= remaining(s2).skip(u.2.wire().len() as int));
                        lemma_prefix_drop(u.3.wire(), u.4.wire(), remaining(s3));
                    };
                }
                return Err(next.wrap_from(e));
            },
        };
        let ghost s4 = *next;
        let v4 = match E::from_payload(ctx, next) {
            Ok(v) => v,
            Err(e) => {
                proof {
                    assert forall|u: (A, B, C, D, E)|
                        M::limitless() && (#[trigger] u.wire()).is_prefix_of(remaining(pre))
                            && u.wire().len() <= usize::MAX implies false by {
                        lemma_prefix_drop(u.0.wire(), u.1.wire() + (u.2.wire() + (u.3.wire() + (u.4.wire()))), remaining(s0));
                        assert(remaining(s1) =~= remaining(s0).skip(u.0.wire().len() as int));
                        lemma_prefix_drop(u.1.wire(), u.2.wire() + (u.3.wire() + (u.4.wire())), remaining(s1));
                        assert(remaining(s2) =~= remaining(s1).skip(u.1.wire().len() as int));
                        lemma_prefix_drop(u.2.wire(), u.3.wire() + (u.4.wire()), remaining(s2));
                        assert(remaining(s3) =~= remaining(s2).skip(u.2.wire().len() as int));
                        lemma_prefix_drop(u.3.wire(), u.4.wire(), remaining(s3));
                        assert(remaining(s4) =~= remaining(s3).skip(u.3.wire().len() as int));
                    };
                }
                return Err(next.wrap_from(e));
            },
        };
        let ghost s5 = *next;
        let out = close_from(next, Ok((v0, v1, v2, v3, v4)));
        proof {
            assert forall|u: (A, B, C, D, E)|
                (#[trigger] u.wire()).is_prefix_of(remaining(pre))
                    && u.wire().len() <= usize::MAX implies (out matches Ok(res) && res.model()
                == u.model() && next.pos() == pre.pos() + u.wire().len()) by {
                        lemma_prefix_drop(u.0.wire(), u.1.wire() + (u.2.wire() + (u.3.wire() + (u.4.wire()))), remaining(s0));
                        assert(remaining(s1) =~= remaining(s0).skip(u.0.wire().len() as int));
                        lemma_prefix_drop(u.1.wire(), u.2.wire() + (u.3.wire() + (u.4.wire())), remaining(s1));
                        assert(remaining(s2) =~= remaining(s1).skip(u.1.wire().len() as int));
                        lemma_prefix_drop(u.2.wire(), u.3.wire() + (u.4.wire()), remaining(s2));
                        assert(remaining(s3) =~= remaining(s2).skip(u.2.wire().len() as int));
                        lemma_prefix_drop(u.3.wire(), u.4.wire(), remaining(s3));
                        assert(remaining(s4) =~= remaining(s3).skip(u.3.wire().len() as int));
            };
        }
        out
    }
}

impl<X, A: Payload<X>, B: Payload<X>, C: Payload<X>, D: Payload<X>, E: Payload<X>> Payload<X> for (A, B, C, D, E) {
}

impl<A: PayloadInfo, B: PayloadInfo, C: PayloadInfo, D: PayloadInfo, E: PayloadInfo, F: PayloadInfo> PayloadInfo for (A, B, C, D, E, F) {
    type Model = (A::Model, B::Model, C::Model, D::Model, E::Model, F::Model);

    open spec fn model(&self) -> (A::Model, B::Model, C::Model, D::Model, E::Model, F::Model) {
        (self.0.model(), self.1.model(), self.2.model(), self.3.model(), self.4.model(), self.5.model())
    }

    open spec fn wire(&self) -> Seq<u8> {
        self.0.wire() + (self.1.wire() + (self.2.wire() + (self.3.wire() + (self.4.wire() + (self.5.wire())))))
    }

    open spec fn nest_depth(&self) -> nat {
        1 + depth_max(self.0.nest_depth(), depth_max(self.1.nest_depth(), depth_max(self.2.nest_depth(), depth_max(self.3.nest_depth(), depth_max(self.4.nest_depth(), self.5.nest_depth())))))
    }

    open spec fn spec_name() -> Seq<char> {
        "tuple"@
    }

    open spec fn spec_fixed_size() -> Option<usize> {
        if A::spec_fixed_size() is Some && B::spec_fixed_size() is Some && C::spec_fixed_size() is Some && D::spec_fixed_size() is Some && E::spec_fixed_size() is Some && F::spec_fixed_size() is Some {
            let total = A::spec_fixed_size()->0 + B::spec_fixed_size()->0 + C::spec_fixed_size()->0 + D::spec_fixed_size()->0 + E::spec_fixed_size()->0 + F::spec_fixed_size()->0;
            if total <= usize::MAX {
                Some(total as usize)
            } else {
                None
            }
        } else {
            None
        }
    }

    fn name() -> (r: &'static str) {
        "tuple"
    }

    fn hash() -> (r: u64) {
        payload_hash(Self::name())
    }

    fn fixed_size() -> (r: Option<usize>) {
        let n0 = match A::fixed_size() {
            Some(v) => v,
            None => {
                return None;
            },
        };
        let n1 = match B::fixed_size() {
            Some(v) => v,
            None => {
                return None;
            },
        };
        let n2 = match C::fixed_size() {
            Some(v) => v,
            None => {
                return None;
            },
        };
        let n3 = match D::fixed_size() {
            Some(v) => v,
            None => {
                return None;
            },
        };
        let n4 = match E::fixed_size() {
            Some(v) => v,
            None => {
                return None;
            },
        };
        let n5 = match F::fixed_size() {
            Some(v) => v,
            None => {
                return None;
            },
        };
        let mut acc: usize = n0;
        acc = match acc.checked_add(n1) {
            Some(v) => v,
            None => {
                return None;
            },
        };
        acc = match acc.checked_add(n2) {
            Some(v) => v,
            None => {
                return None;
            },
        };
        acc = match acc.checked_add(n3) {
            Some(v) => v,
            None => {
                return None;
            },
        };
        acc = match acc.checked_add(n4) {
            Some(v) => v,
            None => {
                return None;
            },
        };
        acc = match acc.checked_add(n5) {
            Some(v) => v,
            None => {
                return None;
            },
        };
        proof {
            assert forall|v: (A, B, C, D, E, F)| (#[trigger] v.wire()).len() == acc by {
                assert(v.0.wire().len() == n0);
                assert(v.1.wire().len() == n1);
                assert(v.2.wire().len() == n2);
                assert(v.3.wire().len() == n3);
                assert(v.4.wire().len() == n4);
                assert(v.5.wire().len() == n5);
            };
        }
        Some(acc)
    }
}

impl<X, A: IntoPayload<X>, B: IntoPayload<X>, C: IntoPayload<X>, D: IntoPayload<X>, E: IntoPayload<X>, F: IntoPayload<X>> IntoPayload<X> for (A, B, C, D, E, F) {
    fn into_payload<M: Middleware>(&self, ctx: &mut X, next: &mut M) -> (r: Result<(), Error>) {
        if let Err(e) = next.enter(Self::name()) {
            proof {
                lemma_prefix_append(old(next).buf(), Seq::empty());
                assert(old(next).buf() + Seq::<u8>::empty() =~= old(next).buf());
            }
            return Err(e);
        }
        let res: Result<(), Error> = match self.0.into_payload(ctx, next) {
            Ok(()) => match self.1.into_payload(ctx, next) {
            Ok(()) => match self.2.into_payload(ctx, next) {
            Ok(()) => match self.3.into_payload(ctx, next) {
            Ok(()) => match self.4.into_payload(ctx, next) {
            Ok(()) => self.5.into_payload(ctx, next),
            Err(e) => Err(e),
        },
            Err(e) => Err(e),
        },
            Err(e) => Err(e),
        },
            Err(e) => Err(e),
        },
            Err(e) => Err(e),
        };
        let out = close_into(next, res);
        proof {
            if res is Ok {
                assert(old(next).buf() + self.0.wire() + self.1.wire() + self.2.wire() + self.3.wire() + self.4.wire() + self.5.wire() =~= old(next).buf() + self.wire());
            }
            lemma_prefix_append(old(next).buf(), next.buf().skip(old(next).buf().len() as int));
            assert(old(next).buf() + next.buf().skip(old(next).buf().len() as int) =~= next.buf());
        }
        out
    }
}

impl<X, A: FromPayload<X>, B: FromPayload<X>, C: FromPayload<X>, D: FromPayload<X>, E: FromPayload<X>, F: FromPayload<X>> FromPayload<X> for (A, B, C, D, E, F) {
    #[verifier::rlimit(100)]
    #[verifier::spinoff_prover]
    fn from_payload<M: Middleware>(ctx: &mut X, next: &mut M) -> (r: Result<Self, Error>) {
        let ghost pre = *old(next);
        if let Err(e) = next.enter(Self::name()) {
            return Err(e);
        }
        let ghost s0 = *next;
        proof {
            assert(remaining(s0) =~= remaining(pre));
        }
        let v0 = match A::from_payload(ctx, next) {
            Ok(v) => v,
            Err(e) => {
                proof {
                    assert forall|u: (A, B, C, D, E, F)|
                        M::limitless() && (#[trigger] u.wire()).is_prefix_of(remaining(pre))
                            && u.wire().len() <= usize::MAX implies false by {
                        lemma_prefix_drop(u.0.wire(), u.1.wire() + (u.2.wire() + (u.3.wire() + (u.4.wire() + (u.5.wire())))), remaining(s0));
                    };
                }
                return Err(next.wrap_from(e));
            },
        };
        let ghost s1 = *next;
        let v1 = match B::from_payload(ctx, next) {
            Ok(v) => v,
            Err(e) => {
                proof {
                    assert forall|u: (A, B, C, D, E, F)|
                        M::limitless() && (#[trigger] u.wire()).is_prefix_of(remaining(pre))
                            && u.wire().len() <= usize::MAX implies false by {
                        lemma_prefix_drop(u.0.wire(), u.1.wire() + (u.2.wire() + (u.3.wire() + (u.4.wire() + (u.5.wire())))), remaining(s0));
                        assert(remaining(s1) =~= remaining(s0).skip(u.0.wire().len() as int));
                        lemma_prefix_drop(u.1.wire(), u.2.wire() + (u.3.wire() + (u.4.wire() + (u.5.wire()))), remaining(s1));
                    };
                }
                return Err(next.wrap_from(e));
            },
        };
        let ghost s2 = *next;
        let v2 = match C::from_payload(ctx, next) {
            Ok(v) => v,
            Err(e) => {
                proof {
                    assert forall|u: (A, B, C, D, E, F)|
                        M::limitless() && (#[trigger] u.wire()).is_prefix_of(remaining(pre))
                            && u.wire().len() <= usize::MAX implies false by {
                        lemma_prefix_drop(u.0.wire(), u.1.wire() + (u.2.wire() + (u.3.wire() + (u.4.wire() + (u.5.wire())))), remaining(s0));
                        assert(remaining(s1) =~= remaining(s0).skip(u.0.wire().len() as int));
                        lemma_prefix_drop(u.1.wire(), u.2.wire() + (u.3.wire() + (u.4.wire() + (u.5.wire()))), remaining(s1));
                        assert(remaining(s2) =~= remaining(s1).skip(u.1.wire().len() as int));
                        lemma_prefix_drop(u.2.wire(), u.3.wire() + (u.4.wire() + (u.5.wire())), remaining(s2));
                    };
                }
                return Err(next.wrap_from(e));
            },
        };
        let ghost s3 = *next;
        let v3 = match D::from_payload(ctx, next) {
            Ok(v) => v,
            Err(e) => {
                proof {
                    assert forall|u: (A, B, C, D, E, F)|
                        M::limitless() && (#[trigger] u.wire()).is_prefix_of(remaining(pre))
                            && u.wire().len() <= usize::MAX implies false by {
                        lemma_prefix_drop(u.0.wire(), u.1.wire() + (u.2.wire() + (u.3.wire() + (u.4.wire() + (u.5.wire())))), remaining(s0));
                        assert(remaining(s1) =~= remaining(s0).skip(u.0.wire().len() as int));
                        lemma_prefix_drop(u.1.wire(), u.2.wire() + (u.3.wire() + (u.4.wire() + (u.5.wire()))), remaining(s1));
                        assert(remaining(s2) =~= remaining(s1).skip(u.1.wire().len() as int));
                        lemma_prefix_drop(u.2.wire(), u.3.wire() + (u.4.wire() + (u.5.wire())), remaining(s2));
                        assert(remaining(s3) =~= remaining(s2).skip(u.2.wire().len() as int));
                        lemma_prefix_drop(u.3.wire(), u.4.wire() + (u.5.wire()), remaining(s3));
                    };
                }
                return Err(next.wrap_from(e));
            },
        };
        let ghost s4 = *next;
        let v4 = match E::from_payload(ctx, next) {
            Ok(v) => v,
            Err(e) => {
                proof {
                    assert forall|u: (A, B, C, D, E, F)|
                        M::limitless() && (#[trigger] u.wire()).is_prefix_of(remaining(pre))
                            && u.wire().len() <= usize::MAX implies false by {
                        lemma_prefix_drop(u.0.wire(), u.1.wire() + (u.2.wire() + (u.3.wire() + (u.4.wire() + (u.5.wire())))), remaining(s0));
                        assert(remaining(s1) =~= remaining(s0).skip(u.0.wire().len() as int));
                        lemma_prefix_drop(u.1.wire(), u.2.wire() + (u.3.wire() + (u.4.wire() + (u.5.wire()))), remaining(s1));
                        assert(remaining(s2) =~= remaining(s1).skip(u.1.wire().len() as int));
                        lemma_prefix_drop(u.2.wire(), u.3.wire() + (u.4.wire() + (u.5.wire())), remaining(s2));
                        assert(remaining(s3) =~= remaining(s2).skip(u.2.wire().len() as int));
                        lemma_prefix_drop(u.3.wire(), u.4.wire() + (u.5.wire()), remaining(s3));
                        assert(remaining(s4) =~= remaining(s3).skip(u.3.wire().len() as int));
                        lemma_prefix_drop(u.4.wire(), u.5.wire(), remaining(s4));
                    };
                }
                return Err(next.wrap_from(e));
            },
        };
        let ghost s5 = *next;
        let v5 = match F::from_payload(ctx, next) {
            Ok(v) => v,
            Err(e) => {
                proof {
                    assert forall|u: (A, B, C, D, E, F)|
                        M::limitless() && (#[trigger] u.wire()).is_prefix_of(remaining(pre))
                            && u.wire().len() <= usize::MAX implies false by {
                        lemma_prefix_drop(u.0.wire(), u.1.wire() + (u.2.wire() + (u.3.wire() + (u.4.wire() + (u.5.wire())))), remaining(s0));
                        assert(remaining(s1) =~= remaining(s0).skip(u.0.wire().len() as int));
                        lemma_prefix_drop(u.1.wire(), u.2.wire() + (u.3.wire() + (u.4.wire() + (u.5.wire()))), remaining(s1));
                        assert(remaining(s2) =~= remaining(s1).skip(u.1.wire().len() as int));
                        lemma_prefix_drop(u.2.wire(), u.3.wire() + (u.4.wire() + (u.5.wire())), remaining(s2));
                        assert(remaining(s3) =~= remaining(s2).skip(u.2.wire().len() as int));
                        lemma_prefix_drop(u.3.wire(), u.4.wire() + (u.5.wire()), remaining(s3));
                        assert(remaining(s4) =~= remaining(s3).skip(u.3.wire().len() as int));
                        lemma_prefix_drop(u.4.wire(), u.5.wire(), remaining(s4));
                        assert(remaining(s5) =~= remaining(s4).skip(u.4.wire().len() as int));
                    };
                }
                return Err(next.wrap_from(e));
            },
        };
        let ghost s6 = *next;
        let out = close_from(next, Ok((v0, v1, v2, v3, v4, v5)));
        proof {
            assert forall|u: (A, B, C, D, E, F)|
                (#[trigger] u.wire()).is_prefix_of(remaining(pre))
                    && u.wire().len() <= usize::MAX implies (out matches Ok(res) && res.model()
                == u.model() && next.pos() == pre.pos() + u.wire().len()) by {
                        lemma_prefix_drop(u.0.wire(), u.1.wire() + (u.2.wire() + (u.3.wire() + (u.4.wire() + (u.5.wire())))), remaining(s0));
                        assert(remaining(s1) =~= remaining(s0).skip(u.0.wire().len() as int));
                        lemma_prefix_drop(u.1.wire(), u.2.wire() + (u.3.wire() + (u.4.wire() + (u.5.wire()))), remaining(s1));
                        assert(remaining(s2) =~= remaining(s1).skip(u.1.wire().len() as int));
                        lemma_prefix_drop(u.2.wire(), u.3.wire() + (u.4.wire() + (u.5.wire())), remaining(s2));
                        assert(remaining(s3) =~= remaining(s2).skip(u.2.wire().len() as int));
                        lemma_prefix_drop(u.3.wire(), u.4.wire() + (u.5.wire()), remaining(s3));
                        assert(remaining(s4) =~= remaining(s3).skip(u.3.wire().len() as int));
                        lemma_prefix_drop(u.4.wire(), u.5.wire(), remaining(s4));
                        assert(remaining(s5) =~= remaining(s4).skip(u.4.wire().len() as int));
            };
        }
        out
    }
}

impl<X, A: Payload<X>, B: Payload<X>, C: Payload<X>, D: Payload<X>, E: Payload<X>, F: Payload<X>> Payload<X> for (A, B, C, D, E, F) {
}

impl<A: PayloadInfo, B: PayloadInfo, C: PayloadInfo, D: PayloadInfo, E: PayloadInfo, F: PayloadInfo, G: PayloadInfo> PayloadInfo for (A, B, C, D, E, F, G) {
    type Model = (A::Model, B::Model, C::Model, D::Model, E::Model, F::Model, G::Model);

    open spec fn model(&self) -> (A::Model, B::Model, C::Model, D::Model, E::Model, F::Model, G::Model) {
        (self.0.model(), self.1.model(), self.2.model(), self.3.model(), self.4.model(), self.5.model(), self.6.model())
    }

    open spec fn wire(&self) -> Seq<u8> {
        self.0.wire() + (self.1.wire() + (self.2.wire() + (self.3.wire() + (self.4.wire() + (self.5.wire() + (self.6.wire()))))))
    }

    open spec fn nest_depth(&self) -> nat {
        1 + depth_max(self.0.nest_depth(), depth_max(self.1.nest_depth(), depth_max(self.2.nest_depth(), depth_max(self.3.nest_depth(), depth_max(self.4.nest_depth(), depth_max(self.5.nest_depth(), self.6.nest_depth()))))))
    }

    open spec fn spec_name() -> Seq<char> {
        "tuple"@
    }

    open spec fn spec_fixed_size() -> Option<usize> {
        if A::spec_fixed_size() is Some && B::spec_fixed_size() is Some && C::spec_fixed_size() is Some && D::spec_fixed_size() is Some && E::spec_fixed_size() is Some && F::spec_fixed_size() is Some && G::spec_fixed_size() is Some {
            let total = A::spec_fixed_size()->0 + B::spec_fixed_size()->0 + C::spec_fixed_size()->0 + D::spec_fixed_size()->0 + E::spec_fixed_size()->0 + F::spec_fixed_size()->0 + G::spec_fixed_size()->0;
            if total <= usize::MAX {
                Some(total as usize)
            } else {
                None
            }
        } else {
            None
        }
    }

    fn name() -> (r: &'static str) {
        "tuple"
    }

    fn hash() -> (r: u64) {
        payload_hash(Self::name())
    }

    fn fixed_size() -> (r: Option<usize>) {
        let n0 = match A::fixed_size() {
            Some(v) => v,
            None => {
                return None;
            },
        };
        let n1 = match B::fixed_size() {
            Some(v) => v,
            None => {
                return None;
            },
        };
        let n2 = match C::fixed_size() {
            Some(v) => v,
            None => {
                return None;
            },
        };
        let n3 = match D::fixed_size() {
            Some(v) => v,
            None => {
                return None;
            },
        };
        let n4 = match E::fixed_size() {
            Some(v) => v,
            None => {
                return None;
            },
        };
        let n5 = match F::fixed_size() {
            Some(v) => v,
            None => {
                return None;
            },
        };
        let n6 = match G::fixed_size() {
            Some(v) => v,
            None => {
                return None;
            },
        };
        let mut acc: usize = n0;
        acc = match acc.checked_add(n1) {
            Some(v) => v,
            None => {
                return None;
            },
        };
        acc = match acc.checked_add(n2) {
            Some(v) => v,
            None => {
                return None;
            },
        };
        acc = match acc.checked_add(n3) {
            Some(v) => v,
            None => {
                return None;
            },
        };
        acc = match acc.checked_add(n4) {
            Some(v) => v,
            None => {
                return None;
            },
        };
        acc = match acc.checked_add(n5) {
            Some(v) => v,
            None => {
                return None;
            },
        };
        acc = match acc.checked_add(n6) {
            Some(v) => v,
            None => {
                return None;
            },
        };
        proof {
            assert forall|v: (A, B, C, D, E, F, G)| (#[trigger] v.wire()).len() == acc by {
                assert(v.0.wire().len() == n0);
                assert(v.1.wire().len() == n1);
                assert(v.2.wire().len() == n2);
                assert(v.3.wire().len() == n3);
                assert(v.4.wire().len() == n4);
                assert(v.5.wire().len() == n5);
                assert(v.6.wire().len() == n6);
            };
        }
        Some(acc)
    }
}

impl<X, A: IntoPayload<X>, B: IntoPayload<X>, C: IntoPayload<X>, D: IntoPayload<X>, E: IntoPayload<X>, F: IntoPayload<X>, G: IntoPayload<X>> IntoPayload<X> for (A, B, C, D, E, F, G) {
    fn into_payload<M: Middleware>(&self, ctx: &mut X, next: &mut M) -> (r: Result<(), Error>) {
        if let Err(e) = next.enter(Self::name()) {
            proof {
                lemma_prefix_append(old(next).buf(), Seq::empty());
                assert(old(next).buf() + Seq::<u8>::empty() =~= old(next).buf());
            }
            return Err(e);
        }
        let res: Result<(), Error> = match self.0.into_payload(ctx, next) {
            Ok(()) => match self.1.into_payload(ctx, next) {
            Ok(()) => match self.2.into_payload(ctx, next) {
            Ok(()) => match self.3.into_payload(ctx, next) {
            Ok(()) => match self.4.into_payload(ctx, next) {
            Ok(()) => match self.5.into_payload(ctx, next) {
            Ok(()) => self.6.into_payload(ctx, next),
            Err(e) => Err(e),
        },
            Err(e) => Err(e),
        },
            Err(e) => Err(e),
        },
            Err(e) => Err(e),
        },
            Err(e) => Err(e),
        },
            Err(e) => Err(e),
        };
        let out = close_into(next, res);
        proof {
            if res is Ok {
                assert(old(next).buf() + self.0.wire() + self.1.wire() + self.2.wire() + self.3.wire() + self.4.wire() + self.5.wire() + self.6.wire() =~= old(next).buf() + self.wire());
            }
            lemma_prefix_append(old(next).buf(), next.buf().skip(old(next).buf().len() as int));
            assert(old(next).buf() + next.buf().skip(old(next).buf().len() as int) =~= next.buf());
        }
        out
    }
}

impl<X, A: FromPayload<X>, B: FromPayload<X>, C: FromPayload<X>, D: FromPayload<X>, E: FromPayload<X>, F: FromPayload<X>, G: FromPayload<X>> FromPayload<X> for (A, B, C, D, E, F, G) {
    #[verifier::rlimit(100)]
    #[verifier::spinoff_prover]
    fn from_payload<M: Middleware>(ctx: &mut X, next: &mut M) -> (r: Result<Self, Error>) {
        let ghost pre = *old(next);
        if let Err(e) = next.enter(Self::name()) {
            return Err(e);
        }
        let ghost s0 = *next;
        proof {
            assert(remaining(s0) =~= remaining(pre));
        }
        let v0 = match A::from_payload(ctx, next) {
            Ok(v) => v,
            Err(e) => {
                proof {
                    assert forall|u: (A, B, C, D, E, F, G)|
                        M::limitless() && (#[trigger] u.wire()).is_prefix_of(remaining(pre))
                            && u.wire().len() <= usize::MAX implies false by {
                        lemma_prefix_drop(u.0.wire(), u.1.wire() + (u.2.wire() + (u.3.wire() + (u.4.wire() + (u.5.wire() + (u.6.wire()))))), remaining(s0));
                    };
                }
                return Err(next.wrap_from(e));
            },
        };
        let ghost s1 = *next;
        let v1 = match B::from_payload(ctx, next) {
            Ok(v) => v,
            Err(e) => {
                proof {
                    assert forall|u: (A, B, C, D, E, F, G)|
                        M::limitless() && (#[trigger] u.wire()).is_prefix_of(remaining(pre))
                            && u.wire().len() <= usize::MAX implies false by {
                        lemma_prefix_drop(u.0.wire(), u.1.wire() + (u.2.wire() + (u.3.wire() + (u.4.wire() + (u.5.wire() + (u.6.wire()))))), remaining(s0));
                        assert(remaining(s1) =~= remaining(s0).skip(u.0.wire().len() as int));
                        lemma_prefix_drop(u.1.wire(), u.2.wire() + (u.3.wire() + (u.4.wire() + (u.5.wire() + (u.6.wire())))), remaining(s1));
                    };
                }
                return Err(next.wrap_from(e));
            },
        };
        let ghost s2 = *next;
        let v2 = match C::from_payload(ctx, next) {
            Ok(v) => v,
            Err(e) => {
                proof {
                    assert forall|u: (A, B, C, D, E, F, G)|
                        M::limitless() && (#[trigger] u.wire()).is_prefix_of(remaining(pre))
                            && u.wire().len() <= usize::MAX implies false by {
                        lemma_prefix_drop(u.0.wire(), u.1.wire() + (u.2.wire() + (u.3.wire() + (u.4.wire() + (u.5.wire() + (u.6.wire()))))), remaining(s0));
                        assert(remaining(s1) =~= remaining(s0).skip(u.0.wire().len() as int));
                        lemma_prefix_drop(u.1.wire(), u.2.wire() + (u.3.wire() + (u.4.wire() + (u.5.wire() + (u.6.wire())))), remaining(s1));
                        assert(remaining(s2) =~= remaining(s1).skip(u.1.wire().len() as int));
                        lemma_prefix_drop(u.2.wire(), u.3.wire() + (u.4.wire() + (u.5.wire() + (u.6.wire()))), remaining(s2));
                    };
                }
                return Err(next.wrap_from(e));
            },
        };
        let ghost s3 = *next;
        let v3 = match D::from_payload(ctx, next) {
            Ok(v) => v,
            Err(e) => {
                proof {
                    assert forall|u: (A, B, C, D, E, F, G)|
                        M::limitless() && (#[trigger] u.wire()).is_prefix_of(remaining(pre))
                            && u.wire().len() <= usize::MAX implies false by {
                        lemma_prefix_drop(u.0.wire(), u.1.wire() + (u.2.wire() + (u.3.wire() + (u.4.wire() + (u.5.wire() + (u.6.wire()))))), remaining(s0));
                        assert(remaining(s1) =~= remaining(s0).skip(u.0.wire().len() as int));
                        lemma_prefix_drop(u.1.wire(), u.2.wire() + (u.3.wire() + (u.4.wire() + (u.5.wire() + (u.6.wire())))), remaining(s1));
                        assert(remaining(s2) =~= remaining(s1).skip(u.1.wire().len() as int));
                        lemma_prefix_drop(u.2.wire(), u.3.wire() + (u.4.wire() + (u.5.wire() + (u.6.wire()))), remaining(s2));
                        assert(remaining(s3) =~= remaining(s2).skip(u.2.wire().len() as int));
                        lemma_prefix_drop(u.3.wire(), u.4.wire() + (u.5.wire() + (u.6.wire())), remaining(s3));
                    };
                }
                return Err(next.wrap_from(e));
            },
        };
        let ghost s4 = *next;
        let v4 = match E::from_payload(ctx, next) {
            Ok(v) => v,
            Err(e) => {
                proof {
                    assert forall|u: (A, B, C, D, E, F, G)|
                        M::limitless() && (#[trigger] u.wire()).is_prefix_of(remaining(pre))
                            && u.wire().len() <= usize::MAX implies false by {
                        lemma_prefix_drop(u.0.wire(), u.1.wire() + (u.2.wire() + (u.3.wire() + (u.4.wire() + (u.5.wire() + (u.6.wire()))))), remaining(s0));
                        assert(remaining(s1) =~= remaining(s0).skip(u.0.wire().len() as int));
                        lemma_prefix_drop(u.1.wire(), u.2.wire() + (u.3.wire() + (u.4.wire() + (u.5.wire() + (u.6.wire())))), remaining(s1));
                        assert(remaining(s2) =~= remaining(s1).skip(u.1.wire().len() as int));
                        lemma_prefix_drop(u.2.wire(), u.3.wire() + (u.4.wire() + (u.5.wire() + (u.6.wire()))), remaining(s2));
                        assert(remaining(s3) =~= remaining(s2).skip(u.2.wire().len() as int));
                        lemma_prefix_drop(u.3.wire(), u.4.wire() + (u.5.wire() + (u.6.wire())), remaining(s3));
                        assert(remaining(s4) =~= remaining(s3).skip(u.3.wire().len() as int));
                        lemma_prefix_drop(u.4.wire(), u.5.wire() + (u.6.wire()), remaining(s4));
                    };
                }
                return Err(next.wrap_from(e));
            },
        };
        let ghost s5 = *next;
        let v5 = match F::from_payload(ctx, next) {
            Ok(v) => v,
            Err(e) => {
                proof {
                    assert forall|u: (A, B, C, D, E, F, G)|
                        M::limitless() && (#[trigger] u.wire()).is_prefix_of(remaining(pre))
                            && u.wire().len() <= usize::MAX implies false by {
                        lemma_prefix_drop(u.0.wire(), u.1.wire() + (u.2.wire() + (u.3.wire() + (u.4.wire() + (u.5.wire() + (u.6.wire()))))), remaining(s0));
                        assert(remaining(s1) =~= remaining(s0).skip(u.0.wire().len() as int));
                        lemma_prefix_drop(u.1.wire(), u.2.wire() + (u.3.wire() + (u.4.wire() + (u.5.wire() + (u.6.wire())))), remaining(s1));
                        assert(remaining(s2) =~= remaining(s1).skip(u.1.wire().len() as int));
                        lemma_prefix_drop(u.2.wire(), u.3.wire() + (u.4.wire() + (u.5.wire() + (u.6.wire()))), remaining(s2));
                        assert(remaining(s3) =~= remaining(s2).skip(u.2.wire().len() as int));
                        lemma_prefix_drop(u.3.wire(), u.4.wire() + (u.5.wire() + (u.6.wire())), remaining(s3));
                        assert(remaining(s4) =~= remaining(s3).skip(u.3.wire().len() as int));
                        lemma_prefix_drop(u.4.wire(), u.5.wire() + (u.6.wire()), remaining(s4));
                        assert(remaining(s5) =~= remaining(s4).skip(u.4.wire().len() as int));
                        lemma_prefix_drop(u.5.wire(), u.6.wire(), remaining(s5));
                    };
                }
                return Err(next.wrap_from(e));
            },
        };
        let ghost s6 = *next;
        let v6 = match G::from_payload(ctx, next) {
            Ok(v) => v,
            Err(e) => {
                proof {
                    assert forall|u: (A, B, C, D, E, F, G)|
                        M::limitless() && (#[trigger] u.wire()).is_prefix_of(remaining(pre))
                            && u.wire().len() <= usize::MAX implies false by {
                        lemma_prefix_drop(u.0.wire(), u.1.wire() + (u.2.wire() + (u.3.wire() + (u.4.wire() + (u.5.wire() + (u.6.wire()))))), remaining(s0));
                        assert(remaining(s1) =~= remaining(s0).skip(u.0.wire().len() as int));
                        lemma_prefix_drop(u.1.wire(), u.2.wire() + (u.3.wire() + (u.4.wire() + (u.5.wire() + (u.6.wire())))), remaining(s1));
                        assert(remaining(s2) =~= remaining(s1).skip(u.1.wire().len() as int));
                        lemma_prefix_drop(u.2.wire(), u.3.wire() + (u.4.wire() + (u.5.wire() + (u.6.wire()))), remaining(s2));
                        assert(remaining(s3) =~= remaining(s2).skip(u.2.wire().len() as int));
                        lemma_prefix_drop(u.3.wire(), u.4.wire() + (u.5.wire() + (u.6.wire())), remaining(s3));
                        assert(remaining(s4) =~= remaining(s3).skip(u.3.wire().len() as int));
                        lemma_prefix_drop(u.4.wire(), u.5.wire() + (u.6.wire()), remaining(s4));
                        assert(remaining(s5) =~= remaining(s4).skip(u.4.wire().len() as int));
                        lemma_prefix_drop(u.5.wire(), u.6.wire(), remaining(s5));
                        assert(remaining(s6) =~= remaining(s5).skip(u.5.wire().len() as int));
                    };
                }
                return Err(next.wrap_from(e));
            },
        };
        let ghost s7 = *next;
        let out = close_from(next, Ok((v0, v1, v2, v3, v4, v5, v6)));
        proof {
            assert forall|u: (A, B, C, D, E, F, G)|
                (#[trigger] u.wire()).is_prefix_of(remaining(pre))
                    && u.wire().len() <= usize::MAX implies (out matches Ok(res) && res.model()
                == u.model() && next.pos() == pre.pos() + u.wire().len()) by {
                        lemma_prefix_drop(u.0.wire(), u.1.wire() + (u.2.wire() + (u.3.wire() + (u.4.wire() + (u.5.wire() + (u.6.wire()))))), remaining(s0));
                        assert(remaining(s1) =~= remaining(s0).skip(u.0.wire().len() as int));
                        lemma_prefix_drop(u.1.wire(), u.2.wire() + (u.3.wire() + (u.4.wire() + (u.5.wire() + (u.6.wire())))), remaining(s1));
                        assert(remaining(s2) =~= remaining(s1).skip(u.1.wire().len() as int));
                        lemma_prefix_drop(u.2.wire(), u.3.wire() + (u.4.wire() + (u.5.wire() + (u.6.wire()))), remaining(s2));
                        assert(remaining(s3) =~= remaining(s2).skip(u.2.wire().len() as int));
                        lemma_prefix_drop(u.3.wire(), u.4.wire() + (u.5.wire() + (u.6.wire())), remaining(s3));
                        assert(remaining(s4) =~= remaining(s3).skip(u.3.wire().len() as int));
                        lemma_prefix_drop(u.4.wire(), u.5.wire() + (u.6.wire()), remaining(s4));
                        assert(remaining(s5) =~= remaining(s4).skip(u.4.wire().len() as int));
                        lemma_prefix_drop(u.5.wire(), u.6.wire(), remaining(s5));
                        assert(remaining(s6) =~= remaining(s5).skip(u.5.wire().len() as int));
            };
        }
        out
    }
}

impl<X, A: Payload<X>, B: Payload<X>, C: Payload<X>, D: Payload<X>, E: Payload<X>, F: Payload<X>, G: Payload<X>> Payload<X> for (A, B, C, D, E, F, G) {
}

impl<A: PayloadInfo, B: PayloadInfo, C: PayloadInfo, D: PayloadInfo, E: PayloadInfo, F: PayloadInfo, G: PayloadInfo, H: PayloadInfo> PayloadInfo for (A, B, C, D, E, F, G, H) {
    type Model = (A::Model, B::Model, C::Model, D::Model, E::Model, F::Model, G::Model, H::Model);

    open spec fn model(&self) -> (A::Model, B::Model, C::Model, D::Model, E::Model, F::Model, G::Model, H::Model) {
        (self.0.model(), self.1.model(), self.2.model(), self.3.model(), self.4.model(), self.5.model(), self.6.model(), self.7.model())
    }

    open spec fn wire(&self) -> Seq<u8> {
        self.0.wire() + (self.1.wire() + (self.2.wire() + (self.3.wire() + (self.4.wire() + (self.5.wire() + (self.6.wire() + (self.7.wire())))))))
    }

    open spec fn nest_depth(&self) -> nat {
        1 + depth_max(self.0.nest_depth(), depth_max(self.1.nest_depth(), depth_max(self.2.nest_depth(), depth_max(self.3.nest_depth(), depth_max(self.4.nest_depth(), depth_max(self.5.nest_depth(), depth_max(self.6.nest_depth(), self.7.nest_depth())))))))
    }

    open spec fn spec_name() -> Seq<char> {
        "tuple"@
    }

    open spec fn spec_fixed_size() -> Option<usize> {
        if A::spec_fixed_size() is Some && B::spec_fixed_size() is Some && C::spec_fixed_size() is Some && D::spec_fixed_size() is Some && E::spec_fixed_size() is Some && F::spec_fixed_size() is Some && G::spec_fixed_size() is Some && H::spec_fixed_size() is Some {
            let total = A::spec_fixed_size()->0 + B::spec_fixed_size()->0 + C::spec_fixed_size()->0 + D::spec_fixed_size()->0 + E::spec_fixed_size()->0 + F::spec_fixed_size()->0 + G::spec_fixed_size()->0 + H::spec_fixed_size()->0;
            if total <= usize::MAX {
                Some(total as usize)
            } else {
                None
            }
        } else {
            None
        }
    }

    fn name() -> (r: &'static str) {
        "tuple"
    }

    fn hash() -> (r: u64) {
        payload_hash(Self::name())
    }

    fn fixed_size() -> (r: Option<usize>) {
        let n0 = match A::fixed_size() {
            Some(v) => v,
            None => {
                return None;
            },
        };
        let n1 = match B::fixed_size() {
            Some(v) => v,
            None => {
                return None;
            },
        };
        let n2 = match C::fixed_size() {
            Some(v) => v,
            None => {
                return None;
            },
        };
        let n3 = match D::fixed_size() {
            Some(v) => v,
            None => {
                return None;
            },
        };
        let n4 = match E::fixed_size() {
            Some(v) => v,
            None => {
                return None;
            },
        };
        let n5 = match F::fixed_size() {
            Some(v) => v,
            None => {
                return None;
            },
        };
        let n6 = match G::fixed_size() {
            Some(v) => v,
            None => {
                return None;
            },
        };
        let n7 = match H::fixed_size() {
            Some(v) => v,
            None => {
                return None;
            },
        };
        let mut acc: usize = n0;
        acc = match acc.checked_add(n1) {
            Some(v) => v,
            None => {
                return None;
            },
        };
        acc = match acc.checked_add(n2) {
            Some(v) => v,
            None => {
                return None;
            },
        };
        acc = match acc.checked_add(n3) {
            Some(v) => v,
            None => {
                return None;
            },
        };
        acc = match acc.checked_add(n4) {
            Some(v) => v,
            None => {
                return None;
            },
        };
        acc = match acc.checked_add(n5) {
            Some(v) => v,
            None => {
                return None;
            },
        };
        acc = match acc.checked_add(n6) {
            Some(v) => v,
            None => {
                return None;
            },
        };
        acc = match acc.checked_add(n7) {
            Some(v) => v,
            None => {
                return None;
            },
        };
        proof {
            assert forall|v: (A, B, C, D, E, F, G, H)| (#[trigger] v.wire()).len() == acc by {
                assert(v.0.wire().len() == n0);
                assert(v.1.wire().len() == n1);
                assert(v.2.wire().len() == n2);
                assert(v.3.wire().len() == n3);
                assert(v.4.wire().len() == n4);
                assert(v.5.wire().len() == n5);
                assert(v.6.wire().len() == n6);
                assert(v.7.wire().len() == n7);
            };
        }
        Some(acc)
    }
}

impl<X, A: IntoPayload<X>, B: IntoPayload<X>, C: IntoPayload<X>, D: IntoPayload<X>, E: IntoPayload<X>, F: IntoPayload<X>, G: IntoPayload<X>, H: IntoPayload<X>> IntoPayload<X> for (A, B, C, D, E, F, G, H) {
    fn into_payload<M: Middleware>(&self, ctx: &mut X, next: &mut M) -> (r: Result<(), Error>) {
        if let Err(e) = next.enter(Self::name()) {
            proof {
                lemma_prefix_append(old(next).buf(), Seq::empty());
                assert(old(next).buf() + Seq::<u8>::empty() =~= old(next).buf());
            }
            return Err(e);
        }
        let res: Result<(), Error> = match self.0.into_payload(ctx, next) {
            Ok(()) => match self.1.into_payload(ctx, next) {
            Ok(()) => match self.2.into_payload(ctx, next) {
            Ok(()) => match self.3.into_payload(ctx, next) {
            Ok(()) => match self.4.into_payload(ctx, next) {
            Ok(()) => match self.5.into_payload(ctx, next) {
            Ok(()) => match self.6.into_payload(ctx, next) {
            Ok(()) => self.7.into_payload(ctx, next),
            Err(e) => Err(e),
        },
            Err(e) => Err(e),
        },
            Err(e) => Err(e),
        },
            Err(e) => Err(e),
        },
            Err(e) => Err(e),
        },
            Err(e) => Err(e),
        },
            Err(e) => Err(e),
        };
        let out = close_into(next, res);
        proof {
            if res is Ok {
                assert(old(next).buf() + self.0.wire() + self.1.wire() + self.2.wire() + self.3.wire() + self.4.wire() + self.5.wire() + self.6.wire() + self.7.wire() =~= old(next).buf() + self.wire());
            }
            lemma_prefix_append(old(next).buf(), next.buf().skip(old(next).buf().len() as int));
            assert(old(next).buf() + next.buf().skip(old(next).buf().len() as int) =~= next.buf());
        }
        out
    }
}


/// Eight decodes in sequence, each complete, make the eight-tuple decode
/// complete: the chain of consumed wire forms matches any eight-tuple whose
/// wire form begins the unread bytes.
#[verifier::rlimit(100)]
#[verifier::spinoff_prover]
proof fn lemma_tuple8_decode<
    X,
    M: Middleware,
    A: FromPayload<X>,
    B: FromPayload<X>,
    C: FromPayload<X>,
    D: FromPayload<X>,
    E: FromPayload<X>,
    F: FromPayload<X>,
    G: FromPayload<X>,
    H: FromPayload<X>,
>(
    s0: M,
    s1: M,
    s2: M,
    s3: M,
    s4: M,
    s5: M,
    s6: M,
    s7: M,
    s8: M,
    v0: A,
    v1: B,
    v2: C,
    v3: D,
    v4: E,
    v5: F,
    v6: G,
    v7: H,
)
    requires
        s0.pos() <= s0.buf().len(),
        s1.buf() == s0.buf(),
        s2.buf() == s0.buf(),
        s3.buf() == s0.buf(),
        s4.buf() == s0.buf(),
        s5.buf() == s0.buf(),
        s6.buf() == s0.buf(),
        s7.buf() == s0.buf(),
        s8.buf() == s0.buf(),
        decode_sound::<M, A>(s0, s1, Ok(v0)),
        decode_sound::<M, B>(s1, s2, Ok(v1)),
        decode_sound::<M, C>(s2, s3, Ok(v2)),
        decode_sound::<M, D>(s3, s4, Ok(v3)),
        decode_sound::<M, E>(s4, s5, Ok(v4)),
        decode_sound::<M, F>(s5, s6, Ok(v5)),
        decode_sound::<M, G>(s6, s7, Ok(v6)),
        decode_sound::<M, H>(s7, s8, Ok(v7)),
    ensures
        forall|u: (A, B, C, D, E, F, G, H)|
            (#[trigger] u.wire()).is_prefix_of(remaining(s0)) && u.wire().len()
                <= usize::MAX ==> ((v0, v1, v2, v3, v4, v5, v6, v7).model() == u.model()
                && s8.pos() == s0.pos() + u.wire().len()),
{
    assert forall|u: (A, B, C, D, E, F, G, H)|
        (#[trigger] u.wire()).is_prefix_of(remaining(s0)) && u.wire().len()
            <= usize::MAX implies ((v0, v1, v2, v3, v4, v5, v6, v7).model() == u.model()
        && s8.pos() == s0.pos() + u.wire().len()) by {
        lemma_prefix_drop(u.0.wire(), u.1.wire() + (u.2.wire() + (u.3.wire() + (u.4.wire() + (
        u.5.wire() + (u.6.wire() + (u.7.wire())))))), remaining(s0));
        assert(remaining(s1) =~= remaining(s0).skip(u.0.wire().len() as int));
        lemma_prefix_drop(u.1.wire(), u.2.wire() + (u.3.wire() + (u.4.wire() + (u.5.wire() + (
        u.6.wire() + (u.7.wire()))))), remaining(s1));
        assert(remaining(s2) =~= remaining(s1).skip(u.1.wire().len() as int));
        lemma_prefix_drop(u.2.wire(), u.3.wire() + (u.4.wire() + (u.5.wire() + (u.6.wire() + (
        u.7.wire())))), remaining(s2));
        assert(remaining(s3) =~= remaining(s2).skip(u.2.wire().len() as int));
        lemma_prefix_drop(u.3.wire(), u.4.wire() + (u.5.wire() + (u.6.wire() + (u.7.wire()))),
            remaining(s3));
        assert(remaining(s4) =~= remaining(s3).skip(u.3.wire().len() as int));
        lemma_prefix_drop(u.4.wire(), u.5.wire() + (u.6.wire() + (u.7.wire())), remaining(s4));
        assert(remaining(s5) =~= remaining(s4).skip(u.4.wire().len() as int));
        lemma_prefix_drop(u.5.wire(), u.6.wire() + (u.7.wire()), remaining(s5));
        assert(remaining(s6) =~= remaining(s5).skip(u.5.wire().len() as int));
        lemma_prefix_drop(u.6.wire(), u.7.wire(), remaining(s6));
        assert(remaining(s7) =~= remaining(s6).skip(u.6.wire().len() as int));
        assert(u.7.wire().is_prefix_of(remaining(s7)));
    };
}


/// After 0 complete decodes of an eight-tuple's leading components, any
/// candidate tuple's next component wire form stands at the cursor.
#[verifier::rlimit(100)]
#[verifier::spinoff_prover]
proof fn lemma_tuple8_upto0<
    X,
    M: Middleware,
    A: FromPayload<X>,
    B: FromPayload<X>,
    C: FromPayload<X>,
    D: FromPayload<X>,
    E: FromPayload<X>,
    F: FromPayload<X>,
    G: FromPayload<X>,
    H: FromPayload<X>,
>(
    s0: M,
)
    requires
        s0.pos() <= s0.buf().len(),
    ensures
        forall|u: (A, B, C, D, E, F, G, H)|
            (#[trigger] u.wire()).is_prefix_of(remaining(s0)) && u.wire().len()
                <= usize::MAX ==> (u.0.wire().is_prefix_of(remaining(s0)) && u.0.wire().len()
                <= usize::MAX),
{
    assert forall|u: (A, B, C, D, E, F, G, H)|
        (#[trigger] u.wire()).is_prefix_of(remaining(s0)) && u.wire().len()
            <= usize::MAX implies (u.0.wire().is_prefix_of(remaining(s0)) && u.0.wire().len()
        <= usize::MAX) by {
        lemma_prefix_drop(u.0.wire(), u.1.wire() + (u.2.wire() + (u.3.wire() + (u.4.wire() + (u.5.wire() + (u.6.wire() + (u.7.wire())))))), remaining(s0));
    };
}

/// After 1 complete decodes of an eight-tuple's leading components, any
/// candidate tuple's next component wire form stands at the cursor.
#[verifier::rlimit(100)]
#[verifier::spinoff_prover]
proof fn lemma_tuple8_upto1<
    X,
    M: Middleware,
    A: FromPayload<X>,
    B: FromPayload<X>,
    C: FromPayload<X>,
    D: FromPayload<X>,
    E: FromPayload<X>,
    F: FromPayload<X>,
    G: FromPayload<X>,
    H: FromPayload<X>,
>(
    s0: M,
    s1: M,
    v0: A,
)
    requires
        s0.pos() <= s0.buf().len(),
        s1.buf() == s0.buf(),
        decode_sound::<M, A>(s0, s1, Ok(v0)),
    ensures
        forall|u: (A, B, C, D, E, F, G, H)|
            (#[trigger] u.wire()).is_prefix_of(remaining(s0)) && u.wire().len()
                <= usize::MAX ==> (u.1.wire().is_prefix_of(remaining(s1)) && u.1.wire().len()
                <= usize::MAX),
{
    assert forall|u: (A, B, C, D, E, F, G, H)|
        (#[trigger] u.wire()).is_prefix_of(remaining(s0)) && u.wire().len()
            <= usize::MAX implies (u.1.wire().is_prefix_of(remaining(s1)) && u.1.wire().len()
        <= usize::MAX) by {
        lemma_prefix_drop(u.0.wire(), u.1.wire() + (u.2.wire() + (u.3.wire() + (u.4.wire() + (u.5.wire() + (u.6.wire() + (u.7.wire())))))), remaining(s0));
        assert(remaining(s1) =~= remaining(s0).skip(u.0.wire().len() as int));
        lemma_prefix_drop(u.1.wire(), u.2.wire() + (u.3.wire() + (u.4.wire() + (u.5.wire() + (u.6.wire() + (u.7.wire()))))), remaining(s1));
    };
}

/// After 2 complete decodes of an eight-tuple's leading components, any
/// candidate tuple's next component wire form stands at the cursor.
#[verifier::rlimit(100)]
#[verifier::spinoff_prover]
proof fn lemma_tuple8_upto2<
    X,
    M: Middleware,
    A: FromPayload<X>,
    B: FromPayload<X>,
    C: FromPayload<X>,
    D: FromPayload<X>,
    E: FromPayload<X>,
    F: FromPayload<X>,
    G: FromPayload<X>,
    H: FromPayload<X>,
>(
    s0: M,
    s1: M,
    s2: M,
    v0: A,
    v1: B,
)
    requires
        s0.pos() <= s0.buf().len(),
        s1.buf() == s0.buf(),
        s2.buf() == s0.buf(),
        decode_sound::<M, A>(s0, s1, Ok(v0)),
        decode_sound::<M, B>(s1, s2, Ok(v1)),
    ensures
        forall|u: (A, B, C, D, E, F, G, H)|
            (#[trigger] u.wire()).is_prefix_of(remaining(s0)) && u.wire().len()
                <= usize::MAX ==> (u.2.wire().is_prefix_of(remaining(s2)) && u.2.wire().len()
                <= usize::MAX),
{
    assert forall|u: (A, B, C, D, E, F, G, H)|
        (#[trigger] u.wire()).is_prefix_of(remaining(s0)) && u.wire().len()
            <= usize::MAX implies (u.2.wire().is_prefix_of(remaining(s2)) && u.2.wire().len()
        <= usize::MAX) by {
        lemma_prefix_drop(u.0.wire(), u.1.wire() + (u.2.wire() + (u.3.wire() + (u.4.wire() + (u.5.wire() + (u.6.wire() + (u.7.wire())))))), remaining(s0));
        assert(remaining(s1) =~= remaining(s0).skip(u.0.wire().len() as int));
        lemma_prefix_drop(u.1.wire(), u.2.wire() + (u.3.wire() + (u.4.wire() + (u.5.wire() + (u.6.wire() + (u.7.wire()))))), remaining(s1));
        assert(remaining(s2) =~= remaining(s1).skip(u.1.wire().len() as int));
        lemma_prefix_drop(u.2.wire(), u.3.wire() + (u.4.wire() + (u.5.wire() + (u.6.wire() + (u.7.wire())))), remaining(s2));
    };
}

/// After 3 complete decodes of an eight-tuple's leading components, any
/// candidate tuple's next component wire form stands at the cursor.
#[verifier::rlimit(100)]
#[verifier::spinoff_prover]
proof fn lemma_tuple8_upto3<
    X,
    M: Middleware,
    A: FromPayload<X>,
    B: FromPayload<X>,
    C: FromPayload<X>,
    D: FromPayload<X>,
    E: FromPayload<X>,
    F: FromPayload<X>,
    G: FromPayload<X>,
    H: FromPayload<X>,
>(
    s0: M,
    s1: M,
    s2: M,
    s3: M,
    v0: A,
    v1: B,
    v2: C,
)
    requires
        s0.pos() <= s0.buf().len(),
        s1.buf() == s0.buf(),
        s2.buf() == s0.buf(),
        s3.buf() == s0.buf(),
        decode_sound::<M, A>(s0, s1, Ok(v0)),
        decode_sound::<M, B>(s1, s2, Ok(v1)),
        decode_sound::<M, C>(s2, s3, Ok(v2)),
    ensures
        forall|u: (A, B, C, D, E, F, G, H)|
            (#[trigger] u.wire()).is_prefix_of(remaining(s0)) && u.wire().len()
                <= usize::MAX ==> (u.3.wire().is_prefix_of(remaining(s3)) && u.3.wire().len()
                <= usize::MAX),
{
    assert forall|u: (A, B, C, D, E, F, G, H)|
        (#[trigger] u.wire()).is_prefix_of(remaining(s0)) && u.wire().len()
            <= usize::MAX implies (u.3.wire().is_prefix_of(remaining(s3)) && u.3.wire().len()
        <= usize::MAX) by {
        lemma_prefix_drop(u.0.wire(), u.1.wire() + (u.2.wire() + (u.3.wire() + (u.4.wire() + (u.5.wire() + (u.6.wire() + (u.7.wire())))))), remaining(s0));
        assert(remaining(s1) =~= remaining(s0).skip(u.0.wire().len() as int));
        lemma_prefix_drop(u.1.wire(), u.2.wire() + (u.3.wire() + (u.4.wire() + (u.5.wire() + (u.6.wire() + (u.7.wire()))))), remaining(s1));
        assert(remaining(s2) =~= remaining(s1).skip(u.1.wire().len() as int));
        lemma_prefix_drop(u.2.wire(), u.3.wire() + (u.4.wire() + (u.5.wire() + (u.6.wire() + (u.7.wire())))), remaining(s2));
        assert(remaining(s3) =~= remaining(s2).skip(u.2.wire().len() as int));
        lemma_prefix_drop(u.3.wire(), u.4.wire() + (u.5.wire() + (u.6.wire() + (u.7.wire()))), remaining(s3));
    };
}

/// After 4 complete decodes of an eight-tuple's leading components, any
/// candidate tuple's next component wire form stands at the cursor.
#[verifier::rlimit(100)]
#[verifier::spinoff_prover]
proof fn lemma_tuple8_upto4<
    X,
    M: Middleware,
    A: FromPayload<X>,
    B: FromPayload<X>,
    C: FromPayload<X>,
    D: FromPayload<X>,
    E: FromPayload<X>,
    F: FromPayload<X>,
    G: FromPayload<X>,
    H: FromPayload<X>,
>(
    s0: M,
    s1: M,
    s2: M,
    s3: M,
    s4: M,
    v0: A,
    v1: B,
    v2: C,
    v3: D,
)
    requires
        s0.pos() <= s0.buf().len(),
        s1.buf() == s0.buf(),
        s2.buf() == s0.buf(),
        s3.buf() == s0.buf(),
        s4.buf() == s0.buf(),
        decode_sound::<M, A>(s0, s1, Ok(v0)),
        decode_sound::<M, B>(s1, s2, Ok(v1)),
        decode_sound::<M, C>(s2, s3, Ok(v2)),
        decode_sound::<M, D>(s3, s4, Ok(v3)),
    ensures
        forall|u: (A, B, C, D, E, F, G, H)|
            (#[trigger] u.wire()).is_prefix_of(remaining(s0)) && u.wire().len()
                <= usize::MAX ==> (u.4.wire().is_prefix_of(remaining(s4)) && u.4.wire().len()
                <= usize::MAX),
{
    assert forall|u: (A, B, C, D, E, F, G, H)|
        (#[trigger] u.wire()).is_prefix_of(remaining(s0)) && u.wire().len()
            <= usize::MAX implies (u.4.wire().is_prefix_of(remaining(s4)) && u.4.wire().len()
        <= usize::MAX) by {
        lemma_prefix_drop(u.0.wire(), u.1.wire() + (u.2.wire() + (u.3.wire() + (u.4.wire() + (u.5.wire() + (u.6.wire() + (u.7.wire())))))), remaining(s0));
        assert(remaining(s1) =~= remaining(s0).skip(u.0.wire().len() as int));
        lemma_prefix_drop(u.1.wire(), u.2.wire() + (u.3.wire() + (u.4.wire() + (u.5.wire() + (u.6.wire() + (u.7.wire()))))), remaining(s1));
        assert(remaining(s2) =~= remaining(s1).skip(u.1.wire().len() as int));
        lemma_prefix_drop(u.2.wire(), u.3.wire() + (u.4.wire() + (u.5.wire() + (u.6.wire() + (u.7.wire())))), remaining(s2));
        assert(remaining(s3) =~= remaining(s2).skip(u.2.wire().len() as int));
        lemma_prefix_drop(u.3.wire(), u.4.wire() + (u.5.wire() + (u.6.wire() + (u.7.wire()))), remaining(s3));
        assert(remaining(s4) =~= remaining(s3).skip(u.3.wire().len() as int));
        lemma_prefix_drop(u.4.wire(), u.5.wire() + (u.6.wire() + (u.7.wire())), remaining(s4));
    };
}

/// After 5 complete decodes of an eight-tuple's leading components, any
/// candidate tuple's next component wire form stands at the cursor.
#[verifier::rlimit(100)]
#[verifier::spinoff_prover]
proof fn lemma_tuple8_upto5<
    X,
    M: Middleware,
    A: FromPayload<X>,
    B: FromPayload<X>,
    C: FromPayload<X>,
    D: FromPayload<X>,
    E: FromPayload<X>,
    F: FromPayload<X>,
    G: FromPayload<X>,
    H: FromPayload<X>,
>(
    s0: M,
    s1: M,
    s2: M,
    s3: M,
    s4: M,
    s5: M,
    v0: A,
    v1: B,
    v2: C,
    v3: D,
    v4: E,
)
    requires
        s0.pos() <= s0.buf().len(),
        s1.buf() == s0.buf(),
        s2.buf() == s0.buf(),
        s3.buf() == s0.buf(),
        s4.buf() == s0.buf(),
        s5.buf() == s0.buf(),
        decode_sound::<M, A>(s0, s1, Ok(v0)),
        decode_sound::<M, B>(s1, s2, Ok(v1)),
        decode_sound::<M, C>(s2, s3, Ok(v2)),
        decode_sound::<M, D>(s3, s4, Ok(v3)),
        decode_sound::<M, E>(s4, s5, Ok(v4)),
    ensures
        forall|u: (A, B, C, D, E, F, G, H)|
            (#[trigger] u.wire()).is_prefix_of(remaining(s0)) && u.wire().len()
                <= usize::MAX ==> (u.5.wire().is_prefix_of(remaining(s5)) && u.5.wire().len()
                <= usize::MAX),
{
    assert forall|u: (A, B, C, D, E, F, G, H)|
        (#[trigger] u.wire()).is_prefix_of(remaining(s0)) && u.wire().len()
            <= usize::MAX implies (u.5.wire().is_prefix_of(remaining(s5)) && u.5.wire().len()
        <= usize::MAX) by {
        lemma_prefix_drop(u.0.wire(), u.1.wire() + (u.2.wire() + (u.3.wire() + (u.4.wire() + (u.5.wire() + (u.6.wire() + (u.7.wire())))))), remaining(s0));
        assert(remaining(s1) =~= remaining(s0).skip(u.0.wire().len() as int));
        lemma_prefix_drop(u.1.wire(), u.2.wire() + (u.3.wire() + (u.4.wire() + (u.5.wire() + (u.6.wire() + (u.7.wire()))))), remaining(s1));
        assert(remaining(s2) =~= remaining(s1).skip(u.1.wire().len() as int));
        lemma_prefix_drop(u.2.wire(), u.3.wire() + (u.4.wire() + (u.5.wire() + (u.6.wire() + (u.7.wire())))), remaining(s2));
        assert(remaining(s3) =~= remaining(s2).skip(u.2.wire().len() as int));
        lemma_prefix_drop(u.3.wire(), u.4.wire() + (u.5.wire() + (u.6.wire() + (u.7.wire()))), remaining(s3));
        assert(remaining(s4) =~= remaining(s3).skip(u.3.wire().len() as int));
        lemma_prefix_drop(u.4.wire(), u.5.wire() + (u.6.wire() + (u.7.wire())), remaining(s4));
        assert(remaining(s5) =~= remaining(s4).skip(u.4.wire().len() as int));
        lemma_prefix_drop(u.5.wire(), u.6.wire() + (u.7.wire()), remaining(s5));
    };
}

/// After 6 complete decodes of an eight-tuple's leading components, any
/// candidate tuple's next component wire form stands at the cursor.
#[verifier::rlimit(100)]
#[verifier::spinoff_prover]
proof fn lemma_tuple8_upto6<
    X,
    M: Middleware,
    A: FromPayload<X>,
    B: FromPayload<X>,
    C: FromPayload<X>,
    D: FromPayload<X>,
    E: FromPayload<X>,
    F: FromPayload<X>,
    G: FromPayload<X>,
    H: FromPayload<X>,
>(
    s0: M,
    s1: M,
    s2: M,
    s3: M,
    s4: M,
    s5: M,
    s6: M,
    v0: A,
    v1: B,
    v2: C,
    v3: D,
    v4: E,
    v5: F,
)
    requires
        s0.pos() <= s0.buf().len(),
        s1.buf() == s0.buf(),
        s2.buf() == s0.buf(),
        s3.buf() == s0.buf(),
        s4.buf() == s0.buf(),
        s5.buf() == s0.buf(),
        s6.buf() == s0.buf(),
        decode_sound::<M, A>(s0, s1, Ok(v0)),
        decode_sound::<M, B>(s1, s2, Ok(v1)),
        decode_sound::<M, C>(s2, s3, Ok(v2)),
        decode_sound::<M, D>(s3, s4, Ok(v3)),
        decode_sound::<M, E>(s4, s5, Ok(v4)),
        decode_sound::<M, F>(s5, s6, Ok(v5)),
    ensures
        forall|u: (A, B, C, D, E, F, G, H)|
            (#[trigger] u.wire()).is_prefix_of(remaining(s0)) && u.wire().len()
                <= usize::MAX ==> (u.6.wire().is_prefix_of(remaining(s6)) && u.6.wire().len()
                <= usize::MAX),
{
    assert forall|u: (A, B, C, D, E, F, G, H)|
        (#[trigger] u.wire()).is_prefix_of(remaining(s0)) && u.wire().len()
            <= usize::MAX implies (u.6.wire().is_prefix_of(remaining(s6)) && u.6.wire().len()
        <= usize::MAX) by {
        lemma_prefix_drop(u.0.wire(), u.1.wire() + (u.2.wire() + (u.3.wire() + (u.4.wire() + (u.5.wire() + (u.6.wire() + (u.7.wire())))))), remaining(s0));
        assert(remaining(s1) =~= remaining(s0).skip(u.0.wire().len() as int));
        lemma_prefix_drop(u.1.wire(), u.2.wire() + (u.3.wire() + (u.4.wire() + (u.5.wire() + (u.6.wire() + (u.7.wire()))))), remaining(s1));
        assert(remaining(s2) =~= remaining(s1).skip(u.1.wire().len() as int));
        lemma_prefix_drop(u.2.wire(), u.3.wire() + (u.4.wire() + (u.5.wire() + (u.6.wire() + (u.7.wire())))), remaining(s2));
        assert(remaining(s3) =~= remaining(s2).skip(u.2.wire().len() as int));
        lemma_prefix_drop(u.3.wire(), u.4.wire() + (u.5.wire() + (u.6.wire() + (u.7.wire()))), remaining(s3));
        assert(remaining(s4) =~= remaining(s3).skip(u.3.wire().len() as int));
        lemma_prefix_drop(u.4.wire(), u.5.wire() + (u.6.wire() + (u.7.wire())), remaining(s4));
        assert(remaining(s5) =~= remaining(s4).skip(u.4.wire().len() as int));
        lemma_prefix_drop(u.5.wire(), u.6.wire() + (u.7.wire()), remaining(s5));
        assert(remaining(s6) =~= remaining(s5).skip(u.5.wire().len() as int));
        lemma_prefix_drop(u.6.wire(), u.7.wire(), remaining(s6));
    };
}

/// After 7 complete decodes of an eight-tuple's leading components, any
/// candidate tuple's next component wire form stands at the cursor.
#[verifier::rlimit(100)]
#[verifier::spinoff_prover]
proof fn lemma_tuple8_upto7<
    X,
    M: Middleware,
    A: FromPayload<X>,
    B: FromPayload<X>,
    C: FromPayload<X>,
    D: FromPayload<X>,
    E: FromPayload<X>,
    F: FromPayload<X>,
    G: FromPayload<X>,
    H: FromPayload<X>,
>(
    s0: M,
    s1: M,
    s2: M,
    s3: M,
    s4: M,
    s5: M,
    s6: M,
    s7: M,
    v0: A,
    v1: B,
    v2: C,
    v3: D,
    v4: E,
    v5: F,
    v6: G,
)
    requires
        s0.pos() <= s0.buf().len(),
        s1.buf() == s0.buf(),
        s2.buf() == s0.buf(),
        s3.buf() == s0.buf(),
        s4.buf() == s0.buf(),
        s5.buf() == s0.buf(),
        s6.buf() == s0.buf(),
        s7.buf() == s0.buf(),
        decode_sound::<M, A>(s0, s1, Ok(v0)),
        decode_sound::<M, B>(s1, s2, Ok(v1)),
        decode_sound::<M, C>(s2, s3, Ok(v2)),
        decode_sound::<M, D>(s3, s4, Ok(v3)),
        decode_sound::<M, E>(s4, s5, Ok(v4)),
        decode_sound::<M, F>(s5, s6, Ok(v5)),
        decode_sound::<M, G>(s6, s7, Ok(v6)),
    ensures
        forall|u: (A, B, C, D, E, F, G, H)|
            (#[trigger] u.wire()).is_prefix_of(remaining(s0)) && u.wire().len()
                <= usize::MAX ==> (u.7.wire().is_prefix_of(remaining(s7)) && u.7.wire().len()
                <= usize::MAX),
{
    assert forall|u: (A, B, C, D, E, F, G, H)|
        (#[trigger] u.wire()).is_prefix_of(remaining(s0)) && u.wire().len()
            <= usize::MAX implies (u.7.wire().is_prefix_of(remaining(s7)) && u.7.wire().len()
        <= usize::MAX) by {
        lemma_prefix_drop(u.0.wire(), u.1.wire() + (u.2.wire() + (u.3.wire() + (u.4.wire() + (u.5.wire() + (u.6.wire() + (u.7.wire())))))), remaining(s0));
        assert(remaining(s1) =~= remaining(s0).skip(u.0.wire().len() as int));
        lemma_prefix_drop(u.1.wire(), u.2.wire() + (u.3.wire() + (u.4.wire() + (u.5.wire() + (u.6.wire() + (u.7.wire()))))), remaining(s1));
        assert(remaining(s2) =~= remaining(s1).skip(u.1.wire().len() as int));
        lemma_prefix_drop(u.2.wire(), u.3.wire() + (u.4.wire() + (u.5.wire() + (u.6.wire() + (u.7.wire())))), remaining(s2));
        assert(remaining(s3) =~= remaining(s2).skip(u.2.wire().len() as int));
        lemma_prefix_drop(u.3.wire(), u.4.wire() + (u.5.wire() + (u.6.wire() + (u.7.wire()))), remaining(s3));
        assert(remaining(s4) =~= remaining(s3).skip(u.3.wire().len() as int));
        lemma_prefix_drop(u.4.wire(), u.5.wire() + (u.6.wire() + (u.7.wire())), remaining(s4));
        assert(remaining(s5) =~= remaining(s4).skip(u.4.wire().len() as int));
        lemma_prefix_drop(u.5.wire(), u.6.wire() + (u.7.wire()), remaining(s5));
        assert(remaining(s6) =~= remaining(s5).skip(u.5.wire().len() as int));
        lemma_prefix_drop(u.6.wire(), u.7.wire(), remaining(s6));
        assert(remaining(s7) =~= remaining(s6).skip(u.6.wire().len() as int));
    };
}

impl<X, A: FromPayload<X>, B: FromPayload<X>, C: FromPayload<X>, D: FromPayload<X>, E: FromPayload<X>, F: FromPayload<X>, G: FromPayload<X>, H: FromPayload<X>> FromPayload<X> for (A, B, C, D, E, F, G, H) {
    #[verifier::rlimit(100)]
    #[verifier::spinoff_prover]
    fn from_payload<M: Middleware>(ctx: &mut X, next: &mut M) -> (r: Result<Self, Error>) {
        let ghost pre = *old(next);
        if let Err(e) = next.enter(Self::name()) {
            return Err(e);
        }
        let ghost s0 = *next;
        proof {
            assert(remaining(s0) =~= remaining(pre));
        }
        let v0 = match A::from_payload(ctx, next) {
            Ok(v) => v,
            Err(e) => {
                proof {
                    lemma_tuple8_upto0::<X, M, A, B, C, D, E, F, G, H>(s0);
                    assert forall|u: (A, B, C, D, E, F, G, H)|
                        M::limitless() && (#[trigger] u.wire()).is_prefix_of(remaining(pre))
                            && u.wire().len() <= usize::MAX implies false by {
                        assert(u.0.wire().is_prefix_of(remaining(s0)));
                    };
                }
                return Err(next.wrap_from(e));
            },
        };
        let ghost s1 = *next;
        let v1 = match B::from_payload(ctx, next) {
            Ok(v) => v,
            Err(e) => {
                proof {
                    lemma_tuple8_upto1::<X, M, A, B, C, D, E, F, G, H>(s0, s1, v0);
                    assert forall|u: (A, B, C, D, E, F, G, H)|
                        M::limitless() && (#[trigger] u.wire()).is_prefix_of(remaining(pre))
                            && u.wire().len() <= usize::MAX implies false by {
                        assert(u.1.wire().is_prefix_of(remaining(s1)));
                    };
                }
                return Err(next.wrap_from(e));
            },
        };
        let ghost s2 = *next;
        let v2 = match C::from_payload(ctx, next) {
            Ok(v) => v,
            Err(e) => {
                proof {
                    lemma_tuple8_upto2::<X, M, A, B, C, D, E, F, G, H>(s0, s1, s2, v0, v1);
                    assert forall|u: (A, B, C, D, E, F, G, H)|
                        M::limitless() && (#[trigger] u.wire()).is_prefix_of(remaining(pre))
                            && u.wire().len() <= usize::MAX implies false by {
                        assert(u.2.wire().is_prefix_of(remaining(s2)));
                    };
                }
                return Err(next.wrap_from(e));
            },
        };
        let ghost s3 = *next;
        let v3 = match D::from_payload(ctx, next) {
            Ok(v) => v,
            Err(e) => {
                proof {
                    lemma_tuple8_upto3::<X, M, A, B, C, D, E, F, G, H>(s0, s1, s2, s3, v0, v1, v2);
                    assert forall|u: (A, B, C, D, E, F, G, H)|
                        M::limitless() && (#[trigger] u.wire()).is_prefix_of(remaining(pre))
                            && u.wire().len() <= usize::MAX implies false by {
                        assert(u.3.wire().is_prefix_of(remaining(s3)));
                    };
                }
                return Err(next.wrap_from(e));
            },
        };
        let ghost s4 = *next;
        let v4 = match E::from_payload(ctx, next) {
            Ok(v) => v,
            Err(e) => {
                proof {
                    lemma_tuple8_upto4::<X, M, A, B, C, D, E, F, G, H>(s0, s1, s2, s3, s4, v0, v1, v2, v3);
                    assert forall|u: (A, B, C, D, E, F, G, H)|
                        M::limitless() && (#[trigger] u.wire()).is_prefix_of(remaining(pre))
                            && u.wire().len() <= usize::MAX implies false by {
                        assert(u.4.wire().is_prefix_of(remaining(s4)));
                    };
                }
                return Err(next.wrap_from(e));
            },
        };
        let ghost s5 = *next;
        let v5 = match F::from_payload(ctx, next) {
            Ok(v) => v,
            Err(e) => {
                proof {
                    lemma_tuple8_upto5::<X, M, A, B, C, D, E, F, G, H>(s0, s1, s2, s3, s4, s5, v0, v1, v2, v3, v4);
                    assert forall|u: (A, B, C, D, E, F, G, H)|
                        M::limitless() && (#[trigger] u.wire()).is_prefix_of(remaining(pre))
                            && u.wire().len() <= usize::MAX implies false by {
                        assert(u.5.wire().is_prefix_of(remaining(s5)));
                    };
                }
                return Err(next.wrap_from(e));
            },
        };
        let ghost s6 = *next;
        let v6 = match G::from_payload(ctx, next) {
            Ok(v) => v,
            Err(e) => {
                proof {
                    lemma_tuple8_upto6::<X, M, A, B, C, D, E, F, G, H>(s0, s1, s2, s3, s4, s5, s6, v0, v1, v2, v3, v4, v5);
                    assert forall|u: (A, B, C, D, E, F, G, H)|
                        M::limitless() && (#[trigger] u.wire()).is_prefix_of(remaining(pre))
                            && u.wire().len() <= usize::MAX implies false by {
                        assert(u.6.wire().is_prefix_of(remaining(s6)));
                    };
                }
                return Err(next.wrap_from(e));
            },
        };
        let ghost s7 = *next;
        let v7 = match H::from_payload(ctx, next) {
            Ok(v) => v,
            Err(e) => {
                proof {
                    lemma_tuple8_upto7::<X, M, A, B, C, D, E, F, G, H>(s0, s1, s2, s3, s4, s5, s6, s7, v0, v1, v2, v3, v4, v5, v6);
                    assert forall|u: (A, B, C, D, E, F, G, H)|
                        M::limitless() && (#[trigger] u.wire()).is_prefix_of(remaining(pre))
                            && u.wire().len() <= usize::MAX implies false by {
                        assert(u.7.wire().is_prefix_of(remaining(s7)));
                    };
                }
                return Err(next.wrap_from(e));
            },
        };
        let ghost s8 = *next;
        let out = close_from(next, Ok((v0, v1, v2, v3, v4, v5, v6, v7)));
        proof {
            lemma_tuple8_decode::<X, M, A, B, C, D, E, F, G, H>(
                s0,
                s1,
                s2,
                s3,
                s4,
                s5,
                s6,
                s7,
                s8,
                v0,
                v1,
                v2,
                v3,
                v4,
                v5,
                v6,
                v7,
            );
        }
        out
    }
}

impl<X, A: Payload<X>, B: Payload<X>, C: Payload<X>, D: Payload<X>, E: Payload<X>, F: Payload<X>, G: Payload<X>, H: Payload<X>> Payload<X> for (A, B, C, D, E, F, G, H) {
}

} // verus!
