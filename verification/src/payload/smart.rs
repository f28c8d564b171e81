//! Payload implementations for owning pointers: a box is transparent on the
//! wire, carrying exactly its contents' form.

use vstd::prelude::*;

verus! {

use crate::FromPayload;
use crate::IntoPayload;
use crate::Middleware;
use crate::Payload;
use crate::PayloadInfo;
use crate::close_from;
use crate::error::Error;
use crate::info::payload_hash;
use crate::lemma_prefix_append;
use crate::remaining;
use std::rc::Rc;
use std::sync::Arc;

impl<T: PayloadInfo> PayloadInfo for Box<T> {
    type Model = T::Model;

    open spec fn model(&self) -> T::Model {
        (**self).model()
    }

    open spec fn wire(&self) -> Seq<u8> {
        (**self).wire()
    }

    open spec fn nest_depth(&self) -> nat {
        1 + (**self).nest_depth()
    }

    open spec fn spec_name() -> Seq<char> {
        "Box<T>"@
    }

    open spec fn spec_fixed_size() -> Option<usize> {
        T::spec_fixed_size()
    }

    fn name() -> (r: &'static str) {
        "Box<T>"
    }

    fn hash() -> (r: u64) {
        payload_hash(Self::name())
    }

    fn fixed_size() -> (r: Option<usize>) {
        let inner = T::fixed_size();
        proof {
            if inner is Some {
                let ghost n = inner->0;
                assert forall|v: Box<T>| (#[trigger] v.wire()).len() == n by {
                    assert((*v).wire().len() == n);
                };
            }
        }
        inner
    }
}

impl<C, T: IntoPayload<C>> IntoPayload<C> for Box<T> {
    fn into_payload<M: Middleware>(&self, ctx: &mut C, next: &mut M) -> (r: Result<(), Error>) {
        if let Err(e) = next.enter(Self::name()) {
            proof {
                lemma_prefix_append(old(next).buf(), Seq::empty());
                assert(old(next).buf() + Seq::<u8>::empty() =~= old(next).buf());
            }
            return Err(e);
        }
        let res = (&**self).into_payload(ctx, next);
        match res {
            Ok(()) => {
                next.leave();
                Ok(())
            },
            Err(e) => {
                proof {
                    lemma_prefix_append(
                        old(next).buf(),
                        next.buf().skip(old(next).buf().len() as int),
                    );
                    assert(old(next).buf() + next.buf().skip(old(next).buf().len() as int)
                        =~= next.buf());
                }
                Err(next.wrap_into(e))
            },
        }
    }
}

impl<C, T: FromPayload<C>> FromPayload<C> for Box<T> {
    fn from_payload<M: Middleware>(ctx: &mut C, next: &mut M) -> (r: Result<Self, Error>) {
        let ghost pre = *old(next);
        if let Err(e) = next.enter(Self::name()) {
            return Err(e);
        }
        let ghost mid = *next;
        proof {
            assert(remaining(mid) =~= remaining(pre));
        }
        match T::from_payload(ctx, next) {
            Ok(v) => {
                let out = close_from(next, Ok(Box::new(v)));
                proof {
                    assert forall|u: Box<T>|
                        (#[trigger] u.wire()).is_prefix_of(remaining(pre))
                            && u.wire().len() <= usize::MAX implies (out matches Ok(res)
                        && res.model() == u.model() && next.pos() == pre.pos()
                        + u.wire().len()) by {
                        assert((*u).wire().is_prefix_of(remaining(mid)));
                        assert(v.model() == (*u).model());
                    };
                }
                out
            },
            Err(e) => {
                proof {
                    assert forall|u: Box<T>|
                        M::limitless() && (#[trigger] u.wire()).is_prefix_of(remaining(pre))
                            && u.wire().len() <= usize::MAX implies false by {
                        assert((*u).wire().is_prefix_of(remaining(mid)));
                    };
                }
                Err(next.wrap_from(e))
            },
        }
    }
}

impl<C, T: Payload<C>> Payload<C> for Box<T> {
}


impl<T: PayloadInfo> PayloadInfo for Rc<T> {
    type Model = T::Model;

    open spec fn model(&self) -> T::Model {
        (**self).model()
    }

    open spec fn wire(&self) -> Seq<u8> {
        (**self).wire()
    }

    open spec fn nest_depth(&self) -> nat {
        1 + (**self).nest_depth()
    }

    open spec fn spec_name() -> Seq<char> {
        "Rc<T>"@
    }

    open spec fn spec_fixed_size() -> Option<usize> {
        T::spec_fixed_size()
    }

    fn name() -> (r: &'static str) {
        "Rc<T>"
    }

    fn hash() -> (r: u64) {
        payload_hash(Self::name())
    }

    fn fixed_size() -> (r: Option<usize>) {
        let inner = T::fixed_size();
        proof {
            if inner is Some {
                let ghost n = inner->0;
                assert forall|v: Rc<T>| (#[trigger] v.wire()).len() == n by {
                    assert((*v).wire().len() == n);
                };
            }
        }
        inner
    }
}

impl<C, T: IntoPayload<C>> IntoPayload<C> for Rc<T> {
    fn into_payload<M: Middleware>(&self, ctx: &mut C, next: &mut M) -> (r: Result<(), Error>) {
        if let Err(e) = next.enter(Self::name()) {
            proof {
                lemma_prefix_append(old(next).buf(), Seq::empty());
                assert(old(next).buf() + Seq::<u8>::empty() =~= old(next).buf());
            }
            return Err(e);
        }
        let res = (&**self).into_payload(ctx, next);
        match res {
            Ok(()) => {
                next.leave();
                Ok(())
            },
            Err(e) => {
                proof {
                    lemma_prefix_append(
                        old(next).buf(),
                        next.buf().skip(old(next).buf().len() as int),
                    );
                    assert(old(next).buf() + next.buf().skip(old(next).buf().len() as int)
                        =~= next.buf());
                }
                Err(next.wrap_into(e))
            },
        }
    }
}

impl<C, T: FromPayload<C>> FromPayload<C> for Rc<T> {
    fn from_payload<M: Middleware>(ctx: &mut C, next: &mut M) -> (r: Result<Self, Error>) {
        let ghost pre = *old(next);
        if let Err(e) = next.enter(Self::name()) {
            return Err(e);
        }
        let ghost mid = *next;
        proof {
            assert(remaining(mid) =~= remaining(pre));
        }
        match T::from_payload(ctx, next) {
            Ok(v) => {
                let out = close_from(next, Ok(Rc::new(v)));
                proof {
                    assert forall|u: Rc<T>|
                        (#[trigger] u.wire()).is_prefix_of(remaining(pre))
                            && u.wire().len() <= usize::MAX implies (out matches Ok(res)
                        && res.model() == u.model() && next.pos() == pre.pos()
                        + u.wire().len()) by {
                        assert((*u).wire().is_prefix_of(remaining(mid)));
                        assert(v.model() == (*u).model());
                    };
                }
                out
            },
            Err(e) => {
                proof {
                    assert forall|u: Rc<T>|
                        M::limitless() && (#[trigger] u.wire()).is_prefix_of(remaining(pre))
                            && u.wire().len() <= usize::MAX implies false by {
                        assert((*u).wire().is_prefix_of(remaining(mid)));
                    };
                }
                Err(next.wrap_from(e))
            },
        }
    }
}

impl<C, T: Payload<C>> Payload<C> for Rc<T> {
}


impl<T: PayloadInfo> PayloadInfo for Arc<T> {
    type Model = T::Model;

    open spec fn model(&self) -> T::Model {
        (**self).model()
    }

    open spec fn wire(&self) -> Seq<u8> {
        (**self).wire()
    }

    open spec fn nest_depth(&self) -> nat {
        1 + (**self).nest_depth()
    }

    open spec fn spec_name() -> Seq<char> {
        "Arc<T>"@
    }

    open spec fn spec_fixed_size() -> Option<usize> {
        T::spec_fixed_size()
    }

    fn name() -> (r: &'static str) {
        "Arc<T>"
    }

    fn hash() -> (r: u64) {
        payload_hash(Self::name())
    }

    fn fixed_size() -> (r: Option<usize>) {
        let inner = T::fixed_size();
        proof {
            if inner is Some {
                let ghost n = inner->0;
                assert forall|v: Arc<T>| (#[trigger] v.wire()).len() == n by {
                    assert((*v).wire().len() == n);
                };
            }
        }
        inner
    }
}

impl<C, T: IntoPayload<C>> IntoPayload<C> for Arc<T> {
    fn into_payload<M: Middleware>(&self, ctx: &mut C, next: &mut M) -> (r: Result<(), Error>) {
        if let Err(e) = next.enter(Self::name()) {
            proof {
                lemma_prefix_append(old(next).buf(), Seq::empty());
                assert(old(next).buf() + Seq::<u8>::empty() =~= old(next).buf());
            }
            return Err(e);
        }
        let res = (&**self).into_payload(ctx, next);
        match res {
            Ok(()) => {
                next.leave();
                Ok(())
            },
            Err(e) => {
                proof {
                    lemma_prefix_append(
                        old(next).buf(),
                        next.buf().skip(old(next).buf().len() as int),
                    );
                    assert(old(next).buf() + next.buf().skip(old(next).buf().len() as int)
                        =~= next.buf());
                }
                Err(next.wrap_into(e))
            },
        }
    }
}

impl<C, T: FromPayload<C>> FromPayload<C> for Arc<T> {
    fn from_payload<M: Middleware>(ctx: &mut C, next: &mut M) -> (r: Result<Self, Error>) {
        let ghost pre = *old(next);
        if let Err(e) = next.enter(Self::name()) {
            return Err(e);
        }
        let ghost mid = *next;
        proof {
            assert(remaining(mid) =~= remaining(pre));
        }
        match T::from_payload(ctx, next) {
            Ok(v) => {
                let out = close_from(next, Ok(Arc::new(v)));
                proof {
                    assert forall|u: Arc<T>|
                        (#[trigger] u.wire()).is_prefix_of(remaining(pre))
                            && u.wire().len() <= usize::MAX implies (out matches Ok(res)
                        && res.model() == u.model() && next.pos() == pre.pos()
                        + u.wire().len()) by {
                        assert((*u).wire().is_prefix_of(remaining(mid)));
                        assert(v.model() == (*u).model());
                    };
                }
                out
            },
            Err(e) => {
                proof {
                    assert forall|u: Arc<T>|
                        M::limitless() && (#[trigger] u.wire()).is_prefix_of(remaining(pre))
                            && u.wire().len() <= usize::MAX implies false by {
                        assert((*u).wire().is_prefix_of(remaining(mid)));
                    };
                }
                Err(next.wrap_from(e))
            },
        }
    }
}

impl<C, T: Payload<C>> Payload<C> for Arc<T> {
}

} // verus!
