//! Payload implementations for the optional and fallible wrappers: one tag
//! byte, then the payload of the variant it names.

use vstd::prelude::*;

verus! {

use crate::FromPayload;
use crate::IntoPayload;
use crate::Middleware;
use crate::Payload;
use crate::PayloadInfo;
use crate::close_from;
use crate::close_into;
use crate::depth_max;
use crate::error::Error;
use crate::info::payload_hash;
use crate::lemma_prefix_append;
use crate::lemma_prefix_drop;
use crate::payload::primitive::be_bytes;
use crate::remaining;

/// The one-byte wire form of a variant tag.
pub open spec fn tag_wire(t: u8) -> Seq<u8> {
    seq![t]
}

/// A tag byte's own wire form is its one-byte payload form.
proof fn lemma_tag_wire(t: u8)
    ensures
        t.wire() == tag_wire(t),
{
    assert(be_bytes(t as nat / 256, 0) =~= Seq::<u8>::empty());
    assert(t as nat % 256 == t as nat);
    assert(be_bytes(t as nat, 1) =~= seq![t]);
}

impl<T: PayloadInfo> PayloadInfo for Option<T> {
    type Model = Option<T::Model>;

    open spec fn model(&self) -> Option<T::Model> {
        match self {
            Some(v) => Some(v.model()),
            None => None,
        }
    }

    open spec fn wire(&self) -> Seq<u8> {
        match self {
            Some(v) => tag_wire(1) + v.wire(),
            None => tag_wire(0),
        }
    }

    open spec fn nest_depth(&self) -> nat {
        match self {
            Some(v) => 1 + depth_max(1, v.nest_depth()),
            None => 2,
        }
    }

    open spec fn spec_name() -> Seq<char> {
        "Option<T>"@
    }

    open spec fn spec_fixed_size() -> Option<usize> {
        None
    }

    fn name() -> (r: &'static str) {
        "Option<T>"
    }

    fn hash() -> (r: u64) {
        payload_hash(Self::name())
    }

    fn fixed_size() -> (r: Option<usize>) {
        None
    }
}

impl<C, T: IntoPayload<C>> IntoPayload<C> for Option<T> {
    fn into_payload<M: Middleware>(&self, ctx: &mut C, next: &mut M) -> (r: Result<(), Error>) {
        if let Err(e) = next.enter(Self::name()) {
            proof {
                lemma_prefix_append(old(next).buf(), Seq::empty());
                assert(old(next).buf() + Seq::<u8>::empty() =~= old(next).buf());
            }
            return Err(e);
        }
        let res: Result<(), Error> = match self {
            Some(v) => {
                let tag: u8 = 1;
                match tag.into_payload(ctx, next) {
                    Ok(()) => v.into_payload(ctx, next),
                    Err(e) => Err(e),
                }
            },
            None => {
                let tag: u8 = 0;
                tag.into_payload(ctx, next)
            },
        };
        let out = close_into(next, res);
        proof {
            lemma_tag_wire(0);
            lemma_tag_wire(1);
            if res is Ok {
                match self {
                    Some(v) => {
                        assert(old(next).buf() + tag_wire(1) + v.wire() =~= old(next).buf()
                            + self.wire());
                    },
                    None => {
                    },
                }
            }
            lemma_prefix_append(old(next).buf(), next.buf().skip(old(next).buf().len() as int));
            assert(old(next).buf() + next.buf().skip(old(next).buf().len() as int) =~= next.buf());
        }
        out
    }
}

impl<C, T: FromPayload<C>> FromPayload<C> for Option<T> {
    fn from_payload<M: Middleware>(ctx: &mut C, next: &mut M) -> (r: Result<Self, Error>) {
        let ghost pre = *old(next);
        if let Err(e) = next.enter(Self::name()) {
            return Err(e);
        }
        let ghost mid = *next;
        proof {
            assert(remaining(mid) =~= remaining(pre));
            lemma_tag_wire(0);
            lemma_tag_wire(1);
        }
        let tag = match u8::from_payload(ctx, next) {
            Ok(t) => t,
            Err(e) => {
                proof {
                    assert forall|u: Option<T>|
                        M::limitless() && (#[trigger] u.wire()).is_prefix_of(
                            remaining(pre),
                        ) && u.wire().len() <= usize::MAX implies false by {
                        match u {
                            Some(uv) => {
                                lemma_prefix_drop(tag_wire(1), uv.wire(), remaining(mid));
                            },
                            None => {
                                assert((0u8).wire().is_prefix_of(remaining(mid)));
                            },
                        }
                    };
                }
                return Err(next.wrap_from(e));
            },
        };
        let ghost mid2 = *next;
        if tag != 0 {
            match T::from_payload(ctx, next) {
                Ok(v) => {
                    let out = close_from(next, Ok(Some(v)));
                    proof {
                        assert forall|u: Option<T>|
                            (#[trigger] u.wire()).is_prefix_of(
                                remaining(pre),
                            ) && u.wire().len() <= usize::MAX implies (out matches Ok(res) && res.model() == u.model()
                            && next.pos() == pre.pos() + u.wire().len()) by {
                            match u {
                                Some(uv) => {
                                    lemma_prefix_drop(tag_wire(1), uv.wire(), remaining(mid));
                                    assert(remaining(mid2) =~= remaining(mid).skip(1));
                                    assert(uv.wire().is_prefix_of(remaining(mid2)));
                                },
                                None => {
                                    assert((0u8).wire().is_prefix_of(remaining(mid)));
                                },
                            }
                        };
                    }
                    out
                },
                Err(e) => {
                    proof {
                        assert forall|u: Option<T>|
                            M::limitless() && (#[trigger] u.wire()).is_prefix_of(
                                remaining(pre),
                            ) && u.wire().len() <= usize::MAX implies false by {
                            match u {
                                Some(uv) => {
                                    lemma_prefix_drop(tag_wire(1), uv.wire(), remaining(mid));
                                    assert(remaining(mid2) =~= remaining(mid).skip(1));
                                    assert(uv.wire().is_prefix_of(remaining(mid2)));
                                },
                                None => {
                                    assert((0u8).wire().is_prefix_of(remaining(mid)));
                                },
                            }
                        };
                    }
                    Err(next.wrap_from(e))
                },
            }
        } else {
            let out = close_from(next, Ok(None));
            proof {
                assert forall|u: Option<T>|
                    (#[trigger] u.wire()).is_prefix_of(remaining(pre)) && u.wire().len() <= usize::MAX implies (
                out matches Ok(res) && res.model() == u.model() && next.pos() == pre.pos()
                    + u.wire().len()) by {
                    match u {
                        Some(uv) => {
                            lemma_prefix_drop(tag_wire(1), uv.wire(), remaining(mid));
                        },
                        None => {
                            assert((0u8).wire().is_prefix_of(remaining(mid)));
                        },
                    }
                };
            }
            out
        }
    }
}

impl<C, T: Payload<C>> Payload<C> for Option<T> {
}

impl<T: PayloadInfo, E: PayloadInfo> PayloadInfo for Result<T, E> {
    type Model = Result<T::Model, E::Model>;

    open spec fn model(&self) -> Result<T::Model, E::Model> {
        match self {
            Ok(v) => Ok(v.model()),
            Err(e) => Err(e.model()),
        }
    }

    open spec fn wire(&self) -> Seq<u8> {
        match self {
            Ok(v) => tag_wire(1) + v.wire(),
            Err(e) => tag_wire(0) + e.wire(),
        }
    }

    open spec fn nest_depth(&self) -> nat {
        match self {
            Ok(v) => 1 + depth_max(1, v.nest_depth()),
            Err(e) => 1 + depth_max(1, e.nest_depth()),
        }
    }

    open spec fn spec_name() -> Seq<char> {
        "Result<T, E>"@
    }

    open spec fn spec_fixed_size() -> Option<usize> {
        None
    }

    fn name() -> (r: &'static str) {
        "Result<T, E>"
    }

    fn hash() -> (r: u64) {
        payload_hash(Self::name())
    }

    fn fixed_size() -> (r: Option<usize>) {
        None
    }
}

impl<C, T: IntoPayload<C>, E: IntoPayload<C>> IntoPayload<C> for Result<T, E> {
    fn into_payload<M: Middleware>(&self, ctx: &mut C, next: &mut M) -> (r: Result<(), Error>) {
        if let Err(e) = next.enter(Self::name()) {
            proof {
                lemma_prefix_append(old(next).buf(), Seq::empty());
                assert(old(next).buf() + Seq::<u8>::empty() =~= old(next).buf());
            }
            return Err(e);
        }
        let res: Result<(), Error> = match self {
            Ok(v) => {
                let tag: u8 = 1;
                match tag.into_payload(ctx, next) {
                    Ok(()) => v.into_payload(ctx, next),
                    Err(e) => Err(e),
                }
            },
            Err(err) => {
                let tag: u8 = 0;
                match tag.into_payload(ctx, next) {
                    Ok(()) => err.into_payload(ctx, next),
                    Err(e) => Err(e),
                }
            },
        };
        let out = close_into(next, res);
        proof {
            lemma_tag_wire(0);
            lemma_tag_wire(1);
            if res is Ok {
                match self {
                    Ok(v) => {
                        assert(old(next).buf() + tag_wire(1) + v.wire() =~= old(next).buf()
                            + self.wire());
                    },
                    Err(err) => {
                        assert(old(next).buf() + tag_wire(0) + err.wire() =~= old(next).buf()
                            + self.wire());
                    },
                }
            }
            lemma_prefix_append(old(next).buf(), next.buf().skip(old(next).buf().len() as int));
            assert(old(next).buf() + next.buf().skip(old(next).buf().len() as int) =~= next.buf());
        }
        out
    }
}

impl<C, T: FromPayload<C>, E: FromPayload<C>> FromPayload<C> for Result<T, E> {
    fn from_payload<M: Middleware>(ctx: &mut C, next: &mut M) -> (r: Result<Self, Error>) {
        let ghost pre = *old(next);
        if let Err(e) = next.enter(Self::name()) {
            return Err(e);
        }
        let ghost mid = *next;
        proof {
            assert(remaining(mid) =~= remaining(pre));
            lemma_tag_wire(0);
            lemma_tag_wire(1);
        }
        let tag = match u8::from_payload(ctx, next) {
            Ok(t) => t,
            Err(e) => {
                proof {
                    assert forall|u: Result<T, E>|
                        M::limitless() && (#[trigger] u.wire()).is_prefix_of(
                            remaining(pre),
                        ) && u.wire().len() <= usize::MAX implies false by {
                        match u {
                            Ok(ut) => {
                                lemma_prefix_drop(tag_wire(1), ut.wire(), remaining(mid));
                            },
                            Err(ue) => {
                                lemma_prefix_drop(tag_wire(0), ue.wire(), remaining(mid));
                            },
                        }
                    };
                }
                return Err(next.wrap_from(e));
            },
        };
        let ghost mid2 = *next;
        if tag != 0 {
            match T::from_payload(ctx, next) {
                Ok(v) => {
                    let out = close_from(next, Ok(Ok(v)));
                    proof {
                        assert forall|u: Result<T, E>|
                            (#[trigger] u.wire()).is_prefix_of(
                                remaining(pre),
                            ) && u.wire().len() <= usize::MAX implies (out matches Ok(res) && res.model() == u.model()
                            && next.pos() == pre.pos() + u.wire().len()) by {
                            match u {
                                Ok(ut) => {
                                    lemma_prefix_drop(tag_wire(1), ut.wire(), remaining(mid));
                                    assert(remaining(mid2) =~= remaining(mid).skip(1));
                                    assert(ut.wire().is_prefix_of(remaining(mid2)));
                                },
                                Err(ue) => {
                                    lemma_prefix_drop(tag_wire(0), ue.wire(), remaining(mid));
                                },
                            }
                        };
                    }
                    out
                },
                Err(e) => {
                    proof {
                        assert forall|u: Result<T, E>|
                            M::limitless() && (#[trigger] u.wire()).is_prefix_of(
                                remaining(pre),
                            ) && u.wire().len() <= usize::MAX implies false by {
                            match u {
                                Ok(ut) => {
                                    lemma_prefix_drop(tag_wire(1), ut.wire(), remaining(mid));
                                    assert(remaining(mid2) =~= remaining(mid).skip(1));
                                    assert(ut.wire().is_prefix_of(remaining(mid2)));
                                },
                                Err(ue) => {
                                    lemma_prefix_drop(tag_wire(0), ue.wire(), remaining(mid));
                                },
                            }
                        };
                    }
                    Err(next.wrap_from(e))
                },
            }
        } else {
            match E::from_payload(ctx, next) {
                Ok(v) => {
                    let out = close_from(next, Ok(Err(v)));
                    proof {
                        assert forall|u: Result<T, E>|
                            (#[trigger] u.wire()).is_prefix_of(
                                remaining(pre),
                            ) && u.wire().len() <= usize::MAX implies (out matches Ok(res) && res.model() == u.model()
                            && next.pos() == pre.pos() + u.wire().len()) by {
                            match u {
                                Ok(ut) => {
                                    lemma_prefix_drop(tag_wire(1), ut.wire(), remaining(mid));
                                },
                                Err(ue) => {
                                    lemma_prefix_drop(tag_wire(0), ue.wire(), remaining(mid));
                                    assert(remaining(mid2) =~= remaining(mid).skip(1));
                                    assert(ue.wire().is_prefix_of(remaining(mid2)));
                                },
                            }
                        };
                    }
                    out
                },
                Err(e) => {
                    proof {
                        assert forall|u: Result<T, E>|
                            M::limitless() && (#[trigger] u.wire()).is_prefix_of(
                                remaining(pre),
                            ) && u.wire().len() <= usize::MAX implies false by {
                            match u {
                                Ok(ut) => {
                                    lemma_prefix_drop(tag_wire(1), ut.wire(), remaining(mid));
                                },
                                Err(ue) => {
                                    lemma_prefix_drop(tag_wire(0), ue.wire(), remaining(mid));
                                    assert(remaining(mid2) =~= remaining(mid).skip(1));
                                    assert(ue.wire().is_prefix_of(remaining(mid2)));
                                },
                            }
                        };
                    }
                    Err(next.wrap_from(e))
                },
            }
        }
    }
}

impl<C, T: Payload<C>, E: Payload<C>> Payload<C> for Result<T, E> {
}

} // verus!
