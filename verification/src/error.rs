//! The error taxonomy every operation of the codec returns.

use vstd::prelude::*;

verus! {

use crate::FromPayload;
use crate::IntoPayload;
use crate::Middleware;
use crate::Payload;
use crate::PayloadInfo;
use crate::close_from;
use crate::close_into;
use crate::decode_complete;
use crate::decode_sound;
use crate::info::payload_hash;
use crate::lemma_prefix_append;
use crate::lemma_prefix_drop;
use crate::payload::primitive::leb_end;
use crate::payload::primitive::leb_sum;
use crate::payload::primitive::varint;
use crate::payload::primitive::varint_limit_bytes;
use vstd::arithmetic::power2::pow2;
use crate::remaining;
use vstd::string::StringExecFns;

/// Everything that can go wrong while encoding or decoding a payload. Each
/// failure aborts the whole traversal and is returned unchanged, except for
/// one trace-wrapping step when the tracing engine is active.
#[derive(Clone, PartialEq, Debug)]
pub enum Error {
    /// Buffer underrun: a read wanted `expected` bytes, only `found` remained.
    InvalidLength { expected: usize, found: usize },
    /// String decoding met bytes that are not well-formed UTF-8.
    InvalidUtf8(String),
    /// An enum tag on the wire named no declared variant.
    UnknownVariant(String),
    /// A variable-length integer ran past the native word width.
    IndexOutOfBounds(usize),
    /// The recursion guard of the tracing engine tripped at this type.
    NestedDepthLimit(String),
    /// A weak reference had expired when encoding tried to follow it.
    WeakUpgrade,
    /// A raw pointer was null when encoding tried to follow it.
    NullPtr,
    /// The clock or time formatting failed.
    Time(String),
    /// A failure annotated with the path of type names visited when it arose.
    Traced(String, String),
    /// An opaque failure carried over from a foreign type.
    External(String),
}

/// The mathematical mirror of [`Error`], with text as character sequences:
/// the model that contracts compare errors by.
pub enum ErrorModel {
    InvalidLength { expected: nat, found: nat },
    InvalidUtf8(Seq<char>),
    UnknownVariant(Seq<char>),
    IndexOutOfBounds(nat),
    NestedDepthLimit(Seq<char>),
    WeakUpgrade,
    NullPtr,
    Time(Seq<char>),
    Traced(Seq<char>, Seq<char>),
    External(Seq<char>),
}

/// The model of an error value.
pub open spec fn error_model(e: Error) -> ErrorModel {
    match e {
        Error::InvalidLength { expected, found } => ErrorModel::InvalidLength {
            expected: expected as nat,
            found: found as nat,
        },
        Error::InvalidUtf8(s) => ErrorModel::InvalidUtf8(s@),
        Error::UnknownVariant(s) => ErrorModel::UnknownVariant(s@),
        Error::IndexOutOfBounds(n) => ErrorModel::IndexOutOfBounds(n as nat),
        Error::NestedDepthLimit(s) => ErrorModel::NestedDepthLimit(s@),
        Error::WeakUpgrade => ErrorModel::WeakUpgrade,
        Error::NullPtr => ErrorModel::NullPtr,
        Error::Time(s) => ErrorModel::Time(s@),
        Error::Traced(m, p) => ErrorModel::Traced(m@, p@),
        Error::External(s) => ErrorModel::External(s@),
    }
}

/// The decimal numeral of `n`, most significant digit first.
pub open spec fn decimal(n: nat) -> Seq<char>
    decreases n,
{
    if n < 10 {
        seq![digit_char(n)]
    } else {
        decimal(n / 10) + seq![digit_char(n % 10)]
    }
}

/// The character of one decimal digit.
pub open spec fn digit_char(d: nat) -> char {
    if d == 0 {
        '0'
    } else if d == 1 {
        '1'
    } else if d == 2 {
        '2'
    } else if d == 3 {
        '3'
    } else if d == 4 {
        '4'
    } else if d == 5 {
        '5'
    } else if d == 6 {
        '6'
    } else if d == 7 {
        '7'
    } else if d == 8 {
        '8'
    } else {
        '9'
    }
}

/// The human-readable description of an error, as [`Error::message`] renders
/// it.
pub open spec fn error_text(e: Error) -> Seq<char> {
    match e {
        Error::InvalidLength { expected, found } => "Invalid length: expected `"@ + decimal(
            expected as nat,
        ) + "`, found `"@ + decimal(found as nat) + "`"@,
        Error::InvalidUtf8(_) => "Invalid UTF-8 sequence"@,
        Error::UnknownVariant(s) => "Unknown variant `"@ + s@ + "`"@,
        Error::IndexOutOfBounds(n) => "Index out of bounds: `"@ + decimal(n as nat) + "`"@,
        Error::NestedDepthLimit(s) => "Reached max depth of nested types for: `"@ + s@ + "`"@,
        Error::WeakUpgrade => "Failed to upgrade Weak reference"@,
        Error::NullPtr => "Invalid pointer"@,
        Error::Time(s) => "Invalid Time: `"@ + s@ + "`"@,
        Error::Traced(m, p) => "Traced error: `"@ + m@ + "`, path: `"@ + p@ + "`"@,
        Error::External(s) => "External error: "@ + s@,
    }
}

/// The decimal numeral of `n` as a string.
pub fn decimal_string(n: usize) -> (r: String)
    ensures
        r@ == decimal(n as nat),
    decreases n,
{
    let d: usize = n % 10;
    let digit: &'static str = if d == 0 {
        "0"
    } else if d == 1 {
        "1"
    } else if d == 2 {
        "2"
    } else if d == 3 {
        "3"
    } else if d == 4 {
        "4"
    } else if d == 5 {
        "5"
    } else if d == 6 {
        "6"
    } else if d == 7 {
        "7"
    } else if d == 8 {
        "8"
    } else {
        "9"
    };
    proof {
        reveal_strlit("0");
        reveal_strlit("1");
        reveal_strlit("2");
        reveal_strlit("3");
        reveal_strlit("4");
        reveal_strlit("5");
        reveal_strlit("6");
        reveal_strlit("7");
        reveal_strlit("8");
        reveal_strlit("9");
        assert(digit@ == seq![digit_char(d as nat)]);
    }
    if n < 10 {
        String::from_str(digit)
    } else {
        let mut s = decimal_string(n / 10);
        s.append(digit);
        s
    }
}

impl Error {
    /// The human-readable description of this error.
    pub fn message(&self) -> (r: String)
        ensures
            r@ == error_text(*self),
    {
        match self {
            Error::InvalidLength { expected, found } => {
                let mut s = String::from_str("Invalid length: expected `");
                s.append(decimal_string(*expected).as_str());
                s.append("`, found `");
                s.append(decimal_string(*found).as_str());
                s.append("`");
                s
            },
            Error::InvalidUtf8(_) => String::from_str("Invalid UTF-8 sequence"),
            Error::UnknownVariant(t) => {
                let mut s = String::from_str("Unknown variant `");
                s.append(t.as_str());
                s.append("`");
                s
            },
            Error::IndexOutOfBounds(n) => {
                let mut s = String::from_str("Index out of bounds: `");
                s.append(decimal_string(*n).as_str());
                s.append("`");
                s
            },
            Error::NestedDepthLimit(t) => {
                let mut s = String::from_str("Reached max depth of nested types for: `");
                s.append(t.as_str());
                s.append("`");
                s
            },
            Error::WeakUpgrade => String::from_str("Failed to upgrade Weak reference"),
            Error::NullPtr => String::from_str("Invalid pointer"),
            Error::Time(t) => {
                let mut s = String::from_str("Invalid Time: `");
                s.append(t.as_str());
                s.append("`");
                s
            },
            Error::Traced(m, p) => {
                let mut s = String::from_str("Traced error: `");
                s.append(m.as_str());
                s.append("`, path: `");
                s.append(p.as_str());
                s.append("`");
                s
            },
            Error::External(t) => {
                let mut s = String::from_str("External error: ");
                s.append(t.as_str());
                s
            },
        }
    }
}

/// The declaration-order index of an error's variant, its wire tag.
pub open spec fn error_tag(e: Error) -> nat {
    match e {
        Error::InvalidLength { .. } => 0,
        Error::InvalidUtf8(_) => 1,
        Error::UnknownVariant(_) => 2,
        Error::IndexOutOfBounds(_) => 3,
        Error::NestedDepthLimit(_) => 4,
        Error::WeakUpgrade => 5,
        Error::NullPtr => 6,
        Error::Time(_) => 7,
        Error::Traced(_, _) => 8,
        Error::External(_) => 9,
    }
}

/// The wire forms of an error's fields, in declared order.
pub open spec fn error_fields_wire(e: Error) -> Seq<u8> {
    match e {
        Error::InvalidLength { expected, found } => expected.wire() + found.wire(),
        Error::InvalidUtf8(a) => a.wire(),
        Error::UnknownVariant(a) => a.wire(),
        Error::IndexOutOfBounds(a) => a.wire(),
        Error::NestedDepthLimit(a) => a.wire(),
        Error::WeakUpgrade => Seq::empty(),
        Error::NullPtr => Seq::empty(),
        Error::Time(a) => a.wire(),
        Error::Traced(a, b) => a.wire() + b.wire(),
        Error::External(a) => a.wire(),
    }
}

/// Every error's tag names one of its ten variants.
proof fn lemma_error_tag_range(e: Error)
    ensures
        error_tag(e) <= 9,
{
}


/// The variant index the unread bytes carry, where they begin with a
/// terminated variable-length integer within the word-width limit.
#[verifier::opaque]
pub open spec fn wire_tag(rem: Seq<u8>) -> Option<nat> {
    if leb_end(rem) is Some && leb_end(rem)->0 + 1 <= varint_limit_bytes() {
        Some(leb_sum(rem.take(leb_end(rem)->0 + 1)) % pow2(usize::BITS as nat))
    } else {
        None
    }
}

/// A decoded variant index pins every candidate error's variant and leaves
/// its fields' wire forms at the cursor.
proof fn lemma_error_tag_decode<M: Middleware>(pre: M, mid: M, mid2: M, idx: usize)
    requires
        pre.pos() <= pre.buf().len(),
        mid.buf() == pre.buf(),
        mid.pos() == pre.pos(),
        mid2.buf() == pre.buf(),
        decode_sound::<M, usize>(mid, mid2, Ok(idx)),
    ensures
        forall|u: Error|
            (#[trigger] u.wire()).is_prefix_of(remaining(pre)) && u.wire().len()
                <= usize::MAX ==> (error_tag(u) == idx && error_fields_wire(u).is_prefix_of(
                remaining(mid2),
            ) && error_fields_wire(u).len() <= usize::MAX && mid2.pos() == pre.pos() + varint(
                error_tag(u),
            ).len()),
{
    assert forall|u: Error|
        (#[trigger] u.wire()).is_prefix_of(remaining(pre)) && u.wire().len()
            <= usize::MAX implies (error_tag(u) == idx && error_fields_wire(u).is_prefix_of(
        remaining(mid2),
    ) && error_fields_wire(u).len() <= usize::MAX && mid2.pos() == pre.pos() + varint(
        error_tag(u),
    ).len()) by {
        lemma_error_tag_range(u);
        assert(remaining(mid) =~= remaining(pre));
        lemma_prefix_drop(varint(error_tag(u)), error_fields_wire(u), remaining(mid));
        assert(((error_tag(u) as usize) as nat) == error_tag(u));
        assert((error_tag(u) as usize).wire() == varint(error_tag(u)));
        assert(remaining(mid2) =~= remaining(mid).skip(varint(error_tag(u)).len() as int));
        assert(error_fields_wire(u).is_prefix_of(remaining(mid2)));
    };
}

impl PayloadInfo for Error {
    type Model = ErrorModel;

    open spec fn model(&self) -> ErrorModel {
        error_model(*self)
    }

    open spec fn wire(&self) -> Seq<u8> {
        varint(error_tag(*self)) + error_fields_wire(*self)
    }

    open spec fn nest_depth(&self) -> nat {
        match self {
            Error::InvalidLength { .. } => 2,
            Error::InvalidUtf8(_) => 3,
            Error::UnknownVariant(_) => 3,
            Error::IndexOutOfBounds(_) => 2,
            Error::NestedDepthLimit(_) => 3,
            Error::WeakUpgrade => 2,
            Error::NullPtr => 2,
            Error::Time(_) => 3,
            Error::Traced(_, _) => 3,
            Error::External(_) => 3,
        }
    }

    open spec fn spec_name() -> Seq<char> {
        "Error"@
    }

    open spec fn spec_fixed_size() -> Option<usize> {
        None
    }

    fn name() -> (r: &'static str) {
        "Error"
    }

    fn hash() -> (r: u64) {
        payload_hash(Self::name())
    }

    fn fixed_size() -> (r: Option<usize>) {
        None
    }
}

impl<C> IntoPayload<C> for Error {
    fn into_payload<M: Middleware>(&self, ctx: &mut C, next: &mut M) -> (r: Result<(), Error>) {
        if let Err(e) = next.enter(<Error as PayloadInfo>::name()) {
            proof {
                lemma_prefix_append(old(next).buf(), Seq::empty());
                assert(old(next).buf() + Seq::<u8>::empty() =~= old(next).buf());
            }
            return Err(e);
        }
        let res: Result<(), Error> = match self {
            Error::InvalidLength { expected, found } => {
                let tag: usize = 0;
                match tag.into_payload(ctx, next) {
                    Ok(()) => match expected.into_payload(ctx, next) {
                        Ok(()) => found.into_payload(ctx, next),
                        Err(e) => Err(e),
                    },
                    Err(e) => Err(e),
                }
            },
            Error::InvalidUtf8(a) => {
                let tag: usize = 1;
                match tag.into_payload(ctx, next) {
                    Ok(()) => a.into_payload(ctx, next),
                    Err(e) => Err(e),
                }
            },
            Error::UnknownVariant(a) => {
                let tag: usize = 2;
                match tag.into_payload(ctx, next) {
                    Ok(()) => a.into_payload(ctx, next),
                    Err(e) => Err(e),
                }
            },
            Error::IndexOutOfBounds(a) => {
                let tag: usize = 3;
                match tag.into_payload(ctx, next) {
                    Ok(()) => a.into_payload(ctx, next),
                    Err(e) => Err(e),
                }
            },
            Error::NestedDepthLimit(a) => {
                let tag: usize = 4;
                match tag.into_payload(ctx, next) {
                    Ok(()) => a.into_payload(ctx, next),
                    Err(e) => Err(e),
                }
            },
            Error::WeakUpgrade => {
                let tag: usize = 5;
                tag.into_payload(ctx, next)
            },
            Error::NullPtr => {
                let tag: usize = 6;
                tag.into_payload(ctx, next)
            },
            Error::Time(a) => {
                let tag: usize = 7;
                match tag.into_payload(ctx, next) {
                    Ok(()) => a.into_payload(ctx, next),
                    Err(e) => Err(e),
                }
            },
            Error::Traced(a, b) => {
                let tag: usize = 8;
                match tag.into_payload(ctx, next) {
                    Ok(()) => match a.into_payload(ctx, next) {
                        Ok(()) => b.into_payload(ctx, next),
                        Err(e) => Err(e),
                    },
                    Err(e) => Err(e),
                }
            },
            Error::External(a) => {
                let tag: usize = 9;
                match tag.into_payload(ctx, next) {
                    Ok(()) => a.into_payload(ctx, next),
                    Err(e) => Err(e),
                }
            },
        };
        let out = close_into(next, res);
        proof {
            if res is Ok {
                match self {
                    Error::InvalidLength { expected, found } => {
                        assert(old(next).buf() + varint(0) + expected.wire() + found.wire() =~= old(next).buf() + self.wire());
                    },
                    Error::InvalidUtf8(a) => {
                        assert(old(next).buf() + varint(1) + a.wire() =~= old(next).buf() + self.wire());
                    },
                    Error::UnknownVariant(a) => {
                        assert(old(next).buf() + varint(2) + a.wire() =~= old(next).buf() + self.wire());
                    },
                    Error::IndexOutOfBounds(a) => {
                        assert(old(next).buf() + varint(3) + a.wire() =~= old(next).buf() + self.wire());
                    },
                    Error::NestedDepthLimit(a) => {
                        assert(old(next).buf() + varint(4) + a.wire() =~= old(next).buf() + self.wire());
                    },
                    Error::WeakUpgrade => {
                        assert(old(next).buf() + varint(5) =~= old(next).buf() + self.wire());
                    },
                    Error::NullPtr => {
                        assert(old(next).buf() + varint(6) =~= old(next).buf() + self.wire());
                    },
                    Error::Time(a) => {
                        assert(old(next).buf() + varint(7) + a.wire() =~= old(next).buf() + self.wire());
                    },
                    Error::Traced(a, b) => {
                        assert(old(next).buf() + varint(8) + a.wire() + b.wire() =~= old(next).buf() + self.wire());
                    },
                    Error::External(a) => {
                        assert(old(next).buf() + varint(9) + a.wire() =~= old(next).buf() + self.wire());
                    },
                }
            }
            lemma_prefix_append(old(next).buf(), next.buf().skip(old(next).buf().len() as int));
            assert(old(next).buf() + next.buf().skip(old(next).buf().len() as int) =~= next.buf());
        }
        out
    }
}

impl<C> FromPayload<C> for Error {
    #[verifier::rlimit(100)]
    #[verifier::spinoff_prover]
    fn from_payload<M: Middleware>(ctx: &mut C, next: &mut M) -> (r: Result<Self, Error>)
        ensures
            M::limitless() && wire_tag(remaining(*old(next))) is Some && wire_tag(
                remaining(*old(next)),
            )->0 > 9 ==> (r matches Err(e) && e matches Error::UnknownVariant(s) && s@ == decimal(
                wire_tag(remaining(*old(next)))->0,
            )),
    {
        let ghost pre = *old(next);
        if let Err(e) = next.enter(<Error as PayloadInfo>::name()) {
            return Err(e);
        }
        let ghost mid = *next;
        proof {
            assert(remaining(mid) =~= remaining(pre));
        }
        let idx = match usize::from_payload(ctx, next) {
            Ok(i) => i,
            Err(e) => {
                proof {
                    assert forall|u: Error|
                        M::limitless() && (#[trigger] u.wire()).is_prefix_of(remaining(pre))
                            && u.wire().len() <= usize::MAX implies false by {
                        lemma_error_tag_range(u);
                        lemma_prefix_drop(varint(error_tag(u)), error_fields_wire(u), remaining(mid));
                        assert(((error_tag(u) as usize) as nat) == error_tag(u));
                        assert((error_tag(u) as usize).wire() == varint(error_tag(u)));
                    };
                    reveal(wire_tag);
                    if M::limitless() && wire_tag(remaining(pre)) is Some {
                        assert(false);
                    }
                }
                return Err(next.wrap_from(e));
            },
        };
        let ghost mid2 = *next;
        proof {
            lemma_error_tag_decode::<M>(pre, mid, mid2, idx);
            reveal(wire_tag);
            if M::limitless() && wire_tag(remaining(pre)) is Some {
                assert(idx as nat == wire_tag(remaining(pre))->0);
            }
        }
        match idx {
            0 => {
                match usize::from_payload(ctx, next) {
                    Ok(a) => {
                        let ghost mid3 = *next;
                        match usize::from_payload(ctx, next) {
                            Ok(b) => {
                                let out = close_from(next, Ok(Error::InvalidLength { expected: a, found: b }));
                                proof {
                                    assert forall|u: Error|
                                        (#[trigger] u.wire()).is_prefix_of(
                                            remaining(pre),
                                        ) && u.wire().len() <= usize::MAX implies (out matches Ok(
                                        res,
                                    ) && res.model() == u.model() && next.pos() == pre.pos()
                                        + u.wire().len()) by {
                                        match u {
                                            Error::InvalidLength { expected: ua, found: ub } => {
                                                lemma_prefix_drop(ua.wire(), ub.wire(), remaining(mid2));
                                                assert(remaining(mid3) =~= remaining(mid2).skip(ua.wire().len() as int));
                                                assert(ub.wire().is_prefix_of(remaining(mid3)));
                                            },
                                            _ => {
                                                assert(false);
                                            },
                                        }
                                    };
                                }
                                out
                            },
                            Err(e) => {
                                proof {
                                    assert forall|u: Error|
                                        M::limitless() && (#[trigger] u.wire()).is_prefix_of(
                                            remaining(pre),
                                        ) && u.wire().len() <= usize::MAX implies false by {
                                        match u {
                                            Error::InvalidLength { expected: ua, found: ub } => {
                                                lemma_prefix_drop(ua.wire(), ub.wire(), remaining(mid2));
                                                assert(remaining(mid3) =~= remaining(mid2).skip(ua.wire().len() as int));
                                                assert(ub.wire().is_prefix_of(remaining(mid3)));
                                            },
                                            _ => {
                                                assert(false);
                                            },
                                        }
                                    };
                                }
                                Err(next.wrap_from(e))
                            },
                        }
                    },
                    Err(e) => {
                        proof {
                            assert forall|u: Error|
                                M::limitless() && (#[trigger] u.wire()).is_prefix_of(
                                    remaining(pre),
                                ) && u.wire().len() <= usize::MAX implies false by {
                                match u {
                                    Error::InvalidLength { expected: ua, found: ub } => {
                                        lemma_prefix_drop(ua.wire(), ub.wire(), remaining(mid2));
                                    },
                                    _ => {
                                        assert(false);
                                    },
                                }
                            };
                        }
                        Err(next.wrap_from(e))
                    },
                }
            },
            1 => {
                match String::from_payload(ctx, next) {
                    Ok(a) => {
                        let out = close_from(next, Ok(Error::InvalidUtf8(a)));
                        proof {
                            assert forall|u: Error|
                                (#[trigger] u.wire()).is_prefix_of(
                                    remaining(pre),
                                ) && u.wire().len() <= usize::MAX implies (out matches Ok(res)
                                && res.model() == u.model() && next.pos() == pre.pos()
                                + u.wire().len()) by {
                                match u {
                                    Error::InvalidUtf8(ua) => {
                                        assert(ua.wire().is_prefix_of(remaining(mid2)));
                                    },
                                    _ => {
                                        assert(false);
                                    },
                                }
                            };
                        }
                        out
                    },
                    Err(e) => {
                        proof {
                            assert forall|u: Error|
                                M::limitless() && (#[trigger] u.wire()).is_prefix_of(
                                    remaining(pre),
                                ) && u.wire().len() <= usize::MAX implies false by {
                                match u {
                                    Error::InvalidUtf8(ua) => {
                                        assert(ua.wire().is_prefix_of(remaining(mid2)));
                                    },
                                    _ => {
                                        assert(false);
                                    },
                                }
                            };
                        }
                        Err(next.wrap_from(e))
                    },
                }
            },
            2 => {
                match String::from_payload(ctx, next) {
                    Ok(a) => {
                        let out = close_from(next, Ok(Error::UnknownVariant(a)));
                        proof {
                            assert forall|u: Error|
                                (#[trigger] u.wire()).is_prefix_of(
                                    remaining(pre),
                                ) && u.wire().len() <= usize::MAX implies (out matches Ok(res)
                                && res.model() == u.model() && next.pos() == pre.pos()
                                + u.wire().len()) by {
                                match u {
                                    Error::UnknownVariant(ua) => {
                                        assert(ua.wire().is_prefix_of(remaining(mid2)));
                                    },
                                    _ => {
                                        assert(false);
                                    },
                                }
                            };
                        }
                        out
                    },
                    Err(e) => {
                        proof {
                            assert forall|u: Error|
                                M::limitless() && (#[trigger] u.wire()).is_prefix_of(
                                    remaining(pre),
                                ) && u.wire().len() <= usize::MAX implies false by {
                                match u {
                                    Error::UnknownVariant(ua) => {
                                        assert(ua.wire().is_prefix_of(remaining(mid2)));
                                    },
                                    _ => {
                                        assert(false);
                                    },
                                }
                            };
                        }
                        Err(next.wrap_from(e))
                    },
                }
            },
            3 => {
                match usize::from_payload(ctx, next) {
                    Ok(a) => {
                        let out = close_from(next, Ok(Error::IndexOutOfBounds(a)));
                        proof {
                            assert forall|u: Error|
                                (#[trigger] u.wire()).is_prefix_of(
                                    remaining(pre),
                                ) && u.wire().len() <= usize::MAX implies (out matches Ok(res)
                                && res.model() == u.model() && next.pos() == pre.pos()
                                + u.wire().len()) by {
                                match u {
                                    Error::IndexOutOfBounds(ua) => {
                                        assert(ua.wire().is_prefix_of(remaining(mid2)));
                                    },
                                    _ => {
                                        assert(false);
                                    },
                                }
                            };
                        }
                        out
                    },
                    Err(e) => {
                        proof {
                            assert forall|u: Error|
                                M::limitless() && (#[trigger] u.wire()).is_prefix_of(
                                    remaining(pre),
                                ) && u.wire().len() <= usize::MAX implies false by {
                                match u {
                                    Error::IndexOutOfBounds(ua) => {
                                        assert(ua.wire().is_prefix_of(remaining(mid2)));
                                    },
                                    _ => {
                                        assert(false);
                                    },
                                }
                            };
                        }
                        Err(next.wrap_from(e))
                    },
                }
            },
            4 => {
                match String::from_payload(ctx, next) {
                    Ok(a) => {
                        let out = close_from(next, Ok(Error::NestedDepthLimit(a)));
                        proof {
                            assert forall|u: Error|
                                (#[trigger] u.wire()).is_prefix_of(
                                    remaining(pre),
                                ) && u.wire().len() <= usize::MAX implies (out matches Ok(res)
                                && res.model() == u.model() && next.pos() == pre.pos()
                                + u.wire().len()) by {
                                match u {
                                    Error::NestedDepthLimit(ua) => {
                                        assert(ua.wire().is_prefix_of(remaining(mid2)));
                                    },
                                    _ => {
                                        assert(false);
                                    },
                                }
                            };
                        }
                        out
                    },
                    Err(e) => {
                        proof {
                            assert forall|u: Error|
                                M::limitless() && (#[trigger] u.wire()).is_prefix_of(
                                    remaining(pre),
                                ) && u.wire().len() <= usize::MAX implies false by {
                                match u {
                                    Error::NestedDepthLimit(ua) => {
                                        assert(ua.wire().is_prefix_of(remaining(mid2)));
                                    },
                                    _ => {
                                        assert(false);
                                    },
                                }
                            };
                        }
                        Err(next.wrap_from(e))
                    },
                }
            },
            5 => {
                let out = close_from(next, Ok(Error::WeakUpgrade));
                proof {
                    assert forall|u: Error|
                        (#[trigger] u.wire()).is_prefix_of(remaining(pre))
                            && u.wire().len() <= usize::MAX implies (out matches Ok(res)
                        && res.model() == u.model() && next.pos() == pre.pos()
                        + u.wire().len()) by {
                        match u {
                            Error::WeakUpgrade => {
                            },
                            _ => {
                                assert(false);
                            },
                        }
                        assert(error_fields_wire(u) =~= Seq::<u8>::empty());
                    };
                }
                out
            },
            6 => {
                let out = close_from(next, Ok(Error::NullPtr));
                proof {
                    assert forall|u: Error|
                        (#[trigger] u.wire()).is_prefix_of(remaining(pre))
                            && u.wire().len() <= usize::MAX implies (out matches Ok(res)
                        && res.model() == u.model() && next.pos() == pre.pos()
                        + u.wire().len()) by {
                        match u {
                            Error::NullPtr => {
                            },
                            _ => {
                                assert(false);
                            },
                        }
                        assert(error_fields_wire(u) =~= Seq::<u8>::empty());
                    };
                }
                out
            },
            7 => {
                match String::from_payload(ctx, next) {
                    Ok(a) => {
                        let out = close_from(next, Ok(Error::Time(a)));
                        proof {
                            assert forall|u: Error|
                                (#[trigger] u.wire()).is_prefix_of(
                                    remaining(pre),
                                ) && u.wire().len() <= usize::MAX implies (out matches Ok(res)
                                && res.model() == u.model() && next.pos() == pre.pos()
                                + u.wire().len()) by {
                                match u {
                                    Error::Time(ua) => {
                                        assert(ua.wire().is_prefix_of(remaining(mid2)));
                                    },
                                    _ => {
                                        assert(false);
                                    },
                                }
                            };
                        }
                        out
                    },
                    Err(e) => {
                        proof {
                            assert forall|u: Error|
                                M::limitless() && (#[trigger] u.wire()).is_prefix_of(
                                    remaining(pre),
                                ) && u.wire().len() <= usize::MAX implies false by {
                                match u {
                                    Error::Time(ua) => {
                                        assert(ua.wire().is_prefix_of(remaining(mid2)));
                                    },
                                    _ => {
                                        assert(false);
                                    },
                                }
                            };
                        }
                        Err(next.wrap_from(e))
                    },
                }
            },
            8 => {
                match String::from_payload(ctx, next) {
                    Ok(a) => {
                        let ghost mid3 = *next;
                        match String::from_payload(ctx, next) {
                            Ok(b) => {
                                let out = close_from(next, Ok(Error::Traced(a, b)));
                                proof {
                                    assert forall|u: Error|
                                        (#[trigger] u.wire()).is_prefix_of(
                                            remaining(pre),
                                        ) && u.wire().len() <= usize::MAX implies (out matches Ok(
                                        res,
                                    ) && res.model() == u.model() && next.pos() == pre.pos()
                                        + u.wire().len()) by {
                                        match u {
                                            Error::Traced(ua, ub) => {
                                                lemma_prefix_drop(ua.wire(), ub.wire(), remaining(mid2));
                                                assert(remaining(mid3) =~= remaining(mid2).skip(ua.wire().len() as int));
                                                assert(ub.wire().is_prefix_of(remaining(mid3)));
                                            },
                                            _ => {
                                                assert(false);
                                            },
                                        }
                                    };
                                }
                                out
                            },
                            Err(e) => {
                                proof {
                                    assert forall|u: Error|
                                        M::limitless() && (#[trigger] u.wire()).is_prefix_of(
                                            remaining(pre),
                                        ) && u.wire().len() <= usize::MAX implies false by {
                                        match u {
                                            Error::Traced(ua, ub) => {
                                                lemma_prefix_drop(ua.wire(), ub.wire(), remaining(mid2));
                                                assert(remaining(mid3) =~= remaining(mid2).skip(ua.wire().len() as int));
                                                assert(ub.wire().is_prefix_of(remaining(mid3)));
                                            },
                                            _ => {
                                                assert(false);
                                            },
                                        }
                                    };
                                }
                                Err(next.wrap_from(e))
                            },
                        }
                    },
                    Err(e) => {
                        proof {
                            assert forall|u: Error|
                                M::limitless() && (#[trigger] u.wire()).is_prefix_of(
                                    remaining(pre),
                                ) && u.wire().len() <= usize::MAX implies false by {
                                match u {
                                    Error::Traced(ua, ub) => {
                                        lemma_prefix_drop(ua.wire(), ub.wire(), remaining(mid2));
                                    },
                                    _ => {
                                        assert(false);
                                    },
                                }
                            };
                        }
                        Err(next.wrap_from(e))
                    },
                }
            },
            9 => {
                match String::from_payload(ctx, next) {
                    Ok(a) => {
                        let out = close_from(next, Ok(Error::External(a)));
                        proof {
                            assert forall|u: Error|
                                (#[trigger] u.wire()).is_prefix_of(
                                    remaining(pre),
                                ) && u.wire().len() <= usize::MAX implies (out matches Ok(res)
                                && res.model() == u.model() && next.pos() == pre.pos()
                                + u.wire().len()) by {
                                match u {
                                    Error::External(ua) => {
                                        assert(ua.wire().is_prefix_of(remaining(mid2)));
                                    },
                                    _ => {
                                        assert(false);
                                    },
                                }
                            };
                        }
                        out
                    },
                    Err(e) => {
                        proof {
                            assert forall|u: Error|
                                M::limitless() && (#[trigger] u.wire()).is_prefix_of(
                                    remaining(pre),
                                ) && u.wire().len() <= usize::MAX implies false by {
                                match u {
                                    Error::External(ua) => {
                                        assert(ua.wire().is_prefix_of(remaining(mid2)));
                                    },
                                    _ => {
                                        assert(false);
                                    },
                                }
                            };
                        }
                        Err(next.wrap_from(e))
                    },
                }
            },
            _ => {
                proof {
                    assert forall|u: Error|
                        M::limitless() && (#[trigger] u.wire()).is_prefix_of(remaining(pre))
                            && u.wire().len() <= usize::MAX implies false by {
                        lemma_error_tag_range(u);
                        lemma_prefix_drop(varint(error_tag(u)), error_fields_wire(u), remaining(mid));
                        assert(((error_tag(u) as usize) as nat) == error_tag(u));
                        assert((error_tag(u) as usize).wire() == varint(error_tag(u)));
                    };
                }
                Err(next.wrap_from(Error::UnknownVariant(decimal_string(idx))))
            },
        }
    }
}

impl<C> Payload<C> for Error {
}

} // verus!
