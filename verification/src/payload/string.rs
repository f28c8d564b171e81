//! Payload implementations for characters and text: a character is its
//! Unicode scalar value as a four-byte big-endian field, text is a byte count
//! followed by the UTF-8 bytes, re-validated on decode.

use vstd::prelude::*;

verus! {

use crate::FromPayload;
use crate::IntoPayload;
use crate::Middleware;
use crate::Payload;
use crate::PayloadInfo;
use crate::close_from;
use crate::close_into;
use crate::error::Error;
use crate::info::payload_hash;
use crate::info::xxh3_of;
use crate::lemma_prefix_append;
use crate::lemma_prefix_drop;
use crate::payload::primitive::be_bytes;
use crate::payload::primitive::decode_fixed;
use crate::payload::primitive::encode_fixed;
use crate::payload::primitive::lemma_be_bytes_len;
use crate::payload::primitive::lemma_be_prefix;
use crate::payload::primitive::lemma_from_be_bound;
use crate::payload::primitive::leb_end;
use crate::payload::primitive::leb_sum;
use crate::payload::primitive::lemma_pow2_vals;
use crate::payload::primitive::varint_limit_bytes;
use crate::payload::primitive::from_be;
use crate::payload::primitive::varint;
use vstd::arithmetic::power2::pow2;
use crate::remaining;
use vstd::utf8::decode_utf8;
use vstd::utf8::encode_utf8;
use vstd::utf8::encode_utf8_decode_utf8;
use vstd::utf8::encode_utf8_valid_utf8;
use vstd::utf8::valid_utf8;

/// Characters with the same scalar value are the same character.
proof fn lemma_char_eq(a: char, b: char)
    requires
        a as u32 == b as u32,
    ensures
        a == b,
{
}

/// Every character's scalar value lies in the Unicode scalar range.
proof fn lemma_char_range(c: char)
    ensures
        (c as u32) < 0xD800 || (0xE000 <= (c as u32) && (c as u32) <= 0x10FFFF),
{
}

/// Relies on `char::from_u32`: it yields the character with the given scalar
/// value exactly when that value is a Unicode scalar value.
#[verifier::external_body]
fn char_from_u32(v: u32) -> (r: Option<char>)
    ensures
        r matches Some(c) ==> c as u32 == v,
        v < 0xD800 || (0xE000 <= v && v <= 0x10FFFF) ==> r is Some,
{
    char::from_u32(v)
}

/// Relies on `String::from_utf8`: it accepts exactly well-formed UTF-8 and
/// decodes those bytes to the characters they encode.
#[verifier::external_body]
fn string_from_utf8(v: Vec<u8>) -> (r: Option<String>)
    ensures
        r matches Some(s) ==> s@ == decode_utf8(v@) && valid_utf8(v@),
        valid_utf8(v@) ==> r is Some,
{
    String::from_utf8(v).ok()
}

impl PayloadInfo for char {
    type Model = char;

    open spec fn model(&self) -> char {
        *self
    }

    open spec fn wire(&self) -> Seq<u8> {
        be_bytes((*self as u32) as nat, 4)
    }

    open spec fn nest_depth(&self) -> nat {
        1
    }

    open spec fn spec_name() -> Seq<char> {
        "char"@
    }

    open spec fn spec_fixed_size() -> Option<usize> {
        Some(4)
    }

    fn name() -> (r: &'static str) {
        "char"
    }

    fn hash() -> (r: u64) {
        payload_hash(Self::name())
    }

    fn fixed_size() -> (r: Option<usize>) {
        proof {
            assert forall|v: char| (#[trigger] v.wire()).len() == 4 by {
                lemma_be_bytes_len((v as u32) as nat, 4);
            };
        }
        Some(4)
    }
}

impl<C> IntoPayload<C> for char {
    fn into_payload<M: Middleware>(&self, _ctx: &mut C, next: &mut M) -> (r: Result<(), Error>)
        ensures
            old(next).trace().len() <= old(next).depth() ==> r is Ok,
    {
        proof {
            assert(((*self as u32) as u128) as nat == (*self as u32) as nat);
        }
        encode_fixed(next, Self::name(), (*self as u32) as u128, 4)
    }
}

impl<C> FromPayload<C> for char {
    fn from_payload<M: Middleware>(_ctx: &mut C, next: &mut M) -> (r: Result<Self, Error>)
        ensures
            r matches Ok(ch) ==> remaining(*old(next)).len() >= 4 && ((ch as u32) as nat)
                == from_be(remaining(*old(next)).take(4)) && final(next).pos() == old(next).pos()
                + 4,
            M::limitless() && remaining(*old(next)).len() >= 4 ==> ({
                let c = from_be(remaining(*old(next)).take(4));
                if c < 0xD800 || (0xE000 <= c && c <= 0x10FFFF) {
                    r is Ok
                } else {
                    r matches Err(e) && e is UnknownVariant && final(next).pos() == old(next).pos()
                        + 4
                }
            }),
    {
        let ghost pre = *old(next);
        match decode_fixed(next, Self::name(), 4) {
            Ok(x) => {
                proof {
                    lemma_pow2_vals();
                    let s = pre.buf().subrange(pre.pos() as int, pre.pos() as int + 4);
                    lemma_from_be_bound(s);
                }
                match char_from_u32(x as u32) {
                    Some(c) => {
                        proof {
                            let s = pre.buf().subrange(pre.pos() as int, pre.pos() as int + 4);
                            assert(remaining(pre).take(4) =~= s);
                            lemma_char_range(c);
                            assert((x as u32) as nat == x as nat);
                            assert forall|u: char|
                                (#[trigger] u.wire()).is_prefix_of(
                                    remaining(pre),
                                ) implies (c == u && u.wire().len() == 4) by {
                                let s = pre.buf().subrange(
                                    pre.pos() as int,
                                    pre.pos() as int + 4,
                                );
                                assert(u.wire() == be_bytes((u as u32) as nat, 4));
                                assert(((u as u32) as nat) < pow2(32));
                                lemma_be_prefix(remaining(pre), (u as u32) as nat, 4);
                                assert(from_be(remaining(pre).take(4)) == (u as u32) as nat);
                                assert(remaining(pre).take(4) =~= s);
                                assert((x as nat) == from_be(s));
                                assert((x as nat) == ((u as u32) as nat));
                                assert(x < pow2(32));
                                assert((x as u32) as nat == x as nat);
                                lemma_be_bytes_len((u as u32) as nat, 4);
                                assert((x as u32) == (u as u32));
                                assert(c as u32 == x as u32);
                                lemma_char_eq(c, u);
                            };
                        }
                        Ok(c)
                    },
                    None => {
                        proof {
                            let s = pre.buf().subrange(pre.pos() as int, pre.pos() as int + 4);
                            assert(remaining(pre).take(4) =~= s);
                            assert((x as u32) as nat == x as nat);
                            assert forall|u: char|
                                M::limitless() && (#[trigger] u.wire()).is_prefix_of(
                                    remaining(pre),
                                ) implies false by {
                                let s = pre.buf().subrange(
                                    pre.pos() as int,
                                    pre.pos() as int + 4,
                                );
                                assert(u.wire() == be_bytes((u as u32) as nat, 4));
                                assert(((u as u32) as nat) < pow2(32));
                                lemma_be_prefix(remaining(pre), (u as u32) as nat, 4);
                                assert(from_be(remaining(pre).take(4)) == (u as u32) as nat);
                                assert(remaining(pre).take(4) =~= s);
                                assert((x as nat) == from_be(s));
                                assert((x as nat) == ((u as u32) as nat));
                                assert(x < pow2(32));
                                assert((x as u32) as nat == x as nat);
                                lemma_be_bytes_len((u as u32) as nat, 4);
                                assert((x as u32) == (u as u32));
                                lemma_char_range(u);
                            };
                        }
                        Err(next.wrap_from(
                            Error::UnknownVariant(String::from_str("Expected char from u32")),
                        ))
                    },
                }
            },
            Err(e) => {
                proof {
                    assert(remaining(pre).len() == pre.buf().len() - pre.pos());
                    assert forall|u: char|
                        M::limitless() && (#[trigger] u.wire()).is_prefix_of(
                            remaining(pre),
                        ) && u.wire().len() <= usize::MAX implies false by {
                        lemma_be_bytes_len((u as u32) as nat, 4);
                    };
                }
                Err(e)
            },
        }
    }
}

impl<C> Payload<C> for char {
}

impl PayloadInfo for String {
    type Model = Seq<char>;

    open spec fn model(&self) -> Seq<char> {
        self@
    }

    open spec fn wire(&self) -> Seq<u8> {
        varint(encode_utf8(self@).len()) + encode_utf8(self@)
    }

    open spec fn nest_depth(&self) -> nat {
        2
    }

    open spec fn spec_name() -> Seq<char> {
        "String"@
    }

    open spec fn spec_fixed_size() -> Option<usize> {
        None
    }

    fn name() -> (r: &'static str) {
        "String"
    }

    fn hash() -> (r: u64) {
        let n = Self::name();
        proof {
            assert(n@ == Self::spec_name());
            assert(Self::spec_hash() == xxh3_of(Self::spec_name()));
        }
        payload_hash(n)
    }

    fn fixed_size() -> (r: Option<usize>) {
        None
    }
}

impl<C> IntoPayload<C> for String {
    fn into_payload<M: Middleware>(&self, ctx: &mut C, next: &mut M) -> (r: Result<(), Error>) {
        if let Err(e) = next.enter(Self::name()) {
            proof {
                lemma_prefix_append(old(next).buf(), Seq::empty());
                assert(old(next).buf() + Seq::<u8>::empty() =~= old(next).buf());
            }
            return Err(e);
        }
        let bytes: &[u8] = self.as_str().as_bytes();
        let res: Result<(), Error> = match bytes.len().into_payload(ctx, next) {
            Ok(()) => next.write(bytes),
            Err(e) => Err(e),
        };
        let out = close_into(next, res);
        proof {
            if res is Ok {
                assert(old(next).buf() + varint(encode_utf8(self@).len()) + encode_utf8(self@)
                    =~= old(next).buf() + self.wire());
            }
            lemma_prefix_append(old(next).buf(), next.buf().skip(old(next).buf().len() as int));
            assert(old(next).buf() + next.buf().skip(old(next).buf().len() as int) =~= next.buf());
        }
        out
    }
}

impl<C> FromPayload<C> for String {
    fn from_payload<M: Middleware>(ctx: &mut C, next: &mut M) -> (r: Result<Self, Error>)
        ensures
            M::limitless() && leb_end(remaining(*old(next))) is Some && leb_end(
                remaining(*old(next)),
            )->0 + 1 <= varint_limit_bytes() && ({
                let rem = remaining(*old(next));
                let hdr = leb_end(rem)->0 + 1;
                let n = leb_sum(rem.take(hdr)) % pow2(usize::BITS as nat);
                &&& hdr + n <= rem.len()
                &&& !valid_utf8(rem.subrange(hdr, hdr + n))
            }) ==> (r matches Err(e) && e is InvalidUtf8 && ({
                let rem = remaining(*old(next));
                let hdr = leb_end(rem)->0 + 1;
                let n = leb_sum(rem.take(hdr)) % pow2(usize::BITS as nat);
                final(next).pos() == old(next).pos() + hdr + n
            })),
    {
        let ghost pre = *old(next);
        if let Err(e) = next.enter(Self::name()) {
            return Err(e);
        }
        let ghost mid = *next;
        proof {
            broadcast use encode_utf8_valid_utf8;
            broadcast use encode_utf8_decode_utf8;

            assert(remaining(mid) =~= remaining(pre));
        }
        let nbytes = match usize::from_payload(ctx, next) {
            Ok(n) => n,
            Err(e) => {
                proof {
                    assert forall|u: String|
                        M::limitless() && (#[trigger] u.wire()).is_prefix_of(
                            remaining(pre),
                        ) && u.wire().len() <= usize::MAX implies false by {
                        lemma_prefix_drop(
                            varint(encode_utf8(u@).len()),
                            encode_utf8(u@),
                            remaining(mid),
                        );
                        assert(((encode_utf8(u@).len() as usize) as nat) == encode_utf8(u@).len());
                        assert((encode_utf8(u@).len() as usize).wire() == varint(
                            encode_utf8(u@).len(),
                        ));
                    };
                }
                return Err(next.wrap_from(e));
            },
        };
        let ghost mid2 = *next;
        proof {
            assert(remaining(mid2).len() == mid2.buf().len() - mid2.pos());
        }
        let data = match next.read(nbytes) {
            Ok(d) => d,
            Err(e) => {
                proof {
                    assert forall|u: String|
                        M::limitless() && (#[trigger] u.wire()).is_prefix_of(
                            remaining(pre),
                        ) && u.wire().len() <= usize::MAX implies false by {
                        lemma_prefix_drop(
                            varint(encode_utf8(u@).len()),
                            encode_utf8(u@),
                            remaining(mid),
                        );
                        assert(((encode_utf8(u@).len() as usize) as nat) == encode_utf8(u@).len());
                        assert((encode_utf8(u@).len() as usize).wire() == varint(
                            encode_utf8(u@).len(),
                        ));
                        assert(remaining(mid2) =~= remaining(mid).skip(
                            varint(encode_utf8(u@).len()).len() as int,
                        ));
                    };
                }
                return Err(next.wrap_from(e));
            },
        };
        proof {
            if leb_end(remaining(pre)) is Some {
                let hdr = leb_end(remaining(pre))->0 + 1;
                if hdr + nbytes <= remaining(pre).len() && mid2.pos() == pre.pos() + hdr {
                    assert(data@ =~= remaining(pre).subrange(hdr, hdr + nbytes as int));
                }
            }
        }
        match string_from_utf8(data) {
            Some(s) => {
                let out = close_from(next, Ok(s));
                proof {
                    broadcast use encode_utf8_valid_utf8;
                    broadcast use encode_utf8_decode_utf8;

                    assert forall|u: String|
                        (#[trigger] u.wire()).is_prefix_of(remaining(pre)) && u.wire().len() <= usize::MAX implies (
                    out matches Ok(res) && res.model() == u.model() && next.pos() == pre.pos()
                        + u.wire().len()) by {
                        lemma_prefix_drop(
                            varint(encode_utf8(u@).len()),
                            encode_utf8(u@),
                            remaining(mid),
                        );
                        assert(((encode_utf8(u@).len() as usize) as nat) == encode_utf8(u@).len());
                        assert((encode_utf8(u@).len() as usize).wire() == varint(
                            encode_utf8(u@).len(),
                        ));
                        assert(remaining(mid2) =~= remaining(mid).skip(
                            varint(encode_utf8(u@).len()).len() as int,
                        ));
                        assert(encode_utf8(u@).is_prefix_of(remaining(mid2)));
                        assert(data@ == remaining(mid2).subrange(0, nbytes as int));
                        assert(data@ =~= encode_utf8(u@));
                    };
                }
                out
            },
            None => {
                proof {
                    broadcast use encode_utf8_valid_utf8;
                    broadcast use encode_utf8_decode_utf8;

                    assert forall|u: String|
                        M::limitless() && (#[trigger] u.wire()).is_prefix_of(
                            remaining(pre),
                        ) && u.wire().len() <= usize::MAX implies false by {
                        lemma_prefix_drop(
                            varint(encode_utf8(u@).len()),
                            encode_utf8(u@),
                            remaining(mid),
                        );
                        assert(((encode_utf8(u@).len() as usize) as nat) == encode_utf8(u@).len());
                        assert((encode_utf8(u@).len() as usize).wire() == varint(
                            encode_utf8(u@).len(),
                        ));
                        assert(remaining(mid2) =~= remaining(mid).skip(
                            varint(encode_utf8(u@).len()).len() as int,
                        ));
                        assert(encode_utf8(u@).is_prefix_of(remaining(mid2)));
                        assert(data@ == remaining(mid2).subrange(0, nbytes as int));
                        assert(data@ =~= encode_utf8(u@));
                    };
                }
                Err(next.wrap_from(Error::InvalidUtf8(String::from_str("invalid UTF-8 bytes"))))
            },
        }
    }
}

impl<C> Payload<C> for String {
}

} // verus!
