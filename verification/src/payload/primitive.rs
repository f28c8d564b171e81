//! The two integer wire encodings and the payload implementations for the
//! fixed-width numbers, `bool` and the unit type: fixed-width numbers go as
//! raw big-endian bytes, `usize` as an LEB128 variable-length integer, and
//! `isize` widened to a fixed eight-byte signed integer.

use vstd::prelude::*;

verus! {

use crate::FromPayload;
use crate::IntoPayload;
use crate::Middleware;
use crate::Payload;
use crate::PayloadInfo;
use crate::error::Error;
use crate::info::payload_hash;
use crate::info::xxh3_of;
use crate::remaining;
use crate::wf;
use vstd::arithmetic::div_mod::lemma_small_mod;
use vstd::arithmetic::div_mod::lemma_add_mod_noop;
use vstd::arithmetic::div_mod::lemma_fundamental_div_mod;
use vstd::arithmetic::div_mod::lemma_fundamental_div_mod_converse;
use vstd::arithmetic::power2::lemma2_to64;
use vstd::arithmetic::power2::lemma2_to64_rest;
use vstd::arithmetic::power2::lemma_pow2_adds;
use vstd::arithmetic::power2::lemma_pow2_strictly_increases;
use vstd::arithmetic::power2::pow2;

/// The big-endian bytes of `v` in a field `w` bytes wide: the most
/// significant byte first, keeping the low `8 * w` bits of `v`.
pub open spec fn be_bytes(v: nat, w: nat) -> Seq<u8>
    decreases w,
{
    if w == 0 {
        Seq::empty()
    } else {
        be_bytes(v / 256, (w - 1) as nat).push((v % 256) as u8)
    }
}

/// The number a big-endian byte sequence denotes.
pub open spec fn from_be(s: Seq<u8>) -> nat
    decreases s.len(),
{
    if s.len() == 0 {
        0
    } else {
        (from_be(s.drop_last()) * 256 + s.last()) as nat
    }
}

/// The unsigned LEB128 form of `v`: seven data bits per byte, low group
/// first, the high bit set on every byte but the last.
pub open spec fn varint(v: nat) -> Seq<u8>
    decreases v,
{
    if v < 128 {
        seq![v as u8]
    } else {
        seq![(128 + (v % 128)) as u8] + varint(v / 128)
    }
}

/// A big-endian field is as wide as asked.
pub broadcast proof fn lemma_be_bytes_len(v: nat, w: nat)
    ensures
        (#[trigger] be_bytes(v, w)).len() == w,
    decreases w,
{
    if w > 0 {
        lemma_be_bytes_len(v / 256, (w - 1) as nat);
    }
}

/// Reading a big-endian field back yields the encoded number.
pub proof fn lemma_from_be_be_bytes(v: nat, w: nat)
    requires
        v < pow2(8 * w),
    ensures
        from_be(be_bytes(v, w)) == v,
    decreases w,
{
    if w == 0 {
        lemma2_to64();
    } else {
        lemma_be_bytes_len(v / 256, (w - 1) as nat);
        lemma_fundamental_div_mod(v as int, 256);
        lemma_pow2_adds(8 * (w - 1) as nat, 8);
        lemma2_to64();
        assert(v / 256 < pow2(8 * (w - 1) as nat)) by {
            if v / 256 >= pow2(8 * (w - 1) as nat) {
                assert(v >= 256 * pow2(8 * (w - 1) as nat)) by {
                    lemma_fundamental_div_mod(v as int, 256);
                };
            }
        };
        lemma_from_be_be_bytes(v / 256, (w - 1) as nat);
        assert(be_bytes(v, w).drop_last() =~= be_bytes(v / 256, (w - 1) as nat));
        assert(be_bytes(v, w).last() == (v % 256) as u8);
    }
}

/// A big-endian byte sequence denotes a number below the field's capacity.
pub proof fn lemma_from_be_bound(s: Seq<u8>)
    ensures
        from_be(s) < pow2(8 * s.len()),
    decreases s.len(),
{
    if s.len() == 0 {
        lemma2_to64();
    } else {
        lemma_from_be_bound(s.drop_last());
        lemma_pow2_adds(8 * (s.len() - 1) as nat, 8);
        lemma2_to64();
    }
}

/// A variable-length integer is never empty, and its first byte has the
/// continuation bit set exactly when more bytes follow.
pub broadcast proof fn lemma_varint_shape(v: nat)
    ensures
        (#[trigger] varint(v)).len() >= 1,
        v < 128 ==> varint(v) == seq![v as u8] && varint(v)[0] < 128,
        v >= 128 ==> varint(v)[0] >= 128 && varint(v) == seq![(128 + (v % 128)) as u8] + varint(
            v / 128,
        ),
{
}

/// Two variable-length integers that begin the same byte sequence are the
/// same number read over the same bytes.
pub proof fn lemma_varint_unambiguous(a: nat, b: nat, t1: Seq<u8>, t2: Seq<u8>)
    requires
        varint(a) + t1 == varint(b) + t2,
    ensures
        a == b,
        t1 == t2,
    decreases a,
{
    lemma_varint_shape(a);
    lemma_varint_shape(b);
    let s = varint(a) + t1;
    assert(s[0] == varint(a)[0]);
    assert(s[0] == varint(b)[0]);
    if a < 128 && b < 128 {
        assert(a == b);
        assert(t1 =~= s.skip(1));
        assert(t2 =~= s.skip(1));
    } else if a >= 128 && b >= 128 {
        assert((128 + (a % 128)) as u8 == (128 + (b % 128)) as u8);
        assert(a % 128 == b % 128);
        assert(varint(a / 128) + t1 =~= s.skip(1));
        assert(varint(b / 128) + t2 =~= s.skip(1));
        lemma_varint_unambiguous(a / 128, b / 128, t1, t2);
        lemma_fundamental_div_mod(a as int, 128);
        lemma_fundamental_div_mod(b as int, 128);
    } else {
        assert(false);
    }
}


/// The position of the first byte of a sequence without the continuation
/// bit, the byte that ends a variable-length integer.
pub open spec fn leb_end(s: Seq<u8>) -> Option<int>
    decreases s.len(),
{
    if s.len() == 0 {
        None
    } else if s[0] < 128 {
        Some(0int)
    } else {
        match leb_end(s.drop_first()) {
            Some(k) => Some(k + 1),
            None => None,
        }
    }
}

/// The number the seven-bit data groups of a byte sequence denote, low group
/// first, with no width limit.
pub open spec fn leb_sum(s: Seq<u8>) -> nat
    decreases s.len(),
{
    if s.len() == 0 {
        0
    } else {
        ((s[0] as nat) % 128 + 128 * leb_sum(s.drop_first())) as nat
    }
}

/// How many bytes a variable-length read can take before the accumulated
/// shift reaches the native word width.
pub open spec fn varint_limit_bytes() -> nat {
    ((usize::BITS + 6) / 7) as nat
}

/// The first multiple of seven at or past the native word width: the shift a
/// refused variable-length read reports.
pub open spec fn varint_limit_shift() -> nat {
    7 * varint_limit_bytes()
}

/// The byte limit covers the word width, and only just.
proof fn lemma_limit_bounds()
    ensures
        7 * varint_limit_bytes() >= usize::BITS,
        7 * varint_limit_bytes() < usize::BITS + 7,
{
    lemma_fundamental_div_mod((usize::BITS + 6) as int, 7);
}

/// Taking one more byte adds its data bits at the next seven-bit position.
proof fn lemma_leb_sum_snoc(s: Seq<u8>, i: int)
    requires
        0 <= i < s.len(),
    ensures
        leb_sum(s.take(i + 1)) == leb_sum(s.take(i)) + ((s[i] as nat) % 128) * pow2((7 * i) as nat),
    decreases i,
{
    if i == 0 {
        assert(s.take(1) =~= seq![s[0]]);
        assert(seq![s[0]].drop_first() =~= Seq::<u8>::empty());
        assert(s.take(0) =~= Seq::<u8>::empty());
        lemma2_to64();
    } else {
        lemma_leb_sum_snoc(s.drop_first(), i - 1);
        assert(s.take(i + 1).drop_first() =~= s.drop_first().take(i));
        assert(s.take(i).drop_first() =~= s.drop_first().take(i - 1));
        assert(s.take(i + 1)[0] == s[0]);
        assert(s.take(i)[0] == s[0]);
        assert(s.drop_first()[i - 1] == s[i]);
        lemma_pow2_adds(7, (7 * (i - 1)) as nat);
        lemma2_to64();
        assert(128 * (leb_sum(s.drop_first().take(i - 1)) + ((s[i] as nat) % 128) * pow2(
            (7 * (i - 1)) as nat,
        )) == 128 * leb_sum(s.drop_first().take(i - 1)) + ((s[i] as nat) % 128) * (128 * pow2(
            (7 * (i - 1)) as nat,
        ))) by (nonlinear_arith);
    }
}

/// A run of continuation bytes ended by a data byte places the end exactly.
proof fn lemma_leb_end_found(s: Seq<u8>, k: int)
    requires
        0 <= k < s.len(),
        forall|j: int| 0 <= j < k ==> s[j] >= 128,
        s[k] < 128,
    ensures
        leb_end(s) == Some(k),
    decreases k,
{
    if k > 0 {
        assert(s[0] >= 128);
        assert forall|j: int| 0 <= j < k - 1 implies s.drop_first()[j] >= 128 by {
            assert(s.drop_first()[j] == s[j + 1]);
        };
        assert(s.drop_first()[k - 1] == s[k]);
        lemma_leb_end_found(s.drop_first(), k - 1);
    }
}

/// Where a variable-length integer ends, the byte is a data byte and every
/// byte before it carries the continuation bit.
proof fn lemma_leb_end_props(s: Seq<u8>)
    ensures
        leb_end(s) matches Some(k) ==> 0 <= k < s.len() && s[k] < 128 && (forall|j: int|
            0 <= j < k ==> s[j] >= 128),
    decreases s.len(),
{
    if s.len() > 0 && s[0] >= 128 {
        lemma_leb_end_props(s.drop_first());
        match leb_end(s.drop_first()) {
            Some(k2) => {
                assert forall|j: int| 0 <= j < k2 + 1 implies s[j] >= 128 by {
                    if j > 0 {
                        assert(s.drop_first()[j - 1] == s[j]);
                    }
                };
                assert(s[k2 + 1] == s.drop_first()[k2]);
            },
            None => {
            },
        }
    }
}

/// The boundary of the variable-length integer encoding: the largest
/// one-byte value has the continuation bit clear, and the next value takes
/// two bytes, the first with the continuation bit set.
pub proof fn lemma_varint_boundary()
    ensures
        varint(0x7F) == seq![0x7Fu8],
        varint(0x7F)[0] & 0x80 == 0,
        varint(0x80) == seq![0x80u8, 0x01u8],
        varint(0x80)[0] & 0x80 == 0x80,
{
    assert(varint(1) =~= seq![1u8]);
    assert(varint(0x80) =~= seq![0x80u8] + varint(1));
    assert(varint(0x80) =~= seq![0x80u8, 0x01u8]);
    assert(varint(0x7F) =~= seq![0x7Fu8]);
    assert(0x7Fu8 & 0x80 == 0) by (bit_vector);
    assert(0x80u8 & 0x80 == 0x80) by (bit_vector);
}

/// The big-endian bytes of `v`, most significant first.
fn be_vec(v: u128, w: usize) -> (r: Vec<u8>)
    ensures
        r@ == be_bytes(v as nat, w as nat),
    decreases w,
{
    if w == 0 {
        let r: Vec<u8> = Vec::new();
        proof {
            assert(r@ =~= be_bytes(v as nat, 0));
        }
        r
    } else {
        let mut r = be_vec(v / 256, w - 1);
        r.push((v % 256) as u8);
        r
    }
}

/// Appends the big-endian form of `v` in a `w`-byte field to the buffer.
pub(crate) fn write_be<M: Middleware>(next: &mut M, v: u128, w: usize) -> (r: Result<(), Error>)
    requires
        wf(*old(next)),
    ensures
        wf(*final(next)),
        r is Ok,
        final(next).buf() == old(next).buf() + be_bytes(v as nat, w as nat),
        final(next).pos() == old(next).pos(),
        final(next).trace() == old(next).trace(),
        final(next).depth() == old(next).depth(),
{
    let bytes = be_vec(v, w);
    next.write(bytes.as_slice())
}

/// Reads a `w`-byte big-endian field at the cursor.
pub(crate) fn read_be<M: Middleware>(next: &mut M, w: usize) -> (r: Result<u128, Error>)
    requires
        wf(*old(next)),
        1 <= w <= 16,
    ensures
        wf(*final(next)),
        final(next).buf() == old(next).buf(),
        final(next).trace() == old(next).trace(),
        final(next).depth() == old(next).depth(),
        old(next).pos() <= final(next).pos(),
        w <= old(next).buf().len() - old(next).pos() ==> r is Ok,
        r matches Ok(x) ==> (x as nat) == from_be(
            old(next).buf().subrange(old(next).pos() as int, old(next).pos() + w),
        ) && final(next).pos() == old(next).pos() + w,
        r is Err ==> final(next).pos() == old(next).pos() && r == Err::<u128, Error>(
            Error::InvalidLength {
                expected: w,
                found: #[verifier::truncate] ((old(next).buf().len() - old(next).pos()) as usize),
            },
        ),
{
    let bytes = match next.read(w) {
        Ok(b) => b,
        Err(e) => {
            return Err(e);
        },
    };
    proof {
        assert(old(next).pos() + w <= old(next).buf().len());
        assert(bytes@.len() == w);
    }
    let mut acc: u128 = 0;
    let mut i: usize = 0;
    proof {
        lemma2_to64();
        lemma2_to64_rest();
        lemma_pow2_adds(64, 64);
    }
    while i < w
        invariant
            i <= w <= 16,
            bytes@.len() == w,
            acc as nat == from_be(bytes@.take(i as int)),
            acc < pow2(8 * i as nat),
            pow2(128) == 0x1_0000_0000_0000_0000_0000_0000_0000_0000,
        decreases w - i,
    {
        proof {
            lemma_pow2_adds(8 * i as nat, 8);
            lemma2_to64();
            if 8 * (i + 1) < 128 {
                lemma_pow2_strictly_increases(8 * (i + 1) as nat, 128);
            }
            assert(bytes@.take(i + 1).drop_last() =~= bytes@.take(i as int));
        }
        acc = acc * 256 + (bytes[i] as u128);
        i += 1;
    }
    proof {
        assert(bytes@.take(w as int) =~= bytes@);
    }
    Ok(acc)
}

/// Marks a typed conversion around an encode body that appended `payload` to
/// the buffer: enter, then leave on success or annotate the failure.
pub(crate) fn encode_fixed<M: Middleware>(next: &mut M, name: &'static str, v: u128, w: usize) -> (r:
    Result<(), Error>)
    requires
        wf(*old(next)),
    ensures
        wf(*final(next)),
        final(next).pos() == old(next).pos(),
        final(next).depth() == old(next).depth(),
        old(next).buf().is_prefix_of(final(next).buf()),
        r is Ok ==> final(next).buf() == old(next).buf() + be_bytes(v as nat, w as nat),
        r is Ok ==> final(next).trace() == old(next).trace(),
        M::limitless() ==> r is Ok && final(next).trace() == old(next).trace(),
        old(next).trace().len() <= old(next).depth() ==> r is Ok,
{
    if let Err(e) = next.enter(name) {
        proof {
            assert(old(next).buf().is_prefix_of(next.buf()));
        }
        return Err(e);
    }
    let r = write_be(next, v, w);
    next.leave();
    proof {
        assert(old(next).buf().is_prefix_of(next.buf()));
    }
    r
}

/// Marks a typed conversion around a fixed-width decode: enter, read the
/// field, then leave on success or annotate the failure.
pub(crate) fn decode_fixed<M: Middleware>(next: &mut M, name: &'static str, w: usize) -> (r: Result<
    u128,
    Error,
>)
    requires
        wf(*old(next)),
        1 <= w <= 16,
    ensures
        wf(*final(next)),
        final(next).buf() == old(next).buf(),
        final(next).depth() == old(next).depth(),
        old(next).pos() <= final(next).pos(),
        r is Ok ==> final(next).trace() == old(next).trace(),
        M::limitless() ==> final(next).trace() == old(next).trace(),
        r matches Ok(x) ==> (x as nat) == from_be(
            old(next).buf().subrange(old(next).pos() as int, old(next).pos() + w),
        ) && final(next).pos() == old(next).pos() + w && old(next).pos() + w <= old(
            next,
        ).buf().len(),
        M::limitless() && w <= old(next).buf().len() - old(next).pos() ==> r is Ok,
{
    if let Err(e) = next.enter(name) {
        return Err(e);
    }
    match read_be(next, w) {
        Ok(x) => {
            next.leave();
            proof {
                assert(old(next).pos() + w <= old(next).buf().len());
            }
            Ok(x)
        },
        Err(e) => Err(next.wrap_from(e)),
    }
}

/// The concrete powers of two the integer encodings reason with.
pub(crate) proof fn lemma_pow2_vals()
    ensures
        pow2(7) == 0x80,
        pow2(8) == 0x100,
        pow2(16) == 0x1_0000,
        pow2(24) == 0x100_0000,
        pow2(32) == 0x1_0000_0000,
        pow2(64) == 0x1_0000_0000_0000_0000,
        pow2(128) == 0x1_0000_0000_0000_0000_0000_0000_0000_0000,
{
    lemma2_to64();
    lemma2_to64_rest();
    lemma_pow2_adds(64, 64);
}

/// A byte sequence starting with a big-endian field determines the number in
/// it.
pub(crate) proof fn lemma_be_prefix(rem: Seq<u8>, m: nat, w: nat)
    requires
        be_bytes(m, w).is_prefix_of(rem),
        m < pow2(8 * w),
    ensures
        rem.len() >= w,
        from_be(rem.take(w as int)) == m,
{
    lemma_be_bytes_len(m, w);
    assert(rem.take(w as int) =~= be_bytes(m, w));
    lemma_from_be_be_bytes(m, w);
}

/// Two variable-length integers that begin the same byte sequence are equal.
pub(crate) proof fn lemma_varint_same_prefix(a: nat, b: nat, rem: Seq<u8>)
    requires
        varint(a).is_prefix_of(rem),
        varint(b).is_prefix_of(rem),
    ensures
        a == b,
{
    assert(varint(a) + rem.skip(varint(a).len() as int) =~= rem);
    assert(varint(b) + rem.skip(varint(b).len() as int) =~= rem);
    lemma_varint_unambiguous(a, b, rem.skip(varint(a).len() as int), rem.skip(varint(b).len() as int));
}

/// Appends the variable-length form of `v` to the buffer.
pub(crate) fn write_varint<M: Middleware>(next: &mut M, v: usize) -> (r: Result<(), Error>)
    requires
        old(next).pos() <= old(next).buf().len(),
    ensures
        final(next).pos() <= final(next).buf().len(),
        r is Ok,
        final(next).buf() == old(next).buf() + varint(v as nat),
        final(next).pos() == old(next).pos(),
        final(next).trace() == old(next).trace(),
        final(next).depth() == old(next).depth(),
    decreases v,
{
    if v < 128 {
        let b: [u8; 1] = [v as u8];
        let r = next.write(b.as_slice());
        proof {
            assert(b@ =~= varint(v as nat));
        }
        r
    } else {
        let b: [u8; 1] = [((v % 128) + 128) as u8];
        let _ = next.write(b.as_slice());
        let r = write_varint(next, v / 128);
        proof {
            assert(old(next).buf() + b@ + varint((v / 128) as nat) =~= old(next).buf() + varint(
                v as nat,
            ));
        }
        r
    }
}

/// Reads a variable-length integer at the cursor: seven data bits per byte,
/// low group first, until a byte without the continuation bit; fails with
/// `IndexOutOfBounds` when the accumulated shift would pass the native word
/// width, and with `InvalidLength` when the bytes run out first.
pub(crate) fn read_varint<M: Middleware>(next: &mut M) -> (r: Result<usize, Error>)
    requires
        old(next).pos() <= old(next).buf().len(),
    ensures
        final(next).pos() <= final(next).buf().len(),
        final(next).buf() == old(next).buf(),
        final(next).trace() == old(next).trace(),
        final(next).depth() == old(next).depth(),
        old(next).pos() <= final(next).pos(),
        forall|n: usize|
            (#[trigger] varint(n as nat)).is_prefix_of(remaining(*old(next))) ==> (r == Ok::<
                usize,
                Error,
            >(n) && final(next).pos() == old(next).pos() + varint(n as nat).len()),
        r matches Ok(n) ==> (leb_end(remaining(*old(next))) matches Some(k) && k + 1
            <= varint_limit_bytes() && n as nat == leb_sum(remaining(*old(next)).take(k + 1))
            % pow2(usize::BITS as nat) && final(next).pos() == old(next).pos() + k + 1),
        (leb_end(remaining(*old(next))) matches Some(k) && k + 1 <= varint_limit_bytes()) ==> r
            is Ok,
        remaining(*old(next)).len() >= varint_limit_bytes() && (forall|j: int|
            0 <= j < varint_limit_bytes() ==> remaining(*old(next))[j] >= 128) ==> (r matches Err(e)
            && e matches Error::IndexOutOfBounds(sh) && sh == varint_limit_shift()
            && final(next).pos() == old(next).pos() + varint_limit_bytes()),
        r matches Err(e) ==> (e is InvalidLength || e is IndexOutOfBounds),
{
    let ghost pre = *old(next);
    let ghost has = exists|n: usize| (#[trigger] varint(n as nat)).is_prefix_of(remaining(pre));
    let ghost n0: usize = if has {
        choose|n: usize| (#[trigger] varint(n as nat)).is_prefix_of(remaining(pre))
    } else {
        0usize
    };
    let ghost mut cur: nat = n0 as nat;
    let mut result: usize = 0;
    let mut mult: usize = 1;
    let mut shift: u32 = 0;
    proof {
        lemma_pow2_vals();
        vstd::layout::unsigned_int_max_values();
        lemma_limit_bounds();
        assert(pow2(0) == 1) by {
            lemma2_to64();
        };
        assert(remaining(pre).take(0) =~= Seq::<u8>::empty());
        lemma_small_mod(0, pow2(usize::BITS as nat));
    }
    loop
        invariant
            pre == *old(next),
            next.pos() <= next.buf().len(),
            next.buf() == pre.buf(),
            next.trace() == pre.trace(),
            next.depth() == pre.depth(),
            pre.pos() <= next.pos(),
            shift as nat % 7 == 0,
            (shift as nat) < usize::BITS,
            mult == pow2(shift as nat),
            result < mult,
            usize::MAX + 1 == pow2(usize::BITS as nat),
            pow2(7) == 128,
            7 * varint_limit_bytes() >= usize::BITS,
            7 * varint_limit_bytes() < usize::BITS + 7,
            shift as nat == 7 * (next.pos() - pre.pos()),
            forall|j: int| 0 <= j < next.pos() - pre.pos() ==> remaining(pre)[j] >= 128,
            result as nat == leb_sum(remaining(pre).take(next.pos() - pre.pos() as int)) % pow2(
                usize::BITS as nat,
            ),
            has == exists|n: usize| (#[trigger] varint(n as nat)).is_prefix_of(remaining(pre)),
            has ==> varint(n0 as nat).is_prefix_of(remaining(pre)),
            has ==> n0 as nat == result + cur * mult && (varint(cur)).is_prefix_of(
                remaining(*next),
            ) && next.pos() + varint(cur).len() == pre.pos() + varint(n0 as nat).len(),
        decreases next.buf().len() - next.pos(),
    {
        let ghost head = *next;
        let bytes = match next.read(1) {
            Ok(b) => b,
            Err(e) => {
                proof {
                    if has {
                        lemma_varint_shape(cur);
                        assert(remaining(head).len() >= 1);
                        assert(false);
                    }
                    assert(remaining(head).len() == 0);
                    assert(remaining(pre).len() == next.pos() - pre.pos());
                    assert(7 * (next.pos() - pre.pos()) < usize::BITS);
                    assert(next.pos() - pre.pos() < varint_limit_bytes());
                    lemma_leb_end_props(remaining(pre));
                }
                return Err(e);
            },
        };
        let byte = bytes[0];
        proof {
            assert(byte == remaining(head)[0]);
            assert(byte == remaining(pre)[head.pos() - pre.pos()]);
            assert(remaining(*next) =~= remaining(head).skip(1));
            if has {
                lemma_varint_shape(cur);
                assert(varint(cur)[0] == remaining(head)[0]);
            }
        }
        let value = (byte & 0x7f) as usize;
        proof {
            assert((byte & 0x7f) == byte % 128) by (bit_vector);
            assert(((byte & 0x80) == 0) == (byte < 128)) by (bit_vector);
        }
        let wide = value.wrapping_mul(mult);
        let new_result = result.wrapping_add(wide);
        if byte & 0x80 == 0 {
            proof {
                if has {
                    lemma_varint_shape(cur);
                    if cur >= 128 {
                        assert(varint(cur)[0] >= 128);
                        assert(false);
                    }
                    assert(value == cur);
                    assert(cur * mult <= n0 as nat);
                    lemma_small_mod((value * mult) as nat, (usize::MAX + 1) as nat);
                    assert(wide == cur * mult);
                    assert(new_result == n0);
                }
                let m = pow2(usize::BITS as nat);
                let c = head.pos() - pre.pos();
                assert(remaining(pre)[c as int] == byte);
                assert(7 * c < usize::BITS);
                assert(c < varint_limit_bytes());
                lemma_leb_end_found(remaining(pre), c as int);
                lemma_leb_sum_snoc(remaining(pre), c as int);
                assert(wide as nat == ((value * mult) as nat) % m);
                assert(new_result as nat == ((result + wide) as nat) % m) by {
                    if result + wide > usize::MAX {
                        lemma_fundamental_div_mod_converse(
                            (result + wide) as int,
                            m as int,
                            1,
                            (result + wide - m) as int,
                        );
                    } else {
                        lemma_small_mod((result + wide) as nat, m);
                    }
                };
                lemma_add_mod_noop(
                    leb_sum(remaining(pre).take(c as int)) as int,
                    (value * mult) as int,
                    m as int,
                );
                assert((value * mult) as nat == ((byte as nat) % 128) * pow2((7 * c) as nat)) by {
                    assert(value as nat == (byte as nat) % 128);
                    assert(mult == pow2((7 * c) as nat));
                };
                assert(new_result as nat == leb_sum(remaining(pre).take(c as int + 1)) % m);
            }
            result = new_result;
            proof {
                if has {
                    assert forall|n: usize|
                        (#[trigger] varint(n as nat)).is_prefix_of(remaining(pre)) implies n
                        == n0 by {
                        lemma_varint_same_prefix(n as nat, n0 as nat, remaining(pre));
                    };
                    lemma_varint_shape(cur);
                    assert(varint(cur).len() == 1);
                }
            }
            return Ok(result);
        }
        proof {
            if has {
                lemma_varint_shape(cur);
                if cur < 128 {
                    assert(varint(cur)[0] == cur as u8);
                    assert(false);
                }
                assert(value == cur % 128);
            }
        }
        shift = shift + 7;
        if shift >= usize::BITS {
            proof {
                if has {
                    lemma_pow2_adds((shift - 7) as nat, 7);
                    assert(cur * mult >= 128 * mult) by (nonlinear_arith)
                        requires
                            cur >= 128,
                            mult >= 1,
                    ;
                    assert(n0 as nat >= pow2(shift as nat));
                    if (shift as nat) > usize::BITS {
                        lemma_pow2_strictly_increases(usize::BITS as nat, shift as nat);
                    }
                    assert(n0 as nat >= pow2(usize::BITS as nat));
                    assert(false);
                }
                let c = head.pos() - pre.pos();
                assert(remaining(pre)[c as int] == byte);
                assert(byte >= 128);
                assert forall|j: int| 0 <= j < c + 1 implies remaining(pre)[j] >= 128 by {
                    if j == c {
                    }
                };
                assert(c + 1 == varint_limit_bytes());
                assert(next.pos() == pre.pos() + varint_limit_bytes());
                assert(shift as nat == varint_limit_shift());
                lemma_leb_end_props(remaining(pre));
            }
            return Err(Error::IndexOutOfBounds(shift as usize));
        }
        proof {
            lemma_pow2_adds((shift - 7) as nat, 7);
            lemma_pow2_strictly_increases(shift as nat, usize::BITS as nat);
            assert(128 * mult == pow2(shift as nat));
            if has {
                assert(value * mult <= 127 * mult) by (nonlinear_arith)
                    requires
                        value <= 127,
                        mult >= 0,
                ;
                lemma_small_mod((value * mult) as nat, (usize::MAX + 1) as nat);
                assert(wide == value * mult);
            } else {
                assert(value * mult <= 127 * mult) by (nonlinear_arith)
                    requires
                        value <= 127,
                        mult >= 0,
                ;
                lemma_small_mod((value * mult) as nat, (usize::MAX + 1) as nat);
                assert(wide == value * mult);
            }
            assert(result + wide < 128 * mult);
            let m = pow2(usize::BITS as nat);
            let c = head.pos() - pre.pos();
            assert(remaining(pre)[c as int] == byte);
            assert(byte >= 128);
            lemma_leb_sum_snoc(remaining(pre), c as int);
            assert((value * mult) as nat == ((byte as nat) % 128) * pow2((7 * c) as nat)) by {
                assert(value as nat == (byte as nat) % 128);
                assert(mult == pow2((7 * c) as nat));
            };
            assert(wide as nat == ((value * mult) as nat) % m) by {
                lemma_small_mod((value * mult) as nat, m);
            };
            assert(new_result as nat == ((result + wide) as nat) % m) by {
                lemma_small_mod((result + wide) as nat, m);
            };
            lemma_add_mod_noop(
                leb_sum(remaining(pre).take(c as int)) as int,
                (value * mult) as int,
                m as int,
            );
            assert(new_result as nat == leb_sum(remaining(pre).take(c as int + 1)) % m);
            assert forall|j: int| 0 <= j < c + 1 implies remaining(pre)[j] >= 128 by {
                if j == c {
                }
            };
        }
        result = new_result;
        mult = mult * 128;
        proof {
            if has {
                lemma_varint_shape(cur);
                lemma_fundamental_div_mod(cur as int, 128);
                assert(cur * (mult / 128) == (cur % 128) * (mult / 128) + (cur / 128) * mult)
                    by (nonlinear_arith)
                    requires
                        cur == 128 * (cur / 128) + cur % 128,
                        mult % 128 == 0,
                        mult >= 128,
                ;
                assert(varint(cur).skip(1) =~= varint(cur / 128));
                assert(varint(cur / 128).is_prefix_of(remaining(*next)));
                cur = cur / 128;
            }
        }
    }
}

/// Casting through the unsigned bit pattern and back is the identity.
proof fn lemma_i8_bits(x: i8)
    ensures
        ((x as u8) as i8) == x,
{
    assert(((x as u8) as i8) == x) by (bit_vector);
}

/// Casting through the unsigned bit pattern and back is the identity.
proof fn lemma_i16_bits(x: i16)
    ensures
        ((x as u16) as i16) == x,
{
    assert(((x as u16) as i16) == x) by (bit_vector);
}

/// Casting through the unsigned bit pattern and back is the identity.
proof fn lemma_i32_bits(x: i32)
    ensures
        ((x as u32) as i32) == x,
{
    assert(((x as u32) as i32) == x) by (bit_vector);
}

/// Casting through the unsigned bit pattern and back is the identity.
proof fn lemma_i64_bits(x: i64)
    ensures
        ((x as u64) as i64) == x,
{
    assert(((x as u64) as i64) == x) by (bit_vector);
}

/// Casting through the unsigned bit pattern and back is the identity.
proof fn lemma_i128_bits(x: i128)
    ensures
        ((x as u128) as i128) == x,
{
    assert(((x as u128) as i128) == x) by (bit_vector);
}

impl PayloadInfo for u8 {
    type Model = u8;

    open spec fn model(&self) -> u8 {
        *self
    }

    open spec fn wire(&self) -> Seq<u8> {
        be_bytes(*self as nat, 1)
    }

    open spec fn nest_depth(&self) -> nat {
        1
    }

    open spec fn spec_name() -> Seq<char> {
        "u8"@
    }

    open spec fn spec_fixed_size() -> Option<usize> {
        Some(1)
    }

    fn name() -> (r: &'static str) {
        "u8"
    }

    fn hash() -> (r: u64) {
        payload_hash(Self::name())
    }

    fn fixed_size() -> (r: Option<usize>) {
        proof {
            assert forall|v: u8| (#[trigger] v.wire()).len() == 1 by {
                lemma_be_bytes_len(v as nat, 1);
            };
        }
        Some(1)
    }
}

impl<C> IntoPayload<C> for u8 {
    fn into_payload<M: Middleware>(&self, _ctx: &mut C, next: &mut M) -> (r: Result<(), Error>)
        ensures
            old(next).trace().len() <= old(next).depth() ==> r is Ok,
    {
        proof {
            assert((*self as u128) as nat == *self as nat);
        }
        encode_fixed(next, Self::name(), *self as u128, 1)
    }
}

impl<C> FromPayload<C> for u8 {
    fn from_payload<M: Middleware>(_ctx: &mut C, next: &mut M) -> (r: Result<Self, Error>) {
        let ghost pre = *old(next);
        match decode_fixed(next, Self::name(), 1) {
            Ok(x) => {
                proof {
                    lemma_pow2_vals();
                    let s = pre.buf().subrange(pre.pos() as int, pre.pos() as int + 1);
                    lemma_from_be_bound(s);
                    assert forall|u: u8|
                        (#[trigger] u.wire()).is_prefix_of(
                            remaining(pre),
                        ) && u.wire().len() <= usize::MAX implies ((x as u8) == u && u.wire().len() == 1) by {
                        lemma_be_prefix(remaining(pre), u as nat, 1);
                        assert(remaining(pre).take(1) =~= s);
                        lemma_be_bytes_len(u as nat, 1);
                    };
                }
                Ok(x as u8)
            },
            Err(e) => {
                proof {
                    assert forall|u: u8|
                        M::limitless() && (#[trigger] u.wire()).is_prefix_of(
                            remaining(pre),
                        ) && u.wire().len() <= usize::MAX implies false by {
                        lemma_be_bytes_len(u as nat, 1);
                    };
                }
                Err(e)
            },
        }
    }
}

impl<C> Payload<C> for u8 {
}

impl PayloadInfo for u16 {
    type Model = u16;

    open spec fn model(&self) -> u16 {
        *self
    }

    open spec fn wire(&self) -> Seq<u8> {
        be_bytes(*self as nat, 2)
    }

    open spec fn nest_depth(&self) -> nat {
        1
    }

    open spec fn spec_name() -> Seq<char> {
        "u16"@
    }

    open spec fn spec_fixed_size() -> Option<usize> {
        Some(2)
    }

    fn name() -> (r: &'static str) {
        "u16"
    }

    fn hash() -> (r: u64) {
        payload_hash(Self::name())
    }

    fn fixed_size() -> (r: Option<usize>) {
        proof {
            assert forall|v: u16| (#[trigger] v.wire()).len() == 2 by {
                lemma_be_bytes_len(v as nat, 2);
            };
        }
        Some(2)
    }
}

impl<C> IntoPayload<C> for u16 {
    fn into_payload<M: Middleware>(&self, _ctx: &mut C, next: &mut M) -> (r: Result<(), Error>)
        ensures
            old(next).trace().len() <= old(next).depth() ==> r is Ok,
    {
        proof {
            assert((*self as u128) as nat == *self as nat);
        }
        encode_fixed(next, Self::name(), *self as u128, 2)
    }
}

impl<C> FromPayload<C> for u16 {
    fn from_payload<M: Middleware>(_ctx: &mut C, next: &mut M) -> (r: Result<Self, Error>) {
        let ghost pre = *old(next);
        match decode_fixed(next, Self::name(), 2) {
            Ok(x) => {
                proof {
                    lemma_pow2_vals();
                    let s = pre.buf().subrange(pre.pos() as int, pre.pos() as int + 2);
                    lemma_from_be_bound(s);
                    assert forall|u: u16|
                        (#[trigger] u.wire()).is_prefix_of(
                            remaining(pre),
                        ) && u.wire().len() <= usize::MAX implies ((x as u16) == u && u.wire().len() == 2) by {
                        lemma_be_prefix(remaining(pre), u as nat, 2);
                        assert(remaining(pre).take(2) =~= s);
                        lemma_be_bytes_len(u as nat, 2);
                    };
                }
                Ok(x as u16)
            },
            Err(e) => {
                proof {
                    assert forall|u: u16|
                        M::limitless() && (#[trigger] u.wire()).is_prefix_of(
                            remaining(pre),
                        ) && u.wire().len() <= usize::MAX implies false by {
                        lemma_be_bytes_len(u as nat, 2);
                    };
                }
                Err(e)
            },
        }
    }
}

impl<C> Payload<C> for u16 {
}

impl PayloadInfo for u32 {
    type Model = u32;

    open spec fn model(&self) -> u32 {
        *self
    }

    open spec fn wire(&self) -> Seq<u8> {
        be_bytes(*self as nat, 4)
    }

    open spec fn nest_depth(&self) -> nat {
        1
    }

    open spec fn spec_name() -> Seq<char> {
        "u32"@
    }

    open spec fn spec_fixed_size() -> Option<usize> {
        Some(4)
    }

    fn name() -> (r: &'static str) {
        "u32"
    }

    fn hash() -> (r: u64) {
        payload_hash(Self::name())
    }

    fn fixed_size() -> (r: Option<usize>) {
        proof {
            assert forall|v: u32| (#[trigger] v.wire()).len() == 4 by {
                lemma_be_bytes_len(v as nat, 4);
            };
        }
        Some(4)
    }
}

impl<C> IntoPayload<C> for u32 {
    fn into_payload<M: Middleware>(&self, _ctx: &mut C, next: &mut M) -> (r: Result<(), Error>)
        ensures
            old(next).trace().len() <= old(next).depth() ==> r is Ok,
    {
        proof {
            assert((*self as u128) as nat == *self as nat);
        }
        encode_fixed(next, Self::name(), *self as u128, 4)
    }
}

impl<C> FromPayload<C> for u32 {
    fn from_payload<M: Middleware>(_ctx: &mut C, next: &mut M) -> (r: Result<Self, Error>) {
        let ghost pre = *old(next);
        match decode_fixed(next, Self::name(), 4) {
            Ok(x) => {
                proof {
                    lemma_pow2_vals();
                    let s = pre.buf().subrange(pre.pos() as int, pre.pos() as int + 4);
                    lemma_from_be_bound(s);
                    assert forall|u: u32|
                        (#[trigger] u.wire()).is_prefix_of(
                            remaining(pre),
                        ) && u.wire().len() <= usize::MAX implies ((x as u32) == u && u.wire().len() == 4) by {
                        lemma_be_prefix(remaining(pre), u as nat, 4);
                        assert(remaining(pre).take(4) =~= s);
                        lemma_be_bytes_len(u as nat, 4);
                    };
                }
                Ok(x as u32)
            },
            Err(e) => {
                proof {
                    assert forall|u: u32|
                        M::limitless() && (#[trigger] u.wire()).is_prefix_of(
                            remaining(pre),
                        ) && u.wire().len() <= usize::MAX implies false by {
                        lemma_be_bytes_len(u as nat, 4);
                    };
                }
                Err(e)
            },
        }
    }
}

impl<C> Payload<C> for u32 {
}

impl PayloadInfo for u64 {
    type Model = u64;

    open spec fn model(&self) -> u64 {
        *self
    }

    open spec fn wire(&self) -> Seq<u8> {
        be_bytes(*self as nat, 8)
    }

    open spec fn nest_depth(&self) -> nat {
        1
    }

    open spec fn spec_name() -> Seq<char> {
        "u64"@
    }

    open spec fn spec_fixed_size() -> Option<usize> {
        Some(8)
    }

    fn name() -> (r: &'static str) {
        "u64"
    }

    fn hash() -> (r: u64) {
        payload_hash(Self::name())
    }

    fn fixed_size() -> (r: Option<usize>) {
        proof {
            assert forall|v: u64| (#[trigger] v.wire()).len() == 8 by {
                lemma_be_bytes_len(v as nat, 8);
            };
        }
        Some(8)
    }
}

impl<C> IntoPayload<C> for u64 {
    fn into_payload<M: Middleware>(&self, _ctx: &mut C, next: &mut M) -> (r: Result<(), Error>)
        ensures
            old(next).trace().len() <= old(next).depth() ==> r is Ok,
    {
        proof {
            assert((*self as u128) as nat == *self as nat);
        }
        encode_fixed(next, Self::name(), *self as u128, 8)
    }
}

impl<C> FromPayload<C> for u64 {
    fn from_payload<M: Middleware>(_ctx: &mut C, next: &mut M) -> (r: Result<Self, Error>) {
        let ghost pre = *old(next);
        match decode_fixed(next, Self::name(), 8) {
            Ok(x) => {
                proof {
                    lemma_pow2_vals();
                    let s = pre.buf().subrange(pre.pos() as int, pre.pos() as int + 8);
                    lemma_from_be_bound(s);
                    assert forall|u: u64|
                        (#[trigger] u.wire()).is_prefix_of(
                            remaining(pre),
                        ) && u.wire().len() <= usize::MAX implies ((x as u64) == u && u.wire().len() == 8) by {
                        lemma_be_prefix(remaining(pre), u as nat, 8);
                        assert(remaining(pre).take(8) =~= s);
                        lemma_be_bytes_len(u as nat, 8);
                    };
                }
                Ok(x as u64)
            },
            Err(e) => {
                proof {
                    assert forall|u: u64|
                        M::limitless() && (#[trigger] u.wire()).is_prefix_of(
                            remaining(pre),
                        ) && u.wire().len() <= usize::MAX implies false by {
                        lemma_be_bytes_len(u as nat, 8);
                    };
                }
                Err(e)
            },
        }
    }
}

impl<C> Payload<C> for u64 {
}

impl PayloadInfo for u128 {
    type Model = u128;

    open spec fn model(&self) -> u128 {
        *self
    }

    open spec fn wire(&self) -> Seq<u8> {
        be_bytes(*self as nat, 16)
    }

    open spec fn nest_depth(&self) -> nat {
        1
    }

    open spec fn spec_name() -> Seq<char> {
        "u128"@
    }

    open spec fn spec_fixed_size() -> Option<usize> {
        Some(16)
    }

    fn name() -> (r: &'static str) {
        "u128"
    }

    fn hash() -> (r: u64) {
        payload_hash(Self::name())
    }

    fn fixed_size() -> (r: Option<usize>) {
        proof {
            assert forall|v: u128| (#[trigger] v.wire()).len() == 16 by {
                lemma_be_bytes_len(v as nat, 16);
            };
        }
        Some(16)
    }
}

impl<C> IntoPayload<C> for u128 {
    fn into_payload<M: Middleware>(&self, _ctx: &mut C, next: &mut M) -> (r: Result<(), Error>)
        ensures
            old(next).trace().len() <= old(next).depth() ==> r is Ok,
    {
        proof {
            assert((*self as u128) as nat == *self as nat);
        }
        encode_fixed(next, Self::name(), *self as u128, 16)
    }
}

impl<C> FromPayload<C> for u128 {
    fn from_payload<M: Middleware>(_ctx: &mut C, next: &mut M) -> (r: Result<Self, Error>) {
        let ghost pre = *old(next);
        match decode_fixed(next, Self::name(), 16) {
            Ok(x) => {
                proof {
                    lemma_pow2_vals();
                    let s = pre.buf().subrange(pre.pos() as int, pre.pos() as int + 16);
                    lemma_from_be_bound(s);
                    assert forall|u: u128|
                        (#[trigger] u.wire()).is_prefix_of(
                            remaining(pre),
                        ) && u.wire().len() <= usize::MAX implies ((x as u128) == u && u.wire().len() == 16) by {
                        lemma_be_prefix(remaining(pre), u as nat, 16);
                        assert(remaining(pre).take(16) =~= s);
                        lemma_be_bytes_len(u as nat, 16);
                    };
                }
                Ok(x as u128)
            },
            Err(e) => {
                proof {
                    assert forall|u: u128|
                        M::limitless() && (#[trigger] u.wire()).is_prefix_of(
                            remaining(pre),
                        ) && u.wire().len() <= usize::MAX implies false by {
                        lemma_be_bytes_len(u as nat, 16);
                    };
                }
                Err(e)
            },
        }
    }
}

impl<C> Payload<C> for u128 {
}

impl PayloadInfo for i8 {
    type Model = i8;

    open spec fn model(&self) -> i8 {
        *self
    }

    open spec fn wire(&self) -> Seq<u8> {
        be_bytes((*self as u8) as nat, 1)
    }

    open spec fn nest_depth(&self) -> nat {
        1
    }

    open spec fn spec_name() -> Seq<char> {
        "i8"@
    }

    open spec fn spec_fixed_size() -> Option<usize> {
        Some(1)
    }

    fn name() -> (r: &'static str) {
        "i8"
    }

    fn hash() -> (r: u64) {
        payload_hash(Self::name())
    }

    fn fixed_size() -> (r: Option<usize>) {
        proof {
            assert forall|v: i8| (#[trigger] v.wire()).len() == 1 by {
                lemma_be_bytes_len((v as u8) as nat, 1);
            };
        }
        Some(1)
    }
}

impl<C> IntoPayload<C> for i8 {
    fn into_payload<M: Middleware>(&self, _ctx: &mut C, next: &mut M) -> (r: Result<(), Error>)
        ensures
            old(next).trace().len() <= old(next).depth() ==> r is Ok,
    {
        proof {
            assert(((*self as u8) as u128) as nat == (*self as u8) as nat);
        }
        encode_fixed(next, Self::name(), (*self as u8) as u128, 1)
    }
}

impl<C> FromPayload<C> for i8 {
    fn from_payload<M: Middleware>(_ctx: &mut C, next: &mut M) -> (r: Result<Self, Error>) {
        let ghost pre = *old(next);
        match decode_fixed(next, Self::name(), 1) {
            Ok(x) => {
                proof {
                    lemma_pow2_vals();
                    let s = pre.buf().subrange(pre.pos() as int, pre.pos() as int + 1);
                    lemma_from_be_bound(s);
                    assert forall|u: i8|
                        (#[trigger] u.wire()).is_prefix_of(
                            remaining(pre),
                        ) && u.wire().len() <= usize::MAX implies (((x as u8) as i8) == u && u.wire().len() == 1) by {
                        lemma_be_prefix(remaining(pre), (u as u8) as nat, 1);
                        assert(remaining(pre).take(1) =~= s);
                        lemma_be_bytes_len((u as u8) as nat, 1);
                        assert((x as u8) == (u as u8));
                        lemma_i8_bits(u);
                    };
                }
                Ok((x as u8) as i8)
            },
            Err(e) => {
                proof {
                    assert forall|u: i8|
                        M::limitless() && (#[trigger] u.wire()).is_prefix_of(
                            remaining(pre),
                        ) && u.wire().len() <= usize::MAX implies false by {
                        lemma_be_bytes_len((u as u8) as nat, 1);
                    };
                }
                Err(e)
            },
        }
    }
}

impl<C> Payload<C> for i8 {
}

impl PayloadInfo for i16 {
    type Model = i16;

    open spec fn model(&self) -> i16 {
        *self
    }

    open spec fn wire(&self) -> Seq<u8> {
        be_bytes((*self as u16) as nat, 2)
    }

    open spec fn nest_depth(&self) -> nat {
        1
    }

    open spec fn spec_name() -> Seq<char> {
        "i16"@
    }

    open spec fn spec_fixed_size() -> Option<usize> {
        Some(2)
    }

    fn name() -> (r: &'static str) {
        "i16"
    }

    fn hash() -> (r: u64) {
        payload_hash(Self::name())
    }

    fn fixed_size() -> (r: Option<usize>) {
        proof {
            assert forall|v: i16| (#[trigger] v.wire()).len() == 2 by {
                lemma_be_bytes_len((v as u16) as nat, 2);
            };
        }
        Some(2)
    }
}

impl<C> IntoPayload<C> for i16 {
    fn into_payload<M: Middleware>(&self, _ctx: &mut C, next: &mut M) -> (r: Result<(), Error>)
        ensures
            old(next).trace().len() <= old(next).depth() ==> r is Ok,
    {
        proof {
            assert(((*self as u16) as u128) as nat == (*self as u16) as nat);
        }
        encode_fixed(next, Self::name(), (*self as u16) as u128, 2)
    }
}

impl<C> FromPayload<C> for i16 {
    fn from_payload<M: Middleware>(_ctx: &mut C, next: &mut M) -> (r: Result<Self, Error>) {
        let ghost pre = *old(next);
        match decode_fixed(next, Self::name(), 2) {
            Ok(x) => {
                proof {
                    lemma_pow2_vals();
                    let s = pre.buf().subrange(pre.pos() as int, pre.pos() as int + 2);
                    lemma_from_be_bound(s);
                    assert forall|u: i16|
                        (#[trigger] u.wire()).is_prefix_of(
                            remaining(pre),
                        ) && u.wire().len() <= usize::MAX implies (((x as u16) as i16) == u && u.wire().len() == 2) by {
                        lemma_be_prefix(remaining(pre), (u as u16) as nat, 2);
                        assert(remaining(pre).take(2) =~= s);
                        lemma_be_bytes_len((u as u16) as nat, 2);
                        assert((x as u16) == (u as u16));
                        lemma_i16_bits(u);
                    };
                }
                Ok((x as u16) as i16)
            },
            Err(e) => {
                proof {
                    assert forall|u: i16|
                        M::limitless() && (#[trigger] u.wire()).is_prefix_of(
                            remaining(pre),
                        ) && u.wire().len() <= usize::MAX implies false by {
                        lemma_be_bytes_len((u as u16) as nat, 2);
                    };
                }
                Err(e)
            },
        }
    }
}

impl<C> Payload<C> for i16 {
}

impl PayloadInfo for i32 {
    type Model = i32;

    open spec fn model(&self) -> i32 {
        *self
    }

    open spec fn wire(&self) -> Seq<u8> {
        be_bytes((*self as u32) as nat, 4)
    }

    open spec fn nest_depth(&self) -> nat {
        1
    }

    open spec fn spec_name() -> Seq<char> {
        "i32"@
    }

    open spec fn spec_fixed_size() -> Option<usize> {
        Some(4)
    }

    fn name() -> (r: &'static str) {
        "i32"
    }

    fn hash() -> (r: u64) {
        payload_hash(Self::name())
    }

    fn fixed_size() -> (r: Option<usize>) {
        proof {
            assert forall|v: i32| (#[trigger] v.wire()).len() == 4 by {
                lemma_be_bytes_len((v as u32) as nat, 4);
            };
        }
        Some(4)
    }
}

impl<C> IntoPayload<C> for i32 {
    fn into_payload<M: Middleware>(&self, _ctx: &mut C, next: &mut M) -> (r: Result<(), Error>)
        ensures
            old(next).trace().len() <= old(next).depth() ==> r is Ok,
    {
        proof {
            assert(((*self as u32) as u128) as nat == (*self as u32) as nat);
        }
        encode_fixed(next, Self::name(), (*self as u32) as u128, 4)
    }
}

impl<C> FromPayload<C> for i32 {
    fn from_payload<M: Middleware>(_ctx: &mut C, next: &mut M) -> (r: Result<Self, Error>) {
        let ghost pre = *old(next);
        match decode_fixed(next, Self::name(), 4) {
            Ok(x) => {
                proof {
                    lemma_pow2_vals();
                    let s = pre.buf().subrange(pre.pos() as int, pre.pos() as int + 4);
                    lemma_from_be_bound(s);
                    assert forall|u: i32|
                        (#[trigger] u.wire()).is_prefix_of(
                            remaining(pre),
                        ) && u.wire().len() <= usize::MAX implies (((x as u32) as i32) == u && u.wire().len() == 4) by {
                        lemma_be_prefix(remaining(pre), (u as u32) as nat, 4);
                        assert(remaining(pre).take(4) =~= s);
                        lemma_be_bytes_len((u as u32) as nat, 4);
                        assert((x as u32) == (u as u32));
                        lemma_i32_bits(u);
                    };
                }
                Ok((x as u32) as i32)
            },
            Err(e) => {
                proof {
                    assert forall|u: i32|
                        M::limitless() && (#[trigger] u.wire()).is_prefix_of(
                            remaining(pre),
                        ) && u.wire().len() <= usize::MAX implies false by {
                        lemma_be_bytes_len((u as u32) as nat, 4);
                    };
                }
                Err(e)
            },
        }
    }
}

impl<C> Payload<C> for i32 {
}

impl PayloadInfo for i64 {
    type Model = i64;

    open spec fn model(&self) -> i64 {
        *self
    }

    open spec fn wire(&self) -> Seq<u8> {
        be_bytes((*self as u64) as nat, 8)
    }

    open spec fn nest_depth(&self) -> nat {
        1
    }

    open spec fn spec_name() -> Seq<char> {
        "i64"@
    }

    open spec fn spec_fixed_size() -> Option<usize> {
        Some(8)
    }

    fn name() -> (r: &'static str) {
        "i64"
    }

    fn hash() -> (r: u64) {
        payload_hash(Self::name())
    }

    fn fixed_size() -> (r: Option<usize>) {
        proof {
            assert forall|v: i64| (#[trigger] v.wire()).len() == 8 by {
                lemma_be_bytes_len((v as u64) as nat, 8);
            };
        }
        Some(8)
    }
}

impl<C> IntoPayload<C> for i64 {
    fn into_payload<M: Middleware>(&self, _ctx: &mut C, next: &mut M) -> (r: Result<(), Error>)
        ensures
            old(next).trace().len() <= old(next).depth() ==> r is Ok,
    {
        proof {
            assert(((*self as u64) as u128) as nat == (*self as u64) as nat);
        }
        encode_fixed(next, Self::name(), (*self as u64) as u128, 8)
    }
}

impl<C> FromPayload<C> for i64 {
    fn from_payload<M: Middleware>(_ctx: &mut C, next: &mut M) -> (r: Result<Self, Error>) {
        let ghost pre = *old(next);
        match decode_fixed(next, Self::name(), 8) {
            Ok(x) => {
                proof {
                    lemma_pow2_vals();
                    let s = pre.buf().subrange(pre.pos() as int, pre.pos() as int + 8);
                    lemma_from_be_bound(s);
                    assert forall|u: i64|
                        (#[trigger] u.wire()).is_prefix_of(
                            remaining(pre),
                        ) && u.wire().len() <= usize::MAX implies (((x as u64) as i64) == u && u.wire().len() == 8) by {
                        lemma_be_prefix(remaining(pre), (u as u64) as nat, 8);
                        assert(remaining(pre).take(8) =~= s);
                        lemma_be_bytes_len((u as u64) as nat, 8);
                        assert((x as u64) == (u as u64));
                        lemma_i64_bits(u);
                    };
                }
                Ok((x as u64) as i64)
            },
            Err(e) => {
                proof {
                    assert forall|u: i64|
                        M::limitless() && (#[trigger] u.wire()).is_prefix_of(
                            remaining(pre),
                        ) && u.wire().len() <= usize::MAX implies false by {
                        lemma_be_bytes_len((u as u64) as nat, 8);
                    };
                }
                Err(e)
            },
        }
    }
}

impl<C> Payload<C> for i64 {
}

impl PayloadInfo for i128 {
    type Model = i128;

    open spec fn model(&self) -> i128 {
        *self
    }

    open spec fn wire(&self) -> Seq<u8> {
        be_bytes((*self as u128) as nat, 16)
    }

    open spec fn nest_depth(&self) -> nat {
        1
    }

    open spec fn spec_name() -> Seq<char> {
        "i128"@
    }

    open spec fn spec_fixed_size() -> Option<usize> {
        Some(16)
    }

    fn name() -> (r: &'static str) {
        "i128"
    }

    fn hash() -> (r: u64) {
        payload_hash(Self::name())
    }

    fn fixed_size() -> (r: Option<usize>) {
        proof {
            assert forall|v: i128| (#[trigger] v.wire()).len() == 16 by {
                lemma_be_bytes_len((v as u128) as nat, 16);
            };
        }
        Some(16)
    }
}

impl<C> IntoPayload<C> for i128 {
    fn into_payload<M: Middleware>(&self, _ctx: &mut C, next: &mut M) -> (r: Result<(), Error>)
        ensures
            old(next).trace().len() <= old(next).depth() ==> r is Ok,
    {
        proof {
            assert(((*self as u128) as u128) as nat == (*self as u128) as nat);
        }
        encode_fixed(next, Self::name(), (*self as u128) as u128, 16)
    }
}

impl<C> FromPayload<C> for i128 {
    fn from_payload<M: Middleware>(_ctx: &mut C, next: &mut M) -> (r: Result<Self, Error>) {
        let ghost pre = *old(next);
        match decode_fixed(next, Self::name(), 16) {
            Ok(x) => {
                proof {
                    lemma_pow2_vals();
                    let s = pre.buf().subrange(pre.pos() as int, pre.pos() as int + 16);
                    lemma_from_be_bound(s);
                    assert forall|u: i128|
                        (#[trigger] u.wire()).is_prefix_of(
                            remaining(pre),
                        ) && u.wire().len() <= usize::MAX implies (((x as u128) as i128) == u && u.wire().len() == 16) by {
                        lemma_be_prefix(remaining(pre), (u as u128) as nat, 16);
                        assert(remaining(pre).take(16) =~= s);
                        lemma_be_bytes_len((u as u128) as nat, 16);
                        assert((x as u128) == (u as u128));
                        lemma_i128_bits(u);
                    };
                }
                Ok((x as u128) as i128)
            },
            Err(e) => {
                proof {
                    assert forall|u: i128|
                        M::limitless() && (#[trigger] u.wire()).is_prefix_of(
                            remaining(pre),
                        ) && u.wire().len() <= usize::MAX implies false by {
                        lemma_be_bytes_len((u as u128) as nat, 16);
                    };
                }
                Err(e)
            },
        }
    }
}

impl<C> Payload<C> for i128 {
}

impl PayloadInfo for usize {
    type Model = usize;

    open spec fn model(&self) -> usize {
        *self
    }

    open spec fn wire(&self) -> Seq<u8> {
        varint(*self as nat)
    }

    open spec fn nest_depth(&self) -> nat {
        1
    }

    open spec fn spec_name() -> Seq<char> {
        "usize"@
    }

    open spec fn spec_fixed_size() -> Option<usize> {
        None
    }

    fn name() -> (r: &'static str) {
        "usize"
    }

    fn hash() -> (r: u64) {
        let n = Self::name();
        proof {
            assert(n@ == Self::spec_name());
            assert(Self::spec_hash() == xxh3_of(Self::spec_name()));
        }
        payload_hash(n)
    }

    fn fixed_size() -> (r: Option<usize>) {
        None
    }
}

impl<C> IntoPayload<C> for usize {
    fn into_payload<M: Middleware>(&self, _ctx: &mut C, next: &mut M) -> (r: Result<(), Error>)
        ensures
            old(next).trace().len() <= old(next).depth() ==> r is Ok,
    {
        if let Err(e) = next.enter(Self::name()) {
            proof {
                assert(old(next).buf() =~= next.buf().subrange(0, old(next).buf().len() as int));
            }
            return Err(e);
        }
        let r = write_varint(next, *self);
        next.leave();
        proof {
            assert(old(next).buf() =~= next.buf().subrange(0, old(next).buf().len() as int));
        }
        r
    }
}

impl<C> FromPayload<C> for usize {
    fn from_payload<M: Middleware>(_ctx: &mut C, next: &mut M) -> (r: Result<Self, Error>)
        ensures
            r matches Ok(n) ==> (leb_end(remaining(*old(next))) matches Some(k) && k + 1
                <= varint_limit_bytes() && n as nat == leb_sum(remaining(*old(next)).take(k + 1))
                % pow2(usize::BITS as nat) && final(next).pos() == old(next).pos() + k + 1),
            M::limitless() && (leb_end(remaining(*old(next))) matches Some(k) && k + 1
                <= varint_limit_bytes()) ==> r is Ok,
            M::limitless() && remaining(*old(next)).len() >= varint_limit_bytes() && (forall|j: int|
                0 <= j < varint_limit_bytes() ==> remaining(*old(next))[j] >= 128) ==> (r matches
                Err(e) && e matches Error::IndexOutOfBounds(sh) && sh == varint_limit_shift()
                && final(next).pos() == old(next).pos() + varint_limit_bytes()),
    {
        let ghost pre = *old(next);
        if let Err(e) = next.enter(Self::name()) {
            return Err(e);
        }
        let ghost mid = *next;
        proof {
            assert(remaining(mid) =~= remaining(pre));
        }
        match read_varint(next) {
            Ok(v) => {
                next.leave();
                proof {
                    assert(remaining(mid) =~= remaining(pre));
                    assert forall|u: usize|
                        (#[trigger] u.wire()).is_prefix_of(
                            remaining(pre),
                        ) && u.wire().len() <= usize::MAX implies (v == u && next.pos() == pre.pos() + u.wire().len()) by {
                        assert(varint(u as nat).is_prefix_of(remaining(mid)));
                    };
                }
                Ok(v)
            },
            Err(e) => {
                proof {
                    assert(remaining(mid) =~= remaining(pre));
                    assert forall|u: usize|
                        M::limitless() && (#[trigger] u.wire()).is_prefix_of(
                            remaining(pre),
                        ) && u.wire().len() <= usize::MAX implies false by {
                        assert(varint(u as nat).is_prefix_of(remaining(mid)));
                    };
                }
                Err(next.wrap_from(e))
            },
        }
    }
}

impl<C> Payload<C> for usize {
}

impl PayloadInfo for isize {
    type Model = isize;

    open spec fn model(&self) -> isize {
        *self
    }

    open spec fn wire(&self) -> Seq<u8> {
        be_bytes(((*self as i64) as u64) as nat, 8)
    }

    open spec fn nest_depth(&self) -> nat {
        1
    }

    open spec fn spec_name() -> Seq<char> {
        "isize"@
    }

    open spec fn spec_fixed_size() -> Option<usize> {
        Some(8)
    }

    fn name() -> (r: &'static str) {
        "isize"
    }

    fn hash() -> (r: u64) {
        payload_hash(Self::name())
    }

    fn fixed_size() -> (r: Option<usize>) {
        proof {
            assert forall|v: isize| (#[trigger] v.wire()).len() == 8 by {
                lemma_be_bytes_len(((v as i64) as u64) as nat, 8);
            };
        }
        Some(8)
    }
}

impl<C> IntoPayload<C> for isize {
    fn into_payload<M: Middleware>(&self, _ctx: &mut C, next: &mut M) -> (r: Result<(), Error>)
        ensures
            old(next).trace().len() <= old(next).depth() ==> r is Ok,
    {
        proof {
            assert((((*self as i64) as u64) as u128) as nat == ((*self as i64) as u64) as nat);
        }
        encode_fixed(next, Self::name(), ((*self as i64) as u64) as u128, 8)
    }
}

impl<C> FromPayload<C> for isize {
    fn from_payload<M: Middleware>(_ctx: &mut C, next: &mut M) -> (r: Result<Self, Error>) {
        let ghost pre = *old(next);
        match decode_fixed(next, Self::name(), 8) {
            Ok(x) => {
                proof {
                    lemma_pow2_vals();
                    let s = pre.buf().subrange(pre.pos() as int, pre.pos() as int + 8);
                    lemma_from_be_bound(s);
                    assert forall|u: isize|
                        (#[trigger] u.wire()).is_prefix_of(
                            remaining(pre),
                        ) && u.wire().len() <= usize::MAX implies ((((x as u64) as i64) as isize) == u && u.wire().len() == 8) by {
                        lemma_be_prefix(remaining(pre), ((u as i64) as u64) as nat, 8);
                        assert(remaining(pre).take(8) =~= s);
                        lemma_be_bytes_len(((u as i64) as u64) as nat, 8);
                        assert((x as u64) == ((u as i64) as u64));
                        lemma_i64_bits(u as i64);
                        assert(((x as u64) as i64) == (u as i64));
                        assert(((u as i64) as isize) == u);
                    };
                }
                Ok(((x as u64) as i64) as isize)
            },
            Err(e) => {
                proof {
                    assert forall|u: isize|
                        M::limitless() && (#[trigger] u.wire()).is_prefix_of(
                            remaining(pre),
                        ) && u.wire().len() <= usize::MAX implies false by {
                        lemma_be_bytes_len(((u as i64) as u64) as nat, 8);
                    };
                }
                Err(e)
            },
        }
    }
}

impl<C> Payload<C> for isize {
}

impl PayloadInfo for bool {
    type Model = bool;

    open spec fn model(&self) -> bool {
        *self
    }

    open spec fn wire(&self) -> Seq<u8> {
        if *self {
            seq![1u8]
        } else {
            seq![0u8]
        }
    }

    open spec fn nest_depth(&self) -> nat {
        1
    }

    open spec fn spec_name() -> Seq<char> {
        "bool"@
    }

    open spec fn spec_fixed_size() -> Option<usize> {
        Some(1)
    }

    fn name() -> (r: &'static str) {
        "bool"
    }

    fn hash() -> (r: u64) {
        payload_hash(Self::name())
    }

    fn fixed_size() -> (r: Option<usize>) {
        Some(1)
    }
}

impl<C> IntoPayload<C> for bool {
    fn into_payload<M: Middleware>(&self, _ctx: &mut C, next: &mut M) -> (r: Result<(), Error>)
        ensures
            old(next).trace().len() <= old(next).depth() ==> r is Ok,
    {
        let v: u128 = if *self {
            1
        } else {
            0
        };
        proof {
            assert(be_bytes(v as nat / 256, 0) =~= Seq::<u8>::empty());
            assert(be_bytes(v as nat, 1) =~= self.wire());
        }
        encode_fixed(next, Self::name(), v, 1)
    }
}

impl<C> FromPayload<C> for bool {
    fn from_payload<M: Middleware>(_ctx: &mut C, next: &mut M) -> (r: Result<Self, Error>)
        ensures
            r matches Ok(b) ==> remaining(*old(next)).len() >= 1 && b == (remaining(*old(next))[0]
                != 0) && final(next).pos() == old(next).pos() + 1,
            M::limitless() && remaining(*old(next)).len() >= 1 ==> r is Ok,
    {
        let ghost pre = *old(next);
        match decode_fixed(next, Self::name(), 1) {
            Ok(x) => {
                proof {
                    let s = pre.buf().subrange(pre.pos() as int, pre.pos() as int + 1);
                    assert(s.drop_last() =~= Seq::<u8>::empty());
                    assert(from_be(Seq::<u8>::empty()) == 0);
                    assert(from_be(s) == s.last());
                    assert(remaining(pre)[0] == s.last());
                    assert forall|u: bool|
                        (#[trigger] u.wire()).is_prefix_of(
                            remaining(pre),
                        ) && u.wire().len() <= usize::MAX implies ((x != 0) == u && u.wire().len() == 1) by {
                        assert(remaining(pre).take(1) =~= s);
                        assert(u.wire() =~= remaining(pre).take(1));
                        assert(s.drop_last() =~= Seq::<u8>::empty());
                        assert(from_be(Seq::<u8>::empty()) == 0);
                        assert(from_be(s) == s.last());
                    };
                }
                Ok(x != 0)
            },
            Err(e) => {
                proof {
                    assert(remaining(pre).len() == pre.buf().len() - pre.pos());
                    assert forall|u: bool|
                        M::limitless() && (#[trigger] u.wire()).is_prefix_of(
                            remaining(pre),
                        ) && u.wire().len() <= usize::MAX implies false by {
                        assert(u.wire().len() == 1);
                    };
                }
                Err(e)
            },
        }
    }
}

impl<C> Payload<C> for bool {
}

impl PayloadInfo for () {
    type Model = ();

    open spec fn model(&self) -> () {
        *self
    }

    open spec fn wire(&self) -> Seq<u8> {
        Seq::empty()
    }

    open spec fn nest_depth(&self) -> nat {
        0
    }

    open spec fn spec_name() -> Seq<char> {
        "()"@
    }

    open spec fn spec_fixed_size() -> Option<usize> {
        Some(0)
    }

    fn name() -> (r: &'static str) {
        "()"
    }

    fn hash() -> (r: u64) {
        payload_hash(Self::name())
    }

    fn fixed_size() -> (r: Option<usize>) {
        Some(0)
    }
}

impl<C> IntoPayload<C> for () {
    fn into_payload<M: Middleware>(&self, _ctx: &mut C, next: &mut M) -> (r: Result<(), Error>)
        ensures
            old(next).trace().len() <= old(next).depth() ==> r is Ok,
    {
        proof {
            assert(old(next).buf() + self.wire() =~= old(next).buf());
            assert(old(next).buf() =~= next.buf().subrange(0, old(next).buf().len() as int));
        }
        Ok(())
    }
}

impl<C> FromPayload<C> for () {
    fn from_payload<M: Middleware>(_ctx: &mut C, next: &mut M) -> (r: Result<Self, Error>) {
        Ok(())
    }
}

impl<C> Payload<C> for () {
}

} // verus!
