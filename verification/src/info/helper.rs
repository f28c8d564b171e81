//! Combinators for the optional fixed sizes that payload metadata reports:
//! a missing size (`None`) is absorbing in every combination.

use vstd::prelude::*;

verus! {

/// The greater of two numbers.
fn const_max(a: usize, b: usize) -> (r: usize)
    ensures
        r == (if a < b {
            b
        } else {
            a
        }),
{
    if a < b {
        b
    } else {
        a
    }
}

/// The sum of two optional sizes, `None` where either is missing.
pub fn size_add(v0: Option<usize>, v1: Option<usize>) -> (r: Option<usize>)
    requires
        v0 matches Some(a) && v1 matches Some(b) ==> a + b <= usize::MAX,
    ensures
        v0 is None || v1 is None ==> r is None,
        v0 matches Some(a) ==> (v1 matches Some(b) ==> r == Some((a + b) as usize)),
{
    if let Some(a) = v0 {
        if let Some(b) = v1 {
            return Some(a + b);
        }
    }
    None
}

/// An optional size scaled by a count, `None` where it is missing.
pub fn size_mul(v0: Option<usize>, v1: usize) -> (r: Option<usize>)
    requires
        v0 matches Some(a) ==> a * v1 <= usize::MAX,
    ensures
        v0 is None ==> r is None,
        v0 matches Some(a) ==> r == Some((a * v1) as usize),
{
    if let Some(len) = v0 {
        Some(len * v1)
    } else {
        None
    }
}

/// The greater of two optional sizes, `None` where either is missing.
pub fn size_max(v0: Option<usize>, v1: Option<usize>) -> (r: Option<usize>)
    ensures
        v0 is None || v1 is None ==> r is None,
        v0 matches Some(a) ==> (v1 matches Some(b) ==> r == Some(
            if a < b {
                b
            } else {
                a
            },
        )),
{
    if let Some(a) = v0 {
        if let Some(b) = v1 {
            return Some(const_max(a, b));
        }
    }
    None
}

/// The total of a list of optional sizes, `None` as soon as one is missing.
pub open spec fn sizes_total(s: Seq<Option<usize>>) -> Option<int>
    decreases s.len(),
{
    if s.len() == 0 {
        Some(0int)
    } else {
        match s[0] {
            Option::None => None,
            Option::Some(x) => match sizes_total(s.drop_first()) {
                Option::None => None,
                Option::Some(t) => Some(x + t),
            },
        }
    }
}

/// The sum of the sizes before the first missing one.
pub open spec fn sizes_leading(s: Seq<Option<usize>>) -> int
    decreases s.len(),
{
    if s.len() == 0 {
        0int
    } else {
        match s[0] {
            Option::None => 0int,
            Option::Some(x) => x + sizes_leading(s.drop_first()),
        }
    }
}

/// A leading sum is never negative.
proof fn lemma_sizes_leading_nonneg(s: Seq<Option<usize>>)
    ensures
        sizes_leading(s) >= 0,
    decreases s.len(),
{
    if s.len() > 0 {
        lemma_sizes_leading_nonneg(s.drop_first());
    }
}

/// While every entry so far is present, the leading sum splits at any point.
proof fn lemma_sizes_leading_split(s: Seq<Option<usize>>, i: int)
    requires
        0 <= i <= s.len(),
        forall|j: int| 0 <= j < i ==> s[j] is Some,
    ensures
        sizes_leading(s) == sizes_leading(s.take(i)) + sizes_leading(s.skip(i)),
    decreases i,
{
    if i == 0 {
        assert(s.take(0) =~= Seq::<Option<usize>>::empty());
        assert(s.skip(0) =~= s);
    } else {
        lemma_sizes_leading_split(s.drop_first(), i - 1);
        assert(s.take(i).drop_first() =~= s.drop_first().take(i - 1));
        assert(s.skip(i) =~= s.drop_first().skip(i - 1));
        assert(s.take(i)[0] == s[0]);
    }
}

/// A list whose entries are all present totals its leading sum.
proof fn lemma_sizes_total_all_some(s: Seq<Option<usize>>)
    requires
        forall|j: int| 0 <= j < s.len() ==> s[j] is Some,
    ensures
        sizes_total(s) == Some(sizes_leading(s)),
    decreases s.len(),
{
    if s.len() > 0 {
        lemma_sizes_total_all_some(s.drop_first());
    }
}

/// One missing entry spoils the whole total.
proof fn lemma_sizes_total_none(s: Seq<Option<usize>>, i: int)
    requires
        0 <= i < s.len(),
        s[i] is None,
    ensures
        sizes_total(s) is None,
    decreases s.len(),
{
    if s.len() > 0 && s[0] is Some && i > 0 {
        lemma_sizes_total_none(s.drop_first(), i - 1);
    }
}

/// The total of all the sizes in an array, `None` as soon as one is missing.
pub fn size_array<const N: usize>(v0: [Option<usize>; N]) -> (r: Option<usize>)
    requires
        sizes_leading(v0@) <= usize::MAX,
    ensures
        r matches Some(n) ==> sizes_total(v0@) == Some(n as int),
        r is None ==> sizes_total(v0@) is None,
{
    let mut total_size: usize = 0;
    let mut i: usize = 0;
    while i < N
        invariant
            0 <= i <= N,
            v0@.len() == N,
            sizes_leading(v0@) <= usize::MAX,
            forall|j: int| 0 <= j < i ==> v0@[j] is Some,
            total_size == sizes_leading(v0@.take(i as int)),
        decreases N - i,
    {
        proof {
            lemma_sizes_leading_split(v0@, i as int);
            lemma_sizes_leading_nonneg(v0@.skip(i as int).drop_first());
            assert(v0@.skip(i as int)[0] == v0@[i as int]);
        }
        match v0[i] {
            Option::Some(size) => {
                proof {
                    assert(sizes_leading(v0@.skip(i as int)) == size + sizes_leading(
                        v0@.skip(i as int).drop_first(),
                    ));
                    assert(v0@.take(i + 1 as int) =~= v0@.take(i as int).push(v0@[i as int]));
                    lemma_sizes_leading_split(v0@.take(i + 1 as int), i as int);
                    assert(v0@.take(i + 1 as int).take(i as int) =~= v0@.take(i as int));
                    assert(v0@.take(i + 1 as int).skip(i as int) =~= seq![v0@[i as int]]);
                    assert(sizes_leading(seq![v0@[i as int]]) == size + sizes_leading(
                        seq![v0@[i as int]].drop_first(),
                    ));
                    assert(seq![v0@[i as int]].drop_first() =~= Seq::<Option<usize>>::empty());
                }
                total_size = total_size + size;
            },
            Option::None => {
                proof {
                    lemma_sizes_total_none(v0@, i as int);
                }
                return None;
            },
        }
        i += 1;
    }
    proof {
        assert(v0@.take(N as int) =~= v0@);
        lemma_sizes_total_all_some(v0@);
    }
    Some(total_size)
}

} // verus!
