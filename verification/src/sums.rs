//! Finite sums of an integer-valued function, taken over an index sequence
//! or over a range, with the lemmas the scheduler's accounting rests on:
//! summing over a permutation of `0..n` equals summing over the range.

use vstd::prelude::*;

verus! {

/// Sum of `v` over the entries of `s`.
pub open spec fn sum_over(s: Seq<int>, v: spec_fn(int) -> int) -> int
    decreases s.len(),
{
    if s.len() == 0 {
        0
    } else {
        sum_over(s.drop_last(), v) + v(s.last())
    }
}

/// Sum of `v` over `0 <= t < n`.
pub open spec fn sum_upto(n: int, v: spec_fn(int) -> int) -> int
    decreases n,
{
    if n <= 0 {
        0
    } else {
        sum_upto(n - 1, v) + v(n - 1)
    }
}

/// Extending a prefix of `s` by one entry adds that entry's value.
pub proof fn lemma_sum_over_take_succ(s: Seq<int>, k: int, v: spec_fn(int) -> int)
    requires
        0 <= k < s.len(),
    ensures
        sum_over(s.take(k + 1), v) == sum_over(s.take(k), v) + v(s[k]),
{
    assert(s.take(k + 1).drop_last() =~= s.take(k));
    assert(s.take(k + 1).last() == s[k]);
}

/// A sum of non-negative values is non-negative.
pub proof fn lemma_sum_over_nonneg(s: Seq<int>, v: spec_fn(int) -> int)
    requires
        forall|i: int| 0 <= i < s.len() ==> v(#[trigger] s[i]) >= 0,
    ensures
        sum_over(s, v) >= 0,
    decreases s.len(),
{
    if s.len() > 0 {
        lemma_sum_over_nonneg(s.drop_last(), v);
    }
}

/// With non-negative values, a prefix sums to no more than the whole.
pub proof fn lemma_sum_over_take_le(s: Seq<int>, k: int, v: spec_fn(int) -> int)
    requires
        0 <= k <= s.len(),
        forall|i: int| 0 <= i < s.len() ==> v(#[trigger] s[i]) >= 0,
    ensures
        sum_over(s.take(k), v) <= sum_over(s, v),
    decreases s.len() - k,
{
    if k == s.len() {
        assert(s.take(k) =~= s);
    } else {
        lemma_sum_over_take_succ(s, k, v);
        lemma_sum_over_take_le(s, k + 1, v);
    }
}

/// Taking one entry out of a sum leaves the sum of the rest.
pub proof fn lemma_sum_over_remove(s: Seq<int>, k: int, v: spec_fn(int) -> int)
    requires
        0 <= k < s.len(),
    ensures
        sum_over(s, v) == sum_over(s.remove(k), v) + v(s[k]),
    decreases s.len(),
{
    if k == s.len() - 1 {
        assert(s.remove(k) =~= s.drop_last());
    } else {
        lemma_sum_over_remove(s.drop_last(), k, v);
        assert(s.remove(k).drop_last() =~= s.drop_last().remove(k));
        assert(s.remove(k).last() == s.last());
    }
}

/// Summing `v` over a permutation of `0..n` is summing it over the range.
pub proof fn lemma_sum_over_perm(s: Seq<int>, n: int, v: spec_fn(int) -> int)
    requires
        s.len() == n,
        forall|i: int| 0 <= i < n ==> 0 <= #[trigger] s[i] < n,
        forall|i: int, j: int| 0 <= i < j < n ==> s[i] != s[j],
        forall|t: int| 0 <= t < n ==> s.contains(t),
    ensures
        sum_over(s, v) == sum_upto(n, v),
    decreases n,
{
    if n > 0 {
        assert(s.contains(n - 1));
        let k = choose|k: int| 0 <= k < s.len() && s[k] == n - 1;
        lemma_sum_over_remove(s, k, v);
        let s2 = s.remove(k);
        assert forall|i: int| 0 <= i < n - 1 implies 0 <= #[trigger] s2[i] < n - 1 by {
            if i < k {
                assert(s2[i] == s[i]);
            } else {
                assert(s2[i] == s[i + 1]);
            }
        }
        assert forall|i: int, j: int| 0 <= i < j < n - 1 implies s2[i] != s2[j] by {
            assert(s2[i] == if i < k { s[i] } else { s[i + 1] });
            assert(s2[j] == if j < k { s[j] } else { s[j + 1] });
        }
        assert forall|t: int| 0 <= t < n - 1 implies s2.contains(t) by {
            assert(s.contains(t));
            let i = choose|i: int| 0 <= i < s.len() && s[i] == t;
            if i < k {
                assert(s2[i] == t);
            } else {
                assert(s2[i - 1] == t);
            }
        }
        lemma_sum_over_perm(s2, n - 1, v);
    }
}

/// Sums do not see the difference between functions that agree on the
/// entries summed over.
pub proof fn lemma_sum_over_congruent(s: Seq<int>, v1: spec_fn(int) -> int, v2: spec_fn(int) -> int)
    requires
        forall|i: int| 0 <= i < s.len() ==> v1(#[trigger] s[i]) == v2(s[i]),
    ensures
        sum_over(s, v1) == sum_over(s, v2),
    decreases s.len(),
{
    if s.len() > 0 {
        lemma_sum_over_congruent(s.drop_last(), v1, v2);
    }
}

/// Sums over `0..n` respect a pointwise bound.
pub proof fn lemma_sum_upto_le(n: int, v1: spec_fn(int) -> int, v2: spec_fn(int) -> int)
    requires
        forall|t: int| 0 <= t < n ==> #[trigger] v1(t) <= #[trigger] v2(t),
    ensures
        sum_upto(n, v1) <= sum_upto(n, v2),
    decreases n,
{
    if n > 0 {
        lemma_sum_upto_le(n - 1, v1, v2);
    }
}

} // verus!
