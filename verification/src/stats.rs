//! Statistical aggregation of the simulated outcomes.
//!
//! The final durations are sorted ascending; the median and the percentiles
//! are read off by index truncation (percentile `p` sits at index
//! `min(n*p/100, n-1)`), deliberately without interpolation; the averages
//! are integer means.

use vstd::arithmetic::div_mod::{lemma_div_is_ordered, lemma_div_multiples_vanish};
use vstd::multiset::Multiset;
use vstd::prelude::*;

use crate::models::MAX_ITERATIONS;

verus! {

broadcast use vstd::seq_lib::group_to_multiset_ensures;

/// Ascending order.
pub open spec fn sorted_ascending(s: Seq<u64>) -> bool {
    forall|p: int, q: int| 0 <= p <= q < s.len() ==> (#[trigger] s[p]) <= (#[trigger] s[q])
}

/// Sum of all entries.
pub open spec fn sum_of(s: Seq<u64>) -> int
    decreases s.len(),
{
    if s.len() == 0 {
        0
    } else {
        sum_of(s.drop_last()) + s.last()
    }
}

/// The index percentile `p` is read from, in a sorted sequence of `n`
/// outcomes: `n*p/100`, capped at the last index.
pub open spec fn percentile_index(n: int, p: int) -> int {
    if n * p / 100 < n - 1 {
        n * p / 100
    } else {
        n - 1
    }
}

/// A sum of bounded entries is bounded by the length times the bound.
pub proof fn lemma_sum_bounded(s: Seq<u64>, m: u64)
    requires
        forall|i: int| 0 <= i < s.len() ==> (#[trigger] s[i]) <= m,
    ensures
        0 <= sum_of(s) <= s.len() * m,
    decreases s.len(),
{
    if s.len() == 0 {
    } else {
        assert forall|i: int| 0 <= i < s.drop_last().len() implies (#[trigger] s.drop_last()[i])
            <= m by {
            assert(s[i] <= m);
        }
        lemma_sum_bounded(s.drop_last(), m);
        assert((s.len() - 1) * m + m == s.len() * m) by (nonlinear_arith);
        assert(s.last() <= m);
    }
}

/// An integer mean of entries bounded by `m` is itself bounded by `m`.
pub proof fn lemma_mean_bounded(s: Seq<u64>, m: u64)
    requires
        s.len() >= 1,
        forall|i: int| 0 <= i < s.len() ==> (#[trigger] s[i]) <= m,
    ensures
        0 <= sum_of(s) / s.len() as int <= m,
{
    lemma_sum_bounded(s, m);
    lemma_div_is_ordered(sum_of(s), s.len() as int * m, s.len() as int);
    lemma_div_multiples_vanish(m as int, s.len() as int);
    assert(s.len() as int * m == s.len() as int * (m as int));
}

/// Removing one entry takes exactly its value off the sum.
pub proof fn lemma_sum_remove(s: Seq<u64>, i: int)
    requires
        0 <= i < s.len(),
    ensures
        sum_of(s.remove(i)) == sum_of(s) - s[i],
    decreases s.len(),
{
    if i == s.len() - 1 {
        assert(s.remove(i) =~= s.drop_last());
    } else {
        assert(s.remove(i).drop_last() =~= s.drop_last().remove(i));
        lemma_sum_remove(s.drop_last(), i);
        assert(s.remove(i).last() == s.last());
    }
}

/// Sequences holding the same entries, in any order, have the same sum.
pub proof fn lemma_sum_permutation(s1: Seq<u64>, s2: Seq<u64>)
    requires
        s1.to_multiset() == s2.to_multiset(),
    ensures
        sum_of(s1) == sum_of(s2),
    decreases s1.len(),
{
    broadcast use vstd::multiset::group_multiset_axioms;

    if s1.len() > 0 {
        let x = s1.last();
        assert(s1[s1.len() - 1] == x);
        assert(s1.contains(x));
        assert(s1.to_multiset().count(x) > 0);
        assert(s2.to_multiset().count(x) > 0);
        assert(s2.contains(x));
        let i = choose|i: int| 0 <= i < s2.len() && s2[i] == x;
        lemma_sum_remove(s2, i);
        assert(s1.drop_last().push(x) =~= s1);
        assert(s1.drop_last().to_multiset().insert(x) =~= s1.to_multiset());
        assert(s2.remove(i).to_multiset() =~= s2.to_multiset().remove(x));
        assert(s1.drop_last().to_multiset() =~= s2.remove(i).to_multiset()) by {
            assert forall|y: u64|
                s1.drop_last().to_multiset().count(y) == s2.remove(i).to_multiset().count(
                    y,
                ) by {
                assert(s1.drop_last().to_multiset().insert(x).count(y) == s1.to_multiset().count(
                    y,
                ));
            }
        }
        lemma_sum_permutation(s1.drop_last(), s2.remove(i));
    } else {
        assert(s1.to_multiset().len() == 0);
        assert(s2.len() == s2.to_multiset().len());
    }
}

/// In any sorted non-empty sequence, the entries read at the statistic
/// indices ascend: first entry, median, 80th percentile, 95th percentile,
/// last entry.
pub proof fn lemma_statistics_monotone(s: Seq<u64>)
    requires
        sorted_ascending(s),
        s.len() >= 1,
    ensures
        s[0] <= s[s.len() as int / 2],
        s[s.len() as int / 2] <= s[percentile_index(s.len() as int, 80)],
        s[percentile_index(s.len() as int, 80)] <= s[percentile_index(s.len() as int, 95)],
        s[percentile_index(s.len() as int, 95)] <= s[s.len() - 1],
{
    let n = s.len() as int;
    lemma_div_is_ordered(n * 50, n * 80, 100);
    lemma_div_is_ordered(n * 80, n * 95, 100);
    assert(n * 50 / 100 == n / 2) by {
        vstd::arithmetic::div_mod::lemma_div_denominator(n * 50, 50, 2);
        vstd::arithmetic::div_mod::lemma_div_by_multiple(n, 50);
        assert(n * 50 == 50 * n) by (nonlinear_arith);
    }
    assert(n / 2 <= n - 1) by {
        if n >= 2 {
            lemma_div_is_ordered(n, 2 * (n - 1), 2);
            lemma_div_multiples_vanish(n - 1, 2);
        }
    }
    let i_med = n / 2;
    let i80 = percentile_index(n, 80);
    let i95 = percentile_index(n, 95);
    assert(0 <= i_med <= i80 <= i95 <= n - 1);
    assert(s[0] <= s[i_med]);
    assert(s[i_med] <= s[i80]);
    assert(s[i80] <= s[i95]);
    assert(s[i95] <= s[n - 1]);
}

/// Index of a smallest entry.
fn min_u64_index(v: &Vec<u64>) -> (m: usize)
    requires
        v@.len() >= 1,
    ensures
        m < v@.len(),
        forall|q: int| 0 <= q < v@.len() ==> v@[m as int] <= (#[trigger] v@[q]),
{
    let n = v.len();
    let mut m: usize = 0;
    let mut j: usize = 1;
    while j < n
        invariant
            n == v@.len(),
            m < j <= n,
            forall|q: int| 0 <= q < j ==> v@[m as int] <= (#[trigger] v@[q]),
        decreases n - j,
    {
        if v[j] < v[m] {
            m = j;
        }
        j += 1;
    }
    m
}

/// Sorts durations ascending; the result is a permutation of the input.
pub fn sort_durations(v: Vec<u64>) -> (r: Vec<u64>)
    ensures
        sorted_ascending(r@),
        r@.to_multiset() == v@.to_multiset(),
        r@.len() == v@.len(),
{
    let ghost orig = v@;
    let mut rest = v;
    let mut out: Vec<u64> = Vec::new();
    proof {
        assert(out@.to_multiset().add(rest@.to_multiset()) =~= orig.to_multiset());
    }
    while rest.len() > 0
        invariant
            sorted_ascending(out@),
            forall|p: int, q: int|
                0 <= p < out@.len() && 0 <= q < rest@.len() ==> (#[trigger] out@[p])
                    <= (#[trigger] rest@[q]),
            out@.to_multiset().add(rest@.to_multiset()) =~= orig.to_multiset(),
            out@.len() + rest@.len() == orig.len(),
        decreases rest@.len(),
    {
        let m = min_u64_index(&rest);
        let ghost rest_pre = rest@;
        let ghost out_pre = out@;
        let x = rest.remove(m);
        out.push(x);
        proof {
            assert forall|p: int, q: int| 0 <= p <= q < out@.len() implies (#[trigger] out@[p])
                <= (#[trigger] out@[q]) by {
                if q < out_pre.len() {
                    assert(out@[p] == out_pre[p] && out@[q] == out_pre[q]);
                } else if p < out_pre.len() {
                    assert(out@[q] == rest_pre[m as int]);
                    assert(out@[p] == out_pre[p]);
                }
            }
            assert forall|p: int, q: int|
                0 <= p < out@.len() && 0 <= q < rest@.len() implies (#[trigger] out@[p]) <= (
            #[trigger] rest@[q]) by {
                let w = if q < m { rest_pre[q] } else { rest_pre[q + 1] };
                assert(rest@[q] == w);
                if p < out_pre.len() {
                    assert(out@[p] == out_pre[p]);
                } else {
                    assert(out@[p] == rest_pre[m as int]);
                }
            }
            assert(out@.to_multiset() =~= out_pre.to_multiset().insert(rest_pre[m as int]));
            assert(rest@.to_multiset() =~= rest_pre.to_multiset().remove(rest_pre[m as int]));
            assert(rest_pre.to_multiset().count(rest_pre[m as int]) >= 1);
            assert(out@.to_multiset().add(rest@.to_multiset()) =~= orig.to_multiset());
        }
    }
    proof {
        assert(rest@.to_multiset() =~= Multiset::empty());
        assert(out@.to_multiset() =~= orig.to_multiset());
        assert(out@.to_multiset().len() == orig.to_multiset().len());
    }
    out
}

/// Sum of the entries, exact in a 128-bit accumulator.
pub fn sum_durations(v: &Vec<u64>) -> (s: u128)
    ensures
        s == sum_of(v@),
{
    let n = v.len();
    let mut s: u128 = 0;
    let mut i: usize = 0;
    while i < n
        invariant
            n == v@.len(),
            i <= n,
            s == sum_of(v@.subrange(0, i as int)),
        decreases n - i,
    {
        proof {
            lemma_sum_bounded(v@.subrange(0, i as int), u64::MAX);
            assert(i as int * u64::MAX < u128::MAX - u64::MAX);
            assert(v@.subrange(0, i as int + 1).drop_last() =~= v@.subrange(0, i as int));
            assert(v@.subrange(0, i as int + 1).last() == v@[i as int]);
        }
        s = s + v[i] as u128;
        i += 1;
    }
    proof {
        assert(v@.subrange(0, n as int) =~= v@);
    }
    s
}

/// Integer mean of entries all bounded by `m`.
pub fn mean_durations(v: &Vec<u64>, Ghost(m): Ghost<u64>) -> (r: u64)
    requires
        v@.len() >= 1,
        forall|i: int| 0 <= i < v@.len() ==> (#[trigger] v@[i]) <= m,
    ensures
        r == sum_of(v@) / v@.len() as int,
        r <= m,
{
    let s = sum_durations(v);
    let n = v.len();
    proof {
        lemma_mean_bounded(v@, m);
    }
    (s / n as u128) as u64
}

/// The entry percentile `p` is read from: index `n*p/100`, capped at the
/// last entry.
pub fn percentile_from_sorted(sorted: &Vec<u64>, percent: u64) -> (r: u64)
    requires
        1 <= sorted@.len() <= MAX_ITERATIONS,
        percent <= 100,
    ensures
        r == sorted@[percentile_index(sorted@.len() as int, percent as int)],
{
    let n = sorted.len();
    proof {
        assert(n as int * percent as int <= MAX_ITERATIONS as int * 100) by (nonlinear_arith)
            requires
                n <= MAX_ITERATIONS,
                percent <= 100,
        ;
    }
    let idx: u64 = (n as u64) * percent / 100;
    if idx < (n as u64) - 1 {
        sorted[idx as usize]
    } else {
        sorted[n - 1]
    }
}

} // verus!
