//! Mathematical model: cumulative masses, merged supports and the
//! CDF-difference integral that the executable code computes.

use vstd::prelude::*;

verus! {

/// Weights as mathematical integers.
pub open spec fn ints(w: Seq<u32>) -> Seq<int> {
    w.map_values(|v: u32| v as int)
}

/// A sequence of `n` ones: each entry counts once.
pub open spec fn ones(n: nat) -> Seq<int> {
    Seq::new(n, |i: int| 1int)
}

/// The entries of `s` taken in the order that the index sequence `p` gives.
pub open spec fn permute<T>(s: Seq<T>, p: Seq<usize>) -> Seq<T> {
    Seq::new(p.len(), |r: int| s[p[r] as int])
}

pub open spec fn sorted(s: Seq<i64>) -> bool {
    forall|i: int, j: int| 0 <= i <= j < s.len() ==> s[i] <= s[j]
}

/// Sum of the first `k` weights.
pub open spec fn prefix_total(w: Seq<int>, k: int) -> int
    decreases k,
{
    if k <= 0 {
        0
    } else {
        prefix_total(w, k - 1) + w[k - 1]
    }
}

pub open spec fn total(w: Seq<int>) -> int {
    prefix_total(w, w.len() as int)
}

/// Sum of the first `k` weights whose label is at most `x`.
pub open spec fn mass_prefix(labels: Seq<i64>, w: Seq<int>, k: int, x: i64) -> int
    decreases k,
{
    if k <= 0 {
        0
    } else {
        mass_prefix(labels, w, k - 1, x) + if labels[k - 1] <= x {
            w[k - 1]
        } else {
            0
        }
    }
}

/// Total weight of the entries whose label is at most `x`: the
/// (unnormalised, right-continuous) cumulative distribution at `x`.
pub open spec fn mass_le(labels: Seq<i64>, w: Seq<int>, x: i64) -> int {
    mass_prefix(labels, w, labels.len() as int, x)
}

/// Number of labels at most `x`.
pub open spec fn count_le(labels: Seq<i64>, x: i64) -> int {
    mass_le(labels, ones(labels.len()), x)
}

/// `m` is the merged support of `la` and `lb`: sorted ascending, and holding,
/// below every bound, as many labels as `la` and `lb` together. This pins `m`
/// down as the sorted multiset union of the two label sequences.
pub open spec fn merged_support(la: Seq<i64>, lb: Seq<i64>, m: Seq<i64>) -> bool {
    &&& m.len() == la.len() + lb.len()
    &&& sorted(m)
    &&& forall|x: i64| #[trigger] count_le(m, x) == count_le(la, x) + count_le(lb, x)
}

/// `g` holds the distance that `d` gives to each pair of adjacent entries of
/// `m`, the smaller label first.
pub open spec fn gaps_of<D: Fn(i64, i64) -> u32>(d: D, m: Seq<i64>, g: Seq<u32>) -> bool {
    &&& m.len() >= 1
    &&& g.len() == m.len() - 1
    &&& forall|i: int| 0 <= i < g.len() ==> d.ensures((m[i], m[i + 1]), #[trigger] g[i])
}

pub open spec fn abs(v: int) -> int {
    if v < 0 {
        -v
    } else {
        v
    }
}

/// `sum_{i < k} |ca[i] * sb - cb[i] * sa| * g[i]`: the CDF-difference integral
/// over the first `k` gaps, with both CDFs brought to the common denominator
/// `sa * sb`.
pub open spec fn gap_sum(ca: Seq<int>, cb: Seq<int>, sa: int, sb: int, g: Seq<u32>, k: int) -> int
    decreases k,
{
    if k <= 0 {
        0
    } else {
        gap_sum(ca, cb, sa, sb, g, k - 1) + abs(ca[k - 1] * sb - cb[k - 1] * sa) * g[k - 1]
    }
}

/// Cumulative mass of a distribution at each position of `m`.
pub open spec fn cdf_masses(labels: Seq<i64>, w: Seq<int>, m: Seq<i64>) -> Seq<int> {
    Seq::new(m.len(), |i: int| mass_le(labels, w, m[i]))
}

/// Numerator of the Wasserstein distance over the merged support `m` with
/// gaps `g`; the denominator is `total(a) * total(b)`.
pub open spec fn wasserstein_num(
    a: Seq<int>,
    la: Seq<i64>,
    b: Seq<int>,
    lb: Seq<i64>,
    m: Seq<i64>,
    g: Seq<u32>,
) -> int {
    gap_sum(cdf_masses(la, a, m), cdf_masses(lb, b, m), total(a), total(b), g, g.len() as int)
}

} // verus!

verus! {

/// Cumulative weights as mathematical integers.
pub open spec fn nats(s: Seq<u64>) -> Seq<int> {
    s.map_values(|v: u64| v as int)
}

/// Partial masses read only the entries before the bound.
pub proof fn lemma_mass_congruent(
    l1: Seq<i64>,
    w1: Seq<int>,
    l2: Seq<i64>,
    w2: Seq<int>,
    k: int,
    x: i64,
)
    requires
        0 <= k <= l1.len(),
        k <= l2.len(),
        k <= w1.len(),
        k <= w2.len(),
        forall|r: int| 0 <= r < k ==> l1[r] == l2[r] && w1[r] == w2[r],
    ensures
        mass_prefix(l1, w1, k, x) == mass_prefix(l2, w2, k, x),
    decreases k,
{
    if k > 0 {
        lemma_mass_congruent(l1, w1, l2, w2, k - 1, x);
    }
}

/// With non-negative weights, the mass below any bound is at most the total.
pub proof fn lemma_mass_at_most_total(labels: Seq<i64>, w: Seq<int>, k: int, x: i64)
    requires
        0 <= k <= w.len(),
        k <= labels.len(),
        forall|r: int| 0 <= r < w.len() ==> #[trigger] w[r] >= 0,
    ensures
        0 <= mass_prefix(labels, w, k, x) <= prefix_total(w, k),
    decreases k,
{
    if k > 0 {
        lemma_mass_at_most_total(labels, w, k - 1, x);
    }
}

} // verus!
