//! General properties of the distance, proved over the model.

use vstd::prelude::*;
use crate::model::{
    abs, cdf_masses, count_le, gap_sum, gaps_of, mass_prefix, merged_support, ones,
    prefix_total, sorted, total, wasserstein_num,
};

verus! {

proof fn lemma_gap_sum_same(c: Seq<int>, s: int, g: Seq<u32>, k: int)
    ensures
        gap_sum(c, c, s, s, g, k) == 0,
    decreases k,
{
    if k > 0 {
        lemma_gap_sum_same(c, s, g, k - 1);
        let t = c[k - 1] * s - c[k - 1] * s;
        assert(t == 0);
        assert(abs(t) == 0);
        assert(abs(t) * (g[k - 1] as int) == 0);
    }
}

/// A distribution is at distance zero from itself, whatever the merged
/// support and the gaps.
pub proof fn lemma_identity(a: Seq<int>, la: Seq<i64>, m: Seq<i64>, g: Seq<u32>)
    ensures
        wasserstein_num(a, la, a, la, m, g) == 0,
{
    lemma_gap_sum_same(cdf_masses(la, a, m), total(a), g, g.len() as int);
}

proof fn lemma_gap_sum_swap(ca: Seq<int>, cb: Seq<int>, sa: int, sb: int, g: Seq<u32>, k: int)
    ensures
        gap_sum(ca, cb, sa, sb, g, k) == gap_sum(cb, ca, sb, sa, g, k),
    decreases k,
{
    if k > 0 {
        lemma_gap_sum_swap(ca, cb, sa, sb, g, k - 1);
        assert(abs(ca[k - 1] * sb - cb[k - 1] * sa) == abs(cb[k - 1] * sa - ca[k - 1] * sb));
    }
}

/// Over a sorted sequence, the number of entries at most `x` among the first
/// `k` is at least `min(k, i + 1)` when `s[i] <= x`, and at most `min(k, i)`
/// when `s[i] > x`.
proof fn lemma_count_sorted(s: Seq<i64>, i: int, x: i64, k: int)
    requires
        sorted(s),
        0 <= i < s.len(),
        0 <= k <= s.len(),
    ensures
        s[i] <= x ==> mass_prefix(s, ones(s.len()), k, x) >= if k < i + 1 {
            k
        } else {
            i + 1
        },
        s[i] > x ==> mass_prefix(s, ones(s.len()), k, x) <= if k < i {
            k
        } else {
            i
        },
    decreases k,
{
    if k > 0 {
        lemma_count_sorted(s, i, x, k - 1);
        if k - 1 <= i {
            assert(s[k - 1] <= s[i]);
        } else {
            assert(s[i] <= s[k - 1]);
        }
    }
}

/// Two label sequences have exactly one merged support.
pub proof fn lemma_merged_support_unique(la: Seq<i64>, lb: Seq<i64>, m1: Seq<i64>, m2: Seq<i64>)
    requires
        merged_support(la, lb, m1),
        merged_support(la, lb, m2),
    ensures
        m1 == m2,
{
    assert forall|i: int| 0 <= i < m1.len() implies m1[i] == m2[i] by {
        if m1[i] < m2[i] {
            lemma_count_sorted(m1, i, m1[i], m1.len() as int);
            lemma_count_sorted(m2, i, m1[i], m2.len() as int);
            assert(count_le(m1, m1[i]) == count_le(m2, m1[i]));
        } else if m2[i] < m1[i] {
            lemma_count_sorted(m1, i, m2[i], m1.len() as int);
            lemma_count_sorted(m2, i, m2[i], m2.len() as int);
            assert(count_le(m1, m2[i]) == count_le(m2, m2[i]));
        }
    }
    assert(m1 =~= m2);
}

/// `d` gives one result on each pair of labels.
pub open spec fn deterministic<D: Fn(i64, i64) -> u32>(d: D) -> bool {
    forall|l: i64, r: i64, u: u32, v: u32|
        d.ensures((l, r), u) && d.ensures((l, r), v) ==> u == v
}

/// Exchanging the two distributions leaves the distance unchanged: the
/// merged support of `(la, lb)` is the one of `(lb, la)`, and with a distance
/// function that gives one result per pair of labels the numerators agree;
/// the denominator `total(a) * total(b)` is symmetric as it stands.
pub proof fn lemma_symmetry<D: Fn(i64, i64) -> u32>(
    a: Seq<int>,
    la: Seq<i64>,
    b: Seq<int>,
    lb: Seq<i64>,
    d: D,
    m1: Seq<i64>,
    g1: Seq<u32>,
    m2: Seq<i64>,
    g2: Seq<u32>,
)
    requires
        deterministic(d),
        merged_support(la, lb, m1),
        gaps_of(d, m1, g1),
        merged_support(lb, la, m2),
        gaps_of(d, m2, g2),
    ensures
        m1 == m2,
        g1 == g2,
        wasserstein_num(a, la, b, lb, m1, g1) == wasserstein_num(b, lb, a, la, m2, g2),
        total(a) * total(b) == total(b) * total(a),
{
    assert(merged_support(la, lb, m2)) by {
        assert forall|x: i64| #[trigger] count_le(m2, x) == count_le(la, x) + count_le(lb, x) by {
            assert(count_le(m2, x) == count_le(lb, x) + count_le(la, x));
        }
    }
    lemma_merged_support_unique(la, lb, m1, m2);
    assert forall|i: int| 0 <= i < g1.len() implies g1[i] == g2[i] by {
        assert(d.ensures((m1[i], m1[i + 1]), g1[i]));
        assert(d.ensures((m2[i], m2[i + 1]), g2[i]));
    }
    assert(g1 =~= g2);
    lemma_gap_sum_swap(
        cdf_masses(la, a, m1),
        cdf_masses(lb, b, m1),
        total(a),
        total(b),
        g1,
        g1.len() as int,
    );
    assert(total(a) * total(b) == total(b) * total(a)) by (nonlinear_arith);
}

proof fn lemma_gap_sum_nonneg(ca: Seq<int>, cb: Seq<int>, sa: int, sb: int, g: Seq<u32>, k: int)
    ensures
        gap_sum(ca, cb, sa, sb, g, k) >= 0,
    decreases k,
{
    if k > 0 {
        lemma_gap_sum_nonneg(ca, cb, sa, sb, g, k - 1);
        let t = abs(ca[k - 1] * sb - cb[k - 1] * sa);
        let w = g[k - 1] as int;
        assert(t * w >= 0) by (nonlinear_arith)
            requires
                t >= 0,
                w >= 0,
        ;
    }
}

/// The distance is never negative.
pub proof fn lemma_nonneg(
    a: Seq<int>,
    la: Seq<i64>,
    b: Seq<int>,
    lb: Seq<i64>,
    m: Seq<i64>,
    g: Seq<u32>,
)
    ensures
        wasserstein_num(a, la, b, lb, m, g) >= 0,
{
    lemma_gap_sum_nonneg(
        cdf_masses(la, a, m),
        cdf_masses(lb, b, m),
        total(a),
        total(b),
        g,
        g.len() as int,
    );
}

/// Every weight multiplied by `c`.
pub open spec fn scale(w: Seq<int>, c: int) -> Seq<int> {
    w.map_values(|v: int| c * v)
}

proof fn lemma_scale_prefix(w: Seq<int>, c: int, k: int)
    requires
        0 <= k <= w.len(),
    ensures
        prefix_total(scale(w, c), k) == c * prefix_total(w, k),
    decreases k,
{
    if k > 0 {
        lemma_scale_prefix(w, c, k - 1);
        assert(c * prefix_total(w, k - 1) + c * w[k - 1] == c * (prefix_total(w, k - 1) + w[k - 1]))
            by (nonlinear_arith);
    }
}

proof fn lemma_scale_mass(labels: Seq<i64>, w: Seq<int>, c: int, k: int, x: i64)
    requires
        0 <= k <= w.len(),
    ensures
        mass_prefix(labels, scale(w, c), k, x) == c * mass_prefix(labels, w, k, x),
    decreases k,
{
    if k > 0 {
        lemma_scale_mass(labels, w, c, k - 1, x);
        let p = mass_prefix(labels, w, k - 1, x);
        assert(c * p + c * w[k - 1] == c * (p + w[k - 1])) by (nonlinear_arith);
    }
}

proof fn lemma_scale_gap_sum(
    ca: Seq<int>,
    ca2: Seq<int>,
    cb: Seq<int>,
    sa: int,
    sb: int,
    c: int,
    g: Seq<u32>,
    k: int,
)
    requires
        c > 0,
        0 <= k <= ca.len(),
        ca2.len() == ca.len(),
        forall|i: int| 0 <= i < ca.len() ==> #[trigger] ca2[i] == c * ca[i],
    ensures
        gap_sum(ca2, cb, c * sa, sb, g, k) == c * gap_sum(ca, cb, sa, sb, g, k),
    decreases k,
{
    if k > 0 {
        lemma_scale_gap_sum(ca, ca2, cb, sa, sb, c, g, k - 1);
        let u = ca[k - 1] * sb - cb[k - 1] * sa;
        assert(ca2[k - 1] * sb - cb[k - 1] * (c * sa) == c * u) by (nonlinear_arith)
            requires
                ca2[k - 1] == c * ca[k - 1],
                u == ca[k - 1] * sb - cb[k - 1] * sa,
        ;
        assert(abs(c * u) == c * abs(u)) by (nonlinear_arith)
            requires
                c > 0,
        ;
        let p = gap_sum(ca, cb, sa, sb, g, k - 1);
        let w = g[k - 1] as int;
        assert(c * p + (c * abs(u)) * w == c * (p + abs(u) * w)) by (nonlinear_arith);
    }
}

/// Scaling all of `a`'s weights by a positive constant leaves the distance
/// unchanged: the two fractions `num / den` are equal.
pub proof fn lemma_scale_invariant(
    a: Seq<int>,
    la: Seq<i64>,
    b: Seq<int>,
    lb: Seq<i64>,
    m: Seq<i64>,
    g: Seq<u32>,
    c: int,
)
    requires
        c > 0,
        la.len() == a.len(),
        g.len() < m.len(),
    ensures
        wasserstein_num(scale(a, c), la, b, lb, m, g) * (total(a) * total(b)) == wasserstein_num(
            a,
            la,
            b,
            lb,
            m,
            g,
        ) * (total(scale(a, c)) * total(b)),
{
    let a2 = scale(a, c);
    let ca = cdf_masses(la, a, m);
    let ca2 = cdf_masses(la, a2, m);
    lemma_scale_prefix(a, c, a.len() as int);
    assert forall|i: int| 0 <= i < ca.len() implies #[trigger] ca2[i] == c * ca[i] by {
        lemma_scale_mass(la, a, c, a.len() as int, m[i]);
    }
    let cb = cdf_masses(lb, b, m);
    lemma_scale_gap_sum(ca, ca2, cb, total(a), total(b), c, g, g.len() as int);
    let n = wasserstein_num(a, la, b, lb, m, g);
    let sa = total(a);
    let sb = total(b);
    assert((c * n) * (sa * sb) == n * ((c * sa) * sb)) by (nonlinear_arith);
}

} // verus!
