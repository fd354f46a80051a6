//! CDF evaluation: cumulative weight of a distribution at each position of
//! the merged support.

use vstd::prelude::*;
use crate::model::{ints, mass_prefix, permute, prefix_total, sorted};
use crate::rank::indices_below;

verus! {

/// `c` is the first rank whose label exceeds `x`, or `keys.len()` if none
/// does.
pub open spec fn first_above(keys: Seq<i64>, x: i64, c: int) -> bool {
    &&& 0 <= c <= keys.len()
    &&& forall|r: int| 0 <= r < c ==> #[trigger] keys[r] <= x
    &&& c < keys.len() ==> keys[c] > x
}

/// For each merged label `tmp[i]`, the first rank `r` whose label
/// `v[v_ord[r]]` is strictly greater, or `v_ord.len()` if there is none,
/// found by binary search over the ranked labels.
/// Ties count as "not above": the resulting step function is
/// right-continuous.
pub fn search_sorted(v: &[i64], v_ord: &[usize], tmp: &[i64]) -> (c: Vec<usize>)
    requires
        indices_below(v_ord@, v.len() as nat),
        sorted(permute(v@, v_ord@)),
    ensures
        c.len() == tmp.len(),
        forall|i: int|
            0 <= i < tmp.len() ==> first_above(permute(v@, v_ord@), tmp[i], #[trigger] c[i] as int),
{
    let ghost keys = permute(v@, v_ord@);
    let n = v_ord.len();
    let mut c: Vec<usize> = Vec::new();
    let mut i: usize = 0;
    while i < tmp.len()
        invariant
            indices_below(v_ord@, v.len() as nat),
            keys == permute(v@, v_ord@),
            sorted(keys),
            n == v_ord.len(),
            i <= tmp.len(),
            c.len() == i,
            forall|s: int| 0 <= s < i ==> first_above(keys, tmp[s], #[trigger] c[s] as int),
        decreases tmp.len() - i,
    {
        let x = tmp[i];
        let mut lo: usize = 0;
        let mut hi: usize = n;
        while lo < hi
            invariant
                indices_below(v_ord@, v.len() as nat),
                keys == permute(v@, v_ord@),
                sorted(keys),
                n == v_ord.len(),
                lo <= hi <= n,
                forall|t: int| 0 <= t < lo ==> #[trigger] keys[t] <= x,
                forall|t: int| hi <= t < n ==> #[trigger] keys[t] > x,
            decreases hi - lo,
        {
            let mid = lo + (hi - lo) / 2;
            if v[v_ord[mid]] <= x {
                proof {
                    assert forall|t: int| 0 <= t < mid + 1 implies #[trigger] keys[t] <= x by {
                        assert(keys[t] <= keys[mid as int]);
                    }
                }
                lo = mid + 1;
            } else {
                proof {
                    assert forall|t: int| mid <= t < n implies #[trigger] keys[t] > x by {
                        assert(keys[mid as int] <= keys[t]);
                    }
                }
                hi = mid;
            }
        }
        c.push(lo);
        i = i + 1;
    }
    c
}

/// Over labels sorted ascending, the weight at or below `x` is the sum of
/// the weights before the first rank above `x`.
pub proof fn lemma_prefix_is_mass(keys: Seq<i64>, w: Seq<int>, x: i64, c: int, k: int)
    requires
        sorted(keys),
        keys.len() == w.len(),
        first_above(keys, x, c),
        0 <= k <= keys.len(),
    ensures
        mass_prefix(keys, w, k, x) == prefix_total(w, if k < c { k } else { c }),
    decreases k,
{
    if k > 0 {
        lemma_prefix_is_mass(keys, w, x, c, k - 1);
        if k - 1 >= c {
            assert(keys[c] <= keys[k - 1]);
        }
    }
}

/// A sum of `k` weights, each below `2^32`, stays below `k * 2^32`.
pub proof fn lemma_prefix_bound(w: Seq<u32>, k: int)
    requires
        0 <= k <= w.len(),
    ensures
        0 <= prefix_total(ints(w), k) <= k * 0xffff_ffff,
    decreases k,
{
    if k > 0 {
        lemma_prefix_bound(w, k - 1);
        assert(ints(w)[k - 1] == w[k - 1] as int);
    }
}

/// Cumulative weight of the distribution `w` at each merged position: entry
/// `i` is the sum of the weights of the first `cdf_idx[i]` ranks in the order
/// `ord`.
pub fn compute_cdf(w: &[u32], ord: &[usize], cdf_idx: &[usize]) -> (cdf: Vec<u64>)
    requires
        indices_below(ord@, w.len() as nat),
        ord.len() <= 0xffff_ffff,
        forall|i: int| 0 <= i < cdf_idx.len() ==> #[trigger] cdf_idx[i] <= ord.len(),
    ensures
        cdf.len() == cdf_idx.len(),
        forall|i: int|
            0 <= i < cdf_idx.len() ==> #[trigger] cdf[i] as int == prefix_total(
                permute(ints(w@), ord@),
                cdf_idx[i] as int,
            ),
{
    let ghost ow = permute(w@, ord@);
    let n = ord.len();
    let mut sorted_cdf: Vec<u64> = Vec::new();
    sorted_cdf.push(0);
    let mut i: usize = 0;
    while i < n
        invariant
            indices_below(ord@, w.len() as nat),
            n == ord.len(),
            n <= 0xffff_ffff,
            ow == permute(w@, ord@),
            i <= n,
            sorted_cdf.len() == i + 1,
            forall|k: int|
                0 <= k <= i ==> #[trigger] sorted_cdf[k] as int == prefix_total(ints(ow), k),
        decreases n - i,
    {
        proof {
            lemma_prefix_bound(ow, i + 1);
            assert(ints(ow)[i as int] == w[ord[i as int] as int]);
            assert(i * 0xffff_ffff + 0xffff_ffff <= 0xffff_ffff * 0xffff_ffff) by (nonlinear_arith)
                requires
                    i < 0xffff_ffff,
            ;
        }
        let next = sorted_cdf[i] + w[ord[i]] as u64;
        sorted_cdf.push(next);
        i = i + 1;
    }
    proof {
        assert(ints(ow) =~= permute(ints(w@), ord@));
    }
    let mut cdf: Vec<u64> = Vec::new();
    let mut p: usize = 0;
    while p < cdf_idx.len()
        invariant
            n == ord.len(),
            sorted_cdf.len() == n + 1,
            ints(ow) == permute(ints(w@), ord@),
            forall|k: int|
                0 <= k <= n ==> #[trigger] sorted_cdf[k] as int == prefix_total(ints(ow), k),
            forall|i: int| 0 <= i < cdf_idx.len() ==> #[trigger] cdf_idx[i] <= n,
            p <= cdf_idx.len(),
            cdf.len() == p,
            forall|i: int|
                0 <= i < p ==> #[trigger] cdf[i] as int == prefix_total(
                    permute(ints(w@), ord@),
                    cdf_idx[i] as int,
                ),
        decreases cdf_idx.len() - p,
    {
        cdf.push(sorted_cdf[cdf_idx[p]]);
        p = p + 1;
    }
    cdf
}

} // verus!
