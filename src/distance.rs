//! Integration of the CDF difference, and the distance itself.

use vstd::prelude::*;
use crate::cdf::{compute_cdf, lemma_prefix_is_mass, search_sorted};
use crate::merge::{gaps, merge_ranked};
use crate::model::{
    cdf_masses, count_le, gap_sum, gaps_of, ints, lemma_mass_at_most_total, mass_le, merged_support,
    nats, ones, permute, prefix_total, total, wasserstein_num,
};
use crate::rank::rank_order;

verus! {

/// An exact non-negative rational number `num / den`.
#[derive(Clone, Copy, Debug, PartialEq, Eq)]
pub struct Ratio {
    pub num: u128,
    pub den: u128,
}

/// Largest value of one term `|ca * sb - cb * sa| * gap` of the integral.
pub open spec fn term_bound() -> int {
    0xffff_ffffint * 0xffff_ffffint * 0xffff_ffffint
}

/// Total weight of a distribution.
pub fn total_weight(w: &[u32]) -> (s: u64)
    requires
        w.len() <= 0xffff_ffff,
    ensures
        s as int == total(ints(w@)),
{
    let mut s: u64 = 0;
    let mut i: usize = 0;
    while i < w.len()
        invariant
            w.len() <= 0xffff_ffff,
            i <= w.len(),
            s as int == prefix_total(ints(w@), i as int),
            s <= i * 0xffff_ffff,
        decreases w.len() - i,
    {
        proof {
            assert(ints(w@)[i as int] == w[i as int] as int);
            assert(i * 0xffff_ffff + 0xffff_ffff <= 0xffff_ffff * 0xffff_ffff) by (nonlinear_arith)
                requires
                    i < 0xffff_ffff,
            ;
        }
        s = s + w[i] as u64;
        i = i + 1;
    }
    s
}

/// `sum_i |cdf_a[i] * sb - cdf_b[i] * sa| * deltas[i]` over every gap: the
/// integral of the absolute difference of the two CDFs `cdf_a / sa` and
/// `cdf_b / sb`, scaled by `sa * sb`.
pub fn dist(cdf_a: &[u64], cdf_b: &[u64], sa: u64, sb: u64, deltas: &[u32]) -> (r: u128)
    requires
        cdf_a.len() == deltas.len() + 1,
        cdf_b.len() == deltas.len() + 1,
        deltas.len() < 0xffff_ffff,
        sa <= 0xffff_ffff,
        sb <= 0xffff_ffff,
        forall|i: int| 0 <= i < cdf_a.len() ==> #[trigger] cdf_a[i] <= sa,
        forall|i: int| 0 <= i < cdf_b.len() ==> #[trigger] cdf_b[i] <= sb,
    ensures
        r as int == gap_sum(
            nats(cdf_a@),
            nats(cdf_b@),
            sa as int,
            sb as int,
            deltas@,
            deltas.len() as int,
        ),
{
    let ghost ca = nats(cdf_a@);
    let ghost cb = nats(cdf_b@);
    let mut acc: u128 = 0;
    let mut i: usize = 0;
    while i < deltas.len()
        invariant
            ca == nats(cdf_a@),
            cb == nats(cdf_b@),
            cdf_a.len() == deltas.len() + 1,
            cdf_b.len() == deltas.len() + 1,
            deltas.len() < 0xffff_ffff,
            sa <= 0xffff_ffff,
            sb <= 0xffff_ffff,
            forall|i: int| 0 <= i < cdf_a.len() ==> #[trigger] cdf_a[i] <= sa,
            forall|i: int| 0 <= i < cdf_b.len() ==> #[trigger] cdf_b[i] <= sb,
            i <= deltas.len(),
            acc as int == gap_sum(ca, cb, sa as int, sb as int, deltas@, i as int),
            acc <= i * term_bound(),
        decreases deltas.len() - i,
    {
        let xa = cdf_a[i];
        let xb = cdf_b[i];
        let g = deltas[i];
        proof {
            assert(xa * sb <= sa * sb && sa * sb <= 0xffff_ffff * 0xffff_ffff) by (nonlinear_arith)
                requires
                    xa <= sa,
                    sa <= 0xffff_ffff,
                    sb <= 0xffff_ffff,
            ;
            assert(xb * sa <= sa * sb) by (nonlinear_arith)
                requires
                    xb <= sb,
            ;
        }
        let p = xa * sb;
        let q = xb * sa;
        let d: u64 = if p >= q {
            p - q
        } else {
            q - p
        };
        proof {
            assert(d * g <= term_bound()) by (nonlinear_arith)
                requires
                    d <= sa * sb,
                    sa <= 0xffff_ffff,
                    sb <= 0xffff_ffff,
                    g <= 0xffff_ffff,
            ;
            assert(i * term_bound() + term_bound() <= 0xffff_ffff * term_bound())
                by (nonlinear_arith)
                requires
                    i < 0xffff_ffff,
                    term_bound() > 0,
            ;
            assert(0xffff_ffff * term_bound() <= u128::MAX);
            assert((i + 1) * term_bound() == i * term_bound() + term_bound()) by (nonlinear_arith);
        }
        let t = (d as u128) * (g as u128);
        acc = acc + t;
        i = i + 1;
    }
    acc
}

/// The Wasserstein distance between the distribution with weights `a` at
/// labels `a_idxs` and the one with weights `b` at labels `b_idxs`, where
/// `idx_dist(l, r)` is the distance between adjacent labels `l <= r`.
///
/// The result is `num / den` with `den` the product of the two total weights
/// and `num` the sum, over each gap of the merged support, of the absolute
/// difference of the two cumulative masses (on that denominator) times the
/// gap's distance.
pub fn wasserstein(
    a: &[u32],
    a_idxs: &[i64],
    b: &[u32],
    b_idxs: &[i64],
    idx_dist: impl Fn(i64, i64) -> u32,
) -> (r: Ratio)
    requires
        a.len() == a_idxs.len(),
        b.len() == b_idxs.len(),
        a.len() + b.len() <= 0xffff_ffff,
        0 < total(ints(a@)) <= 0xffff_ffff,
        0 < total(ints(b@)) <= 0xffff_ffff,
        forall|l: i64, r: i64| l <= r ==> idx_dist.requires((l, r)),
    ensures
        r.den == total(ints(a@)) * total(ints(b@)),
        r.den > 0,
        exists|m: Seq<i64>, g: Seq<u32>|
            merged_support(a_idxs@, b_idxs@, m) && gaps_of(idx_dist, m, g) && r.num
                == #[trigger] wasserstein_num(ints(a@), a_idxs@, ints(b@), b_idxs@, m, g),
{
    let sa = total_weight(a);
    let sb = total_weight(b);
    proof {
        if a.len() == 0 {
            assert(total(ints(a@)) == 0);
        }
        if b.len() == 0 {
            assert(total(ints(b@)) == 0);
        }
    }
    let a_ord = rank_order(a_idxs);
    let b_ord = rank_order(b_idxs);
    let tmp = merge_ranked(a_idxs, &a_ord, b_idxs, &b_ord);
    let delta = gaps(&tmp, &idx_dist);
    let cdf_idx_a = search_sorted(a_idxs, &a_ord, &tmp);
    let cdf_idx_b = search_sorted(b_idxs, &b_ord, &tmp);
    let cdf_a = compute_cdf(a, &a_ord, &cdf_idx_a);
    let cdf_b = compute_cdf(b, &b_ord, &cdf_idx_b);
    let ghost m = tmp@;
    let ghost wa = ints(a@);
    let ghost wb = ints(b@);
    proof {
        assert forall|x: i64| #[trigger] count_le(m, x) == count_le(a_idxs@, x) + count_le(
            b_idxs@,
            x,
        ) by {
            assert(permute(ones(a.len() as nat), a_ord@) =~= ones(a.len() as nat));
            assert(permute(ones(b.len() as nat), b_ord@) =~= ones(b.len() as nat));
            assert(mass_le(a_idxs@, ones(a.len() as nat), x) == count_le(a_idxs@, x));
            assert(mass_le(b_idxs@, ones(b.len() as nat), x) == count_le(b_idxs@, x));
        }
        assert(merged_support(a_idxs@, b_idxs@, m));
        assert forall|i: int| 0 <= i < m.len() implies #[trigger] nats(cdf_a@)[i] == cdf_masses(
            a_idxs@,
            wa,
            m,
        )[i] && cdf_a[i] <= sa by {
            lemma_prefix_is_mass(
                permute(a_idxs@, a_ord@),
                permute(wa, a_ord@),
                m[i],
                cdf_idx_a[i] as int,
                a.len() as int,
            );
            lemma_mass_at_most_total(a_idxs@, wa, a.len() as int, m[i]);
        }
        assert forall|i: int| 0 <= i < m.len() implies #[trigger] nats(cdf_b@)[i] == cdf_masses(
            b_idxs@,
            wb,
            m,
        )[i] && cdf_b[i] <= sb by {
            lemma_prefix_is_mass(
                permute(b_idxs@, b_ord@),
                permute(wb, b_ord@),
                m[i],
                cdf_idx_b[i] as int,
                b.len() as int,
            );
            lemma_mass_at_most_total(b_idxs@, wb, b.len() as int, m[i]);
        }
        assert forall|i: int| 0 <= i < cdf_a.len() implies #[trigger] cdf_a[i] <= sa by {
            assert(nats(cdf_a@)[i] == cdf_masses(a_idxs@, wa, m)[i]);
        }
        assert forall|i: int| 0 <= i < cdf_b.len() implies #[trigger] cdf_b[i] <= sb by {
            assert(nats(cdf_b@)[i] == cdf_masses(b_idxs@, wb, m)[i]);
        }
        assert(nats(cdf_a@) =~= cdf_masses(a_idxs@, wa, m));
        assert(nats(cdf_b@) =~= cdf_masses(b_idxs@, wb, m));
    }
    let num = dist(&cdf_a, &cdf_b, sa, sb, &delta);
    proof {
        assert(0 < sa * sb <= 0xffff_ffff * 0xffff_ffff) by (nonlinear_arith)
            requires
                0 < sa <= 0xffff_ffff,
                0 < sb <= 0xffff_ffff,
        ;
    }
    let r = Ratio { num, den: (sa as u128) * (sb as u128) };
    proof {
        assert(r.num == wasserstein_num(wa, a_idxs@, wb, b_idxs@, m, delta@));
    }
    r
}

} // verus!
