//! Merge and gap computation: the merged support of two distributions and
//! the caller's distance between each pair of adjacent merged labels.

use vstd::prelude::*;
use crate::model::{count_le, gaps_of, lemma_mass_congruent, mass_prefix, ones, permute, sorted};
use crate::rank::indices_below;

verus! {

/// Number of labels at most `x` among the first `k` entries of `keys`.
pub open spec fn count_prefix(keys: Seq<i64>, k: int, x: i64) -> int {
    mass_prefix(keys, ones(keys.len()), k, x)
}

/// Appending a label adds one to the count below every bound it meets.
pub proof fn lemma_count_push(s: Seq<i64>, v: i64, x: i64)
    ensures
        count_le(s.push(v), x) == count_le(s, x) + if v <= x {
            1int
        } else {
            0
        },
{
    let t = s.push(v);
    lemma_mass_congruent(t, ones(t.len()), s, ones(s.len()), s.len() as int, x);
}

/// The labels of both distributions, each read in its rank order, merged
/// into one ascending sequence.
pub fn merge_ranked(la: &[i64], pa: &[usize], lb: &[i64], pb: &[usize]) -> (m: Vec<i64>)
    requires
        indices_below(pa@, la.len() as nat),
        indices_below(pb@, lb.len() as nat),
        sorted(permute(la@, pa@)),
        sorted(permute(lb@, pb@)),
    ensures
        m.len() == pa.len() + pb.len(),
        sorted(m@),
        forall|x: i64|
            #[trigger] count_le(m@, x) == count_le(permute(la@, pa@), x) + count_le(
                permute(lb@, pb@),
                x,
            ),
{
    let ghost ka = permute(la@, pa@);
    let ghost kb = permute(lb@, pb@);
    let na = pa.len();
    let nb = pb.len();
    let mut m: Vec<i64> = Vec::new();
    let mut i: usize = 0;
    let mut j: usize = 0;
    while i < na || j < nb
        invariant
            indices_below(pa@, la.len() as nat),
            indices_below(pb@, lb.len() as nat),
            ka == permute(la@, pa@),
            kb == permute(lb@, pb@),
            sorted(ka),
            sorted(kb),
            na == pa.len(),
            nb == pb.len(),
            i <= na,
            j <= nb,
            m.len() == i + j,
            sorted(m@),
            m.len() > 0 && i < na ==> m[m.len() - 1] <= ka[i as int],
            m.len() > 0 && j < nb ==> m[m.len() - 1] <= kb[j as int],
            forall|x: i64|
                #[trigger] count_le(m@, x) == count_prefix(ka, i as int, x) + count_prefix(
                    kb,
                    j as int,
                    x,
                ),
        decreases na + nb - i - j,
    {
        let ghost old_m = m@;
        if j == nb || (i < na && la[pa[i]] <= lb[pb[j]]) {
            let v = la[pa[i]];
            m.push(v);
            proof {
                assert(m@ == old_m.push(v));
                assert forall|x: i64|
                    #[trigger] count_le(m@, x) == count_prefix(ka, i + 1, x) + count_prefix(
                        kb,
                        j as int,
                        x,
                    ) by {
                    lemma_count_push(old_m, v, x);
                }
                if i + 1 < na {
                    assert(ka[i as int] <= ka[i + 1]);
                }
            }
            i = i + 1;
        } else {
            let v = lb[pb[j]];
            m.push(v);
            proof {
                assert(m@ == old_m.push(v));
                assert forall|x: i64|
                    #[trigger] count_le(m@, x) == count_prefix(ka, i as int, x) + count_prefix(
                        kb,
                        j + 1,
                        x,
                    ) by {
                    lemma_count_push(old_m, v, x);
                }
                if j + 1 < nb {
                    assert(kb[j as int] <= kb[j + 1]);
                }
            }
            j = j + 1;
        }
    }
    m
}

/// The distance `idx_dist(tmp[i], tmp[i + 1])` between each pair of adjacent
/// merged labels, the smaller label first.
pub fn gaps(tmp: &[i64], idx_dist: &impl Fn(i64, i64) -> u32) -> (delta: Vec<u32>)
    requires
        tmp.len() >= 1,
        sorted(tmp@),
        forall|l: i64, r: i64| l <= r ==> idx_dist.requires((l, r)),
    ensures
        gaps_of(idx_dist, tmp@, delta@),
{
    let mut delta: Vec<u32> = Vec::new();
    let mut i: usize = 0;
    while i + 1 < tmp.len()
        invariant
            tmp.len() >= 1,
            sorted(tmp@),
            forall|l: i64, r: i64| l <= r ==> idx_dist.requires((l, r)),
            i <= tmp.len() - 1,
            delta.len() == i,
            forall|s: int|
                0 <= s < i ==> idx_dist.ensures((tmp[s], tmp[s + 1]), #[trigger] delta[s]),
        decreases tmp.len() - i,
    {
        let d = idx_dist(tmp[i], tmp[i + 1]);
        delta.push(d);
        i = i + 1;
    }
    delta
}

} // verus!
