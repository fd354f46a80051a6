//! Rank computation: the permutation that orders a distribution's labels.

use vstd::prelude::*;
use vstd::slice::slice_subrange;
use crate::model::{lemma_mass_congruent, mass_le, permute, sorted};

verus! {

/// A permutation index sequence: each index is in range for length `n`.
pub open spec fn indices_below(p: Seq<usize>, n: nat) -> bool {
    forall|r: int| 0 <= r < p.len() ==> #[trigger] p[r] < n
}

/// Weight at or below `x` of the entries that the indices `idx` select.
pub open spec fn ranked_mass(labels: Seq<i64>, w: Seq<int>, idx: Seq<usize>, x: i64) -> int {
    mass_le(permute(labels, idx), permute(w, idx), x)
}

/// Every cumulative mass over `labels` is unchanged by reading the entries
/// in the order `p`.
pub open spec fn keeps_masses(labels: Seq<i64>, p: Seq<usize>) -> bool {
    forall|w: Seq<int>, x: i64|
        w.len() == labels.len() ==> ranked_mass(labels, w, p, x) == #[trigger] mass_le(
            labels,
            w,
            x,
        )
}

/// Selecting one more index adds that entry's contribution.
pub proof fn lemma_ranked_push(labels: Seq<i64>, w: Seq<int>, idx: Seq<usize>, v: usize, x: i64)
    ensures
        ranked_mass(labels, w, idx.push(v), x) == ranked_mass(labels, w, idx, x) + if labels[v as int]
            <= x {
            w[v as int]
        } else {
            0
        },
{
    let q = idx.push(v);
    lemma_mass_congruent(
        permute(labels, q),
        permute(w, q),
        permute(labels, idx),
        permute(w, idx),
        idx.len() as int,
        x,
    );
}

/// The mass selected by two index sequences one after the other is the sum
/// of the two.
pub proof fn lemma_ranked_concat(labels: Seq<i64>, w: Seq<int>, s1: Seq<usize>, s2: Seq<usize>, x: i64)
    ensures
        ranked_mass(labels, w, s1 + s2, x) == ranked_mass(labels, w, s1, x) + ranked_mass(
            labels,
            w,
            s2,
            x,
        ),
    decreases s2.len(),
{
    if s2.len() == 0 {
        assert(s1 + s2 =~= s1);
    } else {
        let s = s2.drop_last();
        let v = s2.last();
        lemma_ranked_concat(labels, w, s1, s, x);
        assert(s1 + s2 =~= (s1 + s).push(v));
        assert(s2 =~= s.push(v));
        lemma_ranked_push(labels, w, s1 + s, v, x);
        lemma_ranked_push(labels, w, s, v, x);
    }
}

/// Appending a label no smaller than the last keeps a sequence sorted.
pub proof fn lemma_sorted_push(s: Seq<i64>, v: i64)
    requires
        sorted(s),
        s.len() > 0 ==> s[s.len() - 1] <= v,
    ensures
        sorted(s.push(v)),
{
    assert forall|a: int, b: int| 0 <= a <= b < s.len() + 1 implies #[trigger] s.push(v)[a]
        <= #[trigger] s.push(v)[b] by {
        if b == s.len() && a < b {
            assert(s[a] <= s[s.len() - 1]);
        }
    }
}

/// Merges two index sequences whose labels ascend into one whose labels
/// ascend, selecting the same masses.
fn merge_ranks(labels: &[i64], left: &[usize], right: &[usize]) -> (out: Vec<usize>)
    requires
        indices_below(left@, labels.len() as nat),
        indices_below(right@, labels.len() as nat),
        sorted(permute(labels@, left@)),
        sorted(permute(labels@, right@)),
    ensures
        out.len() == left.len() + right.len(),
        indices_below(out@, labels.len() as nat),
        sorted(permute(labels@, out@)),
        forall|w: Seq<int>, x: i64|
            #[trigger] ranked_mass(labels@, w, out@, x) == ranked_mass(labels@, w, left@, x)
                + ranked_mass(labels@, w, right@, x),
{
    let ghost kl = permute(labels@, left@);
    let ghost kr = permute(labels@, right@);
    let nl = left.len();
    let nr = right.len();
    let mut out: Vec<usize> = Vec::new();
    let mut i: usize = 0;
    let mut j: usize = 0;
    while i < nl || j < nr
        invariant
            indices_below(left@, labels.len() as nat),
            indices_below(right@, labels.len() as nat),
            kl == permute(labels@, left@),
            kr == permute(labels@, right@),
            sorted(kl),
            sorted(kr),
            nl == left.len(),
            nr == right.len(),
            i <= nl,
            j <= nr,
            out.len() == i + j,
            indices_below(out@, labels.len() as nat),
            sorted(permute(labels@, out@)),
            out.len() > 0 && i < nl ==> labels[out[out.len() - 1] as int] <= kl[i as int],
            out.len() > 0 && j < nr ==> labels[out[out.len() - 1] as int] <= kr[j as int],
            forall|w: Seq<int>, x: i64|
                #[trigger] ranked_mass(labels@, w, out@, x) == ranked_mass(
                    labels@,
                    w,
                    left@.subrange(0, i as int),
                    x,
                ) + ranked_mass(labels@, w, right@.subrange(0, j as int), x),
        decreases nl + nr - i - j,
    {
        let ghost old_out = out@;
        if j == nr || (i < nl && labels[left[i]] <= labels[right[j]]) {
            let v = left[i];
            out.push(v);
            proof {
                assert(out@ == old_out.push(v));
                assert(left@.subrange(0, i + 1) =~= left@.subrange(0, i as int).push(v));
                assert forall|w: Seq<int>, x: i64|
                    #[trigger] ranked_mass(labels@, w, out@, x) == ranked_mass(
                        labels@,
                        w,
                        left@.subrange(0, i + 1),
                        x,
                    ) + ranked_mass(labels@, w, right@.subrange(0, j as int), x) by {
                    lemma_ranked_push(labels@, w, old_out, v, x);
                    lemma_ranked_push(labels@, w, left@.subrange(0, i as int), v, x);
                }
                if i + 1 < nl {
                    assert(kl[i as int] <= kl[i + 1]);
                }
                assert(permute(labels@, out@) =~= permute(labels@, old_out).push(labels[v as int]));
                lemma_sorted_push(permute(labels@, old_out), labels[v as int]);
            }
            i = i + 1;
        } else {
            let v = right[j];
            out.push(v);
            proof {
                assert(out@ == old_out.push(v));
                assert(right@.subrange(0, j + 1) =~= right@.subrange(0, j as int).push(v));
                assert forall|w: Seq<int>, x: i64|
                    #[trigger] ranked_mass(labels@, w, out@, x) == ranked_mass(
                        labels@,
                        w,
                        left@.subrange(0, i as int),
                        x,
                    ) + ranked_mass(labels@, w, right@.subrange(0, j + 1), x) by {
                    lemma_ranked_push(labels@, w, old_out, v, x);
                    lemma_ranked_push(labels@, w, right@.subrange(0, j as int), v, x);
                }
                if j + 1 < nr {
                    assert(kr[j as int] <= kr[j + 1]);
                }
                assert(permute(labels@, out@) =~= permute(labels@, old_out).push(labels[v as int]));
                lemma_sorted_push(permute(labels@, old_out), labels[v as int]);
            }
            j = j + 1;
        }
    }
    proof {
        assert(left@.subrange(0, nl as int) =~= left@);
        assert(right@.subrange(0, nr as int) =~= right@);
    }
    out
}

/// The indices `idx` reordered by merge sort so that their labels ascend,
/// selecting the same masses.
fn sort_ranks(labels: &[i64], idx: &[usize]) -> (out: Vec<usize>)
    requires
        indices_below(idx@, labels.len() as nat),
    ensures
        out.len() == idx.len(),
        indices_below(out@, labels.len() as nat),
        sorted(permute(labels@, out@)),
        forall|w: Seq<int>, x: i64|
            #[trigger] ranked_mass(labels@, w, out@, x) == ranked_mass(labels@, w, idx@, x),
    decreases idx.len(),
{
    if idx.len() <= 1 {
        let mut out: Vec<usize> = Vec::new();
        if idx.len() == 1 {
            out.push(idx[0]);
        }
        assert(out@ =~= idx@);
        return out;
    }
    let mid = idx.len() / 2;
    let lo = slice_subrange(idx, 0, mid);
    let hi = slice_subrange(idx, mid, idx.len());
    let left = sort_ranks(labels, lo);
    let right = sort_ranks(labels, hi);
    let out = merge_ranks(labels, left.as_slice(), right.as_slice());
    proof {
        assert forall|w: Seq<int>, x: i64|
            #[trigger] ranked_mass(labels@, w, out@, x) == ranked_mass(labels@, w, idx@, x) by {
            assert(idx@ =~= lo@ + hi@);
            lemma_ranked_concat(labels@, w, lo@, hi@, x);
            assert(ranked_mass(labels@, w, left@, x) == ranked_mass(labels@, w, lo@, x));
            assert(ranked_mass(labels@, w, right@, x) == ranked_mass(labels@, w, hi@, x));
        }
    }
    out
}

/// The indices `0..labels.len()` ordered so that their labels ascend.
pub fn rank_order(labels: &[i64]) -> (p: Vec<usize>)
    ensures
        p.len() == labels.len(),
        indices_below(p@, labels.len() as nat),
        sorted(permute(labels@, p@)),
        keeps_masses(labels@, p@),
{
    let n = labels.len();
    let mut ident: Vec<usize> = Vec::new();
    let mut i: usize = 0;
    while i < n
        invariant
            i <= n,
            n == labels.len(),
            ident@ == Seq::new(i as nat, |r: int| r as usize),
        decreases n - i,
    {
        ident.push(i);
        i = i + 1;
    }
    let p = sort_ranks(labels, ident.as_slice());
    proof {
        assert forall|w: Seq<int>, x: i64| w.len() == labels@.len() implies ranked_mass(
            labels@,
            w,
            p@,
            x,
        ) == #[trigger] mass_le(labels@, w, x) by {
            assert(ranked_mass(labels@, w, p@, x) == ranked_mass(labels@, w, ident@, x));
            assert(permute(labels@, ident@) =~= labels@);
            assert(permute(w, ident@) =~= w);
        }
    }
    p
}

} // verus!
