use wasserstein::cdf::{compute_cdf, search_sorted};
use wasserstein::distance::{dist, total_weight};
use wasserstein::merge::{gaps, merge_ranked};
use wasserstein::rank::rank_order;
use wasserstein::{wasserstein, Ratio};

fn value(r: Ratio) -> f64 {
    r.num as f64 / r.den as f64
}

fn categorical(l: i64, r: i64) -> u32 {
    if l == r {
        0
    } else {
        1
    }
}

#[test]
fn test_wasserstein() {
    // Four equal weights (a quarter each once normalised).
    let w = wasserstein(&[1; 4], &[0, 1, 2, 3], &[1; 4], &[0, 1, 2, 3], |l: i64, r: i64| {
        (r - l) as u32
    });
    assert_eq!(value(w), 0.);

    let w = wasserstein(&[1], &[0], &[1], &[1], |l: i64, r: i64| (r - l) as u32);
    assert_eq!(value(w), 1.);

    let w = wasserstein(
        &[3, 1, 1, 1],
        &[0, 1, 2, 3],
        &[4, 1, 1, 1],
        &[0, 2, 3, 5],
        |l: i64, r: i64| (r - l) as u32,
    );
    assert!((value(w) - 0.571428).abs() < 1e-3, "{}", value(w));
}

#[test]
fn test_binary_wasserstein_distance() {
    let w = wasserstein(&[1], &[0], &[1], &[100], categorical);
    assert_eq!(value(w), 1.);

    let w = wasserstein(&[7], &[0], &[7], &[100], categorical);
    assert_eq!(value(w), 1.);
}

#[test]
fn exact_fraction_of_unequal_distributions() {
    let w = wasserstein(
        &[3, 1, 1, 1],
        &[0, 1, 2, 3],
        &[4, 1, 1, 1],
        &[0, 2, 3, 5],
        |l: i64, r: i64| (r - l) as u32,
    );
    assert_eq!(w, Ratio { num: 24, den: 42 });
}

#[test]
fn identity_with_nonzero_self_distance() {
    let w = wasserstein(&[2, 5, 1], &[4, -3, 9], &[2, 5, 1], &[4, -3, 9], |_l: i64, _r: i64| 7);
    assert_eq!(w.num, 0);
    assert_eq!(w.den, 64);
}

#[test]
fn symmetric_in_the_two_distributions() {
    let d = |l: i64, r: i64| (r - l) as u32;
    let ab = wasserstein(&[3, 1, 1, 1], &[0, 1, 2, 3], &[4, 1, 1, 1], &[0, 2, 3, 5], d);
    let ba = wasserstein(&[4, 1, 1, 1], &[0, 2, 3, 5], &[3, 1, 1, 1], &[0, 1, 2, 3], d);
    assert_eq!(ab, ba);
}

#[test]
fn scaling_weights_keeps_the_distance() {
    let d = |l: i64, r: i64| (r - l) as u32;
    let w1 = wasserstein(&[3, 1, 1, 1], &[0, 1, 2, 3], &[4, 1, 1, 1], &[0, 2, 3, 5], d);
    let w5 = wasserstein(&[15, 5, 5, 5], &[0, 1, 2, 3], &[4, 1, 1, 1], &[0, 2, 3, 5], d);
    assert_eq!(w5, Ratio { num: 120, den: 210 });
    assert_eq!(w1.num * w5.den, w5.num * w1.den);
}

#[test]
fn never_negative() {
    let w = wasserstein(&[1, 2], &[5, 1], &[3], &[2], |l: i64, r: i64| (r - l) as u32);
    // Masses: a has 2 at 1 and 1 at 5; b has 3 at 2. Merged 1, 2, 5, gaps 1, 3.
    // At 1: |2 * 3 - 0 * 3| = 6; at 2: |2 * 3 - 3 * 3| = 3. 6 * 1 + 3 * 3 = 15.
    assert_eq!(w, Ratio { num: 15, den: 9 });
    assert!(value(w) >= 0.);
}

#[test]
fn shared_labels_count_inclusively() {
    // Both distributions sit wholly at label 2: the CDFs agree everywhere.
    let w = wasserstein(&[1], &[2], &[4], &[2], |l: i64, r: i64| (r - l) as u32 + 10);
    assert_eq!(w.num, 0);
}

#[test]
fn unsorted_labels_with_zero_weight() {
    let w = wasserstein(&[0, 1], &[10, 0], &[1], &[10], |l: i64, r: i64| (r - l) as u32);
    assert_eq!(w, Ratio { num: 10, den: 1 });
}

#[test]
fn ranks_order_labels() {
    assert_eq!(rank_order(&[5, -1, 3, -1]), vec![1, 3, 2, 0]);
    assert_eq!(rank_order(&[]), Vec::<usize>::new());
}

#[test]
fn search_is_right_continuous() {
    let v = [3, 1, 2];
    let ord = [1, 2, 0];
    assert_eq!(search_sorted(&v, &ord, &[0, 1, 2, 3, 4]), vec![0, 1, 2, 3, 3]);
}

#[test]
fn cdf_sums_ranked_weights() {
    let w = [5, 7, 11];
    let ord = [1, 2, 0];
    assert_eq!(compute_cdf(&w, &ord, &[0, 1, 2, 3, 3]), vec![0, 7, 18, 23, 23]);
}

#[test]
fn merge_keeps_duplicates() {
    let la = [3, 0, 2];
    let lb = [2, 5];
    assert_eq!(merge_ranked(&la, &[1, 2, 0], &lb, &[0, 1]), vec![0, 2, 2, 3, 5]);
}

#[test]
fn gaps_take_the_smaller_label_first() {
    let d = |l: i64, r: i64| (r - l) as u32;
    assert_eq!(gaps(&[0, 2, 2, 3, 5], &d), vec![2, 0, 1, 2]);
    assert_eq!(gaps(&[4], &d), Vec::<u32>::new());
}

#[test]
fn integration_sums_weighted_differences() {
    // |1*4 - 2*2| * 3 + |2*4 - 1*2| * 5 = 0 + 30.
    assert_eq!(dist(&[1, 2, 2], &[2, 1, 4], 2, 4, &[3, 5]), 30);
}

#[test]
fn total_weight_adds_all() {
    assert_eq!(total_weight(&[4, 0, 9]), 13);
    assert_eq!(total_weight(&[u32::MAX, u32::MAX]), 2 * u32::MAX as u64);
}

#[test]
fn distance_gets_the_smaller_label_first() {
    let d = |l: i64, r: i64| if l < r { 2 } else { 1 };
    let w = wasserstein(&[1], &[0], &[1], &[1], d);
    assert_eq!(w, Ratio { num: 2, den: 1 });
}

#[test]
fn ranks_order_a_longer_sequence() {
    let labels = [9, 3, 7, 3, -2, 8, 0, 5, 1];
    let p = rank_order(&labels);
    let keys: Vec<i64> = p.iter().map(|&i| labels[i]).collect();
    assert_eq!(keys, vec![-2, 0, 1, 3, 3, 5, 7, 8, 9]);
    let mut seen = p.clone();
    seen.sort();
    assert_eq!(seen, (0..9).collect::<Vec<usize>>());
}

#[test]
fn search_over_repeated_labels() {
    let v = [2, 2, 1, 2, 4];
    let ord = rank_order(&v);
    assert_eq!(search_sorted(&v, &ord, &[0, 1, 2, 3, 4, 5]), vec![0, 1, 4, 4, 5, 5]);
}
