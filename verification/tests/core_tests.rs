//! Tests for the order-index builder, the permutation applier and the
//! tie-aware rank counters.

use xicor::counts::{cumulative_gte, cumulative_lte};
use xicor::order::{argsort, permute};

// Order-preserving integer key for an f64 that is not NaN: flip the
// bits of negative values and set the sign bit of the others, then
// recenter the unsigned result onto the signed range.
fn key_f64(v: f64) -> i64 {
    let b: u64 = v.to_bits();
    let k: u64 = if b & 0x8000_0000_0000_0000 != 0 { !b } else { b | 0x8000_0000_0000_0000 };
    (k ^ 0x8000_0000_0000_0000) as i64
}

fn keys_f64(vals: &[f64]) -> Vec<i64> {
    vals.iter().map(|&v| key_f64(v)).collect()
}

#[test]
fn test_argsort() {
    let arr: Vec<i64> = vec![2, -2, -9, 8, 4, 1, 6, -3];
    let idcs: Vec<usize> = vec![2, 7, 1, 5, 0, 4, 6, 3];

    assert_eq!(argsort(&arr), idcs);
}

#[test]
fn test_permute() {
    let arr: Vec<i64> = vec![2, -2, -9, 8, 4, 1, 6, -3];
    let idcs: Vec<usize> = vec![2, 7, 1, 5, 0, 4, 6, 3];
    let permuted: Vec<i64> = vec![-9, -3, -2, 1, 2, 4, 6, 8];

    assert_eq!(permute(&arr, &idcs), permuted);
}

#[test]
fn test_cumulative_lte() {
    let arr = keys_f64(&[1.1, 1.1, 2.5, 2.5, 2.5, 3., 8., 19., 19., 51.7, 51.7]);
    let counts: Vec<usize> = vec![2, 2, 5, 5, 5, 6, 7, 9, 9, 11, 11];

    assert_eq!(cumulative_lte(&arr), counts);
}

#[test]
fn test_cumulative_gte() {
    let arr = keys_f64(&[1.1, 1.1, 2.5, 2.5, 2.5, 3., 8., 19., 19., 51.7, 100.]);
    let counts: Vec<usize> = vec![11, 11, 9, 9, 9, 6, 5, 4, 4, 2, 1];

    assert_eq!(cumulative_gte(&arr), counts);
}

#[test]
fn argsort_breaks_ties_by_position() {
    let arr: Vec<i64> = vec![5, 1, 5, 1];

    assert_eq!(argsort(&arr), vec![1, 3, 0, 2]);
}

#[test]
fn argsort_then_permute_sorts() {
    let arr: Vec<i64> = vec![3, -1, 3, 0, -7, 0, 12, -1];
    let sorted = permute(&arr, &argsort(&arr));

    for w in sorted.windows(2) {
        assert!(w[0] <= w[1]);
    }
    assert_eq!(sorted, vec![-7, -1, -1, 0, 0, 3, 3, 12]);
}

#[test]
fn tie_group_shares_boundary_ranks() {
    // tie group at positions 1..=3 of a sorted sequence of length 5:
    // every member counts 4 elements <= it and 4 elements >= it
    let arr: Vec<i64> = vec![1, 2, 2, 2, 3];

    assert_eq!(cumulative_lte(&arr), vec![1, 4, 4, 4, 5]);
    assert_eq!(cumulative_gte(&arr), vec![5, 4, 4, 4, 1]);
}

#[test]
fn whole_sequence_counts_ignore_order() {
    // count_lte_all / count_gte_all count over the whole sequence, so
    // any reordering gives the same counts
    let arr: Vec<i64> = vec![4, -2, 4, 0, 9];
    let rev: Vec<i64> = vec![9, 0, 4, -2, 4];

    assert_eq!(xicor::counts::count_lte_all(&arr, 4), 4);
    assert_eq!(xicor::counts::count_lte_all(&rev, 4), 4);
    assert_eq!(xicor::counts::count_gte_all(&arr, 0), 4);
    assert_eq!(xicor::counts::count_gte_all(&rev, 0), 4);
}

#[test]
fn counters_on_empty_and_singleton() {
    let empty: Vec<i64> = vec![];
    let one: Vec<i64> = vec![7];

    assert_eq!(cumulative_lte(&empty), Vec::<usize>::new());
    assert_eq!(cumulative_gte(&empty), Vec::<usize>::new());
    assert_eq!(cumulative_lte(&one), vec![1]);
    assert_eq!(cumulative_gte(&one), vec![1]);
}
