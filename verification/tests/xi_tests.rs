//! Tests for the coefficient itself: the verified reducer produces the
//! two exact integer sums, and the statistic is one division away.

use xicor::xi::xi_sums;

// Fractional tolerance for testing approximate equality of floats
const RTOL: f64 = 1e-8;

// Check whether 2 floating-point values are within the given fractional
// tolerance of eachother.
fn assert_req(left: f64, right: f64, rtol: f64) {
    let mean_size: f64 = (left.abs() + right.abs()) / 2.;
    let diff: f64 = (left - right).abs();

    if diff / mean_size > rtol {
        panic!(
            "assertion `left ~= right` failed\n\
            left: {left}\n\
            right: {right}"
        );
    }
}

// Order-preserving integer key for an f32 that is not NaN.
fn key_f32(v: f32) -> i64 {
    let b: u32 = v.to_bits();
    let k: u32 = if b & 0x8000_0000 != 0 { !b } else { b | 0x8000_0000 };
    k as i64
}

fn keys_f32(vals: &[f32]) -> Vec<i64> {
    vals.iter().map(|&v| key_f32(v)).collect()
}

// The statistic from the two verified integer sums.
fn xi_of(x: &[i64], y: &[i64]) -> f64 {
    assert!(x.len() == y.len(), "x and y must have the same length");
    let (rsum, lsum) = xi_sums(&x.to_vec(), &y.to_vec());
    let n: f64 = x.len() as f64;

    1. - n * (rsum as f64) / (2. * (lsum as f64))
}

fn xi_norm_of(x: &[i64], y: &[i64]) -> f64 {
    let n: f64 = x.len() as f64;
    let lim: f64 = (n - 2.) / (n + 1.);

    xi_of(x, y) / lim
}

fn xif_of(x: &[f32], y: &[f32]) -> f64 {
    xi_of(&keys_f32(x), &keys_f32(y))
}

fn xif_norm_of(x: &[f32], y: &[f32]) -> f64 {
    let n: f64 = x.len() as f64;
    let lim: f64 = (n - 2.) / (n + 1.);

    xif_of(x, y) / lim
}

#[test]
fn test_xicor() {
    let x: Vec<i64> = vec![1, 4, -9, -6, -5, -8, -1, 0, -4, -5];
    let y: Vec<i64> = vec![9, 8, 5, -10, 7, -6, -2, -8, 4, 3];

    assert_req(xi_of(&x, &y), 0.0909090909, RTOL);
}

#[test]
fn test_xicor_norm() {
    let x: Vec<i64> = vec![1, 4, -9, -6, -5, -8, -1, 0, -4, -5];
    let y: Vec<i64> = vec![9, 8, 5, -10, 7, -6, -2, -8, 4, 3];

    assert_req(xi_norm_of(&x, &y), 0.125, RTOL);
}

#[test]
fn test_xicorf() {
    let x: Vec<f32> = (0..1000).map(|i| i as f32 / 1000.).collect();
    let y: Vec<f32> = x.iter().map(|&x| (x * 12.566).sin()).collect();

    // There is strong correlation forwards, because y is a function of x
    assert_req(xif_of(&x, &y), 0.9880330596, RTOL);

    // There is only very weak correlation backwards, because x is not a
    // function of y - this is a one-to-many relationship
    assert_req(xif_of(&y, &x), 0.0609930609, RTOL);
}

#[test]
fn test_xicorf_norm() {
    let x: Vec<f32> = (0..1000).map(|i| i as f32 / 1000.).collect();
    let y: Vec<f32> = x.iter().map(|&x| (x * 12.566).sin()).collect();

    assert_req(xif_norm_of(&x, &y), 0.9910030989, RTOL);
}

#[test]
fn monotone_float_reaches_ceiling_exactly() {
    let x: Vec<f32> = (0..47).map(|i| i as f32).collect();
    let y: Vec<f32> = x.iter().map(|&x| x * x).collect();

    // (n - 2) / (n + 1) = 45 / 48 for n = 47, and exactly 1 normalized
    assert_eq!(xif_of(&x, &y), 0.9375);
    assert_eq!(xif_norm_of(&x, &y), 1.0);
}

#[test]
fn decreasing_monotone_reaches_ceiling() {
    let x: Vec<i64> = (0..47).collect();
    let y: Vec<i64> = x.iter().map(|&v| -3 * v).collect();

    assert_eq!(xi_of(&x, &y), 0.9375);
    assert_eq!(xi_norm_of(&x, &y), 1.0);
}

#[test]
fn self_correlation_closed_form() {
    // for tie-free x, xi(x, x) is exactly (n - 2) / (n + 1)
    let x: Vec<i64> = vec![12, -3, 7, 0, 44, -20, 3, 9, -8, 21];
    let n: f64 = x.len() as f64;

    assert_req(xi_of(&x, &x), (n - 2.) / (n + 1.), RTOL);
}

#[test]
fn repeated_calls_are_bit_identical() {
    let x: Vec<i64> = vec![1, 4, -9, -6, -5, -8, -1, 0, -4, -5];
    let y: Vec<i64> = vec![9, 8, 5, -10, 7, -6, -2, -8, 4, 3];

    let first = xi_sums(&x, &y);
    let second = xi_sums(&x, &y);
    assert_eq!(first, second);
    assert_eq!(xi_of(&x, &y).to_bits(), xi_of(&x, &y).to_bits());
}

#[test]
fn concrete_sums_of_the_regression_fixture() {
    let x: Vec<i64> = vec![1, 4, -9, -6, -5, -8, -1, 0, -4, -5];
    let y: Vec<i64> = vec![9, 8, 5, -10, 7, -6, -2, -8, 4, 3];

    // xi = 1 - 10 * 30 / (2 * 165) = 1/11
    assert_eq!(xi_sums(&x, &y), (30, 165));
}

#[test]
fn all_tied_y_gives_zero_sums_and_nan() {
    let x: Vec<i64> = vec![1, 2, 3, 4];
    let y: Vec<i64> = vec![7, 7, 7, 7];

    assert_eq!(xi_sums(&x, &y), (0, 0));
    assert!(xi_of(&x, &y).is_nan());
}

#[test]
fn empty_and_singleton_inputs_are_degenerate() {
    let empty: Vec<i64> = vec![];
    let one: Vec<i64> = vec![5];

    assert_eq!(xi_sums(&empty, &empty), (0, 0));
    assert_eq!(xi_sums(&one, &one), (0, 0));
    assert!(xi_of(&one, &one).is_nan());
}
