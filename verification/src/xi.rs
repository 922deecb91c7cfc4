//! Coefficient reducer: the two integer sums behind the xi statistic.
//!
//! For inputs `x`, `y` of length `n`, let `yp` be `y` reordered into
//! `x`-ascending order. The R-rank of position `i` is the number of
//! elements of `yp` that are `<= yp[i]` and the L-rank the number that
//! are `>= yp[i]`. The statistic is
//! `xi = 1 - n * rsum / (2 * lsum)` where
//! `rsum = sum |R(i) - R(i+1)|` over consecutive positions and
//! `lsum = sum L(i) * (n - L(i))`. Both sums are exact integers; only
//! the final division leaves the integers, so `xi_sums` returns the two
//! sums and a caller performs that one division.

use vstd::prelude::*;

use crate::counts::{count_gte, count_lte, count_gte_all, count_lte_all};
use crate::counts::{lemma_count_gte_le_len, lemma_count_lte_le_len};
use crate::counts::{lemma_count_gte_boundary, lemma_count_lte_boundary};
use crate::counts::{lemma_count_gte_boundary_rev, lemma_count_lte_boundary_rev};
use crate::order::{apply_perm, argsort, is_stable_argsort, permute, stable_argsort_of};
use crate::order::{lex_lt, strictly_decreasing, strictly_sorted, tie_free};

verus! {

/// Largest accepted input length: keeps every intermediate sum inside
/// the `u128` accumulators with room to spare.
pub const MAX_LEN: usize = 0x4000_0000;

/// |a - b| over naturals.
pub open spec fn abs_diff(a: nat, b: nat) -> nat {
    if a >= b {
        (a - b) as nat
    } else {
        (b - a) as nat
    }
}

/// R-rank of position `i`: how many elements of `yp` are `<= yp[i]`.
pub open spec fn r_rank(yp: Seq<i64>, i: int) -> nat {
    count_lte(yp, yp[i])
}

/// L-rank of position `i`: how many elements of `yp` are `>= yp[i]`.
pub open spec fn l_rank(yp: Seq<i64>, i: int) -> nat {
    count_gte(yp, yp[i])
}

/// Sum of `|R(i-1) - R(i)|` over `i` in `1 .. k`.
pub open spec fn rsum_upto(yp: Seq<i64>, k: int) -> nat
    decreases k,
{
    if k <= 1 {
        0
    } else {
        rsum_upto(yp, k - 1) + abs_diff(r_rank(yp, k - 2), r_rank(yp, k - 1))
    }
}

/// Sum of absolute differences of consecutive R-ranks of `yp`.
pub open spec fn rsum_of(yp: Seq<i64>) -> nat {
    rsum_upto(yp, yp.len() as int)
}

/// Sum of `L(i) * (n - L(i))` over `i` in `0 .. k`.
pub open spec fn lsum_upto(yp: Seq<i64>, k: int) -> int
    decreases k,
{
    if k <= 0 {
        0
    } else {
        lsum_upto(yp, k - 1) + l_rank(yp, k - 1) * (yp.len() - l_rank(yp, k - 1))
    }
}

/// Sum of `L(i) * (n - L(i))` over all of `yp`.
pub open spec fn lsum_of(yp: Seq<i64>) -> int {
    lsum_upto(yp, yp.len() as int)
}

/// `y` reordered into `x`-ascending order by the stable argsort of `x`.
pub open spec fn y_in_x_order(x: Seq<i64>, y: Seq<i64>) -> Seq<i64> {
    apply_perm(y, stable_argsort_of(x))
}

proof fn lemma_rsum_upto_bound(yp: Seq<i64>, k: int)
    requires
        0 <= k <= yp.len(),
    ensures
        rsum_upto(yp, k) <= k * yp.len(),
    decreases k,
{
    let n = yp.len() as int;
    if k <= 1 {
        assert(k * n >= 0) by (nonlinear_arith)
            requires k >= 0 && n >= 0;
    } else {
        lemma_rsum_upto_bound(yp, k - 1);
        lemma_count_lte_le_len(yp, yp[k - 2]);
        lemma_count_lte_le_len(yp, yp[k - 1]);
        assert((k - 1) * n + n == k * n) by (nonlinear_arith);
    }
}

proof fn lemma_lsum_upto_bounds(yp: Seq<i64>, k: int)
    requires
        0 <= k <= yp.len(),
    ensures
        0 <= lsum_upto(yp, k),
        lsum_upto(yp, k) <= k * yp.len() * yp.len(),
    decreases k,
{
    let n = yp.len() as int;
    if k <= 0 {
    } else {
        lemma_lsum_upto_bounds(yp, k - 1);
        lemma_count_gte_le_len(yp, yp[k - 1]);
        let l = l_rank(yp, k - 1) as int;
        assert(0 <= l * (n - l) && l * (n - l) <= n * n) by (nonlinear_arith)
            requires 0 <= l <= n;
        assert((k - 1) * n * n + n * n == k * n * n) by (nonlinear_arith);
    }
}

/// The two exact integer sums of the xi statistic for `x`, `y`: the
/// result is `(rsum, lsum)` for `y` taken in `x`-ascending order, and
/// `xi = 1 - n * rsum / (2 * lsum)`. Both components are functions of
/// the inputs alone: the stable argsort of `x` is unique, so repeated
/// calls on equal inputs return equal sums.
pub fn xi_sums(x: &Vec<i64>, y: &Vec<i64>) -> (sums: (u128, u128))
    requires
        x@.len() == y@.len(),
        x@.len() <= MAX_LEN,
    ensures
        is_stable_argsort(x@, stable_argsort_of(x@)),
        sums.0 as nat == rsum_of(y_in_x_order(x@, y@)),
        sums.1 as int == lsum_of(y_in_x_order(x@, y@)),
{
    let idcs = argsort(x);
    let yp = permute(y, &idcs);
    proof {
        assert(yp@ == y_in_x_order(x@, y@));
    }
    let n = yp.len();

    let mut rsum: u128 = 0;
    if n > 1 {
        let mut prev: usize = count_lte_all(&yp, yp[0]);
        let mut i: usize = 1;
        while i < n
            invariant
                n == yp@.len(),
                n <= MAX_LEN,
                1 <= i <= n,
                prev as nat == r_rank(yp@, i - 1),
                rsum as nat == rsum_upto(yp@, i as int),
            decreases n - i,
        {
            let cur = count_lte_all(&yp, yp[i]);
            let d = if prev >= cur {
                prev - cur
            } else {
                cur - prev
            };
            proof {
                lemma_rsum_upto_bound(yp@, i as int);
                assert((i as int) * (n as int) <= MAX_LEN * MAX_LEN) by (nonlinear_arith)
                    requires 0 <= i as int <= n as int && n as int <= MAX_LEN;
                assert(rsum <= MAX_LEN * MAX_LEN);
                assert(d as nat == abs_diff(r_rank(yp@, i - 1), r_rank(yp@, i as int)));
            }
            rsum = rsum + d as u128;
            prev = cur;
            i += 1;
        }
    }
    proof {
        assert(rsum as nat == rsum_upto(yp@, n as int));
    }

    let mut lsum: u128 = 0;
    let mut i2: usize = 0;
    while i2 < n
        invariant
            n == yp@.len(),
            n <= MAX_LEN,
            i2 <= n,
            lsum as int == lsum_upto(yp@, i2 as int),
        decreases n - i2,
    {
        let l = count_gte_all(&yp, yp[i2]);
        proof {
            assert((l as int) * ((n - l) as int) <= MAX_LEN * MAX_LEN) by (nonlinear_arith)
                requires 0 <= l as int && 0 <= (n - l) as int && l as int <= MAX_LEN
                    && (n - l) as int <= MAX_LEN;
            lemma_lsum_upto_bounds(yp@, i2 as int);
            assert((i2 as int) * (n as int) * (n as int) <= MAX_LEN * MAX_LEN * MAX_LEN)
                by (nonlinear_arith)
                requires 0 <= i2 as int <= n as int && n as int <= MAX_LEN;
            assert(lsum <= MAX_LEN * MAX_LEN * MAX_LEN);
        }
        let term = (l as u128) * ((n - l) as u128);
        lsum = lsum + term;
        i2 += 1;
    }
    proof {
        assert(lsum as int == lsum_of(y_in_x_order(x@, y@)));
    }

    (rsum, lsum)
}

proof fn lemma_strict_ranks(s: Seq<i64>, i: int)
    requires
        strictly_sorted(s),
        0 <= i < s.len(),
    ensures
        r_rank(s, i) == i + 1,
        l_rank(s, i) == s.len() - i,
{
    lemma_count_lte_boundary(s, s[i], i + 1);
    lemma_count_gte_boundary(s, s[i], i);
}

proof fn lemma_strict_dec_ranks(s: Seq<i64>, i: int)
    requires
        strictly_decreasing(s),
        0 <= i < s.len(),
    ensures
        r_rank(s, i) == s.len() - i,
        l_rank(s, i) == i + 1,
{
    lemma_count_lte_boundary_rev(s, s[i], i);
    lemma_count_gte_boundary_rev(s, s[i], i + 1);
}

proof fn lemma_strict_rsum(s: Seq<i64>, k: int)
    requires
        strictly_sorted(s) || strictly_decreasing(s),
        1 <= k <= s.len(),
    ensures
        rsum_upto(s, k) == k - 1,
    decreases k,
{
    if k > 1 {
        lemma_strict_rsum(s, k - 1);
        if strictly_sorted(s) {
            lemma_strict_ranks(s, k - 2);
            lemma_strict_ranks(s, k - 1);
        } else {
            lemma_strict_dec_ranks(s, k - 2);
            lemma_strict_dec_ranks(s, k - 1);
        }
    }
}

proof fn lemma_strict_lsum(s: Seq<i64>, k: int)
    requires
        strictly_sorted(s),
        0 <= k <= s.len(),
    ensures
        6 * lsum_upto(s, k) == 3 * (s.len() as int) * k * (k - 1) - k * (k - 1) * (2 * k - 1),
    decreases k,
{
    let n = s.len() as int;
    if k > 0 {
        lemma_strict_lsum(s, k - 1);
        lemma_strict_ranks(s, k - 1);
        assert(lsum_upto(s, k) == lsum_upto(s, k - 1) + (n - (k - 1)) * (k - 1));
        assert(6 * lsum_upto(s, k) == 3 * n * k * (k - 1) - k * (k - 1) * (2 * k - 1))
            by (nonlinear_arith)
            requires
                6 * lsum_upto(s, k - 1) == 3 * n * (k - 1) * (k - 2) - (k - 1) * (k - 2) * (2 * (k
                    - 1) - 1),
                lsum_upto(s, k) == lsum_upto(s, k - 1) + (n - (k - 1)) * (k - 1);
    } else {
        assert(3 * n * k * (k - 1) - k * (k - 1) * (2 * k - 1) == 0) by (nonlinear_arith)
            requires k == 0;
    }
}

proof fn lemma_strict_dec_lsum(s: Seq<i64>, k: int)
    requires
        strictly_decreasing(s),
        0 <= k <= s.len(),
    ensures
        6 * lsum_upto(s, k) == 3 * (s.len() as int) * k * (k + 1) - k * (k + 1) * (2 * k + 1),
    decreases k,
{
    let n = s.len() as int;
    if k > 0 {
        lemma_strict_dec_lsum(s, k - 1);
        lemma_strict_dec_ranks(s, k - 1);
        assert(lsum_upto(s, k) == lsum_upto(s, k - 1) + k * (n - k));
        assert(6 * lsum_upto(s, k) == 3 * n * k * (k + 1) - k * (k + 1) * (2 * k + 1))
            by (nonlinear_arith)
            requires
                6 * lsum_upto(s, k - 1) == 3 * n * (k - 1) * k - (k - 1) * k * (2 * (k - 1) + 1),
                lsum_upto(s, k) == lsum_upto(s, k - 1) + k * (n - k);
    } else {
        assert(3 * n * k * (k + 1) - k * (k + 1) * (2 * k + 1) == 0) by (nonlinear_arith)
            requires k == 0;
    }
}

/// Normalization ceiling, increasing case: if `x` has no ties and `y`
/// is a strictly increasing function of `x`, the sums reach the
/// statistic's finite-sample maximum, `rsum == n - 1` and
/// `6 * lsum == (n-1) * n * (n+1)`. Hence
/// `xi = 1 - n * rsum / (2 * lsum) = 1 - 3/(n+1) = (n-2)/(n+1)`,
/// the ceiling, and the normalized coefficient is exactly 1.
pub proof fn lemma_normalization_ceiling(x: Seq<i64>, y: Seq<i64>, p: Seq<usize>)
    requires
        x.len() == y.len(),
        is_stable_argsort(x, p),
        tie_free(x),
        forall|i: int, j: int|
            0 <= i < x.len() && 0 <= j < x.len() && (#[trigger] x[i]) < (#[trigger] x[j])
                ==> y[i] < y[j],
    ensures
        x.len() >= 1 ==> rsum_of(apply_perm(y, p)) == x.len() - 1,
        6 * lsum_of(apply_perm(y, p)) == (x.len() - 1) * (x.len() as int) * (x.len() + 1),
{
    let yp = apply_perm(y, p);
    let n = x.len() as int;
    assert forall|k1: int, k2: int| 0 <= k1 < k2 < yp.len() implies yp[k1] < yp[k2] by {
        assert(lex_lt(x, p[k1], p[k2]));
        assert(x[p[k1] as int] < x[p[k2] as int]);
    }
    assert(strictly_sorted(yp));
    if x.len() >= 1 {
        lemma_strict_rsum(yp, n);
    }
    lemma_strict_lsum(yp, n);
    assert((n - 1) * n * (n + 1) == 3 * n * n * (n - 1) - n * (n - 1) * (2 * n - 1))
        by (nonlinear_arith);
}

/// Normalization ceiling, decreasing case: if `x` has no ties and `y`
/// is a strictly decreasing function of `x`, the sums are the same as
/// in the increasing case, so the normalized coefficient is again 1.
pub proof fn lemma_normalization_ceiling_decreasing(x: Seq<i64>, y: Seq<i64>, p: Seq<usize>)
    requires
        x.len() == y.len(),
        is_stable_argsort(x, p),
        tie_free(x),
        forall|i: int, j: int|
            0 <= i < x.len() && 0 <= j < x.len() && (#[trigger] x[i]) < (#[trigger] x[j])
                ==> y[i] > y[j],
    ensures
        x.len() >= 1 ==> rsum_of(apply_perm(y, p)) == x.len() - 1,
        6 * lsum_of(apply_perm(y, p)) == (x.len() - 1) * (x.len() as int) * (x.len() + 1),
{
    let yp = apply_perm(y, p);
    let n = x.len() as int;
    assert forall|k1: int, k2: int| 0 <= k1 < k2 < yp.len() implies yp[k1] > yp[k2] by {
        assert(lex_lt(x, p[k1], p[k2]));
        assert(x[p[k1] as int] < x[p[k2] as int]);
    }
    assert(strictly_decreasing(yp));
    if x.len() >= 1 {
        lemma_strict_rsum(yp, n);
    }
    lemma_strict_dec_lsum(yp, n);
    assert((n - 1) * n * (n + 1) == 3 * n * n * (n + 1) - n * (n + 1) * (2 * n + 1))
        by (nonlinear_arith);
}

/// Self-correlation: for tie-free `x`, correlating `x` with itself
/// reaches the ceiling, `rsum == n - 1` and `6 * lsum == (n-1) n (n+1)`,
/// so `xi(x, x) = 1 - 3/(n+1) = (n-2)/(n+1)` exactly.
pub proof fn lemma_self_correlation(x: Seq<i64>, p: Seq<usize>)
    requires
        is_stable_argsort(x, p),
        tie_free(x),
    ensures
        x.len() >= 1 ==> rsum_of(apply_perm(x, p)) == x.len() - 1,
        6 * lsum_of(apply_perm(x, p)) == (x.len() - 1) * (x.len() as int) * (x.len() + 1),
{
    lemma_normalization_ceiling(x, x, p);
}

} // verus!
