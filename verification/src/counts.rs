//! Tie-aware rank counters.
//!
//! For a sequence sorted ascending, `cumulative_lte` gives, for each
//! position, how many elements are less than or equal to it, and
//! `cumulative_gte` how many are greater than or equal to it. Every
//! member of a tie group shares one count: the group's rightmost rank
//! for the `<=` counts and its leftmost rank for the `>=` counts. That
//! asymmetry is deliberate: it is how the two rank statistics of the
//! coefficient are defined.

use vstd::prelude::*;

use crate::order::{apply_perm, is_perm, reaches, sorted};

verus! {

/// How many elements of `s` are `<= v`.
pub open spec fn count_lte(s: Seq<i64>, v: i64) -> nat
    decreases s.len(),
{
    if s.len() == 0 {
        0
    } else {
        count_lte(s.drop_last(), v) + if s.last() <= v {
            1nat
        } else {
            0nat
        }
    }
}

/// How many elements of `s` are `>= v`.
pub open spec fn count_gte(s: Seq<i64>, v: i64) -> nat
    decreases s.len(),
{
    if s.len() == 0 {
        0
    } else {
        count_gte(s.drop_last(), v) + if s.last() >= v {
            1nat
        } else {
            0nat
        }
    }
}

pub proof fn lemma_count_lte_le_len(s: Seq<i64>, v: i64)
    ensures
        count_lte(s, v) <= s.len(),
    decreases s.len(),
{
    if s.len() > 0 {
        lemma_count_lte_le_len(s.drop_last(), v);
    }
}

pub proof fn lemma_count_gte_le_len(s: Seq<i64>, v: i64)
    ensures
        count_gte(s, v) <= s.len(),
    decreases s.len(),
{
    if s.len() > 0 {
        lemma_count_gte_le_len(s.drop_last(), v);
    }
}

/// If everything before position `k` is `<= v` and everything from `k`
/// on is `> v`, then exactly `k` elements are `<= v`.
pub proof fn lemma_count_lte_boundary(s: Seq<i64>, v: i64, k: int)
    requires
        0 <= k <= s.len(),
        forall|j: int| 0 <= j < k ==> s[j] <= v,
        forall|j: int| k <= j < s.len() ==> s[j] > v,
    ensures
        count_lte(s, v) == k,
    decreases s.len(),
{
    if s.len() > 0 {
        if k == s.len() {
            lemma_count_lte_boundary(s.drop_last(), v, k - 1);
        } else {
            lemma_count_lte_boundary(s.drop_last(), v, k);
        }
    }
}

/// If everything before position `k` is `> v` and everything from `k`
/// on is `<= v`, then exactly `len - k` elements are `<= v`.
pub proof fn lemma_count_lte_boundary_rev(s: Seq<i64>, v: i64, k: int)
    requires
        0 <= k <= s.len(),
        forall|j: int| 0 <= j < k ==> s[j] > v,
        forall|j: int| k <= j < s.len() ==> s[j] <= v,
    ensures
        count_lte(s, v) == s.len() - k,
    decreases s.len(),
{
    if s.len() > 0 {
        if k == s.len() {
            lemma_count_lte_boundary_rev(s.drop_last(), v, k - 1);
        } else {
            lemma_count_lte_boundary_rev(s.drop_last(), v, k);
        }
    }
}

/// If everything before position `k` is `< v` and everything from `k`
/// on is `>= v`, then exactly `len - k` elements are `>= v`.
pub proof fn lemma_count_gte_boundary(s: Seq<i64>, v: i64, k: int)
    requires
        0 <= k <= s.len(),
        forall|j: int| 0 <= j < k ==> s[j] < v,
        forall|j: int| k <= j < s.len() ==> s[j] >= v,
    ensures
        count_gte(s, v) == s.len() - k,
    decreases s.len(),
{
    if s.len() > 0 {
        if k == s.len() {
            lemma_count_gte_boundary(s.drop_last(), v, k - 1);
        } else {
            lemma_count_gte_boundary(s.drop_last(), v, k);
        }
    }
}

/// If everything before position `k` is `>= v` and everything from `k`
/// on is `< v`, then exactly `k` elements are `>= v`.
pub proof fn lemma_count_gte_boundary_rev(s: Seq<i64>, v: i64, k: int)
    requires
        0 <= k <= s.len(),
        forall|j: int| 0 <= j < k ==> s[j] >= v,
        forall|j: int| k <= j < s.len() ==> s[j] < v,
    ensures
        count_gte(s, v) == k,
    decreases s.len(),
{
    if s.len() > 0 {
        if k == s.len() {
            lemma_count_gte_boundary_rev(s.drop_last(), v, k - 1);
        } else {
            lemma_count_gte_boundary_rev(s.drop_last(), v, k);
        }
    }
}

proof fn lemma_count_lte_remove(s: Seq<i64>, v: i64, m: int)
    requires
        0 <= m < s.len(),
    ensures
        count_lte(s, v) == count_lte(s.remove(m), v) + if s[m] <= v { 1nat } else { 0nat },
    decreases s.len(),
{
    if m == s.len() - 1 {
        assert(s.remove(m) =~= s.drop_last());
    } else {
        assert(s.remove(m).drop_last() =~= s.drop_last().remove(m));
        assert(s.remove(m).last() == s.last());
        lemma_count_lte_remove(s.drop_last(), v, m);
    }
}

proof fn lemma_count_gte_remove(s: Seq<i64>, v: i64, m: int)
    requires
        0 <= m < s.len(),
    ensures
        count_gte(s, v) == count_gte(s.remove(m), v) + if s[m] >= v { 1nat } else { 0nat },
    decreases s.len(),
{
    if m == s.len() - 1 {
        assert(s.remove(m) =~= s.drop_last());
    } else {
        assert(s.remove(m).drop_last() =~= s.drop_last().remove(m));
        assert(s.remove(m).last() == s.last());
        lemma_count_gte_remove(s.drop_last(), v, m);
    }
}

/// The rank counts see only the multiset of values: reordering a
/// sequence by any permutation changes no `<=`-count and no `>=`-count.
/// The reducer's ranks may therefore equally be computed on the
/// sequence re-sorted ascending, as rank-transform pipelines usually
/// do, or on the sequence as it stands.
pub proof fn lemma_counts_permutation_invariant(s: Seq<i64>, p: Seq<usize>, v: i64)
    requires
        is_perm(p, s.len()),
    ensures
        count_lte(apply_perm(s, p), v) == count_lte(s, v),
        count_gte(apply_perm(s, p), v) == count_gte(s, v),
    decreases s.len(),
{
    let t = apply_perm(s, p);
    let n = s.len() as int;
    if n == 0 {
        assert(t =~= s);
    } else {
        let m = p[n - 1] as int;
        let sr = s.remove(m);
        // p without its last entry, with every position above `m` shifted
        // down to account for removing position `m` from `s`
        let q = Seq::new(
            (n - 1) as nat,
            |k: int| if (p[k] as int) < m { p[k] } else { ((p[k] as int) - 1) as usize },
        );
        assert forall|k: int| 0 <= k < q.len() implies (#[trigger] q[k]) < (n - 1) as nat by {
            assert(p[k] != p[n - 1]);
            assert(p[k] < n);
        }
        assert forall|k1: int, k2: int| 0 <= k1 < k2 < q.len() implies q[k1] != q[k2] by {
            assert(p[k1] != p[k2]);
            assert(p[k1] != p[n - 1]);
            assert(p[k2] != p[n - 1]);
        }
        assert forall|v0: int| 0 <= v0 < n - 1 implies reaches(q, v0) by {
            let w0: int = if v0 < m { v0 } else { v0 + 1 };
            assert(reaches(p, w0));
            let k0 = choose|k: int| 0 <= k < p.len() && p[k] == w0;
            assert(p[n - 1] == m && w0 != m);
            assert(k0 < n - 1);
            assert(0 <= k0 < q.len() && q[k0] == v0);
        }
        assert(is_perm(q, (n - 1) as nat));
        assert forall|k: int| 0 <= k < n - 1 implies apply_perm(sr, q)[k] == t.drop_last()[k] by {
            assert(p[k] != p[n - 1]);
            assert(sr[q[k] as int] == s[p[k] as int]);
        }
        assert(apply_perm(sr, q) =~= t.drop_last());
        lemma_counts_permutation_invariant(sr, q, v);
        lemma_count_lte_remove(s, v, m);
        lemma_count_gte_remove(s, v, m);
        assert(t.last() == s[m]);
    }
}

/// Tie counters across a maximal tie group. In a sorted sequence whose
/// positions `i ..= j` all hold one value, with strictly smaller values
/// before `i` and strictly larger ones after `j`, every member of the
/// group counts `j + 1` elements `<=` it (the group's rightmost rank)
/// and `len - i` elements `>=` it (the group's leftmost rank).
pub proof fn lemma_tie_group_counts(s: Seq<i64>, i: int, j: int)
    requires
        sorted(s),
        0 <= i <= j < s.len(),
        forall|m: int| i <= m <= j ==> s[m] == s[i],
        i > 0 ==> s[i - 1] != s[i],
        j < s.len() - 1 ==> s[j + 1] != s[j],
    ensures
        forall|m: int| i <= m <= j ==> count_lte(s, #[trigger] s[m]) == j + 1,
        forall|m: int| i <= m <= j ==> count_gte(s, #[trigger] s[m]) == s.len() - i,
{
    assert forall|m: int| j < m < s.len() implies s[m] > s[i] by {
        assert(s[j + 1] >= s[j]);
        assert(s[m] >= s[j + 1]);
    }
    assert forall|m: int| 0 <= m < i implies s[m] < s[i] by {
        assert(s[m] <= s[i - 1]);
        assert(s[i - 1] <= s[i]);
    }
    lemma_count_lte_boundary(s, s[i], j + 1);
    lemma_count_gte_boundary(s, s[i], i);
    assert forall|m: int| i <= m <= j implies count_lte(s, #[trigger] s[m]) == j + 1 by {
        assert(s[m] == s[i]);
    }
    assert forall|m: int| i <= m <= j implies count_gte(s, #[trigger] s[m]) == s.len() - i by {
        assert(s[m] == s[i]);
    }
}

/// For every element of the sorted input, how many elements are less
/// than or equal to it. Members of a tie group all get the group's
/// rightmost rank.
pub fn cumulative_lte(arr: &Vec<i64>) -> (counts: Vec<usize>)
    requires
        sorted(arr@),
    ensures
        counts@.len() == arr@.len(),
        forall|m: int| 0 <= m < arr@.len() ==> (#[trigger] counts@[m]) as nat == count_lte(arr@, arr@[m]),
{
    let n = arr.len();
    let mut counts: Vec<usize> = Vec::new();
    let mut k: usize = 0;
    while k < n
        invariant
            k <= n,
            counts@.len() == k,
            forall|m: int| 0 <= m < k ==> (#[trigger] counts@[m]) == m + 1,
        decreases n - k,
    {
        counts.push(k + 1);
        k += 1;
    }
    if n == 0 {
        return counts;
    }
    proof {
        lemma_count_lte_boundary(arr@, arr@[n - 1], n as int);
    }
    let mut i: usize = n - 1;
    while i > 0
        invariant
            n == arr@.len(),
            sorted(arr@),
            counts@.len() == n,
            i < n,
            forall|m: int| 0 <= m < i ==> (#[trigger] counts@[m]) == m + 1,
            forall|m: int| i <= m < n ==> (#[trigger] counts@[m]) as nat == count_lte(arr@, arr@[m]),
        decreases i,
    {
        i -= 1;
        if arr[i] == arr[i + 1] {
            let c = counts[i + 1];
            counts.set(i, c);
        } else {
            proof {
                let ii = i as int;
                assert forall|m: int| ii < m < n implies arr@[m] > arr@[ii] by {
                    assert(arr@[ii + 1] <= arr@[m]);
                }
                lemma_count_lte_boundary(arr@, arr@[ii], ii + 1);
            }
        }
    }
    counts
}

/// For every element of the sorted input, how many elements are greater
/// than or equal to it. Members of a tie group all get the group's
/// leftmost rank.
pub fn cumulative_gte(arr: &Vec<i64>) -> (counts: Vec<usize>)
    requires
        sorted(arr@),
    ensures
        counts@.len() == arr@.len(),
        forall|m: int| 0 <= m < arr@.len() ==> (#[trigger] counts@[m]) as nat == count_gte(arr@, arr@[m]),
{
    let n = arr.len();
    let mut counts: Vec<usize> = Vec::new();
    let mut k: usize = 0;
    while k < n
        invariant
            k <= n,
            counts@.len() == k,
            forall|m: int| 0 <= m < k ==> (#[trigger] counts@[m]) == n - m,
        decreases n - k,
    {
        counts.push(n - k);
        k += 1;
    }
    if n == 0 {
        return counts;
    }
    proof {
        lemma_count_gte_boundary(arr@, arr@[0], 0);
    }
    let mut i: usize = 0;
    while i < n - 1
        invariant
            n == arr@.len(),
            sorted(arr@),
            counts@.len() == n,
            i < n,
            forall|m: int| 0 <= m <= i ==> (#[trigger] counts@[m]) as nat == count_gte(arr@, arr@[m]),
            forall|m: int| i < m < n ==> (#[trigger] counts@[m]) == n - m,
        decreases n - i,
    {
        if arr[i + 1] == arr[i] {
            let c = counts[i];
            counts.set(i + 1, c);
        } else {
            proof {
                let ii = i as int;
                assert forall|m: int| 0 <= m < ii + 1 implies #[trigger] arr@[m] < arr@[ii + 1] by {
                    assert(arr@[m] <= arr@[ii]);
                }
                lemma_count_gte_boundary(arr@, arr@[ii + 1], ii + 1);
            }
        }
        i += 1;
    }
    counts
}

/// How many elements of `arr` are `<= v`.
pub fn count_lte_all(arr: &Vec<i64>, v: i64) -> (c: usize)
    ensures
        c as nat == count_lte(arr@, v),
        c <= arr@.len(),
{
    let mut c: usize = 0;
    let mut j: usize = 0;
    while j < arr.len()
        invariant
            j <= arr@.len(),
            c <= j,
            c as nat == count_lte(arr@.take(j as int), v),
        decreases arr@.len() - j,
    {
        proof {
            let jj = j as int;
            assert(arr@.take(jj + 1).drop_last() =~= arr@.take(jj));
            assert(arr@.take(jj + 1).last() == arr@[jj]);
        }
        if arr[j] <= v {
            c += 1;
        }
        j += 1;
    }
    proof {
        assert(arr@.take(arr@.len() as int) =~= arr@);
    }
    c
}

/// How many elements of `arr` are `>= v`.
pub fn count_gte_all(arr: &Vec<i64>, v: i64) -> (c: usize)
    ensures
        c as nat == count_gte(arr@, v),
        c <= arr@.len(),
{
    let mut c: usize = 0;
    let mut j: usize = 0;
    while j < arr.len()
        invariant
            j <= arr@.len(),
            c <= j,
            c as nat == count_gte(arr@.take(j as int), v),
        decreases arr@.len() - j,
    {
        proof {
            let jj = j as int;
            assert(arr@.take(jj + 1).drop_last() =~= arr@.take(jj));
            assert(arr@.take(jj + 1).last() == arr@[jj]);
        }
        if arr[j] >= v {
            c += 1;
        }
        j += 1;
    }
    proof {
        assert(arr@.take(arr@.len() as int) =~= arr@);
    }
    c
}

} // verus!
