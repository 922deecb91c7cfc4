//! Order-index builder (argsort) and permutation applier.
//!
//! `argsort` returns the permutation that sorts a sequence ascending,
//! breaking ties by original index. That tie-break makes the permutation
//! unique (see `lemma_stable_argsort_unique`), which in turn makes every
//! quantity computed downstream a function of the inputs alone.

use vstd::prelude::*;

verus! {

/// Strict "sort key" order on two positions of `s`: by value, and by
/// index for equal values. This is a strict total order on distinct
/// indices, so a sequence of distinct indices sorted by it is unique.
pub open spec fn lex_lt(s: Seq<i64>, u: usize, v: usize) -> bool {
    s[u as int] < s[v as int] || (s[u as int] == s[v as int] && u < v)
}

/// Some position of `p` holds the index `v`.
pub open spec fn reaches(p: Seq<usize>, v: int) -> bool {
    exists|k: int| 0 <= k < p.len() && p[k] == v
}

/// `p` is a permutation of the indices `0 .. n`: it has length `n`,
/// stays in range, repeats no index and reaches every index.
pub open spec fn is_perm(p: Seq<usize>, n: nat) -> bool {
    &&& p.len() == n
    &&& forall|k: int| 0 <= k < p.len() ==> (#[trigger] p[k]) < n
    &&& forall|k1: int, k2: int| 0 <= k1 < k2 < p.len() ==> p[k1] != p[k2]
    &&& forall|v: int| 0 <= v < n ==> #[trigger] reaches(p, v)
}

/// The positions listed by `p` are in ascending order of value, with
/// ties listed in ascending order of index.
pub open spec fn stable_sorts(s: Seq<i64>, p: Seq<usize>) -> bool {
    forall|k1: int, k2: int| 0 <= k1 < k2 < p.len() ==> lex_lt(s, #[trigger] p[k1], #[trigger] p[k2])
}

/// `p` is the (unique) stable argsort of `s`.
pub open spec fn is_stable_argsort(s: Seq<i64>, p: Seq<usize>) -> bool {
    is_perm(p, s.len()) && stable_sorts(s, p)
}

/// The stable argsort of `s`, as a value. It is only meaningful where a
/// stable argsort is known to exist; `argsort` hands every caller such a
/// witness through its postcondition.
pub open spec fn stable_argsort_of(s: Seq<i64>) -> Seq<usize> {
    choose|p: Seq<usize>| is_stable_argsort(s, p)
}

/// `s` reordered by reading it at the positions `p` lists.
pub open spec fn apply_perm(s: Seq<i64>, p: Seq<usize>) -> Seq<i64> {
    Seq::new(p.len(), |k: int| s[p[k] as int])
}

/// Non-decreasing sequence.
pub open spec fn sorted(s: Seq<i64>) -> bool {
    forall|i: int, j: int| 0 <= i <= j < s.len() ==> s[i] <= s[j]
}

/// Strictly increasing sequence.
pub open spec fn strictly_sorted(s: Seq<i64>) -> bool {
    forall|i: int, j: int| 0 <= i < j < s.len() ==> s[i] < s[j]
}

/// Strictly decreasing sequence.
pub open spec fn strictly_decreasing(s: Seq<i64>) -> bool {
    forall|i: int, j: int| 0 <= i < j < s.len() ==> s[i] > s[j]
}

/// No value occurs twice.
pub open spec fn tie_free(s: Seq<i64>) -> bool {
    forall|i: int, j: int| 0 <= i < j < s.len() ==> s[i] != s[j]
}

/// Return the indices that would sort `arr` ascending: reading `arr` at
/// the returned positions, in order, yields a non-decreasing sequence.
/// Ties are broken by original position, which pins the result uniquely:
/// the returned value is a function of the input alone, so repeated
/// calls return identical permutations.
pub fn argsort(arr: &Vec<i64>) -> (idcs: Vec<usize>)
    ensures
        is_stable_argsort(arr@, idcs@),
        idcs@ == stable_argsort_of(arr@),
{
    let n = arr.len();
    let mut idcs: Vec<usize> = Vec::new();
    let mut v: usize = 0;
    while v < n
        invariant
            v <= n,
            idcs@.len() == v,
            forall|k: int| 0 <= k < v ==> (#[trigger] idcs@[k]) == k,
        decreases n - v,
    {
        idcs.push(v);
        v += 1;
    }
    proof {
        assert forall|w: int| 0 <= w < n implies reaches(idcs@, w) by {
            assert(0 <= w < idcs@.len() && idcs@[w] == w);
        }
        assert(is_perm(idcs@, n as nat));
    }
    if n < 2 {
        proof {
            lemma_stable_argsort_canonical(arr@, idcs@);
        }
        return idcs;
    }
    let mut i: usize = 1;
    while i < n
        invariant
            n == arr@.len(),
            1 <= i <= n,
            is_perm(idcs@, n as nat),
            forall|a: int, b: int| 0 <= a < b < i ==> lex_lt(arr@, #[trigger] idcs@[a], #[trigger] idcs@[b]),
        decreases n - i,
    {
        let mut j: usize = i;
        while j > 0
            && (arr[idcs[j - 1]] > arr[idcs[j]]
                || (arr[idcs[j - 1]] == arr[idcs[j]] && idcs[j - 1] > idcs[j]))
            invariant
                n == arr@.len(),
                i < n,
                j <= i,
                is_perm(idcs@, n as nat),
                forall|a: int, b: int|
                    0 <= a < b <= i && b != j ==> lex_lt(arr@, #[trigger] idcs@[a], #[trigger] idcs@[b]),
            decreases j,
        {
            let u = idcs[j - 1];
            let w = idcs[j];
            let ghost s0 = idcs@;
            idcs.set(j - 1, w);
            idcs.set(j, u);
            proof {
                let jj = j as int;
                assert(idcs@ == s0.update(jj - 1, w).update(jj, u));
                assert(lex_lt(arr@, w, u));
                // in-range values
                assert forall|k: int| 0 <= k < idcs@.len() implies (#[trigger] idcs@[k]) < n by {
                    assert(s0[k] < n);
                }
                // no repeats: map each position back to where its value sat before the swap
                assert forall|k1: int, k2: int| 0 <= k1 < k2 < idcs@.len() implies
                    idcs@[k1] != idcs@[k2] by {
                    let m1 = if k1 == jj - 1 { jj } else if k1 == jj { jj - 1 } else { k1 };
                    let m2 = if k2 == jj - 1 { jj } else if k2 == jj { jj - 1 } else { k2 };
                    assert(idcs@[k1] == s0[m1]);
                    assert(idcs@[k2] == s0[m2]);
                    if m1 < m2 {
                        assert(s0[m1] != s0[m2]);
                    } else {
                        assert(s0[m2] != s0[m1]);
                    }
                }
                // every index still reached
                assert forall|v0: int| 0 <= v0 < n implies reaches(idcs@, v0) by {
                    assert(reaches(s0, v0));
                    let k0 = choose|k: int| 0 <= k < s0.len() && s0[k] == v0;
                    let k1 = if k0 == jj - 1 { jj } else if k0 == jj { jj - 1 } else { k0 };
                    assert(0 <= k1 < idcs@.len() && idcs@[k1] == v0);
                }
                // ordered except at the new gap j - 1
                assert forall|a: int, b: int| 0 <= a < b <= i && b != jj - 1 implies
                    lex_lt(arr@, #[trigger] idcs@[a], #[trigger] idcs@[b]) by {
                    if b == jj {
                        assert(idcs@[b] == s0[jj - 1]);
                        if a == jj - 1 {
                            assert(idcs@[a] == s0[jj]);
                            assert(lex_lt(arr@, s0[jj], s0[jj - 1]));
                        } else {
                            assert(idcs@[a] == s0[a]);
                            assert(lex_lt(arr@, s0[a], s0[jj - 1]));
                        }
                    } else if b < jj - 1 {
                        assert(idcs@[a] == s0[a] && idcs@[b] == s0[b]);
                        assert(lex_lt(arr@, s0[a], s0[b]));
                    } else {
                        // b > jj
                        assert(idcs@[b] == s0[b]);
                        if a == jj - 1 {
                            assert(idcs@[a] == s0[jj]);
                            assert(lex_lt(arr@, s0[jj], s0[b]));
                        } else if a == jj {
                            assert(idcs@[a] == s0[jj - 1]);
                            assert(lex_lt(arr@, s0[jj - 1], s0[b]));
                        } else {
                            assert(idcs@[a] == s0[a]);
                            assert(lex_lt(arr@, s0[a], s0[b]));
                        }
                    }
                }
            }
            j -= 1;
        }
        proof {
            let jj = j as int;
            if j > 0 {
                // loop condition is false and the two slots hold distinct indices
                assert(idcs@[jj - 1] != idcs@[jj]);
                assert(lex_lt(arr@, idcs@[jj - 1], idcs@[jj]));
            }
            assert forall|a: int, b: int| 0 <= a < b < i + 1 implies
                lex_lt(arr@, #[trigger] idcs@[a], #[trigger] idcs@[b]) by {
                if b == jj && j > 0 {
                    if a < jj - 1 {
                        assert(lex_lt(arr@, idcs@[a], idcs@[jj - 1]));
                        assert(lex_lt(arr@, idcs@[jj - 1], idcs@[jj]));
                    }
                } else {
                    assert(b != jj);
                }
            }
        }
        i += 1;
    }
    proof {
        lemma_stable_argsort_canonical(arr@, idcs@);
    }
    idcs
}

proof fn lemma_stable_argsort_agree_at(s: Seq<i64>, p1: Seq<usize>, p2: Seq<usize>, k: int)
    requires
        is_stable_argsort(s, p1),
        is_stable_argsort(s, p2),
        0 <= k < p1.len(),
        forall|m: int| 0 <= m < k ==> p1[m] == p2[m],
    ensures
        p1[k] == p2[k],
{
    if p1[k] != p2[k] {
        // p1[k] sits somewhere in p2; not before k, or p1 would repeat it
        assert(reaches(p2, p1[k] as int));
        let m1 = choose|m: int| 0 <= m < p2.len() && p2[m] == p1[k];
        assert(0 <= m1 < p2.len() && p2[m1] == p1[k]);
        if m1 < k {
            assert(p1[m1] == p1[k]);
            assert(lex_lt(s, p1[m1], p1[k]));
        }
        assert(m1 > k);
        assert(lex_lt(s, p2[k], p2[m1]));
        // and symmetrically p2[k] sits after position k in p1
        assert(reaches(p1, p2[k] as int));
        let m2 = choose|m: int| 0 <= m < p1.len() && p1[m] == p2[k];
        assert(0 <= m2 < p1.len() && p1[m2] == p2[k]);
        if m2 < k {
            assert(p2[m2] == p2[k]);
            assert(lex_lt(s, p2[m2], p2[k]));
        }
        assert(m2 > k);
        assert(lex_lt(s, p1[k], p1[m2]));
        // both orders at once: impossible
        assert(lex_lt(s, p2[k], p1[k]) && lex_lt(s, p1[k], p2[k]));
        assert(false);
    }
}

proof fn lemma_stable_argsort_agree_upto(s: Seq<i64>, p1: Seq<usize>, p2: Seq<usize>, k: int)
    requires
        is_stable_argsort(s, p1),
        is_stable_argsort(s, p2),
        0 <= k <= p1.len(),
    ensures
        forall|m: int| 0 <= m < k ==> p1[m] == p2[m],
    decreases k,
{
    if k > 0 {
        lemma_stable_argsort_agree_upto(s, p1, p2, k - 1);
        lemma_stable_argsort_agree_at(s, p1, p2, k - 1);
    }
}

/// Determinism of the order-index builder: only one permutation sorts a
/// sequence ascending with ties broken by index, so everything computed
/// from a stable argsort is a function of the input sequence alone.
pub proof fn lemma_stable_argsort_unique(s: Seq<i64>, p1: Seq<usize>, p2: Seq<usize>)
    requires
        is_stable_argsort(s, p1),
        is_stable_argsort(s, p2),
    ensures
        p1 == p2,
{
    lemma_stable_argsort_agree_upto(s, p1, p2, p1.len() as int);
    assert(p1 =~= p2);
}

/// Any witness of `is_stable_argsort` is the canonical one, and shows
/// at the same time that the canonical one is well defined.
pub proof fn lemma_stable_argsort_canonical(s: Seq<i64>, p: Seq<usize>)
    requires
        is_stable_argsort(s, p),
    ensures
        p == stable_argsort_of(s),
        is_stable_argsort(s, stable_argsort_of(s)),
{
    assert(is_stable_argsort(s, stable_argsort_of(s)));
    lemma_stable_argsort_unique(s, p, stable_argsort_of(s));
}

/// Permutation correctness: applying an argsort of `s` to `s` itself
/// yields a sequence sorted ascending.
pub proof fn lemma_argsort_sorts(s: Seq<i64>, p: Seq<usize>)
    requires
        is_stable_argsort(s, p),
    ensures
        sorted(apply_perm(s, p)),
{
    assert forall|i: int, j: int| 0 <= i <= j < apply_perm(s, p).len() implies
        apply_perm(s, p)[i] <= apply_perm(s, p)[j] by {
        if i < j {
            assert(lex_lt(s, p[i], p[j]));
        }
    }
}

/// Reorder `arr` by reading it at the positions `idcs` lists:
/// `out[k] == arr[idcs[k]]`.
pub fn permute(arr: &Vec<i64>, idcs: &Vec<usize>) -> (out: Vec<i64>)
    requires
        forall|k: int| 0 <= k < idcs@.len() ==> (#[trigger] idcs@[k]) < arr@.len(),
    ensures
        out@ == apply_perm(arr@, idcs@),
{
    let mut out: Vec<i64> = Vec::new();
    let mut k: usize = 0;
    while k < idcs.len()
        invariant
            k <= idcs@.len(),
            out@.len() == k,
            forall|k0: int| 0 <= k0 < idcs@.len() ==> (#[trigger] idcs@[k0]) < arr@.len(),
            forall|m: int| 0 <= m < k ==> out@[m] == arr@[#[trigger] idcs@[m] as int],
        decreases idcs@.len() - k,
    {
        out.push(arr[idcs[k]]);
        k += 1;
    }
    proof {
        assert(out@ =~= apply_perm(arr@, idcs@));
    }
    out
}

} // verus!
