//! Bounded top-K selection with a deterministic order: higher score first,
//! then earlier position.

use vstd::prelude::*;

verus! {

/// Candidate `a` ranks before candidate `b`: a higher score, or the same
/// score and an earlier position.
pub open spec fn outranks(scores: Seq<i128>, a: int, b: int) -> bool {
    scores[a] > scores[b] || (scores[a] == scores[b] && a < b)
}

/// `r` is the selection of the (at most) `k` best candidates among the first
/// `n`, best first. Candidates with a score of 0 or less never qualify.
pub open spec fn is_top_upto(scores: Seq<i128>, n: int, k: int, r: Seq<usize>) -> bool {
    &&& r.len() <= k
    &&& forall|t: int| 0 <= t < r.len() ==> (#[trigger] r[t]) < n && scores[r[t] as int] > 0
    &&& forall|s: int, t: int| 0 <= s < t < r.len() ==> outranks(scores, #[trigger] r[s] as int, #[trigger] r[t] as int)
    &&& forall|j: int| 0 <= j < n && #[trigger] scores[j] > 0 ==>
            r.contains(j as usize) || (r.len() == k && forall|t: int| 0 <= t < r.len() ==> outranks(scores, #[trigger] r[t] as int, j))
}

/// `r` is the selection of the (at most) `k` best candidates of `scores`.
pub open spec fn is_top_k(scores: Seq<i128>, k: int, r: Seq<usize>) -> bool {
    is_top_upto(scores, scores.len() as int, k, r)
}

/// In a selection, candidates with equal scores come in order of position.
pub proof fn lemma_ties_in_position_order(scores: Seq<i128>, k: int, r: Seq<usize>, s: int, t: int)
    requires
        is_top_k(scores, k, r),
        0 <= s < t < r.len(),
        scores[r[s] as int] == scores[r[t] as int],
    ensures
        r[s] < r[t],
{
    assert(outranks(scores, r[s] as int, r[t] as int));
}

/// The selection is determined by the scores and the bound alone: any two
/// selections of the best `k` candidates are the same sequence, whatever
/// order the candidates were examined in.
pub proof fn lemma_top_k_unique(scores: Seq<i128>, k: int, r1: Seq<usize>, r2: Seq<usize>)
    requires
        is_top_k(scores, k, r1),
        is_top_k(scores, k, r2),
    ensures
        r1 == r2,
{
    let n = if r1.len() < r2.len() { r1.len() as int } else { r2.len() as int };
    lemma_agree_upto(scores, k, r1, r2, n);
    if r1.len() > r2.len() {
        lemma_not_in_other(scores, k, r1, r2, r2.len() as int);
    } else if r2.len() > r1.len() {
        lemma_not_in_other(scores, k, r2, r1, r1.len() as int);
    }
    assert(r1 =~= r2);
}

proof fn lemma_agree_upto(scores: Seq<i128>, k: int, r1: Seq<usize>, r2: Seq<usize>, n: int)
    requires
        is_top_k(scores, k, r1),
        is_top_k(scores, k, r2),
        0 <= n <= r1.len(),
        n <= r2.len(),
    ensures
        forall|j: int| 0 <= j < n ==> r1[j] == r2[j],
    decreases n,
{
    if n > 0 {
        lemma_agree_upto(scores, k, r1, r2, n - 1);
        lemma_agree_at(scores, k, r1, r2, n - 1);
    }
}

proof fn lemma_agree_at(scores: Seq<i128>, k: int, r1: Seq<usize>, r2: Seq<usize>, i: int)
    requires
        is_top_k(scores, k, r1),
        is_top_k(scores, k, r2),
        0 <= i < r1.len(),
        i < r2.len(),
        forall|j: int| 0 <= j < i ==> r1[j] == r2[j],
    ensures
        r1[i] == r2[i],
{
    let a = r1[i] as int;
    let b = r2[i] as int;
    if a != b {
        if outranks(scores, a, b) {
            lemma_not_in_other(scores, k, r1, r2, i);
            assert(outranks(scores, r2[i] as int, a));
        } else {
            assert forall|j: int| 0 <= j < i implies r2[j] == r1[j] by {}
            lemma_not_in_other(scores, k, r2, r1, i);
            assert(outranks(scores, r1[i] as int, b));
        }
    }
}

/// Where two selections agree before position `i` and `r1[i]` outranks
/// `r2[i]` (or `r2` ends at `i`), `r1[i]` is missing from `r2`.
proof fn lemma_not_in_other(scores: Seq<i128>, k: int, r1: Seq<usize>, r2: Seq<usize>, i: int)
    requires
        is_top_k(scores, k, r1),
        is_top_k(scores, k, r2),
        0 <= i < r1.len(),
        i <= r2.len(),
        forall|j: int| 0 <= j < i ==> r1[j] == r2[j],
        i < r2.len() ==> outranks(scores, r1[i] as int, r2[i] as int),
    ensures
        !r2.contains(r1[i]),
        r2.len() == k,
        forall|t: int| 0 <= t < r2.len() ==> outranks(scores, #[trigger] r2[t] as int, r1[i] as int),
{
    let a = r1[i];
    if r2.contains(a) {
        let j = choose|j: int| 0 <= j < r2.len() && r2[j] == a;
        if j < i {
            assert(r1[j] == a);
            assert(outranks(scores, r1[j] as int, r1[i] as int));
        } else if j > i {
            assert(outranks(scores, r2[i] as int, r2[j] as int));
        }
    }
    assert(scores[a as int] > 0);
}

proof fn lemma_skip(scores: Seq<i128>, n: int, k: int, r: Seq<usize>)
    requires
        0 <= n < scores.len(),
        is_top_upto(scores, n, k, r),
        scores[n] <= 0 || (r.len() == k && forall|t: int| 0 <= t < r.len() ==> outranks(scores, #[trigger] r[t] as int, n)),
    ensures
        is_top_upto(scores, n + 1, k, r),
{
}

proof fn lemma_insert(scores: Seq<i128>, n: int, k: int, r: Seq<usize>, p: int)
    requires
        0 <= n < scores.len(),
        n <= usize::MAX,
        is_top_upto(scores, n, k, r),
        scores[n] > 0,
        r.len() < k,
        0 <= p <= r.len(),
        forall|t: int| 0 <= t < p ==> outranks(scores, #[trigger] r[t] as int, n),
        forall|t: int| p <= t < r.len() ==> outranks(scores, n, #[trigger] r[t] as int),
    ensures
        is_top_upto(scores, n + 1, k, r.insert(p, n as usize)),
{
    let r2 = r.insert(p, n as usize);
    assert(r2[p] == n as usize);
    assert forall|j: int| 0 <= j < n + 1 && #[trigger] scores[j] > 0 implies r2.contains(j as usize) by {
        if j == n {
            assert(r2[p] == j as usize);
        } else {
            assert(r.contains(j as usize));
            let t = choose|t: int| 0 <= t < r.len() && r[t] == j as usize;
            if t < p {
                assert(r2[t] == j as usize);
            } else {
                assert(r2[t + 1] == j as usize);
            }
        }
    }
    assert forall|s: int, t: int| 0 <= s < t < r2.len() implies outranks(scores, #[trigger] r2[s] as int, #[trigger] r2[t] as int) by {
        if s < p && t < p {
        } else if s < p && t == p {
        } else if s < p {
            assert(r2[t] == r[t - 1]);
        } else if s == p {
            assert(r2[t] == r[t - 1]);
        } else {
            assert(r2[s] == r[s - 1] && r2[t] == r[t - 1]);
        }
    }
}

proof fn lemma_replace(scores: Seq<i128>, n: int, k: int, r: Seq<usize>, p: int)
    requires
        0 <= n < scores.len(),
        n <= usize::MAX,
        is_top_upto(scores, n, k, r),
        scores[n] > 0,
        r.len() == k,
        0 <= p < r.len(),
        forall|t: int| 0 <= t < p ==> outranks(scores, #[trigger] r[t] as int, n),
        forall|t: int| p <= t < r.len() ==> outranks(scores, n, #[trigger] r[t] as int),
    ensures
        is_top_upto(scores, n + 1, k, r.drop_last().insert(p, n as usize)),
{
    let d = r.drop_last();
    let r2 = d.insert(p, n as usize);
    let last = r.last();
    assert(r2[p] == n as usize);
    assert forall|s: int, t: int| 0 <= s < t < r2.len() implies outranks(scores, #[trigger] r2[s] as int, #[trigger] r2[t] as int) by {
        if s < p && t < p {
            assert(r2[s] == r[s] && r2[t] == r[t]);
        } else if s < p && t == p {
            assert(r2[s] == r[s]);
        } else if s < p {
            assert(r2[s] == r[s] && r2[t] == r[t - 1]);
        } else if s == p {
            assert(r2[t] == r[t - 1]);
        } else {
            assert(r2[s] == r[s - 1] && r2[t] == r[t - 1]);
        }
    }
    assert forall|t: int| 0 <= t < r2.len() implies (#[trigger] r2[t]) < n + 1 && scores[r2[t] as int] > 0 by {
        if t < p {
            assert(r2[t] == r[t]);
        } else if t > p {
            assert(r2[t] == r[t - 1]);
        }
    }
    assert forall|j: int| 0 <= j < n + 1 && #[trigger] scores[j] > 0 implies
        r2.contains(j as usize) || (r2.len() == k && forall|t: int| 0 <= t < r2.len() ==> outranks(scores, #[trigger] r2[t] as int, j)) by {
        if j == n {
            assert(r2[p] == j as usize);
        } else if r.contains(j as usize) {
            let t = choose|t: int| 0 <= t < r.len() && r[t] == j as usize;
            if t == r.len() - 1 {
                assert forall|u: int| 0 <= u < r2.len() implies outranks(scores, #[trigger] r2[u] as int, j) by {
                    if u < p {
                        assert(r2[u] == r[u]);
                    } else if u > p {
                        assert(r2[u] == r[u - 1]);
                    }
                }
            } else if t < p {
                assert(r2[t] == j as usize);
            } else {
                assert(r2[t + 1] == j as usize);
            }
        } else {
            assert(outranks(scores, last as int, j));
            assert forall|u: int| 0 <= u < r2.len() implies outranks(scores, #[trigger] r2[u] as int, j) by {
                if u < p {
                    assert(r2[u] == r[u]);
                } else if u > p {
                    assert(r2[u] == r[u - 1]);
                }
            }
        }
    }
}

/// The positions of the (at most) `k` best candidates, best first: a higher
/// score first and, on equal scores, the earlier position first. Candidates
/// with a score of 0 or less are left out.
pub fn select_top_k(scores: &Vec<i128>, k: usize) -> (r: Vec<usize>)
    ensures
        is_top_k(scores@, k as int, r@),
{
    let mut r: Vec<usize> = Vec::new();
    let n = scores.len();
    let mut i: usize = 0;
    while i < n
        invariant
            n == scores@.len(),
            i <= n,
            is_top_upto(scores@, i as int, k as int, r@),
        decreases n - i,
    {
        let s = scores[i];
        if s <= 0 || k == 0 {
            proof { lemma_skip(scores@, i as int, k as int, r@); }
        } else {
            let mut p: usize = 0;
            while p < r.len() && scores[r[p]] >= s
                invariant
                    n == scores@.len(),
                    i < n,
                    s == scores@[i as int],
                    p <= r@.len(),
                    is_top_upto(scores@, i as int, k as int, r@),
                    forall|t: int| 0 <= t < p ==> outranks(scores@, #[trigger] r@[t] as int, i as int),
                decreases r@.len() - p,
            {
                p = p + 1;
            }
            assert forall|t: int| p <= t < r@.len() implies outranks(scores@, i as int, #[trigger] r@[t] as int) by {
                if t > p {
                    assert(outranks(scores@, r@[p as int] as int, r@[t] as int));
                }
            }
            if r.len() < k {
                proof { lemma_insert(scores@, i as int, k as int, r@, p as int); }
                r.insert(p, i);
            } else if p < r.len() {
                proof { lemma_replace(scores@, i as int, k as int, r@, p as int); }
                r.pop();
                r.insert(p, i);
            } else {
                proof { lemma_skip(scores@, i as int, k as int, r@); }
            }
        }
        i = i + 1;
    }
    r
}

} // verus!
