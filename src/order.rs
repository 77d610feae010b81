//! Code-point order on strings, and sorting of distinct strings by it.

use vstd::prelude::*;
use crate::folder::strs;
use crate::text::chars_of;

verus! {

/// `a` comes before `b` in code-point order (the order of their UTF-8 bytes).
pub open spec fn seq_lt(a: Seq<char>, b: Seq<char>) -> bool
    decreases a.len(),
{
    if b.len() == 0 {
        false
    } else if a.len() == 0 {
        true
    } else if a[0] != b[0] {
        (a[0] as int) < (b[0] as int)
    } else {
        seq_lt(a.drop_first(), b.drop_first())
    }
}

/// Each element comes strictly before the next.
pub open spec fn sorted_strict(v: Seq<Seq<char>>) -> bool {
    forall|i: int| 0 <= i < v.len() - 1 ==> seq_lt(#[trigger] v[i], v[i + 1])
}

/// Of two different sequences, one comes first; never both.
pub proof fn lemma_seq_lt_total(a: Seq<char>, b: Seq<char>)
    ensures
        a != b ==> seq_lt(a, b) || seq_lt(b, a),
        !(seq_lt(a, b) && seq_lt(b, a)),
    decreases a.len(),
{
    if a.len() > 0 && b.len() > 0 && a[0] == b[0] {
        lemma_seq_lt_total(a.drop_first(), b.drop_first());
        if a != b {
            assert(a =~= seq![a[0]] + a.drop_first());
            assert(b =~= seq![b[0]] + b.drop_first());
        }
    } else if a.len() > 0 && b.len() > 0 {
        assert((a[0] as int) != (b[0] as int));
    } else if a.len() == 0 && b.len() == 0 {
        assert(a =~= b);
    }
}

/// Code-point order is transitive.
pub proof fn lemma_seq_lt_transitive(a: Seq<char>, b: Seq<char>, c: Seq<char>)
    requires
        seq_lt(a, b),
        seq_lt(b, c),
    ensures
        seq_lt(a, c),
    decreases a.len(),
{
    if a.len() > 0 && b.len() > 0 && c.len() > 0 && a[0] == b[0] && b[0] == c[0] {
        lemma_seq_lt_transitive(a.drop_first(), b.drop_first(), c.drop_first());
    }
}

/// In a strictly sorted sequence every element comes before every later one.
pub proof fn lemma_sorted_pairwise(v: Seq<Seq<char>>)
    requires
        sorted_strict(v),
    ensures
        forall|i: int, j: int| 0 <= i < j < v.len() ==> seq_lt(#[trigger] v[i], #[trigger] v[j]),
    decreases v.len(),
{
    if v.len() > 1 {
        let d = v.drop_last();
        assert forall|i: int| 0 <= i < d.len() - 1 implies seq_lt(#[trigger] d[i], d[i + 1]) by {
            assert(seq_lt(v[i], v[i + 1]));
        }
        lemma_sorted_pairwise(d);
        assert forall|i: int, j: int| 0 <= i < j < v.len() implies seq_lt(#[trigger] v[i], #[trigger] v[j]) by {
            if j < v.len() - 1 {
                assert(d[i] == v[i] && d[j] == v[j]);
            } else if i < j - 1 {
                assert(d[i] == v[i] && d[j - 1] == v[j - 1]);
                assert(seq_lt(v[j - 1], v[j]));
                lemma_seq_lt_transitive(v[i], v[j - 1], v[j]);
            }
        }
    }
}

/// Two strictly sorted sequences with the same elements are equal.
pub proof fn lemma_sorted_unique(a: Seq<Seq<char>>, b: Seq<Seq<char>>)
    requires
        sorted_strict(a),
        sorted_strict(b),
        a.to_set() == b.to_set(),
    ensures
        a == b,
    decreases a.len() + b.len(),
{
    lemma_sorted_pairwise(a);
    lemma_sorted_pairwise(b);
    if a.len() > 0 && b.len() > 0 {
        let x = a[0];
        let y = b[0];
        assert(a.to_set().contains(x));
        assert(b.to_set().contains(y));
        assert(b.contains(x));
        assert(a.contains(y));
        let i = choose|i: int| 0 <= i < b.len() && b[i] == x;
        let j = choose|j: int| 0 <= j < a.len() && a[j] == y;
        if i > 0 {
            assert(seq_lt(b[0], b[i]));
            if j > 0 {
                assert(seq_lt(a[0], a[j]));
                lemma_seq_lt_total(x, y);
            } else {
                lemma_seq_lt_total(x, y);
            }
        } else if j > 0 {
            assert(seq_lt(a[0], a[j]));
            lemma_seq_lt_total(x, y);
        }
        assert(x == y);
        let a2 = a.drop_first();
        let b2 = b.drop_first();
        assert forall|k: int| 0 <= k < a2.len() - 1 implies seq_lt(#[trigger] a2[k], a2[k + 1]) by {
            assert(seq_lt(a[k + 1], a[k + 2]));
        }
        assert forall|k: int| 0 <= k < b2.len() - 1 implies seq_lt(#[trigger] b2[k], b2[k + 1]) by {
            assert(seq_lt(b[k + 1], b[k + 2]));
        }
        assert forall|z: Seq<char>| a2.to_set().contains(z) <==> b2.to_set().contains(z) by {
            if a2.contains(z) {
                let k = choose|k: int| 0 <= k < a2.len() && a2[k] == z;
                assert(a[k + 1] == z);
                assert(seq_lt(a[0], a[k + 1]));
                lemma_seq_lt_total(z, x);
                assert(a.to_set().contains(z));
                assert(b.contains(z));
                let m = choose|m: int| 0 <= m < b.len() && b[m] == z;
                assert(m != 0);
                assert(b2[m - 1] == z);
            }
            if b2.contains(z) {
                let k = choose|k: int| 0 <= k < b2.len() && b2[k] == z;
                assert(b[k + 1] == z);
                assert(seq_lt(b[0], b[k + 1]));
                lemma_seq_lt_total(z, y);
                assert(b.to_set().contains(z));
                assert(a.contains(z));
                let m = choose|m: int| 0 <= m < a.len() && a[m] == z;
                assert(m != 0);
                assert(a2[m - 1] == z);
            }
        }
        assert(a2.to_set() =~= b2.to_set());
        lemma_sorted_unique(a2, b2);
        assert(a =~= seq![x] + a2);
        assert(b =~= seq![y] + b2);
    } else if a.len() > 0 {
        assert(a.to_set().contains(a[0]));
        assert(!b.to_set().contains(a[0]));
    } else if b.len() > 0 {
        assert(b.to_set().contains(b[0]));
        assert(!a.to_set().contains(b[0]));
    } else {
        assert(a =~= b);
    }
}

/// Whether `a` comes before `b` in code-point order.
pub fn chars_lt(a: &Vec<char>, b: &Vec<char>) -> (r: bool)
    ensures
        r == seq_lt(a@, b@),
{
    let mut i: usize = 0;
    assert(a@.subrange(0, a@.len() as int) =~= a@);
    assert(b@.subrange(0, b@.len() as int) =~= b@);
    while i < a.len() && i < b.len() && a[i] == b[i]
        invariant
            i <= a@.len(),
            i <= b@.len(),
            seq_lt(a@, b@) == seq_lt(a@.subrange(i as int, a@.len() as int), b@.subrange(i as int, b@.len() as int)),
        decreases a@.len() - i,
    {
        assert(a@.subrange(i as int, a@.len() as int).drop_first() =~= a@.subrange(i + 1, a@.len() as int));
        assert(b@.subrange(i as int, b@.len() as int).drop_first() =~= b@.subrange(i + 1, b@.len() as int));
        i = i + 1;
    }
    if i >= b.len() {
        false
    } else if i >= a.len() {
        true
    } else {
        a[i] < b[i]
    }
}

/// The strings of `v` in code-point order.
pub fn sort_distinct(v: Vec<String>) -> (r: Vec<String>)
    requires
        strs(v@).no_duplicates(),
    ensures
        sorted_strict(strs(r@)),
        strs(r@).to_set() == strs(v@).to_set(),
        strs(r@).len() == strs(v@).len(),
        strs(r@).no_duplicates(),
{
    let mut r: Vec<String> = Vec::new();
    let mut keys: Vec<Vec<char>> = Vec::new();
    let ghost vs = strs(v@);
    let mut src = v;
    let mut i: usize = 0;
    let n = src.len();
    while i < n
        invariant
            n == vs.len(),
            i <= n,
            src@.len() == n,
            strs(src@) == vs,
            vs.no_duplicates(),
            keys@.len() == r@.len(),
            forall|k: int| 0 <= k < r@.len() ==> (#[trigger] keys@[k])@ == r@[k]@,
            sorted_strict(strs(r@)),
            strs(r@).no_duplicates(),
            strs(r@).to_set() == vs.subrange(0, i as int).to_set(),
            r@.len() == i,
        decreases n - i,
    {
        let x = src[i].clone();
        let xc = chars_of(x.as_str());
        let mut p: usize = 0;
        while p < keys.len() && !chars_lt(&xc, &keys[p])
            invariant
                p <= keys@.len() == r@.len(),
                forall|k: int| 0 <= k < r@.len() ==> (#[trigger] keys@[k])@ == r@[k]@,
                forall|t: int| 0 <= t < p ==> !seq_lt(xc@, #[trigger] strs(r@)[t]),
            decreases keys@.len() - p,
        {
            p = p + 1;
        }
        let ghost old_r = strs(r@);
        assert(vs[i as int] == xc@);
        assert(!old_r.contains(xc@)) by {
            if old_r.contains(xc@) {
                assert(vs.subrange(0, i as int).to_set().contains(xc@));
                let k = choose|k: int| 0 <= k < i && vs.subrange(0, i as int)[k] == xc@;
                assert(vs[k] == vs[i as int]);
            }
        }
        r.insert(p, x);
        keys.insert(p, xc);
        let ghost new_r = strs(r@);
        assert(new_r =~= old_r.insert(p as int, xc@));
        assert forall|t: int| 0 <= t < new_r.len() - 1 implies seq_lt(#[trigger] new_r[t], new_r[t + 1]) by {
            if t + 1 < p {
            } else if t + 1 == p {
                lemma_seq_lt_total(xc@, old_r[t]);
            } else if t == p {
            } else {
                assert(new_r[t] == old_r[t - 1] && new_r[t + 1] == old_r[t]);
            }
        }
        assert forall|a: int, b: int| 0 <= a < new_r.len() && 0 <= b < new_r.len() && a != b implies new_r[a] != new_r[b] by {
            if a == p {
                if b < p { assert(new_r[b] == old_r[b]); } else { assert(new_r[b] == old_r[b - 1]); }
            } else if b == p {
                if a < p { assert(new_r[a] == old_r[a]); } else { assert(new_r[a] == old_r[a - 1]); }
            } else {
                let a2 = if a < p { a } else { a - 1 };
                let b2 = if b < p { b } else { b - 1 };
                assert(new_r[a] == old_r[a2] && new_r[b] == old_r[b2]);
            }
        }
        assert(vs.subrange(0, i + 1) =~= vs.subrange(0, i as int).push(xc@));
        assert(new_r.to_set() =~= old_r.to_set().insert(xc@)) by {
            assert forall|y: Seq<char>| new_r.to_set().contains(y) implies old_r.to_set().insert(xc@).contains(y) by {
                let k = choose|k: int| 0 <= k < new_r.len() && new_r[k] == y;
                if k < p { assert(old_r[k] == y); } else if k > p { assert(old_r[k - 1] == y); }
            }
            assert forall|y: Seq<char>| old_r.to_set().insert(xc@).contains(y) implies new_r.to_set().contains(y) by {
                if y == xc@ {
                    assert(new_r[p as int] == y);
                } else {
                    let k = choose|k: int| 0 <= k < old_r.len() && old_r[k] == y;
                    if k < p { assert(new_r[k] == y); } else { assert(new_r[k + 1] == y); }
                }
            }
        }
        assert(vs.subrange(0, i + 1).to_set() =~= vs.subrange(0, i as int).to_set().insert(xc@)) by {
            let s1 = vs.subrange(0, i + 1);
            let s0 = vs.subrange(0, i as int);
            assert forall|y: Seq<char>| s1.to_set().contains(y) implies s0.to_set().insert(xc@).contains(y) by {
                let k = choose|k: int| 0 <= k < s1.len() && s1[k] == y;
                if k < i { assert(s0[k] == y); }
            }
            assert forall|y: Seq<char>| s0.to_set().insert(xc@).contains(y) implies s1.to_set().contains(y) by {
                if y == xc@ {
                    assert(s1[i as int] == y);
                } else {
                    let k = choose|k: int| 0 <= k < s0.len() && s0[k] == y;
                    assert(s1[k] == y);
                }
            }
        }
        i = i + 1;
    }
    assert(vs.subrange(0, n as int) =~= vs);
    r
}

} // verus!
