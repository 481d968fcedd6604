//! Helper routines inspired by the APL family of programming languages.
use vstd::prelude::*;
use std::collections::HashMap;

verus! {

broadcast use vstd::std_specs::hash::group_hash_axioms;

/// The distinct items of `s`, in the order in which they first appear.
pub open spec fn nub(s: Seq<u64>) -> Seq<u64>
    decreases s.len(),
{
    if s.len() == 0 {
        Seq::empty()
    } else {
        let d = nub(s.drop_last());
        if d.contains(s.last()) { d } else { d.push(s.last()) }
    }
}

/// The positions at which `k` occurs in `s`, in ascending order.
pub open spec fn positions(s: Seq<u64>, k: u64) -> Seq<usize>
    decreases s.len(),
{
    if s.len() == 0 {
        Seq::empty()
    } else {
        let p = positions(s.drop_last(), k);
        if s.last() == k { p.push((s.len() - 1) as usize) } else { p }
    }
}

proof fn lemma_positions_empty(s: Seq<u64>, k: u64)
    requires !s.contains(k),
    ensures positions(s, k) == Seq::<usize>::empty(),
    decreases s.len(),
{
    if s.len() > 0 {
        assert(!s.drop_last().contains(k)) by {
            if s.drop_last().contains(k) {
                let w = choose|w: int| 0 <= w < s.drop_last().len() && s.drop_last()[w] == k;
                assert(s[w] == k);
            }
        }
        lemma_positions_empty(s.drop_last(), k);
    }
}

proof fn lemma_nub_contains(s: Seq<u64>, k: u64)
    ensures nub(s).contains(k) <==> s.contains(k),
    decreases s.len(),
{
    if s.len() > 0 {
        let t = s.drop_last();
        lemma_nub_contains(t, k);
        if t.contains(k) {
            let w = choose|w: int| 0 <= w < t.len() && t[w] == k;
            assert(s[w] == k);
        }
        if s.contains(k) && k != s.last() {
            let w = choose|w: int| 0 <= w < s.len() && s[w] == k;
            assert(t[w] == k);
        }
        if nub(s).contains(k) && !nub(t).contains(k) {
            let d = nub(t);
            let w = choose|w: int| 0 <= w < nub(s).len() && nub(s)[w] == k;
            assert(w == d.len());
        }
        if k == s.last() {
            assert(nub(s).contains(k)) by {
                let d = nub(t);
                if !d.contains(k) { assert(nub(s)[d.len() as int] == k); }
            }
        }
        if nub(t).contains(k) {
            let d = nub(t);
            let w = choose|w: int| 0 <= w < d.len() && d[w] == k;
            assert(nub(s)[w] == k);
        }
    }
}

/// The distinct items of `xs` in order of first appearance, and for each
/// item the ascending positions at which it occurs.
pub fn group(xs: &[u64]) -> (r: (Vec<u64>, HashMap<u64, Vec<usize>>))
    ensures
        r.0@ == nub(xs@),
        forall|k: u64| r.1@.contains_key(k) <==> xs@.contains(k),
        forall|k: u64| #[trigger] r.1@.contains_key(k) ==> r.1@[k]@ == positions(xs@, k),
{
    let mut map: HashMap<u64, Vec<usize>> = HashMap::new();
    let mut seen: Vec<u64> = Vec::new();
    let mut i: usize = 0;
    while i < xs.len()
        invariant
            i <= xs@.len(),
            seen@ == nub(xs@.take(i as int)),
            forall|k: u64| map@.contains_key(k) <==> xs@.take(i as int).contains(k),
            forall|k: u64| #[trigger] map@.contains_key(k) ==> map@[k]@ == positions(xs@.take(i as int), k),
        decreases xs@.len() - i,
    {
        let k = xs[i];
        let ghost before = xs@.take(i as int);
        let ghost after = xs@.take(i as int + 1);
        assert(after.drop_last() =~= before);
        assert(after.last() == k);
        let prev = map.remove(&k);
        let fresh = prev.is_none();
        let mut ixs = match prev {
            Some(v) => v,
            None => Vec::new(),
        };
        proof {
            if fresh {
                lemma_positions_empty(before, k);
            }
            lemma_nub_contains(before, k);
        }
        ixs.push(i);
        map.insert(k, ixs);
        if fresh {
            seen.push(k);
        }
        proof {
            assert forall|x: u64| map@.contains_key(x) <==> after.contains(x) by {
                if before.contains(x) {
                    let w = choose|w: int| 0 <= w < before.len() && before[w] == x;
                    assert(after[w] == x);
                }
                if after.contains(x) && x != k {
                    let w = choose|w: int| 0 <= w < after.len() && after[w] == x;
                    assert(before[w] == x);
                }
                if x == k { assert(after[i as int] == k); }
            }
        }
        i = i + 1;
    }
    assert(xs@.take(xs@.len() as int) =~= xs@);
    (seen, map)
}

/// `x` goes before `y` when sorting `xs` stably: by value, then by position.
pub open spec fn goes_before(xs: Seq<u64>, x: usize, y: usize) -> bool {
    xs[x as int] < xs[y as int] || (xs[x as int] == xs[y as int] && x < y)
}

/// A permutation vector that sorts `xs` stably: `xs[r[0]] <= xs[r[1]] <= ...`,
/// equal items keeping their order.
pub fn gradeup(xs: &[u64]) -> (r: Vec<usize>)
    ensures
        r@.len() == xs@.len(),
        forall|j: int| 0 <= j < r@.len() ==> (#[trigger] r@[j] as int) < xs@.len(),
        forall|k: usize| (k as int) < xs@.len() ==> r@.contains(k),
        forall|a: int, b: int| 0 <= a < b < r@.len() ==> goes_before(xs@, r@[a], r@[b]),
{
    let mut r: Vec<usize> = Vec::new();
    let mut i: usize = 0;
    while i < xs.len()
        invariant
            i <= xs@.len(),
            r@.len() == i,
            forall|j: int| 0 <= j < r@.len() ==> (#[trigger] r@[j] as int) < i,
            forall|k: usize| k < i ==> r@.contains(k),
            forall|a: int, b: int| 0 <= a < b < r@.len() ==> goes_before(xs@, r@[a], r@[b]),
        decreases xs@.len() - i,
    {
        let x = xs[i];
        let mut p: usize = r.len();
        while p > 0 && xs[r[p - 1]] > x
            invariant
                p <= r@.len() == i, i < xs@.len(), x == xs@[i as int],
                forall|j: int| 0 <= j < r@.len() ==> (#[trigger] r@[j] as int) < i,
                forall|q: int| p <= q < r@.len() ==> xs@[r@[q] as int] > x,
            decreases p,
        {
            p = p - 1;
        }
        let ghost old_r = r@;
        proof {
            assert forall|q: int| 0 <= q < p implies goes_before(xs@, old_r[q], i) by {
                if q < p - 1 {
                    assert(goes_before(xs@, old_r[q], old_r[p - 1]));
                }
            }
        }
        r.insert(p, i);
        proof {
            assert(r@ == old_r.insert(p as int, i));
            assert forall|k: usize| k < i + 1 implies r@.contains(k) by {
                if k == i {
                    assert(r@[p as int] == i);
                } else {
                    assert(old_r.contains(k));
                    let w = choose|w: int| 0 <= w < old_r.len() && old_r[w] == k;
                    if w < p { assert(r@[w] == k); } else { assert(r@[w + 1] == k); }
                }
            }
            assert forall|a: int, b: int| 0 <= a < b < r@.len() implies goes_before(xs@, r@[a], r@[b]) by {
                if a < p && b < p {
                } else if a < p && b == p {
                } else if a < p {
                    assert(r@[b] == old_r[b - 1]);
                } else if a == p {
                    assert(r@[b] == old_r[b - 1]);
                } else {
                    assert(r@[a] == old_r[a - 1]);
                    assert(r@[b] == old_r[b - 1]);
                }
            }
        }
        i = i + 1;
    }
    r
}

/// The items of `xs` at the positions `ys` (each a clone).
pub fn at<T: Clone>(xs: &[T], ys: &[usize]) -> (r: Vec<T>)
    requires forall|k: int| 0 <= k < ys@.len() ==> (#[trigger] ys@[k] as int) < xs@.len(),
    ensures
        r@.len() == ys@.len(),
        forall|k: int| 0 <= k < ys@.len() ==> cloned(xs@[#[trigger] ys@[k] as int], r@[k]),
{
    let mut r: Vec<T> = Vec::new();
    let mut k: usize = 0;
    while k < ys.len()
        invariant
            k <= ys@.len(), r@.len() == k,
            forall|j: int| 0 <= j < ys@.len() ==> (#[trigger] ys@[j] as int) < xs@.len(),
            forall|j: int| 0 <= j < k ==> cloned(xs@[#[trigger] ys@[j] as int], r@[j]),
        decreases ys@.len() - k,
    {
        let x = xs[ys[k]].clone();
        r.push(x);
        k = k + 1;
    }
    r
}

} // verus!
