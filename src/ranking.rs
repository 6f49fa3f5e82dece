//! Stable insertion order, and the two orders the ledger ranks rows by: runs
//! newest first, scores farthest first.

use vstd::prelude::*;
use crate::models::{Run, ScoreRow};

verus! {

/// `x` placed into `t` before the first element that it comes before, or at
/// the end: one step of a stable insertion sort.
pub open spec fn insert_by<T>(t: Seq<T>, x: T, before: spec_fn(T, T) -> bool) -> Seq<T>
    decreases t.len(),
{
    if t.len() == 0 {
        seq![x]
    } else if before(x, t[0]) {
        seq![x] + t
    } else {
        seq![t[0]] + insert_by(t.drop_first(), x, before)
    }
}

/// `s` sorted by `before`, stably: each element is placed, in the order of
/// `s`, before the first already placed that it comes before.
pub open spec fn sort_by<T>(s: Seq<T>, before: spec_fn(T, T) -> bool) -> Seq<T>
    decreases s.len(),
{
    if s.len() == 0 {
        s
    } else {
        insert_by(sort_by(s.drop_last(), before), s.last(), before)
    }
}

/// Inserting at the first position whose element `x` comes before is one
/// step of `insert_by`.
pub proof fn lemma_insert_at<T>(t: Seq<T>, x: T, before: spec_fn(T, T) -> bool, p: int)
    requires
        0 <= p <= t.len(),
        forall|k: int| 0 <= k < p ==> !before(x, #[trigger] t[k]),
        p < t.len() ==> before(x, t[p]),
    ensures
        insert_by(t, x, before) == t.insert(p, x),
    decreases t.len(),
{
    if t.len() == 0 {
        assert(t.insert(p, x) =~= seq![x]);
    } else if p == 0 {
        assert(t.insert(p, x) =~= seq![x] + t);
    } else {
        let u = t.drop_first();
        assert forall|k: int| 0 <= k < p - 1 implies !before(x, #[trigger] u[k]) by {
            assert(u[k] == t[k + 1]);
        }
        lemma_insert_at(u, x, before, p - 1);
        assert(t.insert(p, x) =~= seq![t[0]] + u.insert(p - 1, x));
    }
}

/// The time a run is ordered by: a run without a timestamp counts as newer
/// than every run with one.
pub open spec fn stamp_key(r: Run) -> int {
    match r.run_datetime {
        Some(t) => t as int,
        None => i64::MAX + 1,
    }
}

/// `a` is listed before `b`: it was submitted later, or at the same time
/// under a higher id.
pub open spec fn newer(a: Run, b: Run) -> bool {
    stamp_key(a) > stamp_key(b) || (stamp_key(a) == stamp_key(b) && a.id > b.id)
}

/// The order of runs, newest first, as a relation.
pub open spec fn newer_order() -> spec_fn(Run, Run) -> bool {
    |a: Run, b: Run| newer(a, b)
}

/// Runs, newest first.
pub open spec fn newest_first(s: Seq<Run>) -> Seq<Run> {
    sort_by(s, newer_order())
}

/// `a` is ranked before `b`: it covers a greater distance.
pub open spec fn farther(a: ScoreRow, b: ScoreRow) -> bool {
    a.distance > b.distance
}

/// The order of scores, farthest first, as a relation.
pub open spec fn farther_order() -> spec_fn(ScoreRow, ScoreRow) -> bool {
    |a: ScoreRow, b: ScoreRow| farther(a, b)
}

/// Scores, farthest first; equal distances keep their order.
pub open spec fn farthest_first(s: Seq<ScoreRow>) -> Seq<ScoreRow> {
    sort_by(s, farther_order())
}

/// Whether `a` is listed before `b`.
pub fn is_newer(a: &Run, b: &Run) -> (r: bool)
    ensures
        r == newer(*a, *b),
{
    match (a.run_datetime, b.run_datetime) {
        (None, None) => a.id > b.id,
        (None, Some(_)) => true,
        (Some(_), None) => false,
        (Some(x), Some(y)) => x > y || (x == y && a.id > b.id),
    }
}

/// `runs` sorted newest first.
pub fn sort_newest_first(runs: &Vec<Run>) -> (r: Vec<Run>)
    ensures
        r@ == newest_first(runs@),
{
    let mut out: Vec<Run> = Vec::new();
    let mut i: usize = 0;
    while i < runs.len()
        invariant
            i <= runs.len(),
            out@ == sort_by(runs@.take(i as int), newer_order()),
        decreases runs.len() - i,
    {
        let x = runs[i];
        let mut p: usize = 0;
        while p < out.len() && !is_newer(&x, &out[p])
            invariant
                p <= out.len(),
                forall|k: int| 0 <= k < p ==> !newer_order()(x, #[trigger] out@[k]),
            decreases out.len() - p,
        {
            p = p + 1;
        }
        proof {
            lemma_insert_at(out@, x, newer_order(), p as int);
            assert(runs@.take(i + 1).drop_last() =~= runs@.take(i as int));
        }
        out.insert(p, x);
        i = i + 1;
    }
    assert(runs@.take(runs.len() as int) =~= runs@);
    out
}

/// `insert_by` places `x` at a position before which `x` comes before no
/// element, and whose element, if any, `x` comes before.
pub proof fn lemma_insert_position<T>(t: Seq<T>, x: T, before: spec_fn(T, T) -> bool)
    ensures
        exists|p: int|
            0 <= p <= t.len() && (forall|k: int| 0 <= k < p ==> !before(x, #[trigger] t[k])) && (p
                < t.len() ==> before(x, t[p])) && insert_by(t, x, before) == t.insert(p, x),
    decreases t.len(),
{
    if t.len() == 0 {
        lemma_insert_at(t, x, before, 0);
    } else if before(x, t[0]) {
        lemma_insert_at(t, x, before, 0);
    } else {
        let u = t.drop_first();
        lemma_insert_position(u, x, before);
        let q = choose|q: int|
            0 <= q <= u.len() && (forall|k: int| 0 <= k < q ==> !before(x, #[trigger] u[k])) && (q
                < u.len() ==> before(x, u[q])) && insert_by(u, x, before) == u.insert(q, x);
        assert forall|k: int| 0 <= k < q + 1 implies !before(x, #[trigger] t[k]) by {
            if k > 0 {
                assert(t[k] == u[k - 1]);
            }
        }
        lemma_insert_at(t, x, before, q + 1);
    }
}

/// Sorting keeps the number of elements, and each element of the result is
/// one of `s`.
pub proof fn lemma_sort_from<T>(s: Seq<T>, before: spec_fn(T, T) -> bool)
    ensures
        sort_by(s, before).len() == s.len(),
        forall|i: int| 0 <= i < s.len() ==> s.contains(#[trigger] sort_by(s, before)[i]),
    decreases s.len(),
{
    if s.len() > 0 {
        let d = s.drop_last();
        let x = s.last();
        let t = sort_by(d, before);
        lemma_sort_from(d, before);
        lemma_insert_position(t, x, before);
        let p = choose|p: int|
            0 <= p <= t.len() && (forall|k: int| 0 <= k < p ==> !before(x, #[trigger] t[k])) && (p
                < t.len() ==> before(x, t[p])) && insert_by(t, x, before) == t.insert(p, x);
        let r = sort_by(s, before);
        assert(r == t.insert(p, x));
        assert forall|i: int| 0 <= i < s.len() implies s.contains(#[trigger] r[i]) by {
            if i == p {
                assert(r[i] == s[s.len() - 1]);
            } else {
                let i0 = if i < p { i } else { i - 1 };
                assert(r[i] == t[i0]);
                assert(d.contains(t[i0]));
                let j = choose|j: int| 0 <= j < d.len() && d[j] == t[i0];
                assert(s[j] == r[i]);
            }
        }
    }
}

/// Each element of `s` is one of the result of sorting it.
pub proof fn lemma_sort_keeps<T>(s: Seq<T>, before: spec_fn(T, T) -> bool)
    ensures
        forall|j: int| 0 <= j < s.len() ==> sort_by(s, before).contains(#[trigger] s[j]),
    decreases s.len(),
{
    if s.len() > 0 {
        let d = s.drop_last();
        let x = s.last();
        let t = sort_by(d, before);
        lemma_sort_keeps(d, before);
        lemma_insert_position(t, x, before);
        let p = choose|p: int|
            0 <= p <= t.len() && (forall|k: int| 0 <= k < p ==> !before(x, #[trigger] t[k])) && (p
                < t.len() ==> before(x, t[p])) && insert_by(t, x, before) == t.insert(p, x);
        let r = sort_by(s, before);
        assert(r == t.insert(p, x));
        assert forall|j: int| 0 <= j < s.len() implies r.contains(#[trigger] s[j]) by {
            if j == s.len() - 1 {
                assert(r[p] == s[j]);
            } else {
                assert(s[j] == d[j]);
                assert(t.contains(d[j]));
                let i0 = choose|i: int| 0 <= i < t.len() && t[i] == d[j];
                let i = if i0 < p { i0 } else { i0 + 1 };
                assert(r[i] == s[j]);
            }
        }
    }
}

/// No run in a list sorted newest first is newer than one listed before it.
pub proof fn lemma_newest_sorted(s: Seq<Run>)
    ensures
        forall|a: int, b: int|
            0 <= a < b < newest_first(s).len() ==> !newer(#[trigger] newest_first(s)[b], #[trigger] newest_first(s)[a]),
    decreases s.len(),
{
    if s.len() > 0 {
        let d = s.drop_last();
        let x = s.last();
        let t = newest_first(d);
        lemma_newest_sorted(d);
        lemma_insert_position(t, x, newer_order());
        let p = choose|p: int|
            0 <= p <= t.len() && (forall|k: int| 0 <= k < p ==> !newer_order()(x, #[trigger] t[k])) && (p
                < t.len() ==> newer_order()(x, t[p])) && insert_by(t, x, newer_order()) == t.insert(p, x);
        let r = newest_first(s);
        assert(r == t.insert(p, x));
        assert forall|a: int, b: int| 0 <= a < b < r.len() implies !newer(#[trigger] r[b], #[trigger] r[a]) by {
            if a == p {
                let b0 = b - 1;
                assert(r[b] == t[b0]);
                assert(newer(x, t[p]));
                if b0 > p {
                    assert(!newer(t[b0], t[p]));
                }
            } else if b == p {
                assert(r[a] == t[a]);
                assert(!newer_order()(x, t[a]));
            } else {
                let a0 = if a < p { a } else { a - 1 };
                let b0 = if b < p { b } else { b - 1 };
                assert(r[a] == t[a0]);
                assert(r[b] == t[b0]);
            }
        }
    }
}

} // verus!
