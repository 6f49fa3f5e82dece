//! Laws of the ledger, stated over the views that the operations' contracts use.

use vstd::prelude::*;
use crate::database::{
    StoreView, can_add_run, can_resolve, has_key, is_owner, latest_runs, lemma_resolved, owned_runs, resolved,
    resolved_user, runs_of, same_key, scores_of, some_if_any, tally, users_of_chat, with_run,
};
use crate::models::{Run, UserRow};
use crate::ranking::{lemma_newest_sorted, lemma_sort_from, lemma_sort_keeps, lemma_insert_position, farthest_first, insert_by, newer, newer_order, newest_first};

verus! {

/// Resolving an identity twice leaves one row for it: the second resolution
/// changes nothing and gives the same identity, with the same id, and exactly
/// one row of the store has the key.
pub proof fn lemma_resolve_twice(v: StoreView, name: Seq<char>, tg: i64, chat: Seq<char>)
    requires
        v.wf(),
        can_resolve(v, name, tg, chat),
    ensures
        resolved(resolved(v, name, tg, chat), name, tg, chat) == resolved(v, name, tg, chat),
        resolved_user(resolved(v, name, tg, chat), name, tg, chat) == resolved_user(v, name, tg, chat),
        exists|a: int|
            0 <= a < resolved(v, name, tg, chat).users.len() && #[trigger] resolved(v, name, tg, chat).users[a]
                == resolved_user(v, name, tg, chat) && has_key(resolved(v, name, tg, chat).users[a], name, tg, chat),
        forall|a: int, b: int|
            0 <= a < resolved(v, name, tg, chat).users.len() && 0 <= b < resolved(v, name, tg, chat).users.len()
                && has_key(#[trigger] resolved(v, name, tg, chat).users[a], name, tg, chat) && has_key(
                #[trigger] resolved(v, name, tg, chat).users[b],
                name,
                tg,
                chat,
            ) ==> a == b,
{
    lemma_resolved(v, name, tg, chat);
    let w = resolved(v, name, tg, chat);
    let j = choose|k: int| 0 <= k < w.users.len() && has_key(#[trigger] w.users[k], name, tg, chat);
    assert(w.users[j] == resolved_user(v, name, tg, chat));
    assert forall|a: int, b: int|
        0 <= a < w.users.len() && 0 <= b < w.users.len() && has_key(#[trigger] w.users[a], name, tg, chat)
            && has_key(#[trigger] w.users[b], name, tg, chat) implies a == b by {
        if a != b {
            assert(!same_key(w.users[a], w.users[b]));
        }
    }
}

/// Each run that `owned_runs` keeps is one of `runs`.
proof fn lemma_owned_from(runs: Seq<Run>, owners: Seq<UserRow>)
    ensures
        forall|i: int| 0 <= i < owned_runs(runs, owners).len() ==> runs.contains(#[trigger] owned_runs(runs, owners)[i]),
    decreases runs.len(),
{
    if runs.len() > 0 {
        let d = runs.drop_last();
        lemma_owned_from(d, owners);
        let o = owned_runs(runs, owners);
        assert forall|i: int| 0 <= i < o.len() implies runs.contains(#[trigger] o[i]) by {
            if i < owned_runs(d, owners).len() {
                assert(o[i] == owned_runs(d, owners)[i]);
                let j = choose|j: int| 0 <= j < d.len() && d[j] == o[i];
                assert(runs[j] == o[i]);
            } else {
                assert(o[i] == runs[runs.len() - 1]);
            }
        }
    }
}

/// Whether no two runs of `s` share an id.
pub open spec fn distinct_ids(s: Seq<Run>) -> bool {
    forall|a: int, b: int| 0 <= a < s.len() && 0 <= b < s.len() && a != b ==> #[trigger] s[a].id != #[trigger] s[b].id
}

proof fn lemma_owned_distinct(runs: Seq<Run>, owners: Seq<UserRow>)
    requires
        distinct_ids(runs),
    ensures
        distinct_ids(owned_runs(runs, owners)),
    decreases runs.len(),
{
    if runs.len() > 0 {
        let d = runs.drop_last();
        assert(distinct_ids(d)) by {
            assert forall|a: int, b: int| 0 <= a < d.len() && 0 <= b < d.len() && a != b implies #[trigger] d[a].id
                != #[trigger] d[b].id by {
                assert(d[a] == runs[a] && d[b] == runs[b]);
            }
        }
        lemma_owned_distinct(d, owners);
        lemma_owned_from(d, owners);
        let od = owned_runs(d, owners);
        let x = runs.last();
        assert forall|i: int| 0 <= i < od.len() implies #[trigger] od[i].id != x.id by {
            assert(d.contains(od[i]));
            let j = choose|j: int| 0 <= j < d.len() && d[j] == od[i];
            assert(runs[j] == od[i]);
        }
    }
}

proof fn lemma_newest_distinct(s: Seq<Run>)
    requires
        distinct_ids(s),
    ensures
        distinct_ids(newest_first(s)),
    decreases s.len(),
{
    if s.len() > 0 {
        let d = s.drop_last();
        let x = s.last();
        assert(distinct_ids(d)) by {
            assert forall|a: int, b: int| 0 <= a < d.len() && 0 <= b < d.len() && a != b implies #[trigger] d[a].id
                != #[trigger] d[b].id by {
                assert(d[a] == s[a] && d[b] == s[b]);
            }
        }
        lemma_newest_distinct(d);
        let t = newest_first(d);
        lemma_sort_from(d, newer_order());
        assert forall|i: int| 0 <= i < t.len() implies #[trigger] t[i].id != x.id by {
            assert(d.contains(t[i]));
            let j = choose|j: int| 0 <= j < d.len() && d[j] == t[i];
            assert(s[j] == t[i]);
        }
        lemma_insert_position(t, x, newer_order());
        let p = choose|p: int|
            0 <= p <= t.len() && (forall|k: int| 0 <= k < p ==> !newer_order()(x, #[trigger] t[k])) && (p
                < t.len() ==> newer_order()(x, t[p])) && insert_by(t, x, newer_order()) == t.insert(p, x);
        let r = newest_first(s);
        assert(r == t.insert(p, x));
        assert forall|a: int, b: int| 0 <= a < r.len() && 0 <= b < r.len() && a != b implies #[trigger] r[a].id
            != #[trigger] r[b].id by {
            let a0 = if a < p { a } else { a - 1 };
            let b0 = if b < p { b } else { b - 1 };
            if a != p && b != p {
                assert(r[a] == t[a0] && r[b] == t[b0]);
            } else if a == p {
                assert(r[b] == t[b0]);
            } else {
                assert(r[a] == t[a0]);
            }
        }
    }
}

/// A listing of a chat's runs holds at most `limit` runs, and each was
/// submitted strictly later than the next one: at a later time, or at the
/// same time under a higher id.
pub proof fn lemma_listing_order(v: StoreView, chat: Seq<char>, limit: int)
    requires
        v.wf(),
        limit >= 0,
    ensures
        latest_runs(v.runs, users_of_chat(v.users, chat), limit).len() <= limit,
        forall|i: int, j: int|
            0 <= i < j < latest_runs(v.runs, users_of_chat(v.users, chat), limit).len() ==> newer(
                #[trigger] latest_runs(v.runs, users_of_chat(v.users, chat), limit)[i],
                #[trigger] latest_runs(v.runs, users_of_chat(v.users, chat), limit)[j],
            ),
{
    let owners = users_of_chat(v.users, chat);
    assert(distinct_ids(v.runs)) by {
        assert forall|a: int, b: int| 0 <= a < v.runs.len() && 0 <= b < v.runs.len() && a != b implies #[trigger] v.runs[a].id
            != #[trigger] v.runs[b].id by {
            if a < b {
                assert(v.runs[a].id < v.runs[b].id);
            } else {
                assert(v.runs[b].id < v.runs[a].id);
            }
        }
    }
    let o = owned_runs(v.runs, owners);
    let s = newest_first(o);
    lemma_owned_distinct(v.runs, owners);
    lemma_newest_distinct(o);
    lemma_newest_sorted(o);
    let l = latest_runs(v.runs, owners, limit);
    assert forall|i: int, j: int| 0 <= i < j < l.len() implies newer(#[trigger] l[i], #[trigger] l[j]) by {
        assert(l[i] == s[i] && l[j] == s[j]);
        assert(!newer(s[j], s[i]));
        assert(s[i].id != s[j].id);
    }
}

proof fn lemma_runs_of_none(runs: Seq<Run>, uid: i32)
    requires
        forall|k: int| 0 <= k < runs.len() ==> #[trigger] runs[k].user_id != uid,
    ensures
        runs_of(runs, uid).len() == 0,
    decreases runs.len(),
{
    if runs.len() > 0 {
        lemma_runs_of_none(runs.drop_last(), uid);
    }
}

proof fn lemma_no_scores(users: Seq<UserRow>, runs: Seq<Run>)
    requires
        forall|k: int| 0 <= k < runs.len() ==> !is_owner(users, #[trigger] runs[k].user_id),
    ensures
        scores_of(users, runs).len() == 0,
    decreases users.len(),
{
    if users.len() > 0 {
        let d = users.drop_last();
        assert forall|k: int| 0 <= k < runs.len() implies !is_owner(d, #[trigger] runs[k].user_id) by {
            if is_owner(d, runs[k].user_id) {
                let j = choose|j: int| 0 <= j < d.len() && #[trigger] d[j].id == runs[k].user_id;
                assert(users[j].id == runs[k].user_id);
            }
        }
        lemma_no_scores(d, runs);
        assert forall|k: int| 0 <= k < runs.len() implies #[trigger] runs[k].user_id != users.last().id by {
            assert(users[users.len() - 1].id == users.last().id);
        }
        lemma_runs_of_none(runs, users.last().id);
    }
}

/// A tally of identities none of which has a run is "no data", not an empty
/// sequence.
pub proof fn lemma_tally_without_runs(users: Seq<UserRow>, runs: Seq<Run>)
    requires
        forall|k: int| 0 <= k < runs.len() ==> !is_owner(users, #[trigger] runs[k].user_id),
    ensures
        tally(users, runs) is None,
{
    lemma_no_scores(users, runs);
    assert(farthest_first(scores_of(users, runs)).len() == 0);
}

/// Listing the identities of a chat gives "no data" where it has none, and a
/// one-element sequence where it has exactly one; likewise for its runs,
/// with a limit of at least one.
pub proof fn lemma_listing_sizes(users: Seq<UserRow>, chat: Seq<char>, runs: Seq<Run>, limit: int)
    requires
        limit >= 0,
    ensures
        users_of_chat(users, chat).len() == 0 ==> some_if_any(users_of_chat(users, chat)) is None,
        users_of_chat(users, chat).len() == 1 ==> some_if_any(users_of_chat(users, chat)) == Some(
            users_of_chat(users, chat),
        ) && users_of_chat(users, chat).len() == 1,
        owned_runs(runs, users_of_chat(users, chat)).len() == 0 ==> some_if_any(
            latest_runs(runs, users_of_chat(users, chat), limit),
        ) is None,
        owned_runs(runs, users_of_chat(users, chat)).len() == 1 && limit >= 1 ==> some_if_any(
            latest_runs(runs, users_of_chat(users, chat), limit),
        ) == Some(owned_runs(runs, users_of_chat(users, chat))),
{
    let o = owned_runs(runs, users_of_chat(users, chat));
    lemma_sort_from(o, newer_order());
    if o.len() == 1 {
        assert(o.contains(newest_first(o)[0]));
        assert(newest_first(o) =~= o);
    }
}

proof fn lemma_chat_member(users: Seq<UserRow>, chat: Seq<char>, k: int)
    requires
        0 <= k < users.len(),
        users[k].chat_id == chat,
    ensures
        users_of_chat(users, chat).contains(users[k]),
    decreases users.len(),
{
    let c = users_of_chat(users, chat);
    if k == users.len() - 1 {
        assert(c[c.len() - 1] == users[k]);
    } else {
        let d = users.drop_last();
        assert(d[k] == users[k]);
        lemma_chat_member(d, chat, k);
        let j = choose|j: int| 0 <= j < users_of_chat(d, chat).len() && users_of_chat(d, chat)[j] == users[k];
        assert(c[j] == users[k]);
    }
}

/// Submitting a run and then listing the chat's runs, with a limit of at
/// least one, lists that run first, with the distance exactly as submitted,
/// provided the clock has not gone back behind a run already stored.
pub proof fn lemma_submit_then_list(
    v: StoreView,
    distance: u32,
    name: Seq<char>,
    tg: i64,
    chat: Seq<char>,
    now: i64,
    limit: int,
)
    requires
        v.wf(),
        can_resolve(v, name, tg, chat),
        can_add_run(resolved(v, name, tg, chat), resolved_user(v, name, tg, chat).id),
        forall|k: int| 0 <= k < v.runs.len() ==> (#[trigger] v.runs[k]).run_datetime is Some && v.runs[k].run_datetime->0 <= now,
        limit >= 1,
    ensures
        ({
            let w = with_run(resolved(v, name, tg, chat), distance, resolved_user(v, name, tg, chat).id, now);
            let l = latest_runs(w.runs, users_of_chat(w.users, chat), limit);
            &&& l.len() >= 1
            &&& l[0] == Run {
                id: v.next_run_id as i32,
                distance,
                run_datetime: Some(now),
                user_id: resolved_user(v, name, tg, chat).id,
            }
            &&& l[0].distance == distance
        }),
{
    lemma_resolved(v, name, tg, chat);
    let rv = resolved(v, name, tg, chat);
    let u = resolved_user(v, name, tg, chat);
    let w = with_run(rv, distance, u.id, now);
    let n = Run { id: v.next_run_id as i32, distance, run_datetime: Some(now), user_id: u.id };
    let cu = users_of_chat(w.users, chat);
    let k = choose|k: int| 0 <= k < rv.users.len() && has_key(#[trigger] rv.users[k], name, tg, chat);
    assert(rv.users[k] == u);
    lemma_chat_member(w.users, chat, k);
    let j = choose|j: int| 0 <= j < cu.len() && cu[j] == u;
    assert(is_owner(cu, n.user_id)) by {
        assert(cu[j].id == n.user_id);
    }
    assert(w.runs.drop_last() =~= rv.runs);
    let o = owned_runs(w.runs, cu);
    let od = owned_runs(rv.runs, cu);
    assert(o == od.push(n));
    lemma_owned_from(rv.runs, cu);
    let s = newest_first(o);
    lemma_sort_from(o, newer_order());
    lemma_sort_keeps(o, newer_order());
    lemma_newest_sorted(o);
    assert(o[o.len() - 1] == n);
    assert(s.contains(n));
    let p = choose|p: int| 0 <= p < s.len() && s[p] == n;
    assert(s[0] == n) by {
        assert(o.contains(s[0]));
        let q = choose|q: int| 0 <= q < o.len() && o[q] == s[0];
        if q < od.len() {
            assert(o[q] == od[q]);
            assert(rv.runs.contains(od[q]));
            let m = choose|m: int| 0 <= m < rv.runs.len() && rv.runs[m] == od[q];
            assert(rv.runs[m] == v.runs[m]);
            assert(newer(n, s[0]));
            assert(p != 0);
            assert(!newer(s[p], s[0]));
        }
    }
}

} // verus!
