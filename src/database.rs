//! The ledger's rules over its rows: which identities belong to a chat, which
//! runs a chat lists and in what order, who may change a run, and the tally.

use vstd::prelude::*;
use crate::models::{Run, Score, ScoreRow, User, UserRow, score_rows, user_rows};
use crate::ranking::{farther_order, farthest_first, lemma_insert_at, newest_first, sort_newest_first};

verus! {

/// A sequence viewed as "no data" when it is empty.
pub open spec fn some_if_any<T>(s: Seq<T>) -> Option<Seq<T>> {
    if s.len() == 0 {
        None
    } else {
        Some(s)
    }
}

/// The identities of `users` that belong to chat `chat`, in order.
pub open spec fn users_of_chat(users: Seq<UserRow>, chat: Seq<char>) -> Seq<UserRow>
    decreases users.len(),
{
    if users.len() == 0 {
        users
    } else {
        let rest = users_of_chat(users.drop_last(), chat);
        if users.last().chat_id == chat {
            rest.push(users.last())
        } else {
            rest
        }
    }
}

/// Whether `uid` is the id of one of `owners`.
pub open spec fn is_owner(owners: Seq<UserRow>, uid: i32) -> bool {
    exists|k: int| 0 <= k < owners.len() && #[trigger] owners[k].id == uid
}

/// The runs of `runs` that one of `owners` submitted, in order.
pub open spec fn owned_runs(runs: Seq<Run>, owners: Seq<UserRow>) -> Seq<Run>
    decreases runs.len(),
{
    if runs.len() == 0 {
        runs
    } else {
        let rest = owned_runs(runs.drop_last(), owners);
        if is_owner(owners, runs.last().user_id) {
            rest.push(runs.last())
        } else {
            rest
        }
    }
}

/// The at most `limit` newest runs that one of `owners` submitted, newest first.
pub open spec fn latest_runs(runs: Seq<Run>, owners: Seq<UserRow>, limit: int) -> Seq<Run> {
    let s = newest_first(owned_runs(runs, owners));
    if limit < s.len() {
        s.take(limit)
    } else {
        s
    }
}

/// The runs of `runs` that identity `uid` submitted, in order.
pub open spec fn runs_of(runs: Seq<Run>, uid: i32) -> Seq<Run>
    decreases runs.len(),
{
    if runs.len() == 0 {
        runs
    } else {
        let rest = runs_of(runs.drop_last(), uid);
        if runs.last().user_id == uid {
            rest.push(runs.last())
        } else {
            rest
        }
    }
}

/// The summed distance of `runs`, in metres.
pub open spec fn total_distance(runs: Seq<Run>) -> nat
    decreases runs.len(),
{
    if runs.len() == 0 {
        0
    } else {
        total_distance(runs.drop_last()) + runs.last().distance as nat
    }
}

/// The score of identity `u`: its name, its number of runs, and their summed distance.
pub open spec fn score_of(u: UserRow, runs: Seq<Run>) -> ScoreRow {
    ScoreRow {
        user_name: u.user_name,
        medals: runs_of(runs, u.id).len() as u32,
        distance: total_distance(runs_of(runs, u.id)) as u64,
    }
}

/// The scores of the identities of `users` that have at least one run, in
/// the order of `users`.
pub open spec fn scores_of(users: Seq<UserRow>, runs: Seq<Run>) -> Seq<ScoreRow>
    decreases users.len(),
{
    if users.len() == 0 {
        seq![]
    } else {
        let rest = scores_of(users.drop_last(), runs);
        if runs_of(runs, users.last().id).len() > 0 {
            rest.push(score_of(users.last(), runs))
        } else {
            rest
        }
    }
}

/// The tally of `users` over `runs`: their scores, farthest first, or no
/// data when none of them has a run.
pub open spec fn tally(users: Seq<UserRow>, runs: Seq<Run>) -> Option<Seq<ScoreRow>> {
    some_if_any(farthest_first(scores_of(users, runs)))
}

/// Whether a run with id `run_id` exists in `runs` and was submitted by an
/// identity of `users` whose platform id is `telegram_userid`.
pub open spec fn owns_run(users: Seq<UserRow>, runs: Seq<Run>, run_id: i32, telegram_userid: i64) -> bool {
    exists|k: int, j: int|
        0 <= k < runs.len() && 0 <= j < users.len() && #[trigger] runs[k].id == run_id
            && #[trigger] users[j].id == runs[k].user_id && users[j].telegram_userid == telegram_userid
}

/// An optional vector of users, viewed as rows.
pub open spec fn opt_user_rows(o: Option<Vec<User>>) -> Option<Seq<UserRow>> {
    match o {
        Some(v) => Some(user_rows(v@)),
        None => None,
    }
}

/// An optional vector of runs, viewed as a sequence.
pub open spec fn opt_runs(o: Option<Vec<Run>>) -> Option<Seq<Run>> {
    match o {
        Some(v) => Some(v@),
        None => None,
    }
}

/// An optional vector of scores, viewed as rows.
pub open spec fn opt_score_rows(o: Option<Vec<Score>>) -> Option<Seq<ScoreRow>> {
    match o {
        Some(v) => Some(score_rows(v@)),
        None => None,
    }
}


/// The identities of `users` that belong to chat `chat_id`, or `None` when
/// there are none.
pub fn users_in_chat(users: &Vec<User>, chat_id: &str) -> (r: Option<Vec<User>>)
    ensures
        opt_user_rows(r) == some_if_any(users_of_chat(user_rows(users@), chat_id@)),
{
    let chat: String = chat_id.to_owned();
    let mut out: Vec<User> = Vec::new();
    let mut i: usize = 0;
    while i < users.len()
        invariant
            i <= users.len(),
            chat@ == chat_id@,
            user_rows(out@) == users_of_chat(user_rows(users@.take(i as int)), chat_id@),
        decreases users.len() - i,
    {
        proof {
            assert(user_rows(users@.take(i + 1)).drop_last() =~= user_rows(users@.take(i as int)));
        }
        if users[i].chat_id == chat {
            let u = users[i].clone();
            proof {
                assert(user_rows(out@.push(u)) =~= user_rows(out@).push(u@));
            }
            out.push(u);
        }
        i = i + 1;
    }
    assert(users@.take(users.len() as int) =~= users@);
    if out.len() == 0 {
        None
    } else {
        Some(out)
    }
}

/// Whether `uid` is the id of one of `owners`.
fn has_owner(owners: &Vec<User>, uid: i32) -> (r: bool)
    ensures
        r == is_owner(user_rows(owners@), uid),
{
    let mut k: usize = 0;
    while k < owners.len()
        invariant
            k <= owners.len(),
            forall|j: int| 0 <= j < k ==> owners@[j].id != uid,
        decreases owners.len() - k,
    {
        if owners[k].id == uid {
            assert(user_rows(owners@)[k as int].id == uid);
            return true;
        }
        k = k + 1;
    }
    assert forall|j: int| 0 <= j < owners@.len() implies #[trigger] user_rows(owners@)[j].id != uid by {
        assert(owners@[j].id != uid);
    }
    false
}

/// The at most `limit` newest runs of `runs` that one of `owners` submitted,
/// newest first, or `None` when there are none.
pub fn recent_runs(runs: &Vec<Run>, owners: &Vec<User>, limit: i64) -> (r: Option<Vec<Run>>)
    requires
        limit >= 0,
    ensures
        opt_runs(r) == some_if_any(latest_runs(runs@, user_rows(owners@), limit as int)),
{
    let ghost rows = user_rows(owners@);
    let mut sel: Vec<Run> = Vec::new();
    let mut i: usize = 0;
    while i < runs.len()
        invariant
            i <= runs.len(),
            rows == user_rows(owners@),
            sel@ == owned_runs(runs@.take(i as int), rows),
        decreases runs.len() - i,
    {
        proof {
            assert(runs@.take(i + 1).drop_last() =~= runs@.take(i as int));
        }
        if has_owner(owners, runs[i].user_id) {
            sel.push(runs[i]);
        }
        i = i + 1;
    }
    assert(runs@.take(runs.len() as int) =~= runs@);
    let mut sorted = sort_newest_first(&sel);
    if (limit as u64) < (sorted.len() as u64) {
        sorted.truncate(limit as usize);
    }
    if sorted.len() == 0 {
        None
    } else {
        Some(sorted)
    }
}

proof fn lemma_total_bound(s: Seq<Run>)
    ensures
        total_distance(s) <= s.len() * 4294967295,
    decreases s.len(),
{
    if s.len() > 0 {
        lemma_total_bound(s.drop_last());
    }
}

/// Counts and sums the runs of identity `uid`.
fn score_parts(runs: &Vec<Run>, uid: i32) -> (r: (u32, u64))
    requires
        runs@.len() <= u32::MAX,
    ensures
        r.0 == runs_of(runs@, uid).len(),
        r.1 == total_distance(runs_of(runs@, uid)),
{
    let mut count: u32 = 0;
    let mut sum: u64 = 0;
    let mut i: usize = 0;
    while i < runs.len()
        invariant
            i <= runs.len(),
            runs@.len() <= u32::MAX,
            count == runs_of(runs@.take(i as int), uid).len(),
            count <= i,
            sum == total_distance(runs_of(runs@.take(i as int), uid)),
        decreases runs.len() - i,
    {
        proof {
            assert(runs@.take(i + 1).drop_last() =~= runs@.take(i as int));
            let r0 = runs_of(runs@.take(i as int), uid);
            assert(r0.push(runs@[i as int]).drop_last() =~= r0);
            lemma_total_bound(r0);
            assert(sum + runs@[i as int].distance <= (count + 1) * 4294967295) by (nonlinear_arith)
                requires
                    sum <= count * 4294967295,
                    runs@[i as int].distance <= 4294967295,
            ;
            assert((count + 1) * 4294967295 <= 4294967296 * 4294967295) by (nonlinear_arith)
                requires
                    count < 4294967295,
            ;
        }
        if runs[i].user_id == uid {
            count = count + 1;
            sum = sum + runs[i].distance as u64;
        }
        i = i + 1;
    }
    assert(runs@.take(runs.len() as int) =~= runs@);
    (count, sum)
}

/// The tally of `users` over `runs`: for each identity with at least one run,
/// its name, number of runs and summed distance, farthest first (equal
/// distances in the order of `users`); `None` when no identity has a run.
pub fn tally_scores(users: &Vec<User>, runs: &Vec<Run>) -> (r: Option<Vec<Score>>)
    requires
        runs@.len() <= u32::MAX,
    ensures
        opt_score_rows(r) == tally(user_rows(users@), runs@),
{
    let mut out: Vec<Score> = Vec::new();
    let mut i: usize = 0;
    while i < users.len()
        invariant
            i <= users.len(),
            runs@.len() <= u32::MAX,
            score_rows(out@) == farthest_first(scores_of(user_rows(users@.take(i as int)), runs@)),
        decreases users.len() - i,
    {
        let ghost prev = scores_of(user_rows(users@.take(i as int)), runs@);
        proof {
            assert(user_rows(users@.take(i + 1)).drop_last() =~= user_rows(users@.take(i as int)));
            assert(user_rows(users@.take(i + 1)).last() == users@[i as int]@);
        }
        let (medals, distance) = score_parts(runs, users[i].id);
        if medals > 0 {
            let s = Score { user_name: users[i].user_name.clone(), medals, distance };
            assert(s@ == score_of(users@[i as int]@, runs@));
            let mut p: usize = 0;
            while p < out.len() && !(s.distance > out[p].distance)
                invariant
                    p <= out.len(),
                    forall|k: int| 0 <= k < p ==> !farther_order()(s@, #[trigger] score_rows(out@)[k]),
                decreases out.len() - p,
            {
                p = p + 1;
            }
            proof {
                lemma_insert_at(score_rows(out@), s@, farther_order(), p as int);
                assert(prev.push(s@).drop_last() =~= prev);
            }
            let ghost before = score_rows(out@);
            out.insert(p, s);
            assert(score_rows(out@) =~= before.insert(p as int, s@));
        }
        i = i + 1;
    }
    assert(users@.take(users.len() as int) =~= users@);
    if out.len() == 0 {
        None
    } else {
        Some(out)
    }
}

/// Whether a run with id `run_id` exists in `runs` and was submitted by an
/// identity of `users` whose platform id is `telegram_userid`.
pub fn may_change_run(users: &Vec<User>, runs: &Vec<Run>, run_id: i32, telegram_userid: i64) -> (r: bool)
    ensures
        r == owns_run(user_rows(users@), runs@, run_id, telegram_userid),
{
    let ghost rows = user_rows(users@);
    let mut k: usize = 0;
    while k < runs.len()
        invariant
            k <= runs.len(),
            rows == user_rows(users@),
            forall|a: int, b: int|
                0 <= a < k && 0 <= b < rows.len() && #[trigger] runs@[a].id == run_id ==> !(
                #[trigger] rows[b].id == runs@[a].user_id && rows[b].telegram_userid
                    == telegram_userid),
        decreases runs.len() - k,
    {
        if runs[k].id == run_id {
            let mut j: usize = 0;
            while j < users.len()
                invariant
                    k < runs.len(),
                    j <= users.len(),
                    rows == user_rows(users@),
                    runs@[k as int].id == run_id,
                    forall|b: int|
                        0 <= b < j ==> !(#[trigger] rows[b].id == runs@[k as int].user_id
                            && rows[b].telegram_userid == telegram_userid),
                decreases users.len() - j,
            {
                if users[j].id == runs[k].user_id && users[j].telegram_userid == telegram_userid {
                    assert(rows[j as int].id == runs@[k as int].user_id);
                    return true;
                }
                j = j + 1;
            }
        }
        k = k + 1;
    }
    false
}

/// Why a write to the store failed.
#[derive(Clone, Copy, Debug, PartialEq, Eq, Structural)]
pub enum StoreError {
    /// The write would break a rule of the tables: a run for an unknown
    /// identity, or no id left to assign.
    ConstraintViolation,
    /// An identity that was just created could not be read back.
    IdentityNotResolvable,
}

/// What an edit or a delete did.
#[derive(Clone, Copy, Debug, PartialEq, Eq, Structural)]
pub enum Mutation {
    /// The run was changed.
    Applied,
    /// No run matched both the id and the requester: nothing changed.
    NoMatch,
}

/// The next step of resolving an identity against a store that may have to
/// create it: look it up, create it if absent, look it up again.
#[derive(Clone, Copy, Debug, PartialEq, Eq, Structural)]
pub enum ResolveStep {
    /// The identity exists, with this id.
    Resolved(i32),
    /// Create the identity, then look it up again.
    CreateUser,
    /// Give up with this error.
    Fail(StoreError),
}

/// Decides the next step of resolving an identity, from the result of
/// looking it up and whether it was created already.
pub fn resolve_step(found: Option<i32>, created: bool) -> (r: ResolveStep)
    ensures
        r == match found {
            Some(id) => ResolveStep::Resolved(id),
            None => if created {
                ResolveStep::Fail(StoreError::IdentityNotResolvable)
            } else {
                ResolveStep::CreateUser
            },
        },
{
    match found {
        Some(id) => ResolveStep::Resolved(id),
        None => if created {
            ResolveStep::Fail(StoreError::IdentityNotResolvable)
        } else {
            ResolveStep::CreateUser
        },
    }
}

/// The contents of a store: its identities, its runs, and the id the next run gets.
pub struct StoreView {
    pub users: Seq<UserRow>,
    pub runs: Seq<Run>,
    pub next_run_id: int,
}

/// Whether identity `u` has the key (display name, platform id, chat).
pub open spec fn has_key(u: UserRow, name: Seq<char>, tg: i64, chat: Seq<char>) -> bool {
    u.user_name == name && u.telegram_userid == tg && u.chat_id == chat
}

/// Whether two identities have the same key.
pub open spec fn same_key(a: UserRow, b: UserRow) -> bool {
    has_key(a, b.user_name, b.telegram_userid, b.chat_id)
}

impl StoreView {
    /// The tables' rules: identity ids are 1, 2, ... in order and keys are
    /// unique; run ids increase along the table and stay below the next id;
    /// every run belongs to an identity.
    pub open spec fn wf(self) -> bool {
        &&& self.users.len() <= i32::MAX
        &&& forall|k: int| 0 <= k < self.users.len() ==> #[trigger] self.users[k].id == k + 1
        &&& forall|a: int, b: int|
            0 <= a < self.users.len() && 0 <= b < self.users.len() && a != b ==> !same_key(
                #[trigger] self.users[a],
                #[trigger] self.users[b],
            )
        &&& 1 <= self.next_run_id <= i32::MAX
        &&& self.runs.len() < self.next_run_id
        &&& forall|a: int, b: int|
            0 <= a < b < self.runs.len() ==> #[trigger] self.runs[a].id < #[trigger] self.runs[b].id
        &&& forall|k: int|
            0 <= k < self.runs.len() ==> 1 <= #[trigger] self.runs[k].id < self.next_run_id
                && 1 <= self.runs[k].user_id <= self.users.len()
    }
}

/// The identity of `users` with the given key, if there is one.
pub open spec fn lookup(users: Seq<UserRow>, name: Seq<char>, tg: i64, chat: Seq<char>) -> Option<UserRow> {
    if exists|k: int| 0 <= k < users.len() && has_key(#[trigger] users[k], name, tg, chat) {
        Some(users[choose|k: int| 0 <= k < users.len() && has_key(#[trigger] users[k], name, tg, chat)])
    } else {
        None
    }
}

/// The identity that would be created next for the given key.
pub open spec fn new_identity(users: Seq<UserRow>, name: Seq<char>, tg: i64, chat: Seq<char>) -> UserRow {
    UserRow { id: (users.len() + 1) as i32, telegram_userid: tg, chat_id: chat, user_name: name }
}

/// Whether the identity with the given key exists or can be created.
pub open spec fn can_resolve(v: StoreView, name: Seq<char>, tg: i64, chat: Seq<char>) -> bool {
    lookup(v.users, name, tg, chat) is Some || v.users.len() < i32::MAX
}

/// The store once the identity with the given key exists.
pub open spec fn resolved(v: StoreView, name: Seq<char>, tg: i64, chat: Seq<char>) -> StoreView {
    if lookup(v.users, name, tg, chat) is Some {
        v
    } else {
        StoreView { users: v.users.push(new_identity(v.users, name, tg, chat)), ..v }
    }
}

/// The identity with the given key, once it exists.
pub open spec fn resolved_user(v: StoreView, name: Seq<char>, tg: i64, chat: Seq<char>) -> UserRow {
    match lookup(v.users, name, tg, chat) {
        Some(u) => u,
        None => new_identity(v.users, name, tg, chat),
    }
}

/// Whether a run can be added for identity `user_id`.
pub open spec fn can_add_run(v: StoreView, user_id: i32) -> bool {
    1 <= user_id <= v.users.len() && v.next_run_id < i32::MAX
}

/// The store with one more run, stamped `now` and given the next id.
pub open spec fn with_run(v: StoreView, distance: u32, user_id: i32, now: i64) -> StoreView {
    StoreView {
        runs: v.runs.push(
            Run { id: v.next_run_id as i32, distance, run_datetime: Some(now), user_id },
        ),
        next_run_id: v.next_run_id + 1,
        ..v
    }
}

/// `runs` with the distance of the run with id `run_id` set to `distance`.
pub open spec fn edited(runs: Seq<Run>, run_id: i32, distance: u32) -> Seq<Run> {
    runs.map_values(
        |r: Run|
            if r.id == run_id {
                Run { distance, ..r }
            } else {
                r
            },
    )
}

/// `runs` without the run with id `run_id`.
pub open spec fn without(runs: Seq<Run>, run_id: i32) -> Seq<Run>
    decreases runs.len(),
{
    if runs.len() == 0 {
        runs
    } else {
        let rest = without(runs.drop_last(), run_id);
        if runs.last().id == run_id {
            rest
        } else {
            rest.push(runs.last())
        }
    }
}

/// The ledger's tables, held in memory: identities and runs.
pub struct Store {
    users: Vec<User>,
    runs: Vec<Run>,
    next_run_id: i32,
}

impl View for Store {
    type V = StoreView;

    closed spec fn view(&self) -> StoreView {
        StoreView { users: user_rows(self.users@), runs: self.runs@, next_run_id: self.next_run_id as int }
    }
}

impl Store {
    /// An empty store.
    pub fn new() -> (r: Store)
        ensures
            r@.wf(),
            r@ == (StoreView { users: Seq::empty(), runs: Seq::empty(), next_run_id: 1 }),
    {
        let r = Store { users: Vec::new(), runs: Vec::new(), next_run_id: 1 };
        assert(r@.users =~= Seq::<UserRow>::empty());
        assert(r@.runs =~= Seq::<Run>::empty());
        r
    }
}

/// Resolving the identity with a key gives a well-formed store in which the
/// key finds the resolved identity.
pub proof fn lemma_resolved(v: StoreView, name: Seq<char>, tg: i64, chat: Seq<char>)
    requires
        v.wf(),
        can_resolve(v, name, tg, chat),
    ensures
        resolved(v, name, tg, chat).wf(),
        lookup(resolved(v, name, tg, chat).users, name, tg, chat) == Some(resolved_user(v, name, tg, chat)),
{
    let w = resolved(v, name, tg, chat);
    if lookup(v.users, name, tg, chat) is None {
        let n = new_identity(v.users, name, tg, chat);
        assert(w.users[v.users.len() as int] == n);
        assert forall|a: int, b: int|
            0 <= a < w.users.len() && 0 <= b < w.users.len() && a != b implies !same_key(
            #[trigger] w.users[a],
            #[trigger] w.users[b],
        ) by {
            if a == v.users.len() {
                assert(!has_key(v.users[b], name, tg, chat));
            } else if b == v.users.len() {
                assert(!has_key(v.users[a], name, tg, chat));
            } else {
                assert(!same_key(v.users[a], v.users[b]));
            }
        }
        assert(has_key(w.users[v.users.len() as int], name, tg, chat));
        let j = choose|k: int| 0 <= k < w.users.len() && has_key(#[trigger] w.users[k], name, tg, chat);
        assert(j == v.users.len()) by {
            if j != v.users.len() {
                assert(!same_key(w.users[j], w.users[v.users.len() as int]));
            }
        }
    }
}

/// Looks up the identity with the given key.
fn get_user(user_name: &str, telegram_userid: i64, chat_id: &str, connection: &Store) -> (r: Option<User>)
    requires
        connection@.wf(),
    ensures
        match r {
            Some(u) => lookup(connection@.users, user_name@, telegram_userid, chat_id@) == Some(u@),
            None => lookup(connection@.users, user_name@, telegram_userid, chat_id@) is None,
        },
{
    let ghost v = connection@;
    let name: String = user_name.to_owned();
    let chat: String = chat_id.to_owned();
    let mut i: usize = 0;
    while i < connection.users.len()
        invariant
            i <= connection.users.len(),
            v == connection@,
            v.wf(),
            name@ == user_name@,
            chat@ == chat_id@,
            forall|k: int| 0 <= k < i ==> !has_key(#[trigger] v.users[k], user_name@, telegram_userid, chat_id@),
        decreases connection.users.len() - i,
    {
        let u = &connection.users[i];
        assert(v.users[i as int] == u@);
        if u.user_name == name && u.telegram_userid == telegram_userid && u.chat_id == chat {
            let ghost j = choose|k: int| 0 <= k < v.users.len() && has_key(#[trigger] v.users[k], user_name@, telegram_userid, chat_id@);
            assert(has_key(v.users[i as int], user_name@, telegram_userid, chat_id@));
            assert(j == i) by {
                if j != i {
                    assert(!same_key(v.users[j], v.users[i as int]));
                }
            }
            return Some(u.clone());
        }
        i = i + 1;
    }
    None
}

/// Creates the identity with the given key, unless it exists already.
pub fn create_user(user_name: &str, telegram_userid: i64, chat_id: &str, connection: &mut Store) -> (r: Result<(), StoreError>)
    requires
        old(connection)@.wf(),
    ensures
        final(connection)@.wf(),
        r is Ok <==> can_resolve(old(connection)@, user_name@, telegram_userid, chat_id@),
        r is Ok ==> final(connection)@ == resolved(old(connection)@, user_name@, telegram_userid, chat_id@),
        r is Err ==> r == Err::<(), StoreError>(StoreError::ConstraintViolation) && final(connection)@ == old(connection)@,
{
    let ghost v = connection@;
    match get_user(user_name, telegram_userid, chat_id, connection) {
        Some(_) => Ok(()),
        None => {
            if connection.users.len() >= 2147483647 {
                return Err(StoreError::ConstraintViolation);
            }
            let u = User {
                id: (connection.users.len() + 1) as i32,
                telegram_userid,
                chat_id: chat_id.to_owned(),
                user_name: user_name.to_owned(),
            };
            connection.users.push(u);
            proof {
                lemma_resolved(v, user_name@, telegram_userid, chat_id@);
                assert(connection@.users =~= resolved(v, user_name@, telegram_userid, chat_id@).users);
            }
            Ok(())
        }
    }
}

/// The identities of chat `chat_id`, or `None` when it has none.
pub fn get_users_in_chat(chat_id: &str, connection: &Store) -> (r: Option<Vec<User>>)
    requires
        connection@.wf(),
    ensures
        opt_user_rows(r) == some_if_any(users_of_chat(connection@.users, chat_id@)),
{
    users_in_chat(&connection.users, chat_id)
}

/// Adds a run of `distance` metres for identity `user_id`, stamped `now`
/// (seconds since the Unix epoch), and returns its id.
pub fn add_run(distance: u32, user_id: i32, now: i64, connection: &mut Store) -> (r: Result<i32, StoreError>)
    requires
        old(connection)@.wf(),
    ensures
        final(connection)@.wf(),
        r is Ok <==> can_add_run(old(connection)@, user_id),
        r is Ok ==> r == Ok::<i32, StoreError>(old(connection)@.next_run_id as i32)
            && final(connection)@ == with_run(old(connection)@, distance, user_id, now),
        r is Err ==> r == Err::<i32, StoreError>(StoreError::ConstraintViolation) && final(connection)@ == old(connection)@,
{
    let ghost v = connection@;
    if user_id < 1 || user_id as usize > connection.users.len() || connection.next_run_id == 2147483647 {
        return Err(StoreError::ConstraintViolation);
    }
    let id = connection.next_run_id;
    connection.runs.push(Run { id, distance, run_datetime: Some(now), user_id });
    connection.next_run_id = id + 1;
    assert(connection@.runs =~= with_run(v, distance, user_id, now).runs);
    Ok(id)
}

/// The identity with the given key, created first when it does not exist.
pub fn resolve_or_create(user_name: &str, telegram_userid: i64, chat_id: &str, connection: &mut Store) -> (r: Result<
    User,
    StoreError,
>)
    requires
        old(connection)@.wf(),
    ensures
        final(connection)@.wf(),
        r is Ok <==> can_resolve(old(connection)@, user_name@, telegram_userid, chat_id@),
        r matches Ok(u) ==> u@ == resolved_user(old(connection)@, user_name@, telegram_userid, chat_id@)
            && final(connection)@ == resolved(old(connection)@, user_name@, telegram_userid, chat_id@),
        r is Err ==> r == Err::<User, StoreError>(StoreError::ConstraintViolation) && final(connection)@ == old(connection)@,
{
    let ghost v = connection@;
    if let Some(u) = get_user(user_name, telegram_userid, chat_id, connection) {
        return Ok(u);
    }
    if let Err(e) = create_user(user_name, telegram_userid, chat_id, connection) {
        return Err(e);
    }
    proof {
        lemma_resolved(v, user_name@, telegram_userid, chat_id@);
    }
    match get_user(user_name, telegram_userid, chat_id, connection) {
        Some(u) => Ok(u),
        None => Err(StoreError::IdentityNotResolvable),
    }
}

/// Adds a run of `distance` metres, stamped `now`, for the identity with the
/// given key, creating that identity first when it does not exist. Returns
/// the run's id. Where the run cannot be added after the identity was
/// created, the identity stays.
pub fn add_run_wrapper(
    distance: u32,
    user_name: &str,
    telegram_userid: i64,
    chat_id: &str,
    now: i64,
    connection: &mut Store,
) -> (r: Result<i32, StoreError>)
    requires
        old(connection)@.wf(),
    ensures
        final(connection)@.wf(),
        r is Ok <==> can_resolve(old(connection)@, user_name@, telegram_userid, chat_id@) && can_add_run(
            resolved(old(connection)@, user_name@, telegram_userid, chat_id@),
            resolved_user(old(connection)@, user_name@, telegram_userid, chat_id@).id,
        ),
        r is Ok ==> r == Ok::<i32, StoreError>(old(connection)@.next_run_id as i32) && final(connection)@ == with_run(
            resolved(old(connection)@, user_name@, telegram_userid, chat_id@),
            distance,
            resolved_user(old(connection)@, user_name@, telegram_userid, chat_id@).id,
            now,
        ),
        r is Err ==> r == Err::<i32, StoreError>(StoreError::ConstraintViolation) && final(connection)@ == (if can_resolve(
            old(connection)@,
            user_name@,
            telegram_userid,
            chat_id@,
        ) {
            resolved(old(connection)@, user_name@, telegram_userid, chat_id@)
        } else {
            old(connection)@
        }),
{
    match resolve_or_create(user_name, telegram_userid, chat_id, connection) {
        Ok(u) => add_run(distance, u.id, now, connection),
        Err(e) => Err(e),
    }
}

proof fn lemma_no_owners(runs: Seq<Run>, owners: Seq<UserRow>)
    requires
        owners.len() == 0,
    ensures
        owned_runs(runs, owners).len() == 0,
    decreases runs.len(),
{
    if runs.len() > 0 {
        lemma_no_owners(runs.drop_last(), owners);
    }
}

/// The at most `limit` newest runs of chat `chat_id`, newest first, or `None`
/// when the chat has no identity or its identities have no run.
pub fn get_runs(chat_id: &str, limit: i64, connection: &Store) -> (r: Option<Vec<Run>>)
    requires
        connection@.wf(),
        limit >= 0,
    ensures
        opt_runs(r) == some_if_any(latest_runs(connection@.runs, users_of_chat(connection@.users, chat_id@), limit as int)),
{
    match users_in_chat(&connection.users, chat_id) {
        None => {
            proof {
                lemma_no_owners(connection@.runs, users_of_chat(connection@.users, chat_id@));
            }
            None
        },
        Some(users) => recent_runs(&connection.runs, &users, limit),
    }
}

/// Finds the index of the run with id `run_id`, which exists.
fn run_position(runs: &Vec<Run>, run_id: i32) -> (k: usize)
    requires
        exists|a: int| 0 <= a < runs@.len() && #[trigger] runs@[a].id == run_id,
    ensures
        k < runs@.len(),
        runs@[k as int].id == run_id,
{
    let mut k: usize = 0;
    while k < runs.len() && runs[k].id != run_id
        invariant
            k <= runs@.len(),
            exists|a: int| 0 <= a < runs@.len() && #[trigger] runs@[a].id == run_id,
            forall|a: int| 0 <= a < k ==> #[trigger] runs@[a].id != run_id,
        decreases runs@.len() - k,
    {
        k = k + 1;
    }
    k
}

/// Sets the distance of run `run_id` to `distance` metres, where that run
/// exists and was submitted by the person with platform id `telegram_userid`;
/// otherwise changes nothing and reports `NoMatch`.
pub fn update_run(run_id: i32, telegram_userid: i64, distance: u32, connection: &mut Store) -> (r: Mutation)
    requires
        old(connection)@.wf(),
    ensures
        final(connection)@.wf(),
        r == Mutation::Applied <==> owns_run(old(connection)@.users, old(connection)@.runs, run_id, telegram_userid),
        r == Mutation::Applied ==> final(connection)@ == (StoreView {
            runs: edited(old(connection)@.runs, run_id, distance),
            ..old(connection)@
        }),
        r == Mutation::NoMatch ==> final(connection)@ == old(connection)@,
{
    let ghost v = connection@;
    if !may_change_run(&connection.users, &connection.runs, run_id, telegram_userid) {
        return Mutation::NoMatch;
    }
    let k = run_position(&connection.runs, run_id);
    let old_run = connection.runs[k];
    connection.runs.set(k, Run { distance, ..old_run });
    proof {
        assert(connection@.runs =~= edited(v.runs, run_id, distance)) by {
            assert forall|a: int| 0 <= a < v.runs.len() && a != k implies v.runs[a].id != run_id by {
                if a < k {
                    assert(v.runs[a].id < v.runs[k as int].id);
                } else {
                    assert(v.runs[k as int].id < v.runs[a].id);
                }
            }
        }
    }
    Mutation::Applied
}

proof fn lemma_without_absent(runs: Seq<Run>, run_id: i32)
    requires
        forall|a: int| 0 <= a < runs.len() ==> #[trigger] runs[a].id != run_id,
    ensures
        without(runs, run_id) == runs,
    decreases runs.len(),
{
    if runs.len() > 0 {
        lemma_without_absent(runs.drop_last(), run_id);
        assert(runs.drop_last().push(runs.last()) =~= runs);
    }
}

proof fn lemma_without_at(runs: Seq<Run>, run_id: i32, k: int)
    requires
        0 <= k < runs.len(),
        runs[k].id == run_id,
        forall|a: int| 0 <= a < runs.len() && a != k ==> #[trigger] runs[a].id != run_id,
    ensures
        without(runs, run_id) == runs.remove(k),
    decreases runs.len(),
{
    let d = runs.drop_last();
    if k == runs.len() - 1 {
        lemma_without_absent(d, run_id);
        assert(runs.remove(k) =~= d);
    } else {
        lemma_without_at(d, run_id, k);
        assert(runs.remove(k) =~= d.remove(k).push(runs.last()));
    }
}

/// Deletes run `run_id`, where it exists and was submitted by the person with
/// platform id `telegram_userid`; otherwise changes nothing and reports `NoMatch`.
pub fn delete_run(run_id: i32, telegram_userid: i64, connection: &mut Store) -> (r: Mutation)
    requires
        old(connection)@.wf(),
    ensures
        final(connection)@.wf(),
        r == Mutation::Applied <==> owns_run(old(connection)@.users, old(connection)@.runs, run_id, telegram_userid),
        r == Mutation::Applied ==> final(connection)@ == (StoreView {
            runs: without(old(connection)@.runs, run_id),
            ..old(connection)@
        }),
        r == Mutation::NoMatch ==> final(connection)@ == old(connection)@,
{
    let ghost v = connection@;
    if !may_change_run(&connection.users, &connection.runs, run_id, telegram_userid) {
        return Mutation::NoMatch;
    }
    let k = run_position(&connection.runs, run_id);
    connection.runs.remove(k);
    proof {
        assert forall|a: int| 0 <= a < v.runs.len() && a != k implies #[trigger] v.runs[a].id != run_id by {
            if a < k {
                assert(v.runs[a].id < v.runs[k as int].id);
            } else {
                assert(v.runs[k as int].id < v.runs[a].id);
            }
        }
        lemma_without_at(v.runs, run_id, k as int);
        let w = connection@;
        assert forall|a: int, b: int| 0 <= a < b < w.runs.len() implies #[trigger] w.runs[a].id < #[trigger] w.runs[b].id by {
            let a0 = if a < k { a } else { a + 1 };
            let b0 = if b < k { b } else { b + 1 };
            assert(v.runs[a0].id < v.runs[b0].id);
        }
        assert forall|a: int| 0 <= a < w.runs.len() implies 1 <= #[trigger] w.runs[a].id < w.next_run_id
            && 1 <= w.runs[a].user_id <= w.users.len() by {
            let a0 = if a < k { a } else { a + 1 };
            assert(w.runs[a] == v.runs[a0]);
        }
    }
    Mutation::Applied
}

/// The tally of chat `chat_id`: for each of its identities with at least one
/// run, the name, number of runs and summed distance, farthest first; `None`
/// when no identity of the chat has a run.
pub fn get_tally(chat_id: &str, connection: &Store) -> (r: Option<Vec<Score>>)
    requires
        connection@.wf(),
    ensures
        opt_score_rows(r) == tally(users_of_chat(connection@.users, chat_id@), connection@.runs),
{
    match users_in_chat(&connection.users, chat_id) {
        None => {
            assert(farthest_first(scores_of(users_of_chat(connection@.users, chat_id@), connection@.runs)).len() == 0);
            None
        },
        Some(users) => tally_scores(&users, &connection.runs),
    }
}

} // verus!
