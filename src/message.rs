//! The text of listings: identities, runs, and the tally with its medals.

use vstd::prelude::*;
use vstd::string::StringExecFns;
use crate::models::{Run, Score, ScoreRow, User, UserRow, score_rows, user_rows};
use crate::text::{decimal, km_text, push_decimal, push_km, push_signed, push_timestamp, signed_decimal, timestamp_text};

verus! {

/// The text of an identity: its id and its display name.
pub open spec fn user_text(u: UserRow) -> Seq<char> {
    signed_decimal(u.id as int) + " "@ + u.user_name
}

/// The text of a run: id, distance in kilometres, time, and owner's id.
pub open spec fn run_text(r: Run) -> Seq<char> {
    signed_decimal(r.id as int) + " "@ + km_text(r.distance as nat) + " "@ + timestamp_text(r.run_datetime) + " "@
        + signed_decimal(r.user_id as int)
}

/// The text of a score: name, medals, and distance in kilometres.
pub open spec fn score_text(s: ScoreRow) -> Seq<char> {
    s.user_name + " "@ + decimal(s.medals as nat) + "🏅 "@ + km_text(s.distance as nat) + "km"@
}

/// Line `k` of a numbered listing.
pub open spec fn numbered(k: nat, line: Seq<char>) -> Seq<char> {
    decimal(k) + ". "@ + line + "\n"@
}

/// The numbered lines of identities.
pub open spec fn user_lines(s: Seq<UserRow>) -> Seq<char>
    decreases s.len(),
{
    if s.len() == 0 {
        Seq::empty()
    } else {
        user_lines(s.drop_last()) + numbered(s.len(), user_text(s.last()))
    }
}

/// The numbered lines of runs.
pub open spec fn run_lines(s: Seq<Run>) -> Seq<char>
    decreases s.len(),
{
    if s.len() == 0 {
        Seq::empty()
    } else {
        run_lines(s.drop_last()) + numbered(s.len(), run_text(s.last()))
    }
}

/// The mark of place `k` (from 1) of a tally of `n` places: medals for the
/// first three, a clown for the last, a runner for the others.
pub open spec fn place_mark(k: nat, n: nat) -> Seq<char> {
    if k == 1 {
        "🥇"@
    } else if k == 2 {
        "🥈"@
    } else if k == 3 {
        "🥉"@
    } else if k == n {
        "🤡"@
    } else {
        "🏃"@
    }
}

/// The marked, numbered lines of the first places of a tally of `n` places.
pub open spec fn score_lines(s: Seq<ScoreRow>, n: nat) -> Seq<char>
    decreases s.len(),
{
    if s.len() == 0 {
        Seq::empty()
    } else {
        score_lines(s.drop_last(), n) + place_mark(s.len(), n) + " "@ + numbered(s.len(), score_text(s.last()))
    }
}

/// The listing of identities, or a notice when there are none.
pub open spec fn users_listing(users: Option<Seq<UserRow>>) -> Seq<char> {
    match users {
        Some(s) => "#. UserID UserName\n"@ + user_lines(s),
        None => "No users in database."@,
    }
}

/// The listing of runs, or a notice when there are none.
pub open spec fn runs_listing(runs: Option<Seq<Run>>) -> Seq<char> {
    match runs {
        Some(s) => "#. RunID Distance RunTime\n"@ + run_lines(s),
        None => "No runs in database."@,
    }
}

/// The tally board, or a notice when there is no tally.
pub open spec fn tally_listing(scores: Option<Seq<ScoreRow>>) -> Seq<char> {
    match scores {
        Some(s) => "#. UserName Medals Distance (km)\n"@ + score_lines(s, s.len()),
        None => "Cannot generate tally."@,
    }
}

impl User {
    /// The text of the identity: its id and its display name.
    pub fn to_text(&self) -> (r: String)
        ensures
            r@ == user_text(self@),
    {
        let mut out = String::new();
        push_signed(&mut out, self.id as i64);
        out.append(" ");
        out.append(self.user_name.as_str());
        assert(out@ =~= user_text(self@));
        out
    }
}

impl Run {
    /// The text of the run: id, distance in kilometres, time, and owner's id.
    pub fn to_text(&self) -> (r: String)
        ensures
            r@ == run_text(*self),
    {
        let mut out = String::new();
        push_signed(&mut out, self.id as i64);
        out.append(" ");
        push_km(&mut out, self.distance as u64);
        out.append(" ");
        push_timestamp(&mut out, self.run_datetime);
        out.append(" ");
        push_signed(&mut out, self.user_id as i64);
        assert(out@ =~= run_text(*self));
        out
    }
}

impl Score {
    /// The text of the score: name, medals, and distance in kilometres.
    pub fn to_text(&self) -> (r: String)
        ensures
            r@ == score_text(self@),
    {
        let mut out = String::new();
        out.append(self.user_name.as_str());
        out.append(" ");
        push_decimal(&mut out, self.medals as u64);
        out.append("🏅 ");
        push_km(&mut out, self.distance);
        out.append("km");
        assert(out@ =~= score_text(self@));
        out
    }
}

/// Appends line `k` of a numbered listing, whose text is `line`.
fn push_numbered(out: &mut String, k: u64, line: &String)
    ensures
        final(out)@ == old(out)@ + numbered(k as nat, line@),
{
    push_decimal(out, k);
    out.append(". ");
    out.append(line.as_str());
    out.append("\n");
    assert(final(out)@ =~= old(out)@ + numbered(k as nat, line@));
}

fn place_mark_str(k: usize, n: usize) -> (r: &'static str)
    ensures
        r@ == place_mark(k as nat, n as nat),
{
    if k == 1 {
        "🥇"
    } else if k == 2 {
        "🥈"
    } else if k == 3 {
        "🥉"
    } else if k == n {
        "🤡"
    } else {
        "🏃"
    }
}

proof fn lemma_score_lines_step(v: Seq<Score>, i: int, n: nat)
    requires
        0 <= i < v.len(),
    ensures
        score_lines(score_rows(v.take(i + 1)), n) == score_lines(score_rows(v.take(i)), n) + place_mark(
            (i + 1) as nat,
            n,
        ) + " "@ + numbered((i + 1) as nat, score_text(v[i]@)),
{
    let t = score_rows(v.take(i + 1));
    assert(t.drop_last() =~= score_rows(v.take(i)));
    assert(t.last() == v[i]@);
}

/// Appends the marked line of place `k` of a tally of `n` places.
fn push_marked(out: &mut String, k: usize, n: usize, line: &String)
    ensures
        final(out)@ == old(out)@ + place_mark(k as nat, n as nat) + " "@ + numbered(k as nat, line@),
{
    out.append(place_mark_str(k, n));
    out.append(" ");
    push_numbered(out, k as u64, line);
    assert(final(out)@ =~= old(out)@ + place_mark(k as nat, n as nat) + " "@ + numbered(k as nat, line@));
}

/// Lists runs, one numbered line each under a header, or says that there are
/// none.
pub fn list_runs(runs: Option<Vec<Run>>) -> (r: String)
    ensures
        r@ == runs_listing(match runs {
            Some(v) => Some(v@),
            None => None,
        }),
{
    match runs {
        None => "No runs in database.".to_owned(),
        Some(v) => {
            let mut out = "#. RunID Distance RunTime\n".to_owned();
            let mut i: usize = 0;
            while i < v.len()
                invariant
                    i <= v.len(),
                    out@ == "#. RunID Distance RunTime\n"@ + run_lines(v@.take(i as int)),
                decreases v.len() - i,
            {
                let line = v[i].to_text();
                push_numbered(&mut out, (i + 1) as u64, &line);
                assert(v@.take(i + 1).drop_last() =~= v@.take(i as int));
                i = i + 1;
            }
            assert(v@.take(v.len() as int) =~= v@);
            out
        },
    }
}

/// Lists identities, one numbered line each under a header, or says that
/// there are none.
pub fn list_users(users: Option<Vec<User>>) -> (r: String)
    ensures
        r@ == users_listing(match users {
            Some(v) => Some(user_rows(v@)),
            None => None,
        }),
{
    match users {
        None => "No users in database.".to_owned(),
        Some(v) => {
            let mut out = "#. UserID UserName\n".to_owned();
            let mut i: usize = 0;
            while i < v.len()
                invariant
                    i <= v.len(),
                    out@ == "#. UserID UserName\n"@ + user_lines(user_rows(v@.take(i as int))),
                decreases v.len() - i,
            {
                let line = v[i].to_text();
                push_numbered(&mut out, (i + 1) as u64, &line);
                assert(user_rows(v@.take(i + 1)).drop_last() =~= user_rows(v@.take(i as int)));
                i = i + 1;
            }
            assert(v@.take(v.len() as int) =~= v@);
            out
        },
    }
}

/// Shows the tally board: one line per score under a header, each with the
/// mark of its place, or says that no tally can be made.
pub fn display_tally(scores: Option<Vec<Score>>) -> (r: String)
    ensures
        r@ == tally_listing(match scores {
            Some(v) => Some(score_rows(v@)),
            None => None,
        }),
{
    match scores {
        None => "Cannot generate tally.".to_owned(),
        Some(v) => {
            let ghost s = score_rows(v@);
            let mut out = "#. UserName Medals Distance (km)\n".to_owned();
            let mut i: usize = 0;
            while i < v.len()
                invariant
                    i <= v.len(),
                    s == score_rows(v@),
                    out@ == "#. UserName Medals Distance (km)\n"@ + score_lines(score_rows(v@.take(i as int)), s.len()),
                decreases v.len() - i,
            {
                let line = v[i].to_text();
                push_marked(&mut out, i + 1, v.len(), &line);
                proof {
                    lemma_score_lines_step(v@, i as int, s.len());
                    assert(out@ =~= "#. UserName Medals Distance (km)\n"@ + score_lines(score_rows(v@.take(i + 1)), s.len()));
                }
                i = i + 1;
            }
            assert(v@.take(v.len() as int) =~= v@);
            out
        },
    }
}

} // verus!
