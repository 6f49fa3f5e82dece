//! The rows that the ledger keeps, and their mathematical views.

use vstd::prelude::*;

verus! {

/// A registered identity: one person, under one display name, in one chat.
pub struct User {
    /// Internal id, assigned when the identity is created.
    pub id: i32,
    /// The person's id as the chat platform reports it.
    pub telegram_userid: i64,
    /// The chat the identity belongs to.
    pub chat_id: String,
    /// Self-chosen display name.
    pub user_name: String,
}

/// What a `User` holds, with its strings as character sequences.
pub struct UserRow {
    pub id: i32,
    pub telegram_userid: i64,
    pub chat_id: Seq<char>,
    pub user_name: Seq<char>,
}

impl View for User {
    type V = UserRow;

    open spec fn view(&self) -> UserRow {
        UserRow {
            id: self.id,
            telegram_userid: self.telegram_userid,
            chat_id: self.chat_id@,
            user_name: self.user_name@,
        }
    }
}

impl Clone for Score {
    fn clone(&self) -> (r: Score)
        ensures
            r == *self,
    {
        Score { user_name: self.user_name.clone(), medals: self.medals, distance: self.distance }
    }
}

impl Clone for User {
    fn clone(&self) -> (r: User)
        ensures
            r == *self,
    {
        User {
            id: self.id,
            telegram_userid: self.telegram_userid,
            chat_id: self.chat_id.clone(),
            user_name: self.user_name.clone(),
        }
    }
}

/// One recorded distance entry.
#[derive(Clone, Copy, Debug, PartialEq, Eq)]
pub struct Run {
    /// Internal id, assigned when the run is submitted.
    pub id: i32,
    /// Distance ran, in metres (thousandths of a kilometre).
    pub distance: u32,
    /// Submission time in seconds since the Unix epoch (UTC); `None` only for
    /// rows that predate timestamps.
    pub run_datetime: Option<i64>,
    /// Id of the identity that submitted the run.
    pub user_id: i32,
}

/// One line of a tally: how many runs an identity has and how far it ran.
pub struct Score {
    /// Display name of the identity.
    pub user_name: String,
    /// Number of runs, or medals.
    pub medals: u32,
    /// Total distance, in metres.
    pub distance: u64,
}

/// What a `Score` holds, with its name as a character sequence.
pub struct ScoreRow {
    pub user_name: Seq<char>,
    pub medals: u32,
    pub distance: u64,
}

impl View for Score {
    type V = ScoreRow;

    open spec fn view(&self) -> ScoreRow {
        ScoreRow { user_name: self.user_name@, medals: self.medals, distance: self.distance }
    }
}

/// The views of a sequence of users.
pub open spec fn user_rows(users: Seq<User>) -> Seq<UserRow> {
    users.map_values(|u: User| u@)
}

/// The views of a sequence of scores.
pub open spec fn score_rows(scores: Seq<Score>) -> Seq<ScoreRow> {
    scores.map_values(|s: Score| s@)
}

} // verus!
