use telerun::message::{display_tally, list_runs, list_users};
use telerun::models::{Run, Score, User};

#[test]
fn list_runs_template() {
    let runs = vec![
        Run {
            id: 1,
            distance: 1000,
            run_datetime: Some(61),
            user_id: 1,
        },
        Run {
            id: 2,
            distance: 2000,
            run_datetime: Some(82),
            user_id: 2,
        },
    ];
    let render = list_runs(Some(runs));
    let ans = "#. RunID Distance RunTime
1. 1 1 1970-01-01 00:01:01 1
2. 2 2 1970-01-01 00:01:22 2
";
    assert_eq!(render, ans);
}

#[test]
fn list_empty_runs_template() {
    let runs: Option<Vec<Run>> = None;
    let render = list_runs(runs);
    let ans = "No runs in database.";
    assert_eq!(render, ans);
}

#[test]
fn list_users_template() {
    let users = vec![
        User {
            id: 1,
            telegram_userid: 1,
            chat_id: "chat1".into(),
            user_name: "meme".into(),
        },
        User {
            id: 2,
            telegram_userid: 2,
            chat_id: "chat1".into(),
            user_name: "youyou".into(),
        },
    ];
    let render = list_users(Some(users));
    let ans = "#. UserID UserName
1. 1 meme
2. 2 youyou
";
    assert_eq!(render, ans);
}

#[test]
fn list_empty_users_template() {
    let users: Option<Vec<User>> = None;
    let render = list_users(users);
    let ans = "No users in database.";
    assert_eq!(render, ans);
}

#[test]
fn list_tally_template() {
    let scores = vec![
        Score {
            user_name: "reuben".into(),
            medals: 5,
            distance: 20000,
        },
        Score {
            user_name: "milton".into(),
            medals: 2,
            distance: 10000,
        },
        Score {
            user_name: "jerrell".into(),
            medals: 1,
            distance: 1000,
        },
        Score {
            user_name: "taigy".into(),
            medals: 1,
            distance: 200,
        },
        Score {
            user_name: "riley".into(),
            medals: 2,
            distance: 100,
        },
    ];
    let render = display_tally(Some(scores));
    let ans = "#. UserName Medals Distance (km)
🥇 1. reuben 5🏅 20km
🥈 2. milton 2🏅 10km
🥉 3. jerrell 1🏅 1km
🏃 4. taigy 1🏅 0.2km
🤡 5. riley 2🏅 0.1km
";
    assert_eq!(render, ans);
}

#[test]
fn empty_tally_notice() {
    assert_eq!(display_tally(None), "Cannot generate tally.");
}

#[test]
fn tally_of_two_keeps_medals() {
    let scores = vec![
        Score { user_name: "a".into(), medals: 1, distance: 3000 },
        Score { user_name: "b".into(), medals: 1, distance: 2000 },
    ];
    assert_eq!(
        display_tally(Some(scores)),
        "#. UserName Medals Distance (km)\n🥇 1. a 1🏅 3km\n🥈 2. b 1🏅 2km\n"
    );
}

#[test]
fn user_text_has_id_and_name() {
    let u = User { id: -7, telegram_userid: 3, chat_id: "c".into(), user_name: "ann".into() };
    assert_eq!(u.to_text(), "-7 ann");
}

#[test]
fn run_text_writes_kilometres_and_missing_time() {
    let r = Run { id: 12, distance: 1234, run_datetime: None, user_id: 3 };
    assert_eq!(r.to_text(), "12 1.234 NULL 3");
    let r = Run { id: 5, distance: 1500, run_datetime: Some(1431648000), user_id: 40 };
    assert_eq!(r.to_text(), "5 1.5 2015-05-15 00:00:00 40");
    let r = Run { id: 6, distance: 0, run_datetime: Some(-1), user_id: 1 };
    assert_eq!(r.to_text(), "6 0 1969-12-31 23:59:59 1");
    let r = Run { id: 7, distance: 1050, run_datetime: Some(i64::MAX), user_id: 1 };
    assert_eq!(r.to_text(), "7 1.05 NULL 1");
}

#[test]
fn score_text_has_medal_and_unit() {
    let s = Score { user_name: "bo".into(), medals: 12, distance: 42195 };
    assert_eq!(s.to_text(), "bo 12🏅 42.195km");
}
