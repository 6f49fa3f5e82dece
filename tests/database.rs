use telerun::database::{
    add_run, add_run_wrapper, create_user, delete_run, get_runs, get_tally, get_users_in_chat,
    may_change_run, recent_runs, resolve_or_create, resolve_step, tally_scores, update_run, users_in_chat, Mutation,
    ResolveStep, Store, StoreError,
};
use telerun::models::{Run, User};

fn user(id: i32, tg: i64, chat: &str, name: &str) -> User {
    User { id, telegram_userid: tg, chat_id: chat.into(), user_name: name.into() }
}

#[test]
fn resolve_twice_gives_one_identity() {
    let mut store = Store::new();
    assert_eq!(create_user("ann", 10, "chat", &mut store), Ok(()));
    assert_eq!(create_user("ann", 10, "chat", &mut store), Ok(()));
    let users = get_users_in_chat("chat", &store).unwrap();
    assert_eq!(users.len(), 1);
    assert_eq!(users[0].id, 1);
    let a = add_run_wrapper(1000, "ann", 10, "chat", 5, &mut store).unwrap();
    let b = add_run_wrapper(2000, "ann", 10, "chat", 6, &mut store).unwrap();
    assert_ne!(a, b);
    let users = get_users_in_chat("chat", &store).unwrap();
    assert_eq!(users.len(), 1);
    let runs = get_runs("chat", 10, &store).unwrap();
    assert_eq!(runs.len(), 2);
    assert!(runs.iter().all(|r| r.user_id == users[0].id));
}

#[test]
fn other_name_or_chat_is_another_identity() {
    let mut store = Store::new();
    add_run_wrapper(1000, "ann", 10, "chat", 5, &mut store).unwrap();
    add_run_wrapper(1000, "annie", 10, "chat", 5, &mut store).unwrap();
    add_run_wrapper(1000, "ann", 10, "other", 5, &mut store).unwrap();
    let users = get_users_in_chat("chat", &store).unwrap();
    assert_eq!(users.len(), 2);
    assert_eq!(users[0].id, 1);
    assert_eq!(users[1].id, 2);
    assert_eq!(users[1].user_name, "annie");
    assert_eq!(get_users_in_chat("other", &store).unwrap()[0].id, 3);
}

#[test]
fn listing_is_limited_and_newest_first() {
    let mut store = Store::new();
    add_run_wrapper(1000, "ann", 10, "chat", 100, &mut store).unwrap();
    add_run_wrapper(2000, "bob", 11, "chat", 300, &mut store).unwrap();
    add_run_wrapper(3000, "ann", 10, "chat", 200, &mut store).unwrap();
    add_run_wrapper(4000, "bob", 11, "chat", 300, &mut store).unwrap();
    add_run_wrapper(9000, "cat", 12, "elsewhere", 400, &mut store).unwrap();
    let runs = get_runs("chat", 3, &store).unwrap();
    let ids: Vec<i32> = runs.iter().map(|r| r.id).collect();
    assert_eq!(ids, vec![4, 2, 3]);
    let all = get_runs("chat", 10, &store).unwrap();
    let distances: Vec<u32> = all.iter().map(|r| r.distance).collect();
    assert_eq!(distances, vec![4000, 2000, 3000, 1000]);
}

#[test]
fn listing_with_limit_zero_is_no_data() {
    let mut store = Store::new();
    add_run_wrapper(1000, "ann", 10, "chat", 100, &mut store).unwrap();
    assert!(get_runs("chat", 0, &store).is_none());
}

#[test]
fn edit_by_someone_else_is_no_match() {
    let mut store = Store::new();
    let id = add_run_wrapper(5000, "ann", 10, "chat", 100, &mut store).unwrap();
    add_run_wrapper(1000, "bob", 11, "chat", 110, &mut store).unwrap();
    assert_eq!(update_run(id, 11, 7000, &mut store), Mutation::NoMatch);
    assert_eq!(delete_run(id, 11, &mut store), Mutation::NoMatch);
    assert_eq!(update_run(99, 10, 7000, &mut store), Mutation::NoMatch);
    let runs = get_runs("chat", 10, &store).unwrap();
    assert_eq!(runs.len(), 2);
    assert_eq!(runs[1], Run { id, distance: 5000, run_datetime: Some(100), user_id: 1 });
}

#[test]
fn edit_and_delete_by_owner_apply() {
    let mut store = Store::new();
    let first = add_run_wrapper(5000, "ann", 10, "chat", 100, &mut store).unwrap();
    let second = add_run_wrapper(1000, "ann", 10, "chat", 110, &mut store).unwrap();
    assert_eq!(update_run(first, 10, 7500, &mut store), Mutation::Applied);
    let runs = get_runs("chat", 10, &store).unwrap();
    assert_eq!(runs[1].distance, 7500);
    assert_eq!(runs[0].distance, 1000);
    assert_eq!(delete_run(second, 10, &mut store), Mutation::Applied);
    let runs = get_runs("chat", 10, &store).unwrap();
    assert_eq!(runs.len(), 1);
    assert_eq!(runs[0].id, first);
    assert_eq!(delete_run(second, 10, &mut store), Mutation::NoMatch);
}

#[test]
fn tally_orders_by_distance() {
    let mut store = Store::new();
    add_run_wrapper(5000, "A", 1, "chat", 1, &mut store).unwrap();
    add_run_wrapper(3000, "A", 1, "chat", 2, &mut store).unwrap();
    add_run_wrapper(10000, "B", 2, "chat", 3, &mut store).unwrap();
    let tally = get_tally("chat", &store).unwrap();
    assert_eq!(tally.len(), 2);
    assert_eq!(tally[0].user_name, "B");
    assert_eq!(tally[0].medals, 1);
    assert_eq!(tally[0].distance, 10000);
    assert_eq!(tally[1].user_name, "A");
    assert_eq!(tally[1].medals, 2);
    assert_eq!(tally[1].distance, 8000);
}

#[test]
fn tally_ties_keep_identity_order() {
    let users = vec![user(1, 1, "c", "x"), user(2, 2, "c", "y"), user(3, 3, "c", "z")];
    let runs = vec![
        Run { id: 1, distance: 2000, run_datetime: Some(1), user_id: 2 },
        Run { id: 2, distance: 2000, run_datetime: Some(2), user_id: 1 },
        Run { id: 3, distance: 100, run_datetime: Some(3), user_id: 3 },
    ];
    let tally = tally_scores(&users, &runs).unwrap();
    let names: Vec<&str> = tally.iter().map(|s| s.user_name.as_str()).collect();
    assert_eq!(names, vec!["x", "y", "z"]);
}

#[test]
fn tally_without_runs_is_no_data() {
    let mut store = Store::new();
    assert!(get_tally("chat", &store).is_none());
    create_user("ann", 10, "chat", &mut store).unwrap();
    assert!(get_tally("chat", &store).is_none());
    let users = vec![user(1, 1, "c", "x")];
    assert!(tally_scores(&users, &vec![]).is_none());
}

#[test]
fn empty_and_single_listings() {
    let mut store = Store::new();
    assert!(get_users_in_chat("chat", &store).is_none());
    assert!(get_runs("chat", 5, &store).is_none());
    create_user("ann", 10, "chat", &mut store).unwrap();
    assert_eq!(get_users_in_chat("chat", &store).unwrap().len(), 1);
    assert!(get_runs("chat", 5, &store).is_none());
    add_run_wrapper(2500, "ann", 10, "chat", 9, &mut store).unwrap();
    assert_eq!(get_runs("chat", 5, &store).unwrap().len(), 1);
}

#[test]
fn submitted_run_lists_first_with_same_distance() {
    let mut store = Store::new();
    add_run_wrapper(1000, "bob", 11, "chat", 100, &mut store).unwrap();
    let id = add_run_wrapper(4321, "ann", 10, "chat", 100, &mut store).unwrap();
    let runs = get_runs("chat", 1, &store).unwrap();
    assert_eq!(runs, vec![Run { id, distance: 4321, run_datetime: Some(100), user_id: 2 }]);
}

#[test]
fn run_for_unknown_identity_is_refused() {
    let mut store = Store::new();
    assert_eq!(add_run(1000, 1, 5, &mut store), Err(StoreError::ConstraintViolation));
    create_user("ann", 10, "chat", &mut store).unwrap();
    assert_eq!(add_run(1000, 2, 5, &mut store), Err(StoreError::ConstraintViolation));
    assert_eq!(add_run(1000, 1, 5, &mut store), Ok(1));
}

#[test]
fn resolve_steps() {
    assert_eq!(resolve_step(Some(4), false), ResolveStep::Resolved(4));
    assert_eq!(resolve_step(Some(4), true), ResolveStep::Resolved(4));
    assert_eq!(resolve_step(None, false), ResolveStep::CreateUser);
    assert_eq!(resolve_step(None, true), ResolveStep::Fail(StoreError::IdentityNotResolvable));
}

#[test]
fn resolve_or_create_twice_gives_same_id() {
    let mut store = Store::new();
    create_user("bob", 11, "chat", &mut store).unwrap();
    let first = resolve_or_create("ann", 10, "chat", &mut store).unwrap();
    let second = resolve_or_create("ann", 10, "chat", &mut store).unwrap();
    assert_eq!(first.id, 2);
    assert_eq!(second.id, first.id);
    assert_eq!(second.user_name, "ann");
    assert_eq!(second.chat_id, "chat");
    assert_eq!(second.telegram_userid, 10);
    assert_eq!(get_users_in_chat("chat", &store).unwrap().len(), 2);
}

#[test]
fn chat_members_are_filtered() {
    let users = vec![user(1, 1, "a", "x"), user(2, 2, "b", "y"), user(3, 3, "a", "z")];
    let found = users_in_chat(&users, "a").unwrap();
    let ids: Vec<i32> = found.iter().map(|u| u.id).collect();
    assert_eq!(ids, vec![1, 3]);
    assert!(users_in_chat(&users, "c").is_none());
}

#[test]
fn recent_runs_of_owners_only() {
    let owners = vec![user(1, 1, "a", "x")];
    let runs = vec![
        Run { id: 1, distance: 1, run_datetime: Some(10), user_id: 1 },
        Run { id: 2, distance: 2, run_datetime: None, user_id: 1 },
        Run { id: 3, distance: 3, run_datetime: Some(30), user_id: 2 },
        Run { id: 4, distance: 4, run_datetime: Some(20), user_id: 1 },
    ];
    let got = recent_runs(&runs, &owners, 5).unwrap();
    let ids: Vec<i32> = got.iter().map(|r| r.id).collect();
    assert_eq!(ids, vec![2, 4, 1]);
    assert!(recent_runs(&runs, &vec![], 5).is_none());
}

#[test]
fn ownership_is_bound_to_the_run() {
    let users = vec![user(1, 10, "a", "x"), user(2, 11, "a", "y")];
    let runs = vec![
        Run { id: 1, distance: 1, run_datetime: Some(1), user_id: 1 },
        Run { id: 2, distance: 2, run_datetime: Some(2), user_id: 2 },
    ];
    assert!(may_change_run(&users, &runs, 1, 10));
    assert!(!may_change_run(&users, &runs, 2, 10));
    assert!(!may_change_run(&users, &runs, 3, 10));
}
