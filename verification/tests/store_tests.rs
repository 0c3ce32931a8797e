//! Store behavior: upsert, lookup, listing, deletion, and the credential
//! check.

use snapstore::records::{Task, User};
use snapstore::store::Database;

fn task(id: u64, name: &str, completed: bool) -> Task {
    Task { id, name: name.to_string(), completed }
}

fn user(id: u64, username: &str, password: &str) -> User {
    User { id, username: username.to_string(), password: password.to_string() }
}

#[test]
fn insert_then_get_returns_inserted() {
    let mut db = Database::new();
    db.insert(task(42, "water the plants", false));
    let got = db.get(&42).expect("inserted record must be present");
    assert_eq!(got.id, 42);
    assert_eq!(got.name, "water the plants");
    assert_eq!(got.completed, false);
}

#[test]
fn insert_overwrites_same_id() {
    let mut db = Database::new();
    db.insert(task(1, "first", false));
    db.insert(task(1, "second", true));
    let got = db.get(&1).expect("record must be present");
    assert_eq!(got.name, "second");
    assert_eq!(got.completed, true);
    assert_eq!(db.get_all().len(), 1);
}

#[test]
fn update_replaces_full_record() {
    let mut db = Database::new();
    db.insert(task(1, "a", false));
    db.update(task(1, "b", false));
    let got = db.get(&1).expect("record must be present");
    assert_eq!(got.name, "b");
    assert_eq!(got.completed, false);
    assert_eq!(db.get_all().len(), 1);
}

#[test]
fn update_on_fresh_id_inserts() {
    let mut db = Database::new();
    db.update(task(9, "no existence check", true));
    assert!(db.get(&9).is_some());
}

#[test]
fn delete_then_get_is_absent() {
    let mut db = Database::new();
    db.insert(task(5, "temp", false));
    db.delete(&5);
    assert!(db.get(&5).is_none());
}

#[test]
fn delete_absent_is_noop() {
    let mut db = Database::new();
    db.insert(task(1, "keep", false));
    db.delete(&999);
    let all = db.get_all();
    assert_eq!(all.len(), 1);
    assert_eq!(all[0].id, 1);
    assert_eq!(all[0].name, "keep");
}

#[test]
fn get_on_empty_is_absent() {
    let db = Database::new();
    assert!(db.get(&0).is_none());
    assert!(db.get_all().is_empty());
}

#[test]
fn get_all_is_set_of_surviving_records() {
    let mut db = Database::new();
    db.insert(task(1, "one", false));
    db.insert(task(2, "two", false));
    db.insert(task(3, "three", true));
    db.delete(&2);
    db.update(task(3, "three again", false));
    let mut ids: Vec<u64> = db.get_all().iter().map(|t| t.id).collect();
    ids.sort();
    assert_eq!(ids, vec![1, 3]);
    let three = db.get(&3).unwrap();
    assert_eq!(three.name, "three again");
    assert_eq!(three.completed, false);
}

#[test]
fn disjoint_inserts_all_present() {
    let mut db = Database::new();
    for id in 0..100u64 {
        db.insert(task(id, &format!("job {}", id), id % 2 == 0));
    }
    assert_eq!(db.get_all().len(), 100);
    for id in 0..100u64 {
        let got = db.get(&id).expect("no update may be lost");
        assert_eq!(got.name, format!("job {}", id));
    }
}

#[test]
fn login_succeeds_with_matching_password() {
    let mut db = Database::new();
    db.insert_user(user(1, "ada", "open sesame"));
    assert!(db.login("ada", "open sesame"));
}

#[test]
fn login_fails_identically_for_wrong_password_and_unknown_user() {
    let mut db = Database::new();
    db.insert_user(user(1, "ada", "right"));
    let wrong_password = db.login("ada", "wrong");
    let unknown_user = db.login("grace", "right");
    assert_eq!(wrong_password, false);
    assert_eq!(unknown_user, false);
    assert_eq!(wrong_password, unknown_user);
}

#[test]
fn duplicate_usernames_first_match_wins() {
    let mut db = Database::new();
    db.insert_user(user(1, "sam", "alpha"));
    db.insert_user(user(2, "sam", "beta"));
    let found = db.get_user_by_name("sam").expect("some user named sam");
    assert_eq!(found.id, 1);
    assert!(db.login("sam", "alpha"));
    assert!(!db.login("sam", "beta"));
}

#[test]
fn get_user_by_name_absent() {
    let db = Database::new();
    assert!(db.get_user_by_name("nobody").is_none());
}

#[test]
fn insert_user_upserts_by_id() {
    let mut db = Database::new();
    db.insert_user(user(7, "old", "pw1"));
    db.insert_user(user(7, "new", "pw2"));
    assert!(db.get_user_by_name("old").is_none());
    let got = db.get_user_by_name("new").expect("replaced user present");
    assert_eq!(got.password, "pw2");
}

#[test]
fn end_to_end_task_lifecycle() {
    let mut db = Database::new();
    assert!(db.get_all().is_empty());
    db.insert(task(7, "buy milk", false));
    let got = db.get(&7).expect("present after insert");
    assert_eq!(got.id, 7);
    assert_eq!(got.name, "buy milk");
    assert_eq!(got.completed, false);
    db.update(task(7, "buy milk", true));
    let all = db.get_all();
    assert_eq!(all.len(), 1);
    assert_eq!(all[0].name, "buy milk");
    assert_eq!(all[0].completed, true);
    db.delete(&7);
    assert!(db.get(&7).is_none());
    assert!(db.get_all().is_empty());
}
