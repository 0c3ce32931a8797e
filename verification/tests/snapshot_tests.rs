//! Snapshot durability: a snapshot reads back as exactly the store that was
//! written, and anything that does not conform yields no store at all.

use snapstore::records::{Task, User};
use snapstore::store::Database;

fn task(id: u64, name: &str, completed: bool) -> Task {
    Task { id, name: name.to_string(), completed }
}

fn user(id: u64, username: &str, password: &str) -> User {
    User { id, username: username.to_string(), password: password.to_string() }
}

#[test]
fn empty_store_round_trips() {
    let db = Database::new();
    let snap = db.to_snapshot();
    let back = Database::from_snapshot(&snap).expect("own snapshot must read back");
    assert!(back.get_all().is_empty());
    assert!(back.get_user_by_name("anyone").is_none());
}

#[test]
fn populated_store_round_trips() {
    let mut db = Database::new();
    db.insert(task(1, "write report", false));
    db.insert(task(u64::MAX, "", true));
    db.insert(task(3, "naïve déjà-vu ☃ line\nbreak", false));
    db.insert_user(user(10, "ada", "pw: with spaces"));
    db.insert_user(user(11, "grace", ""));
    let snap = db.to_snapshot();
    let back = Database::from_snapshot(&snap).expect("own snapshot must read back");
    assert_eq!(back.get_all().len(), 3);
    assert_eq!(back.get(&1).unwrap().name, "write report");
    assert_eq!(back.get(&u64::MAX).unwrap().name, "");
    assert_eq!(back.get(&u64::MAX).unwrap().completed, true);
    assert_eq!(back.get(&3).unwrap().name, "naïve déjà-vu ☃ line\nbreak");
    assert_eq!(back.get_user_by_name("ada").unwrap().password, "pw: with spaces");
    assert_eq!(back.get_user_by_name("grace").unwrap().id, 11);
}

#[test]
fn round_trip_after_mutations() {
    let mut db = Database::new();
    db.insert(task(1, "a", false));
    db.insert(task(2, "b", false));
    db.delete(&1);
    db.update(task(2, "b2", true));
    let back = Database::from_snapshot(&db.to_snapshot()).unwrap();
    assert!(back.get(&1).is_none());
    let two = back.get(&2).unwrap();
    assert_eq!(two.name, "b2");
    assert_eq!(two.completed, true);
    assert_eq!(back.get_all().len(), 1);
}

#[test]
fn truncated_snapshot_is_rejected() {
    let mut db = Database::new();
    db.insert(task(1, "something", false));
    let mut snap = db.to_snapshot();
    snap.pop();
    assert!(Database::from_snapshot(&snap).is_none());
}

#[test]
fn trailing_garbage_is_rejected() {
    let db = Database::new();
    let mut snap = db.to_snapshot();
    snap.push('0');
    assert!(Database::from_snapshot(&snap).is_none());
}

#[test]
fn bad_digit_is_rejected() {
    let db = Database::new();
    let mut snap = db.to_snapshot();
    snap[0] = 'x';
    assert!(Database::from_snapshot(&snap).is_none());
}

#[test]
fn empty_document_is_rejected() {
    let snap: Vec<char> = Vec::new();
    assert!(Database::from_snapshot(&snap).is_none());
}

#[test]
fn snapshot_of_empty_store_is_all_zero_counts() {
    let db = Database::new();
    let snap = db.to_snapshot();
    let text: String = snap.iter().collect();
    assert_eq!(text, "00000000000000000000000000000000");
}

#[test]
fn duplicate_ids_in_document_are_rejected() {
    let mut db = Database::new();
    db.insert(task(1, "x", false));
    let one = db.to_snapshot();
    // Splice the single task record in twice and claim a count of two.
    let record: Vec<char> = one[16..one.len() - 16].to_vec();
    let mut forged: Vec<char> = Vec::new();
    forged.push('2');
    forged.extend(std::iter::repeat('0').take(15));
    forged.extend(record.iter().cloned());
    forged.extend(record.iter().cloned());
    forged.extend(std::iter::repeat('0').take(16));
    assert!(Database::from_snapshot(&forged).is_none());
}
