//! The game-variant store and the move logic.

use snapstore::game::{apply_move, new_game, Database};
use snapstore::records::GameState;

fn game(id: u64, word: &str) -> GameState {
    GameState {
        id,
        word: word.to_string(),
        guessed_letters: Vec::new(),
        incorrect_attempts: 0,
        last_move: String::new(),
    }
}

#[test]
fn new_game_is_fresh() {
    let g = new_game(9, "lantern".to_string());
    assert_eq!(g.id, 9);
    assert_eq!(g.word, "lantern");
    assert!(g.guessed_letters.is_empty());
    assert_eq!(g.incorrect_attempts, 0);
    assert_eq!(g.last_move, "");
}

#[test]
fn start_game_stores_and_returns_fresh_game() {
    let mut db = Database::new();
    let g = db.start_game("lantern".to_string());
    assert_eq!(g.word, "lantern");
    assert_eq!(g.incorrect_attempts, 0);
    let stored = db.get(&g.id).expect("started game must be stored");
    assert_eq!(stored.word, "lantern");
}

#[test]
fn apply_move_hit_keeps_attempts() {
    let g = game(1, "lantern");
    let g2 = apply_move(&g, 'a');
    assert_eq!(g2.incorrect_attempts, 0);
    assert_eq!(g2.guessed_letters, vec!['a']);
    assert_eq!(g2.last_move, "Guessed letter: a");
    assert_eq!(g2.word, "lantern");
    assert_eq!(g2.id, 1);
}

#[test]
fn apply_move_miss_counts_attempt() {
    let g = game(1, "lantern");
    let g2 = apply_move(&g, 'z');
    assert_eq!(g2.incorrect_attempts, 1);
    assert_eq!(g2.guessed_letters, vec!['z']);
    assert_eq!(g2.last_move, "Guessed letter: z");
    let g3 = apply_move(&g2, 'q');
    assert_eq!(g3.incorrect_attempts, 2);
    assert_eq!(g3.guessed_letters, vec!['z', 'q']);
}

#[test]
fn make_move_updates_stored_game() {
    let mut db = Database::new();
    db.insert(game(5, "verse"));
    let after = db.make_move(5, 'x').expect("game 5 exists");
    assert_eq!(after.incorrect_attempts, 1);
    assert_eq!(after.last_move, "Guessed letter: x");
    let stored = db.get(&5).expect("still stored");
    assert_eq!(stored.incorrect_attempts, 1);
    assert_eq!(stored.guessed_letters, vec!['x']);
}

#[test]
fn make_move_on_absent_id_is_not_found() {
    let mut db = Database::new();
    db.insert(game(5, "verse"));
    assert!(db.make_move(6, 'a').is_none());
    let stored = db.get(&5).unwrap();
    assert_eq!(stored.guessed_letters.len(), 0);
}

#[test]
fn game_insert_and_update_are_upserts() {
    let mut db = Database::new();
    db.insert(game(1, "alpha"));
    db.update(game(1, "beta"));
    assert_eq!(db.get(&1).unwrap().word, "beta");
    db.update(game(2, "gamma"));
    assert_eq!(db.get(&2).unwrap().word, "gamma");
}

#[test]
fn game_store_round_trips() {
    let mut db = Database::new();
    db.insert(game(1, "lantern"));
    let mut g = game(2, "prism");
    g.guessed_letters = vec!['p', 'z'];
    g.incorrect_attempts = 1;
    g.last_move = "Guessed letter: z".to_string();
    db.insert(g);
    let snap = db.to_snapshot();
    let back = Database::from_snapshot(&snap).expect("own snapshot must read back");
    assert_eq!(back.get(&1).unwrap().word, "lantern");
    let two = back.get(&2).unwrap();
    assert_eq!(two.guessed_letters, vec!['p', 'z']);
    assert_eq!(two.incorrect_attempts, 1);
    assert_eq!(two.last_move, "Guessed letter: z");
}

#[test]
fn empty_game_store_round_trips() {
    let db = Database::new();
    let back = Database::from_snapshot(&db.to_snapshot()).unwrap();
    assert!(back.get(&0).is_none());
}

#[test]
fn truncated_game_snapshot_is_rejected() {
    let mut db = Database::new();
    db.insert(game(1, "lantern"));
    let mut snap = db.to_snapshot();
    snap.pop();
    assert!(Database::from_snapshot(&snap).is_none());
}
