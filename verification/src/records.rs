//! The record types the store maps identifiers to, and their mathematical
//! views: a task, a user (for the credential check), and a game state (the
//! alternative record payload).

use vstd::prelude::*;

verus! {

/// A task record: the primary record payload.
#[derive(Debug, Clone, PartialEq)]
pub struct Task {
    pub id: u64,
    pub name: String,
    pub completed: bool,
}

/// A registered user. Passwords are held and compared in plaintext; the
/// store does not enforce username uniqueness.
#[derive(Debug, Clone, PartialEq)]
pub struct User {
    pub id: u64,
    pub username: String,
    pub password: String,
}

/// A game-state record: the alternative record payload.
#[derive(Debug, Clone, PartialEq)]
pub struct GameState {
    pub id: u64,
    pub word: String,
    pub guessed_letters: Vec<char>,
    pub incorrect_attempts: u8,
    pub last_move: String,
}

/// Mathematical view of a `Task`.
#[verifier::ext_equal]
pub struct TaskView {
    pub id: u64,
    pub name: Seq<char>,
    pub completed: bool,
}

/// Mathematical view of a `User`.
#[verifier::ext_equal]
pub struct UserView {
    pub id: u64,
    pub username: Seq<char>,
    pub password: Seq<char>,
}

/// Mathematical view of a `GameState`.
#[verifier::ext_equal]
pub struct GameView {
    pub id: u64,
    pub word: Seq<char>,
    pub guessed_letters: Seq<char>,
    pub incorrect_attempts: u8,
    pub last_move: Seq<char>,
}

impl View for Task {
    type V = TaskView;

    open spec fn view(&self) -> TaskView {
        TaskView { id: self.id, name: self.name@, completed: self.completed }
    }
}

impl View for User {
    type V = UserView;

    open spec fn view(&self) -> UserView {
        UserView { id: self.id, username: self.username@, password: self.password@ }
    }
}

impl View for GameState {
    type V = GameView;

    open spec fn view(&self) -> GameView {
        GameView {
            id: self.id,
            word: self.word@,
            guessed_letters: self.guessed_letters@,
            incorrect_attempts: self.incorrect_attempts,
            last_move: self.last_move@,
        }
    }
}

} // verus!
