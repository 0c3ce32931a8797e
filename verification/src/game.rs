//! The game-variant store: the same id-keyed record design, holding
//! guessing-game states instead of tasks. A new game draws a random
//! identifier; a move records the guessed letter and counts incorrect
//! attempts.

use vstd::prelude::*;

use crate::records::{GameState, GameView};

verus! {

/// No two games in the sequence share an identifier.
pub open spec fn distinct_game_ids(s: Seq<GameView>) -> bool {
    forall|i: int, j: int| 0 <= i < j < s.len() ==> s[i].id != s[j].id
}

/// The id-to-game mapping that a sequence of games denotes.
pub open spec fn game_map_of(s: Seq<GameView>) -> Map<u64, GameView>
    decreases s.len(),
{
    if s.len() == 0 {
        Map::empty()
    } else {
        game_map_of(s.drop_last()).insert(s.last().id, s.last())
    }
}

/// Some game in `s` carries the identifier `id`.
pub open spec fn has_game_id(s: Seq<GameView>, id: u64) -> bool {
    exists|i: int| 0 <= i < s.len() && s[i].id == id
}

/// The index of the game carrying `id` (unique under `distinct_game_ids`).
pub open spec fn game_idx(s: Seq<GameView>, id: u64) -> int {
    choose|i: int| 0 <= i < s.len() && s[i].id == id
}

/// The state after guessing `letter`: the letter is recorded, the move is
/// described, and a miss costs one attempt.
pub open spec fn spec_apply_move(g: GameView, letter: char) -> GameView {
    GameView {
        id: g.id,
        word: g.word,
        guessed_letters: g.guessed_letters.push(letter),
        incorrect_attempts: if g.word.contains(letter) {
            g.incorrect_attempts
        } else {
            (g.incorrect_attempts + 1) as u8
        },
        last_move: "Guessed letter: "@ + seq![letter],
    }
}

/// Relies on `rand::random`: draws a value; nothing is promised of it.
pub assume_specification<T>[ rand::random::<T> ]() -> (r: T)
    where
        rand::distributions::Standard: rand::distributions::Distribution<T>,
;

/// The in-memory game store. Callers must serialize access themselves.
pub struct Database {
    pub(crate) games: Vec<GameState>,
}

impl View for Database {
    type V = Seq<GameView>;

    closed spec fn view(&self) -> Seq<GameView> {
        self.games@.map_values(|g: GameState| g@)
    }
}

impl Database {
    /// Store invariant: game ids are unique.
    pub open spec fn wf(&self) -> bool {
        distinct_game_ids(self@)
    }

    /// An empty game store.
    pub fn new() -> (db: Database)
        ensures
            db.wf(),
            db@ == Seq::<GameView>::empty(),
    {
        let db = Database { games: Vec::new() };
        proof {
            assert(db@ =~= Seq::<GameView>::empty());
        }
        db
    }

    /// Upsert: adds the game, or replaces in place the game that already
    /// carries `game.id`. Never an error.
    pub fn insert(&mut self, game: GameState)
        requires
            old(self).wf(),
        ensures
            final(self).wf(),
            game_map_of(final(self)@) == game_map_of(old(self)@).insert(game.id, game@),
            ({
                let s = old(self)@;
                if has_game_id(s, game.id) {
                    final(self)@ == s.update(game_idx(s, game.id), game@)
                } else {
                    final(self)@ == s.push(game@)
                }
            }),
    {
        let ghost s = self@;
        let mut i: usize = 0;
        while i < self.games.len()
            invariant
                0 <= i <= self.games.len(),
                forall|j: int| 0 <= j < i ==> s[j].id != game.id,
                self == old(self),
                s == self@,
                old(self).wf(),
            decreases self.games.len() - i,
        {
            if self.games[i].id == game.id {
                proof {
                    assert(s[i as int].id == game.id);
                    assert(has_game_id(s, game.id));
                    let c = game_idx(s, game.id);
                    assert(0 <= c < s.len() && s[c].id == game.id);
                    if c < i as int {
                        assert(s[c].id != s[i as int].id);
                    }
                    if c > i as int {
                        assert(s[i as int].id != s[c].id);
                    }
                    assert(c == i as int);
                    lemma_game_map_update(s, i as int, game@);
                }
                self.games[i] = game;
                proof {
                    let n = self@;
                    assert(n =~= s.update(i as int, game@));
                    assert forall|a: int, b: int| 0 <= a < b < n.len() implies n[a].id
                        != n[b].id by {
                        assert(n[a].id == s[a].id);
                        assert(n[b].id == s[b].id);
                        assert(s[a].id != s[b].id);
                    }
                    assert(distinct_game_ids(n));
                }
                return ;
            }
            i += 1;
        }
        proof {
            assert(!has_game_id(s, game.id));
            lemma_game_map_push(s, game@);
        }
        self.games.push(game);
        proof {
            let n = self@;
            assert(n =~= s.push(game@));
            assert forall|a: int, b: int| 0 <= a < b < n.len() implies n[a].id != n[b].id by {
                assert(n[a] == s[a]);
                if b < s.len() {
                    assert(n[b] == s[b]);
                    assert(s[a].id != s[b].id);
                } else {
                    assert(n[b] == game@);
                    if s[a].id == game.id {
                        assert(0 <= a < s.len() && s[a].id == game.id);
                        assert(has_game_id(s, game.id));
                        assert(false);
                    }
                }
            }
            assert(distinct_game_ids(n));
        }
    }

    /// Looks up the game with this id; `None` when absent, never an error.
    pub fn get(&self, id: &u64) -> (r: Option<&GameState>)
        requires
            self.wf(),
        ensures
            match r {
                Some(g) => game_map_of(self@).contains_key(*id) && g@ == game_map_of(self@)[*id],
                None => !game_map_of(self@).contains_key(*id),
            },
    {
        proof {
            lemma_game_map_props(self@);
        }
        let mut i: usize = 0;
        while i < self.games.len()
            invariant
                self.wf(),
                0 <= i <= self.games.len(),
                forall|j: int| 0 <= j < i ==> self@[j].id != *id,
            decreases self.games.len() - i,
        {
            if self.games[i].id == *id {
                proof {
                    lemma_game_map_props(self@);
                    assert(self@[i as int].id == *id);
                    assert(game_map_of(self@).contains_key(self@[i as int].id) && game_map_of(
                        self@,
                    )[self@[i as int].id] == self@[i as int]);
                }
                return Some(&self.games[i]);
            }
            i += 1;
        }
        proof {
            lemma_game_map_props(self@);
            if game_map_of(self@).contains_key(*id) {
                assert(has_game_id(self@, *id));
                let j = choose|j: int| 0 <= j < self@.len() && self@[j].id == *id;
                assert(false);
            }
        }
        None
    }

    /// Identical in behavior to `insert`: the distinction is advisory only.
    pub fn update(&mut self, game: GameState)
        requires
            old(self).wf(),
        ensures
            final(self).wf(),
            game_map_of(final(self)@) == game_map_of(old(self)@).insert(game.id, game@),
            ({
                let s = old(self)@;
                if has_game_id(s, game.id) {
                    final(self)@ == s.update(game_idx(s, game.id), game@)
                } else {
                    final(self)@ == s.push(game@)
                }
            }),
    {
        self.insert(game)
    }

    /// Starts a game over `word` under a randomly drawn identifier and
    /// stores it. Nothing is promised of the identifier itself.
    pub fn start_game(&mut self, word: String) -> (g: GameState)
        requires
            old(self).wf(),
        ensures
            final(self).wf(),
            g@.word == word@,
            g@.guessed_letters == Seq::<char>::empty(),
            g@.incorrect_attempts == 0,
            g@.last_move == Seq::<char>::empty(),
            game_map_of(final(self)@) == game_map_of(old(self)@).insert(g@.id, g@),
    {
        let id: u64 = rand::random();
        let g = new_game(id, word);
        let g2 = clone_game(&g);
        self.insert(g2);
        g
    }

    /// Applies one move to the stored game with this id, if any: returns the
    /// new state and stores it; `None` (and no change) when the id is
    /// absent.
    pub fn make_move(&mut self, id: u64, letter: char) -> (r: Option<GameState>)
        requires
            old(self).wf(),
            game_map_of(old(self)@).contains_key(id) ==> {
                let g = game_map_of(old(self)@)[id];
                g.word.contains(letter) || g.incorrect_attempts < 255
            },
        ensures
            final(self).wf(),
            match r {
                Some(g) => game_map_of(old(self)@).contains_key(id) && g@ == spec_apply_move(
                    game_map_of(old(self)@)[id],
                    letter,
                ) && game_map_of(final(self)@) == game_map_of(old(self)@).insert(id, g@),
                None => !game_map_of(old(self)@).contains_key(id) && final(self)@ == old(self)@,
            },
    {
        let found = match self.get(&id) {
            Some(g) => Some(clone_game(g)),
            None => None,
        };
        match found {
            Some(g) => {
                proof {
                    lemma_game_map_props(old(self)@);
                    let m = game_map_of(old(self)@);
                    assert(has_game_id(old(self)@, id));
                    let i = choose|i: int|
                        0 <= i < old(self)@.len() && old(self)@[i].id == id;
                    assert(m.contains_key(old(self)@[i].id) && m[old(self)@[i].id] == old(
                        self,
                    )@[i]);
                    assert(m[id].id == id);
                }
                let g2 = apply_move(&g, letter);
                let g3 = clone_game(&g2);
                self.update(g3);
                Some(g2)
            },
            None => None,
        }
    }
}

/// A fresh game over `word`: no guesses, no misses, no move yet.
pub fn new_game(id: u64, word: String) -> (g: GameState)
    ensures
        g@.id == id,
        g@.word == word@,
        g@.guessed_letters == Seq::<char>::empty(),
        g@.incorrect_attempts == 0,
        g@.last_move == Seq::<char>::empty(),
{
    let g = GameState {
        id,
        word,
        guessed_letters: Vec::new(),
        incorrect_attempts: 0,
        last_move: String::new(),
    };
    proof {
        assert(g@.guessed_letters =~= Seq::<char>::empty());
        assert(g@.last_move =~= Seq::<char>::empty());
    }
    g
}

/// An equal copy of a game state.
pub fn clone_game(g: &GameState) -> (r: GameState)
    ensures
        r@ == g@,
{
    let r = GameState {
        id: g.id,
        word: g.word.clone(),
        guessed_letters: g.guessed_letters.clone(),
        incorrect_attempts: g.incorrect_attempts,
        last_move: g.last_move.clone(),
    };
    proof {
        assert(r@ =~= g@);
    }
    r
}

/// Whether the word contains the letter.
fn word_contains(word: &String, letter: char) -> (b: bool)
    ensures
        b == word@.contains(letter),
{
    let cs = crate::snapshot::string_chars(word.as_str());
    let mut i: usize = 0;
    while i < cs.len()
        invariant
            cs@ == word@,
            0 <= i <= cs.len(),
            forall|j: int| 0 <= j < i ==> cs@[j] != letter,
        decreases cs.len() - i,
    {
        if cs[i] == letter {
            proof {
                assert(word@[i as int] == letter);
                assert(word@.contains(letter));
            }
            return true;
        }
        i += 1;
    }
    proof {
        if word@.contains(letter) {
            let j = choose|j: int| 0 <= j < word@.len() && word@[j] == letter;
            assert(false);
        }
    }
    false
}

/// One move applied to a game: records the guessed letter, describes the
/// move, and counts a miss. The attempt counter must have room when the
/// guess is a miss.
pub fn apply_move(game: &GameState, letter: char) -> (r: GameState)
    requires
        game@.word.contains(letter) || game@.incorrect_attempts < 255,
    ensures
        r@ == spec_apply_move(game@, letter),
{
    let mut guessed = game.guessed_letters.clone();
    guessed.push(letter);
    let mut move_chars = crate::snapshot::string_chars("Guessed letter: ");
    move_chars.push(letter);
    let last_move = crate::snapshot::chars_to_string(&move_chars);
    let hit = word_contains(&game.word, letter);
    let r = GameState {
        id: game.id,
        word: game.word.clone(),
        guessed_letters: guessed,
        incorrect_attempts: if hit {
            game.incorrect_attempts
        } else {
            game.incorrect_attempts + 1
        },
        last_move,
    };
    proof {
        assert(r@ =~= spec_apply_move(game@, letter));
    }
    r
}

/// How the game store's view is made from its field (for the sibling
/// modules, which cannot see through the view).
pub(crate) proof fn view_parts_game(db: &Database)
    ensures
        db@ == db.games@.map_values(|g: GameState| g@),
{
}

/// Appending a game updates the denoted map at its id.
pub proof fn lemma_game_map_push(s: Seq<GameView>, g: GameView)
    ensures
        game_map_of(s.push(g)) == game_map_of(s).insert(g.id, g),
{
    assert(s.push(g).drop_last() =~= s);
    assert(s.push(g).last() == g);
}

/// Dropping the last game keeps ids distinct.
pub proof fn lemma_distinct_game_prefix(s: Seq<GameView>)
    requires
        distinct_game_ids(s),
        s.len() > 0,
    ensures
        distinct_game_ids(s.drop_last()),
{
    let d = s.drop_last();
    assert forall|a: int, b: int| 0 <= a < b < d.len() implies d[a].id != d[b].id by {
        assert(d[a] == s[a]);
        assert(d[b] == s[b]);
        assert(s[a].id != s[b].id);
    }
}

/// Replacing the game at its id's position updates the denoted map there.
pub proof fn lemma_game_map_update(s: Seq<GameView>, i: int, g: GameView)
    requires
        distinct_game_ids(s),
        0 <= i < s.len(),
        s[i].id == g.id,
    ensures
        game_map_of(s.update(i, g)) == game_map_of(s).insert(g.id, g),
    decreases s.len(),
{
    let u = s.update(i, g);
    if i == s.len() - 1 {
        assert(u.drop_last() =~= s.drop_last());
        assert(u.last() == g);
        assert(game_map_of(s.drop_last()).insert(g.id, g) =~= game_map_of(
            s.drop_last(),
        ).insert(s.last().id, s.last()).insert(g.id, g));
    } else {
        let d = s.drop_last();
        lemma_distinct_game_prefix(s);
        assert(d[i] == s[i]);
        lemma_game_map_update(d, i, g);
        assert(u.drop_last() =~= d.update(i, g));
        assert(u.last() == s.last());
        assert(g.id != s.last().id);
        assert(game_map_of(d).insert(g.id, g).insert(s.last().id, s.last()) =~= game_map_of(
            d,
        ).insert(s.last().id, s.last()).insert(g.id, g));
    }
}

/// Under distinct ids, the denoted map agrees with the sequence pointwise.
pub proof fn lemma_game_map_props(s: Seq<GameView>)
    requires
        distinct_game_ids(s),
    ensures
        forall|i: int| #![trigger s[i]]
            0 <= i < s.len() ==> game_map_of(s).contains_key(s[i].id) && game_map_of(s)[s[i].id]
                == s[i],
        forall|k: u64| #[trigger] game_map_of(s).contains_key(k) ==> has_game_id(s, k),
    decreases s.len(),
{
    if s.len() > 0 {
        let d = s.drop_last();
        lemma_distinct_game_prefix(s);
        lemma_game_map_props(d);
        assert forall|i: int| #![trigger s[i]] 0 <= i < s.len() implies game_map_of(
            s,
        ).contains_key(s[i].id) && game_map_of(s)[s[i].id] == s[i] by {
            if i < s.len() - 1 {
                assert(d[i] == s[i]);
                assert(game_map_of(d).contains_key(d[i].id) && game_map_of(d)[d[i].id] == d[i]);
                assert(s[i].id != s.last().id);
            } else {
                assert(s[i] == s.last());
            }
        }
        assert forall|k: u64| #[trigger] game_map_of(s).contains_key(k) implies has_game_id(
            s,
            k,
        ) by {
            if k == s.last().id {
                assert(s[s.len() - 1].id == k);
            } else {
                assert(game_map_of(d).contains_key(k));
                assert(has_game_id(d, k));
                let i = choose|i: int| 0 <= i < d.len() && d[i].id == k;
                assert(s[i].id == k);
            }
        }
    }
}

} // verus!
