//! Snapshot codec for the game-variant store, built from the same
//! primitives as the task-store codec: the whole game store serializes to
//! one document and reads back exactly.

use vstd::prelude::*;

use crate::game::{distinct_game_ids, view_parts_game, Database};
use crate::records::{GameState, GameView};
use crate::snapshot::{
    at_pos, enc_nat, enc_str, lemma_at_concat, lemma_enc_nat_len, lemma_parse_enc_nat,
    lemma_parse_enc_str, lemma_pow16_16, lemma_pow16_le, p_str, parse_char_vec, parse_nat,
    parse_nat16, parse_string, pow16, push_char_vec, push_chars, push_nat16,
};

verus! {

/// A game record: id, word, guessed letters, attempt count, move text.
pub open spec fn enc_game(g: GameView) -> Seq<char> {
    enc_nat(g.id as nat, 16) + enc_str(g.word) + enc_str(g.guessed_letters) + enc_nat(
        g.incorrect_attempts as nat,
        2,
    ) + enc_str(g.last_move)
}

/// Reads one game record at `i`.
pub open spec fn p_game(s: Seq<char>, i: int) -> Option<(GameView, int)> {
    match parse_nat(s, i, 16) {
        Some(idv) => match p_str(s, i + 16) {
            Some((word, j)) => match p_str(s, j) {
                Some((guessed, k)) => match parse_nat(s, k, 2) {
                    Some(att) => match p_str(s, k + 2) {
                        Some((last_move, e)) => Some(
                            (
                                GameView {
                                    id: idv as u64,
                                    word,
                                    guessed_letters: guessed,
                                    incorrect_attempts: att as u8,
                                    last_move,
                                },
                                e,
                            ),
                        ),
                        None => None,
                    },
                    None => None,
                },
                None => None,
            },
            None => None,
        },
        None => None,
    }
}

/// A sequence of game records, one after the other.
pub open spec fn enc_games(gs: Seq<GameView>) -> Seq<char>
    decreases gs.len(),
{
    if gs.len() == 0 {
        Seq::empty()
    } else {
        enc_game(gs[0]) + enc_games(gs.drop_first())
    }
}

/// Reads `n` game records starting at `i`.
pub open spec fn p_games(s: Seq<char>, i: int, n: nat) -> Option<(Seq<GameView>, int)>
    decreases n,
{
    if n == 0 {
        Some((Seq::empty(), i))
    } else {
        match p_game(s, i) {
            Some((g, j)) => match p_games(s, j, (n - 1) as nat) {
                Some((gs, k)) => Some((seq![g] + gs, k)),
                None => None,
            },
            None => None,
        }
    }
}

/// The whole game store: count, then the games.
pub open spec fn enc_game_db(gs: Seq<GameView>) -> Seq<char> {
    enc_nat(gs.len(), 16) + enc_games(gs)
}

/// Reads a whole game-store document: consumed exactly, ids distinct;
/// anything else is malformed and yields `None`.
pub open spec fn p_game_db(s: Seq<char>) -> Option<Seq<GameView>> {
    match parse_nat(s, 0, 16) {
        Some(n) => match p_games(s, 16, n) {
            Some((gs, j)) => if j == s.len() && distinct_game_ids(gs) {
                Some(gs)
            } else {
                None
            },
            None => None,
        },
        None => None,
    }
}

/// A game small enough to encode: all its text fits sixteen digits.
pub open spec fn bounded_game(g: GameView) -> bool {
    &&& g.word.len() < pow16(16)
    &&& g.guessed_letters.len() < pow16(16)
    &&& g.last_move.len() < pow16(16)
}

/// A game store small enough to encode.
pub open spec fn bounded_game_db(gs: Seq<GameView>) -> bool {
    &&& forall|i: int| 0 <= i < gs.len() ==> bounded_game(#[trigger] gs[i])
    &&& gs.len() < pow16(16)
}

/// Reading back an encoded game yields the game.
pub proof fn lemma_parse_enc_game(s: Seq<char>, i: int, g: GameView)
    requires
        at_pos(s, i, enc_game(g)),
        bounded_game(g),
    ensures
        p_game(s, i) == Some((g, i + enc_game(g).len())),
{
    lemma_pow16_16();
    lemma_pow16_le(2, 16);
    lemma_enc_nat_len(g.id as nat, 16);
    lemma_enc_nat_len(g.word.len(), 16);
    lemma_enc_nat_len(g.guessed_letters.len(), 16);
    lemma_enc_nat_len(g.incorrect_attempts as nat, 2);
    lemma_enc_nat_len(g.last_move.len(), 16);
    let a = enc_nat(g.id as nat, 16);
    let b = enc_str(g.word);
    let c = enc_str(g.guessed_letters);
    let d = enc_nat(g.incorrect_attempts as nat, 2);
    let e = enc_str(g.last_move);
    lemma_at_concat(s, i, a + b + c + d, e);
    lemma_at_concat(s, i, a + b + c, d);
    lemma_at_concat(s, i, a + b, c);
    lemma_at_concat(s, i, a, b);
    lemma_parse_enc_nat(s, i, g.id as nat, 16);
    lemma_parse_enc_str(s, i + 16, g.word);
    let j: int = i + 16 + 16 + g.word.len() as int;
    lemma_parse_enc_str(s, j, g.guessed_letters);
    let k: int = j + 16 + g.guessed_letters.len() as int;
    assert(pow16(2) == 256) by {
        reveal_with_fuel(pow16, 3);
    }
    assert((g.incorrect_attempts as nat) < pow16(2));
    lemma_parse_enc_nat(s, k, g.incorrect_attempts as nat, 2);
    lemma_parse_enc_str(s, k + 2, g.last_move);
    let parsed = p_game(s, i)->Some_0.0;
    assert(parsed =~= g);
    assert(enc_game(g).len() == 16 + 16 + g.word.len() + 16 + g.guessed_letters.len() + 2 + 16
        + g.last_move.len());
}

/// Reading back an encoded game sequence yields the sequence.
pub proof fn lemma_parse_enc_games(s: Seq<char>, i: int, gs: Seq<GameView>)
    requires
        at_pos(s, i, enc_games(gs)),
        forall|k: int| 0 <= k < gs.len() ==> bounded_game(#[trigger] gs[k]),
    ensures
        p_games(s, i, gs.len()) == Some((gs, i + enc_games(gs).len())),
    decreases gs.len(),
{
    if gs.len() > 0 {
        let rest = gs.drop_first();
        lemma_at_concat(s, i, enc_game(gs[0]), enc_games(rest));
        lemma_parse_enc_game(s, i, gs[0]);
        let j = i + enc_game(gs[0]).len();
        assert(forall|k: int| 0 <= k < rest.len() ==> bounded_game(#[trigger] rest[k]));
        lemma_parse_enc_games(s, j, rest);
        assert(seq![gs[0]] + rest =~= gs);
    }
}

/// The game-store snapshot round trip: reading back an encoded store yields
/// exactly the store, for every well-formed store that fits the encoding.
pub proof fn lemma_game_snapshot_round_trip(gs: Seq<GameView>)
    requires
        distinct_game_ids(gs),
        bounded_game_db(gs),
    ensures
        p_game_db(enc_game_db(gs)) == Some(gs),
{
    let s = enc_game_db(gs);
    lemma_enc_nat_len(gs.len(), 16);
    assert(at_pos(s, 0, s));
    lemma_at_concat(s, 0, enc_nat(gs.len(), 16), enc_games(gs));
    lemma_parse_enc_nat(s, 0, gs.len(), 16);
    lemma_parse_enc_games(s, 16, gs);
}

/// Appending a game extends its encoded sequence at the end.
pub proof fn lemma_enc_games_snoc(gs: Seq<GameView>, g: GameView)
    ensures
        enc_games(gs.push(g)) == enc_games(gs) + enc_game(g),
    decreases gs.len(),
{
    if gs.len() == 0 {
        assert(gs.push(g)[0] == g);
        assert(gs.push(g).drop_first() =~= Seq::<GameView>::empty());
        assert(enc_games(gs.push(g)) == enc_game(g) + enc_games(Seq::<GameView>::empty()));
        assert(enc_games(Seq::<GameView>::empty()) =~= Seq::<char>::empty());
        assert(enc_games(gs) =~= Seq::<char>::empty());
        assert(enc_games(gs.push(g)) =~= enc_games(gs) + enc_game(g));
    } else {
        assert(gs.push(g)[0] == gs[0]);
        assert(gs.push(g).drop_first() =~= gs.drop_first().push(g));
        lemma_enc_games_snoc(gs.drop_first(), g);
        assert(enc_games(gs.push(g)) == enc_game(gs[0]) + enc_games(gs.drop_first().push(g)));
        assert(enc_games(gs.push(g)) == enc_game(gs[0]) + (enc_games(gs.drop_first()) + enc_game(
            g,
        )));
        assert(enc_game(gs[0]) + (enc_games(gs.drop_first()) + enc_game(g)) =~= (enc_game(gs[0])
            + enc_games(gs.drop_first())) + enc_game(g));
        assert(enc_games(gs) == enc_game(gs[0]) + enc_games(gs.drop_first()));
    }
}

/// Appends one game record.
fn push_game(out: &mut Vec<char>, g: &GameState)
    ensures
        final(out)@ == old(out)@ + enc_game(g@),
        bounded_game(g@),
{
    proof {
        lemma_pow16_16();
        lemma_pow16_le(2, 16);
        assert(pow16(2) == 256) by {
            reveal_with_fuel(pow16, 3);
        }
    }
    push_nat16(out, g.id, 16);
    push_chars(out, &g.word);
    push_char_vec(out, &g.guessed_letters);
    push_nat16(out, g.incorrect_attempts as u64, 2);
    push_chars(out, &g.last_move);
    proof {
        assert(out@ =~= old(out)@ + enc_game(g@));
    }
}

/// Reads one game record at `pos`.
fn parse_game(s: &Vec<char>, pos: usize) -> (r: Option<(GameState, usize)>)
    ensures
        match r {
            Some(p) => p_game(s@, pos as int) == Some((p.0@, p.1 as int)) && p.1 <= s@.len(),
            None => p_game(s@, pos as int) is None,
        },
{
    let _bound: usize = s.len();
    match parse_nat16(s, pos, 16) {
        Some(id) => match parse_string(s, pos + 16) {
            Some((word, j)) => match parse_char_vec(s, j) {
                Some((guessed_letters, k)) => match parse_nat16(s, k, 2) {
                    Some(att) => match parse_string(s, k + 2) {
                        Some((last_move, e)) => {
                            proof {
                                crate::snapshot::lemma_parse_nat_lt(s@, k as int, 2);
                            }
                            let g = GameState {
                                id,
                                word,
                                guessed_letters,
                                incorrect_attempts: att as u8,
                                last_move,
                            };
                            proof {
                                assert(g@ =~= p_game(s@, pos as int)->Some_0.0);
                            }
                            Some((g, e))
                        },
                        None => None,
                    },
                    None => None,
                },
                None => None,
            },
            None => None,
        },
        None => None,
    }
}

/// Reads `n` game records at `pos`.
fn parse_games(s: &Vec<char>, pos: usize, n: u64) -> (r: Option<(Vec<GameState>, usize)>)
    requires
        pos <= s@.len(),
    ensures
        match r {
            Some(p) => p_games(s@, pos as int, n as nat) == Some(
                (p.0@.map_values(|g: GameState| g@), p.1 as int),
            ) && p.1 <= s@.len(),
            None => p_games(s@, pos as int, n as nat) is None,
        },
    decreases n,
{
    if n == 0 {
        let v: Vec<GameState> = Vec::new();
        proof {
            assert(v@.map_values(|g: GameState| g@) =~= Seq::<GameView>::empty());
        }
        return Some((v, pos));
    }
    match parse_game(s, pos) {
        Some((g, j)) => match parse_games(s, j, n - 1) {
            Some((v, end)) => {
                let ghost rest = v@.map_values(|g: GameState| g@);
                let mut v2 = v;
                v2.insert(0, g);
                proof {
                    assert(v2@.map_values(|g: GameState| g@) =~= seq![g@] + rest);
                }
                Some((v2, end))
            },
            None => None,
        },
        None => None,
    }
}

/// Whether all game ids in the vector are distinct.
fn distinct_games_exec(v: &Vec<GameState>) -> (b: bool)
    ensures
        b == distinct_game_ids(v@.map_values(|g: GameState| g@)),
{
    let ghost m = v@.map_values(|g: GameState| g@);
    let mut i: usize = 0;
    while i < v.len()
        invariant
            m == v@.map_values(|g: GameState| g@),
            0 <= i <= v.len(),
            forall|a: int, b2: int| 0 <= a < b2 < i ==> m[a].id != m[b2].id,
        decreases v.len() - i,
    {
        let mut j: usize = 0;
        while j < i
            invariant
                m == v@.map_values(|g: GameState| g@),
                0 <= j <= i < v.len(),
                forall|b2: int| 0 <= b2 < j ==> m[b2].id != m[i as int].id,
            decreases i - j,
        {
            if v[j].id == v[i].id {
                proof {
                    assert(m[j as int].id == m[i as int].id);
                    if distinct_game_ids(m) {
                        assert(m[j as int].id != m[i as int].id);
                    }
                }
                return false;
            }
            j += 1;
        }
        i += 1;
    }
    true
}

impl Database {
    /// Serializes the whole game store into one snapshot document that
    /// reads back as exactly this store.
    pub fn to_snapshot(&self) -> (r: Vec<char>)
        requires
            self.wf(),
        ensures
            r@ == enc_game_db(self@),
            p_game_db(r@) == Some(self@),
    {
        let ghost a = enc_nat(self@.len(), 16);
        let mut out: Vec<char> = Vec::new();
        proof {
            lemma_pow16_16();
            view_parts_game(self);
            assert(self@.len() == self.games@.len());
        }
        push_nat16(&mut out, self.games.len() as u64, 16);
        proof {
            assert((self.games.len() as u64) as nat == self@.len());
            assert(enc_games(self@.subrange(0, 0)) =~= Seq::<char>::empty());
            assert(out@ =~= a + enc_games(self@.subrange(0, 0)));
        }
        let mut i: usize = 0;
        while i < self.games.len()
            invariant
                self@ == self.games@.map_values(|g: GameState| g@),
                0 <= i <= self.games.len(),
                a == enc_nat(self@.len(), 16),
                out@ == a + enc_games(self@.subrange(0, i as int)),
                forall|k: int| 0 <= k < i ==> bounded_game(#[trigger] self@[k]),
            decreases self.games.len() - i,
        {
            push_game(&mut out, &self.games[i]);
            i += 1;
            proof {
                let pre = self@.subrange(0, i as int - 1);
                lemma_enc_games_snoc(pre, self@[i as int - 1]);
                assert(self@.subrange(0, i as int) =~= pre.push(self@[i as int - 1]));
                assert(out@ =~= a + enc_games(self@.subrange(0, i as int)));
            }
        }
        proof {
            assert(self@.subrange(0, self@.len() as int) =~= self@);
            assert(out@ =~= enc_game_db(self@));
            assert(bounded_game_db(self@));
            lemma_game_snapshot_round_trip(self@);
        }
        out
    }

    /// Restores a game store from a snapshot document; a document that does
    /// not conform exactly yields `None`, never a partial store.
    pub fn from_snapshot(s: &Vec<char>) -> (r: Option<Database>)
        ensures
            match r {
                Some(db) => db.wf() && p_game_db(s@) == Some(db@),
                None => p_game_db(s@) is None,
            },
    {
        let n = match parse_nat16(s, 0, 16) {
            Some(n) => n,
            None => {
                return None;
            },
        };
        let (games, j) = match parse_games(s, 16, n) {
            Some(p) => p,
            None => {
                return None;
            },
        };
        if j != s.len() {
            return None;
        }
        if !distinct_games_exec(&games) {
            return None;
        }
        let db = Database { games };
        proof {
            view_parts_game(&db);
            assert(db@ =~= p_game_db(s@)->Some_0);
        }
        Some(db)
    }
}

} // verus!
