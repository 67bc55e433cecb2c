//! The decisions of an interactive game against the engine: whose turn it
//! is, the roll, the legal moves, and what the player's typed line means.
//! Showing the board, reading the line and searching for the engine's move
//! are left to the caller, which feeds the outcomes back.
use vstd::prelude::*;
use vstd::string::StringSliceAdditionalSpecFns;
use crate::cli::{compact_text, is_game_over_cli, move_matches_input, normalized, SplitMix64};
use crate::search::{generate_candidate_moves, key_board, Board, Move, SearchError};
use crate::text::{ascii_chars, is_ws, str_chars};
use crate::transposition::spec_splitmix64;
use crate::weights::{trim, trimmed};
use vstd::wrapping::u64_specs::wrapping_add;

verus! {

/// The seed of the game's dice.
pub const PLAY_SEED: u64 = 0x2930_2930_2930_2930;

/// A game in progress: the position, the dice, and whether the player (not
/// the engine) moves next.
pub struct PlaySession {
    pub board: Board,
    pub rng: SplitMix64,
    pub player_turn: bool,
}

/// How a turn begins.
pub enum TurnStart {
    /// One side has borne off all its checkers.
    GameOver,
    /// The player rolled; these are the legal moves (possibly none).
    Player { dice: (u8, u8), legal: Vec<Move> },
    /// The engine rolled and must find its move.
    Engine { dice: (u8, u8) },
}

/// What a line typed by the player means.
pub enum PlayerInput {
    Quit,
    Chosen(Move),
    Invalid,
}

/// The characters of `quit` or `exit`, in any case.
pub open spec fn quit_word(t: Seq<char>) -> bool {
    let l = t.map_values(|c: char| crate::cli::ascii_lower(c));
    l == "quit"@ || l == "exit"@
}

/// The game is over for the board of `key`.
pub open spec fn game_over(b: Board) -> bool {
    key_board(b.spec_key())[0][0] >= 15 || key_board(b.spec_key())[1][0] >= 15
}

/// The roll the generator gives from `state`.
pub open spec fn roll_from(state: u64) -> (u8, u8) {
    let v = spec_splitmix64(state);
    ((v % 6 + 1) as u8, ((v / 6) % 6 + 1) as u8)
}

impl PlaySession {
    /// A new game from the opening position; `color` says who moves first:
    /// `player` or `opponent`.
    pub fn start(color: &str) -> (r: Result<PlaySession, &'static str>)
        ensures
            r is Ok <==> (color@ == "player"@ || color@ == "opponent"@),
            r matches Ok(s) ==> s.rng.state == PLAY_SEED && s.player_turn == (color@ == "player"@),
            r matches Ok(s) ==> crate::search::decode_position_id_ok(
                "4HPwATDgc/ABMA".spec_bytes(),
                s.board.spec_key(),
            ),
    {
        let player = str_eq(color, "player");
        let opponent = str_eq(color, "opponent");
        if !player && !opponent {
            return Err("--color must be 'player' or 'opponent'");
        }
        proof {
            reveal_strlit("4HPwATDgc/ABMA");
            broadcast use vstd::string::is_ascii_spec_bytes;
            assert(vstd::string::is_ascii("4HPwATDgc/ABMA"));
        }
        let board = match Board::from_position_id("4HPwATDgc/ABMA") {
            Ok(b) => b,
            Err(_) => {
                proof {
                    assert(false);
                }
                Board::from_key(crate::types::PositionKey([0u8; 10]))
            },
        };
        Ok(PlaySession { board, rng: SplitMix64::new(PLAY_SEED), player_turn: player })
    }

    /// Begin a turn: stop when the game is over, otherwise roll; on the
    /// player's turn also list the legal moves.
    pub fn begin_turn(&mut self) -> (t: TurnStart)
        ensures
            final(self).board == old(self).board,
            final(self).player_turn == old(self).player_turn,
            game_over(old(self).board) ==> (t is GameOver && final(self).rng == old(self).rng),
            !game_over(old(self).board) ==> {
                &&& final(self).rng.state == wrapping_add(old(self).rng.state, 0x9e37_79b9_7f4a_7c15u64)
                &&& match t {
                    TurnStart::Player { dice, legal } => old(self).player_turn && dice == roll_from(
                        old(self).rng.state,
                    ) && crate::search::candidates_of_roll(old(self).board, dice, legal@),
                    TurnStart::Engine { dice } => !old(self).player_turn && dice == roll_from(
                        old(self).rng.state,
                    ),
                    TurnStart::GameOver => false,
                }
            },
    {
        if is_game_over_cli(&self.board) {
            return TurnStart::GameOver;
        }
        let dice = self.rng.dice();
        if self.player_turn {
            let legal = generate_candidate_moves(&self.board, dice);
            TurnStart::Player { dice, legal }
        } else {
            TurnStart::Engine { dice }
        }
    }

    /// End a turn with the move played (or none when there was no legal
    /// move): the position becomes the move's result and the other side
    /// moves next.
    pub fn end_turn(&mut self, played: Option<Move>)
        ensures
            final(self).rng == old(self).rng,
            final(self).player_turn == !old(self).player_turn,
            played matches Some(m) ==> final(self).board.spec_key() == m.resulting_position,
            played is None ==> final(self).board == old(self).board,
    {
        if let Some(m) = played {
            self.board = Board::from_key(m.resulting_position);
        }
        self.player_turn = !self.player_turn;
    }
}

fn str_eq(a: &str, b: &str) -> (r: bool)
    ensures
        r == (a@ == b@),
{
    let x = str_chars(a);
    let y = str_chars(b);
    if x.len() != y.len() {
        return false;
    }
    let mut i: usize = 0;
    while i < x.len()
        invariant
            i <= x@.len(),
            x@.len() == y@.len(),
            x@ == a@,
            y@ == b@,
            forall|j: int| 0 <= j < i ==> x@[j] == y@[j],
        decreases x@.len() - i,
    {
        if x[i] != y[i] {
            return false;
        }
        i = i + 1;
    }
    proof {
        assert(x@ =~= y@);
    }
    true
}

fn lower_eq(t: &Vec<char>, word: &str) -> (r: bool)
    ensures
        r == (t@.map_values(|c: char| crate::cli::ascii_lower(c)) == word@),
{
    let w = str_chars(word);
    if t.len() != w.len() {
        proof {
            assert(t@.map_values(|c: char| crate::cli::ascii_lower(c)).len() != word@.len());
        }
        return false;
    }
    let mut i: usize = 0;
    while i < t.len()
        invariant
            i <= t@.len(),
            t@.len() == w@.len(),
            w@ == word@,
            forall|j: int| 0 <= j < i ==> crate::cli::ascii_lower(t@[j]) == w@[j],
        decreases t@.len() - i,
    {
        let c = t[i];
        let l = if 'A' <= c && c <= 'Z' {
            ((c as u8) + 32) as char
        } else {
            c
        };
        if l != w[i] {
            proof {
                assert(t@.map_values(|c: char| crate::cli::ascii_lower(c))[i as int] != word@[i as int]);
            }
            return false;
        }
        i = i + 1;
    }
    proof {
        assert(t@.map_values(|c: char| crate::cli::ascii_lower(c)) =~= word@);
    }
    true
}

/// The first legal move among the first `n` that the typed line names.
pub open spec fn first_match(legal: Seq<Move>, line: Seq<char>, n: int) -> Option<int>
    decreases n,
{
    if n <= 0 {
        None
    } else {
        match first_match(legal, line, n - 1) {
            Some(i) => Some(i),
            None => if normalized(line) == normalized(ascii_chars(compact_text(legal[n - 1])))
                || normalized(line) == normalized(ascii_chars(crate::cli::move_text(legal[n - 1]))) {
                Some(n - 1)
            } else {
                None
            },
        }
    }
}

proof fn lemma_first_match_stays(legal: Seq<Move>, line: Seq<char>, n: int, m: int)
    requires
        n <= m,
        first_match(legal, line, n) is Some,
    ensures
        first_match(legal, line, m) == first_match(legal, line, n),
    decreases m - n,
{
    if n < m {
        lemma_first_match_stays(legal, line, n, m - 1);
    }
}

/// Read the player's line: `quit` or `exit` (in any case) ends the game;
/// otherwise the first legal move it names is chosen.
pub fn read_player_input(legal: &Vec<Move>, line: &str) -> (r: PlayerInput)
    ensures
        ({
            let t = trim(line@);
            if quit_word(t) {
                r is Quit
            } else {
                match first_match(legal@, t, legal@.len() as int) {
                    Some(i) => r == PlayerInput::Chosen(legal@[i]),
                    None => r is Invalid,
                }
            }
        }),
{
    let chars = str_chars(line);
    proof {
        assert(chars@.subrange(0, chars@.len() as int) =~= line@);
    }
    let t = trimmed(&chars, 0, chars.len());
    if lower_eq(&t, "quit") || lower_eq(&t, "exit") {
        return PlayerInput::Quit;
    }
    let text = crate::text::chars_to_string(t);
    let mut i: usize = 0;
    while i < legal.len()
        invariant
            i <= legal@.len(),
            text@ == trim(line@),
            !quit_word(trim(line@)),
            first_match(legal@, text@, i as int) is None,
        decreases legal@.len() - i,
    {
        if move_matches_input(&legal[i], text.as_str()) {
            proof {
                assert(first_match(legal@, text@, i + 1) == Some(i as int));
                lemma_first_match_stays(legal@, text@, i + 1, legal@.len() as int);
            }
            return PlayerInput::Chosen(legal[i]);
        }
        i = i + 1;
    }
    PlayerInput::Invalid
}

} // verus!
