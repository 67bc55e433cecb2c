//! Positions, candidate moves and settings of the search.
use vstd::prelude::*;
use crate::moves::{generate_moves, generated_order, generated_plays, lists_best_plays, records_first_best};
use crate::position_id::{decode_position_id, decoded_id_key, hex_key_byte, valid_hex_key, valid_id, GnuBgError};
use crate::transposition::{next_pow2, next_power_of_two};
use crate::types::{board_from_old_key, cell, decoded_cell, PositionKey};
use vstd::string::StringSliceAdditionalSpecFns;
use crate::cli::{lemma_candidate_ascii, lemma_step_text_nonempty, push_step, steps_text};
use crate::text::{ascii_chars, ascii_to_string, decimal, push_decimal};

verus! {

/// A position, held as its 10-byte key.
#[derive(Clone, Copy, Debug, PartialEq, Eq, Hash)]
pub struct Board {
    key: PositionKey,
}

/// Errors of the search.
#[derive(Clone, Copy, Debug, PartialEq, Eq, Structural)]
pub enum SearchError {
    Ffi(GnuBgError),
    EmptyMoveList,
}

impl SearchError {
    /// The message describing the error.
    pub fn message(&self) -> (s: &'static str)
        ensures
            s@ == match *self {
                SearchError::Ffi(e) => e.message_spec(),
                SearchError::EmptyMoveList => "no candidate moves to evaluate"@,
            },
    {
        match self {
            SearchError::Ffi(e) => e.message(),
            SearchError::EmptyMoveList => "no candidate moves to evaluate",
        }
    }
}

impl Board {
    /// The key of the position.
    pub closed spec fn spec_key(self) -> PositionKey {
        self.key
    }

    /// Read a PositionID (or 20-digit hexadecimal key).
    pub fn from_position_id(position_id: &str) -> (r: Result<Self, SearchError>)
        ensures
            r matches Ok(b) ==> decode_position_id_ok(position_id.spec_bytes(), b.spec_key()),
            r matches Err(e) ==> e matches SearchError::Ffi(g) && position_id_error(
                position_id.spec_bytes(),
                g,
            ),
    {
        match decode_position_id(position_id) {
            Ok(key) => Ok(Board { key }),
            Err(e) => Err(SearchError::Ffi(e)),
        }
    }

    pub fn from_key(key: PositionKey) -> (b: Self)
        ensures
            b.spec_key() == key,
    {
        Board { key }
    }

    pub fn key(&self) -> (k: PositionKey)
        ensures
            k == self.spec_key(),
    {
        self.key
    }
}

/// `key` is what decoding the text `bytes` yields: a hexadecimal key when
/// it is 20 bytes long, a PositionID otherwise.
pub open spec fn decode_position_id_ok(bytes: Seq<u8>, key: PositionKey) -> bool {
    &&& !bytes.contains(0u8)
    &&& if bytes.len() == 20 {
        valid_hex_key(bytes) && forall|i: int| 0 <= i < 10 ==> key.0[i] == hex_key_byte(bytes, i)
    } else {
        valid_id(bytes) && key.0@ == decoded_id_key(bytes)
    }
}

/// The error reading the text `bytes` gives.
pub open spec fn position_id_error(bytes: Seq<u8>, e: GnuBgError) -> bool {
    if bytes.contains(0u8) {
        e == GnuBgError::InteriorNul
    } else {
        e == GnuBgError::InvalidPositionId && if bytes.len() == 20 {
            !valid_hex_key(bytes)
        } else {
            !valid_id(bytes)
        }
    }
}

/// The board of a position.
pub fn raw_board(board: &Board) -> (b: crate::types::Board)
    ensures
        b == key_board(board.spec_key()),
        holds_decoded(b, board.spec_key().0@),
        forall|s: int, p: int| 0 <= s < 2 && 0 <= p < 25 ==> b[s][p] <= 80,
{
    let b = board_from_old_key(&board.key);
    proof {
        lemma_key_board(board.key, b);
    }
    b
}

/// A candidate move of the search: its index, the dice, its first
/// sub-move, all sub-moves, and the resulting position.
#[derive(Clone, Copy, Debug, PartialEq, Eq)]
pub struct Move {
    pub id: usize,
    pub dice: (u8, u8),
    pub from: u8,
    pub to: u8,
    pub steps: [Option<(u8, u8)>; 4],
    pub resulting_position: PositionKey,
}

/// The text of a candidate: `#id dice sub-moves`.
pub open spec fn candidate_text(mv: Move) -> Seq<u8> {
    seq![35u8] + decimal(mv.id as nat) + seq![32u8] + decimal(mv.dice.0 as nat) + decimal(
        mv.dice.1 as nat,
    ) + seq![32u8] + steps_text(mv.steps@, 4)
}

impl Move {
    /// The text of the candidate, such as `#3 31 8/5 6/5`.
    pub fn to_text(&self) -> (s: String)
        ensures
            s@ == ascii_chars(candidate_text(*self)),
    {
        let mut out: Vec<u8> = Vec::new();
        out.push(35);
        push_decimal(&mut out, self.id as u64);
        out.push(32);
        push_decimal(&mut out, self.dice.0 as u64);
        push_decimal(&mut out, self.dice.1 as u64);
        out.push(32);
        let ghost head = out@;
        let mut i: usize = 0;
        let mut any = false;
        while i < 4
            invariant
                i <= 4,
                out@ == head + steps_text(self.steps@, i as int),
                any == (steps_text(self.steps@, i as int).len() > 0),
            decreases 4 - i,
        {
            if let Some((from, to)) = self.steps[i] {
                if any {
                    out.push(32);
                }
                push_step(&mut out, from, to);
                any = true;
                proof {
                    lemma_step_text_nonempty(from, to);
                    assert(out@ =~= head + steps_text(self.steps@, i + 1));
                }
            }
            i = i + 1;
        }
        proof {
            assert(out@ =~= candidate_text(*self));
            lemma_candidate_ascii(*self);
        }
        ascii_to_string(out)
    }
}

/// The first recorded sub-move, or `(0, 0)`.
pub open spec fn first_step(steps: Seq<Option<(u8, u8)>>) -> (u8, u8) {
    if steps[0] is Some {
        steps[0].unwrap()
    } else if steps[1] is Some {
        steps[1].unwrap()
    } else if steps[2] is Some {
        steps[2].unwrap()
    } else if steps[3] is Some {
        steps[3].unwrap()
    } else {
        (0, 0)
    }
}

/// `c` is candidate number `i` made from generated move `m`.
pub open spec fn candidate_of(c: Move, m: crate::types::Move, i: int, dice: (u8, u8)) -> bool {
    &&& c.id == i
    &&& c.dice == dice
    &&& (c.from, c.to) == first_step(m.from_to@)
    &&& c.steps@ == m.from_to@
    &&& c.resulting_position == m.key
}

fn first_some(steps: &[Option<(u8, u8)>; 4]) -> (r: (u8, u8))
    ensures
        r == first_step(steps@),
{
    let mut i: usize = 0;
    while i < 4
        invariant
            i <= 4,
            forall|j: int| 0 <= j < i ==> steps@[j] is None,
        decreases 4 - i,
    {
        if let Some(st) = steps[i] {
            return st;
        }
        i = i + 1;
    }
    (0, 0)
}

/// `res` lists the legal moves of `board` for `dice` as search candidates:
/// one for each move that move generation lists, in the same order, each
/// recording the first best play the generator found for its position.
pub open spec fn candidates_of_roll(board: Board, dice: (u8, u8), res: Seq<Move>) -> bool {
    exists|ml: Seq<crate::types::Move>|
        {
            &&& ml.len() == res.len()
            &&& lists_best_plays(ml, generated_plays(key_board(board.spec_key()), dice.0, dice.1))
            &&& forall|i: int|
                0 <= i < ml.len() ==> #[trigger] records_first_best(
                    ml[i],
                    generated_order(key_board(board.spec_key()), dice.0, dice.1),
                    generated_plays(key_board(board.spec_key()), dice.0, dice.1),
                )
            &&& forall|i: int| 0 <= i < ml.len() ==> #[trigger] candidate_of(res[i], ml[i], i, dice)
        }
}

/// The legal moves of a position for a roll, as search candidates.
pub fn generate_candidate_moves(board: &Board, dice: (u8, u8)) -> (res: Vec<Move>)
    requires
        1 <= dice.0 <= 6,
        1 <= dice.1 <= 6,
    ensures
        candidates_of_roll(*board, dice, res@),
{
    let raw = raw_board(board);
    proof {
        crate::types::lemma_checkers_bound(raw, 50, 80);
    }
    let move_list = generate_moves(&raw, dice);
    let mut res: Vec<Move> = Vec::new();
    let mut idx: usize = 0;
    while idx < move_list.moves.len()
        invariant
            idx <= move_list.moves@.len(),
            res@.len() == idx,
            forall|i: int| 0 <= i < idx ==> #[trigger] candidate_of(res@[i], move_list.moves@[i], i, dice),
        decreases move_list.moves@.len() - idx,
    {
        let mv = move_list.moves[idx];
        let (from, to) = first_some(&mv.from_to);
        res.push(
            Move {
                id: idx,
                dice,
                from,
                to,
                steps: mv.from_to,
                resulting_position: PositionKey(mv.key.0),
            },
        );
        idx = idx + 1;
    }
    res
}

/// `b` holds, cell by cell, what the key bits `k` decode to.
pub open spec fn holds_decoded(b: crate::types::Board, k: Seq<u8>) -> bool {
    forall|f: int| 0 <= f < 50 ==> #[trigger] cell(b, f) as nat == decoded_cell(k, f)
}

/// The board a key decodes to.
pub open spec fn key_board(k: PositionKey) -> crate::types::Board {
    choose|b: crate::types::Board| holds_decoded(b, k.0@)
}

/// A board that holds what a key decodes to is the key's board.
pub proof fn lemma_key_board(k: PositionKey, b: crate::types::Board)
    requires
        holds_decoded(b, k.0@),
    ensures
        key_board(k) == b,
{
    let c = key_board(k);
    assert(holds_decoded(c, k.0@));
    assert forall|s: int| 0 <= s < 2 implies c[s] == b[s] by {
        assert forall|p: int| 0 <= p < 25 implies c[s][p] == b[s][p] by {
            let f = s * 25 + p;
            assert(f / 25 == s && f % 25 == p);
            assert(cell(c, f) as nat == decoded_cell(k.0@, f));
            assert(cell(b, f) as nat == decoded_cell(k.0@, f));
        }
        assert(c[s] =~= b[s]);
    }
    assert(c =~= b);
}

/// Settings of a search.
#[derive(Clone, Copy, Debug, PartialEq, Eq, Structural)]
pub struct SearchConfig {
    pub max_depth: u8,
    pub time_limit_ms: u64,
    pub tt_size: usize,
    pub randomize: bool,
}

impl Default for SearchConfig {
    /// Depth 4, no time limit, 2^20 table slots, no randomisation.
    fn default() -> (c: Self)
        ensures
            c == (SearchConfig { max_depth: 4, time_limit_ms: 0, tt_size: 1048576, randomize: false }),
    {
        SearchConfig { max_depth: 4, time_limit_ms: 0, tt_size: 1048576, randomize: false }
    }
}

/// Counters of a search.
#[derive(Clone, Copy, Debug, PartialEq, Eq, Structural)]
pub struct SearchStats {
    pub nodes_searched: u64,
    pub tt_hits: u64,
    pub tt_lookups: u64,
    pub eval_calls: u64,
    pub time_ms: u64,
}

impl Default for SearchStats {
    /// All counters zero.
    fn default() -> (s: Self)
        ensures
            s == (SearchStats { nodes_searched: 0, tt_hits: 0, tt_lookups: 0, eval_calls: 0, time_ms: 0 }),
    {
        SearchStats { nodes_searched: 0, tt_hits: 0, tt_lookups: 0, eval_calls: 0, time_ms: 0 }
    }
}

/// The configuration a search runs with: the table size raised to at least
/// 2 and rounded up to a power of two; everything else as given.
pub fn normalize_config(config: SearchConfig) -> (c: SearchConfig)
    requires
        config.tt_size <= usize::MAX / 2 + 1,
    ensures
        c == (SearchConfig {
            tt_size: next_pow2(if config.tt_size >= 2 { config.tt_size as nat } else { 2 }) as usize,
            ..config
        }),
{
    let size = if config.tt_size >= 2 {
        config.tt_size
    } else {
        2
    };
    SearchConfig { tt_size: next_power_of_two(size), ..config }
}

/// A roll of two dice, the first no higher than the second.
pub open spec fn ordered_roll(r: (u8, u8)) -> bool {
    1 <= r.0 <= r.1 <= 6
}

/// `a` comes before `b` in lexicographic order.
pub open spec fn roll_before(a: (u8, u8), b: (u8, u8)) -> bool {
    a.0 < b.0 || (a.0 == b.0 && a.1 < b.1)
}

/// The 21 distinct rolls, `(first, second)` with `first <= second`, in
/// lexicographic order.
pub fn all_rolls() -> (r: Vec<(u8, u8)>)
    ensures
        r@.len() == 21,
        forall|i: int| 0 <= i < r@.len() ==> ordered_roll(#[trigger] r@[i]),
        forall|i: int, j: int| 0 <= i < j < r@.len() ==> roll_before(r@[i], r@[j]),
        forall|a: u8, b: u8| ordered_roll((a, b)) ==> r@.contains((a, b)),
{
    let mut r: Vec<(u8, u8)> = Vec::new();
    let mut first: u8 = 1;
    while first <= 6
        invariant
            1 <= first <= 7,
            r@.len() == (first - 1) * (14 - first) / 2,
            forall|i: int| 0 <= i < r@.len() ==> ordered_roll(#[trigger] r@[i]) && r@[i].0 < first,
            forall|i: int, j: int| 0 <= i < j < r@.len() ==> roll_before(r@[i], r@[j]),
            forall|a: u8, b: u8| ordered_roll((a, b)) && a < first ==> r@.contains((a, b)),
        decreases 7 - first,
    {
        let mut second: u8 = first;
        let ghost start = r@.len();
        while second <= 6
            invariant
                1 <= first <= 6,
                first <= second <= 7,
                start == (first - 1) * (14 - first) / 2,
                r@.len() == start + (second - first),
                forall|i: int| 0 <= i < r@.len() ==> ordered_roll(#[trigger] r@[i]) && r@[i].0 <= first,
                forall|i: int| start <= i < r@.len() ==> (#[trigger] r@[i]).0 == first && r@[i].1 < second,
                forall|i: int| 0 <= i < start ==> (#[trigger] r@[i]).0 < first,
                forall|i: int, j: int| 0 <= i < j < r@.len() ==> roll_before(r@[i], r@[j]),
                forall|a: u8, b: u8|
                    ordered_roll((a, b)) && (a < first || (a == first && b < second)) ==> r@.contains(
                        (a, b),
                    ),
            decreases 7 - second,
        {
            let ghost old_r = r@;
            r.push((first, second));
            proof {
                assert forall|a: u8, b: u8|
                    ordered_roll((a, b)) && (a < first || (a == first && b < second + 1)) implies r@.contains(
                    (a, b),
                ) by {
                    if a == first && b == second {
                        assert(r@[r@.len() - 1] == (a, b));
                    } else {
                        assert(old_r.contains((a, b)));
                        let w = choose|w: int| 0 <= w < old_r.len() && old_r[w] == (a, b);
                        assert(r@[w] == (a, b));
                    }
                }
            }
            second = second + 1;
        }
        proof {
            assert((first - 1) * (14 - first) / 2 + (7 - first) == first * (13 - first) / 2) by (
            nonlinear_arith)
                requires
                    1 <= first <= 6,
            ;
        }
        first = first + 1;
    }
    proof {
        assert(first == 7);
        assert(r@.len() == (first - 1) * (14 - first) / 2);
        assert(r@.len() == 21);
    }
    r
}

/// The number of sub-moves of `steps` that hit: a move down the board onto
/// a point (not off it).
pub open spec fn hits_in(steps: Seq<Option<(u8, u8)>>, n: nat) -> nat
    decreases n,
{
    if n == 0 {
        0
    } else {
        hits_in(steps, (n - 1) as nat) + if steps[n - 1] matches Some((f, t)) && t > 0 && f > t {
            1nat
        } else {
            0nat
        }
    }
}

/// How many of a move's sub-moves land on a point below where they start.
pub fn hit_score(mv: &Move) -> (n: u8)
    ensures
        n == hits_in(mv.steps@, 4),
{
    let mut count: u8 = 0;
    let mut i: usize = 0;
    while i < 4
        invariant
            i <= 4,
            count == hits_in(mv.steps@, i as nat),
            count <= i,
        decreases 4 - i,
    {
        if let Some((from, to)) = mv.steps[i] {
            if to > 0 && from > to {
                count = count + 1;
            }
        }
        i = i + 1;
    }
    count
}

/// True when one side has borne off all fifteen checkers.
pub fn is_game_over(key: PositionKey) -> (over: bool)
    ensures
        over == (key_board(key)[0][0] >= 15 || key_board(key)[1][0] >= 15),
{
    let board = raw_board(&Board::from_key(key));
    board[0][0] >= 15 || board[1][0] >= 15
}

} // verus!
