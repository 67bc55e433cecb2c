//! Legal move generation.
//!
//! `board[0]` holds the opponent's checkers and `board[1]` the checkers of
//! the player to move; the player moves from higher points towards 0,
//! point 24 is the bar and point 0 the tray: a checker that reaches point 0
//! or goes past it is borne off.
use vstd::prelude::*;
use vstd::array::spec_array_update;
use crate::types::{Board, Move, MoveList, PositionKey};

verus! {

/// Board `b` with cell `(s, p)` set to `v`.
pub open spec fn set_cell(b: Board, s: int, p: int, v: u32) -> Board {
    spec_array_update(b, s, spec_array_update(b[s], p, v))
}

/// Reading a cell after `set_cell`.
pub proof fn lemma_set_cell(b: Board, s0: int, p0: int, v: u32)
    requires
        0 <= s0 < 2,
        0 <= p0 < 25,
    ensures
        forall|s: int, p: int|
            #![trigger set_cell(b, s0, p0, v)[s][p]]
            0 <= s < 2 && 0 <= p < 25 ==> set_cell(b, s0, p0, v)[s][p] == if s == s0 && p == p0 {
                v
            } else {
                b[s][p]
            },
{
}

/// Every cell of `b` is at most `limit`.
pub open spec fn cells_at_most(b: Board, limit: u32) -> bool {
    forall|s: int, p: int| 0 <= s < 2 && 0 <= p < 25 ==> b[s][p] <= limit
}

/// Highest point `<= p` (and `>= 1`) of `row` holding a checker, or 0.
pub open spec fn highest_from(row: [u32; 25], p: int) -> int
    decreases p,
{
    if p <= 0 {
        0
    } else if row[p] > 0 {
        p
    } else {
        highest_from(row, p - 1)
    }
}

/// The player's farthest-back checker (point 1..=24), or 0 if none.
pub open spec fn back_point(b: Board) -> int {
    highest_from(b[1], 24)
}

/// The rule of `legal_move`: a move landing on a point must not land where
/// the opponent has two or more checkers (the opponent's index `23 - dest`);
/// bearing off needs every checker on points 5 and below and either the
/// exact count or the farthest-back checker.
pub open spec fn legal_move_spec(b: Board, src: int, pips: int) -> bool {
    let d = src - pips;
    if d >= 0 {
        b[0][23 - d] < 2 && (d == 0 ==> back_point(b) <= 5)
    } else {
        back_point(b) <= 5 && (src == back_point(b) || d == -1)
    }
}

fn back_checker_point(board: &Board) -> (n: usize)
    ensures
        n == back_point(*board),
        n <= 24,
{
    let mut p: usize = 24;
    while p >= 1
        invariant
            p <= 24,
            highest_from(board[1], 24) == highest_from(board[1], p as int),
        decreases p,
    {
        if board[1][p] > 0 {
            return p;
        }
        p = p - 1;
    }
    0
}

/// Check whether moving a checker from `src` by `pips` pips is legal.
pub fn legal_move(board: &Board, src: u8, pips: u8) -> (ok: bool)
    requires
        src - pips <= 23,
    ensures
        ok == legal_move_spec(*board, src as int, pips as int),
{
    let i_dest = src as i16 - pips as i16;
    if i_dest >= 0 {
        if board[0][(23 - i_dest) as usize] >= 2 {
            return false;
        }
        if i_dest == 0 {
            let n_back = back_checker_point(board);
            if n_back > 5 {
                return false;
            }
        }
        return true;
    }
    let n_back = back_checker_point(board) as i16;
    n_back <= 5 && (src as i16 == n_back || i_dest == -1)
}

/// The board after moving a checker of the player from `src` by `pips`
/// pips, or `None` when the source is empty or invalid, or the destination
/// holds two or more opponent checkers (opponent index `24 - dest`).  A
/// checker moved to point 0 or below is borne off into the tray; landing on
/// a single opponent checker sends it to the opponent's bar.
pub open spec fn sub_move_spec(b: Board, src: int, pips: int) -> Option<Board> {
    if src > 24 || b[1][src] < 1 {
        None
    } else {
        let b1 = set_cell(b, 1, src, (b[1][src] - 1) as u32);
        let d = src - pips;
        if d <= 0 {
            Some(set_cell(b1, 1, 0, (b1[1][0] + 1) as u32))
        } else if b1[0][24 - d] > 1 {
            None
        } else if b1[0][24 - d] == 1 {
            let b2 = set_cell(b1, 1, d, 1);
            let b3 = set_cell(b2, 0, 24 - d, 0);
            Some(set_cell(b3, 0, 24, (b3[0][24] + 1) as u32))
        } else {
            Some(set_cell(b1, 1, d, (b1[1][d] + 1) as u32))
        }
    }
}

/// Move a checker of the player from `src` by `pips` pips, in place; a
/// destination of 0 or below bears the checker off.
pub fn apply_sub_move(board: &mut Board, src: u8, pips: u8) -> (r: Result<(), &'static str>)
    requires
        cells_at_most(*old(board), (u32::MAX - 1) as u32),
    ensures
        r is Ok <==> sub_move_spec(*old(board), src as int, pips as int) is Some,
        r is Ok ==> *final(board) == sub_move_spec(*old(board), src as int, pips as int).unwrap(),
        r is Err ==> *final(board) == *old(board),
{
    if src > 24 || board[1][src as usize] < 1 {
        return Err("invalid source point or empty");
    }
    let src_usize = src as usize;
    let i_dest = src as i16 - pips as i16;
    board[1][src_usize] -= 1;
    if i_dest <= 0 {
        board[1][0] += 1;
        return Ok(());
    }
    let dest = i_dest as usize;
    if board[0][24 - dest] > 0 {
        if board[0][24 - dest] > 1 {
            board[1][src_usize] += 1;
            proof {
                assert(board[1] =~= old(board)[1]);
                assert(board[0] =~= old(board)[0]);
                assert(*board =~= *old(board));
            }
            return Err("destination blocked by opponent's point");
        }
        board[1][dest] = 1;
        board[0][24 - dest] = 0;
        board[0][24] += 1;
    } else {
        board[1][dest] += 1;
    }
    Ok(())
}

} // verus!

verus! {

/// The effect of one recorded sub-move `(src, dest)` of a `Move`: a
/// destination of 0, or one above the source, bears the checker off;
/// otherwise the checker moves `src - dest` pips.
pub open spec fn step_spec(b: Board, sub: Option<(u8, u8)>) -> Option<Board> {
    match sub {
        None => Some(b),
        Some((src, dest)) => {
            if dest == 0 || dest > src {
                if src > 24 || b[1][src as int] < 1 {
                    None
                } else {
                    let b1 = set_cell(b, 1, src as int, (b[1][src as int] - 1) as u32);
                    Some(set_cell(b1, 1, 0, (b1[1][0] + 1) as u32))
                }
            } else {
                sub_move_spec(b, src as int, src - dest)
            }
        },
    }
}

/// Apply the recorded sub-moves in order; stops at the first that fails and
/// reports the board reached and whether all succeeded.
pub open spec fn apply_steps(b: Board, steps: Seq<Option<(u8, u8)>>) -> (Board, bool)
    decreases steps.len(),
{
    if steps.len() == 0 {
        (b, true)
    } else {
        match step_spec(b, steps[0]) {
            Some(b2) => apply_steps(b2, steps.drop_first()),
            None => (b, false),
        }
    }
}

proof fn lemma_sub_move_bound(b: Board, src: int, pips: int, limit: u32)
    requires
        0 <= src,
        0 <= pips,
        cells_at_most(b, limit),
        limit < u32::MAX,
        sub_move_spec(b, src, pips) is Some,
    ensures
        cells_at_most(sub_move_spec(b, src, pips).unwrap(), (limit + 1) as u32),
{
    let b1 = set_cell(b, 1, src, (b[1][src] - 1) as u32);
    lemma_set_cell(b, 1, src, (b[1][src] - 1) as u32);
    let d = src - pips;
    if d <= 0 {
        lemma_set_cell(b1, 1, 0, (b1[1][0] + 1) as u32);
    } else if b1[0][24 - d] == 1 {
        let b2 = set_cell(b1, 1, d, 1);
        let b3 = set_cell(b2, 0, 24 - d, 0);
        lemma_set_cell(b1, 1, d, 1);
        lemma_set_cell(b2, 0, 24 - d, 0);
        lemma_set_cell(b3, 0, 24, (b3[0][24] + 1) as u32);
    } else {
        lemma_set_cell(b1, 1, d, (b1[1][d] + 1) as u32);
    }
}

proof fn lemma_step_bound(b: Board, sub: Option<(u8, u8)>, limit: u32)
    requires
        cells_at_most(b, limit),
        limit < u32::MAX,
        step_spec(b, sub) is Some,
    ensures
        cells_at_most(step_spec(b, sub).unwrap(), (limit + 1) as u32),
{
    match sub {
        None => {},
        Some((src, dest)) => {
            if !(dest == 0 || dest > src) {
                lemma_sub_move_bound(b, src as int, src - dest, limit);
            } else {
                let b1 = set_cell(b, 1, src as int, (b[1][src as int] - 1) as u32);
                lemma_set_cell(b, 1, src as int, (b[1][src as int] - 1) as u32);
                lemma_set_cell(b1, 1, 0, (b1[1][0] + 1) as u32);
            }
        },
    }
}

/// Apply every sub-move of `mv` in place.  On an error the board keeps the
/// sub-moves applied before the failing one.
pub fn apply_move(board: &mut Board, mv: &Move) -> (r: Result<(), &'static str>)
    requires
        cells_at_most(*old(board), (u32::MAX - 4) as u32),
    ensures
        *final(board) == apply_steps(*old(board), mv.from_to@).0,
        r is Ok <==> apply_steps(*old(board), mv.from_to@).1,
{
    let mut i: usize = 0;
    proof {
        assert(mv.from_to@.skip(0) =~= mv.from_to@);
    }
    while i < 4
        invariant
            i <= 4,
            mv.from_to@.len() == 4,
            cells_at_most(*board, (u32::MAX - 4 + i) as u32),
            apply_steps(*old(board), mv.from_to@) == apply_steps(*board, mv.from_to@.skip(i as int)),
        decreases 4 - i,
    {
        let ghost rest = mv.from_to@.skip(i as int);
        proof {
            assert(rest[0] == mv.from_to@[i as int]);
            assert(rest.drop_first() =~= mv.from_to@.skip(i + 1));
        }
        if let Some((src, dest)) = mv.from_to[i] {
            let (pips, bear_off) = if dest == 0 || dest > src {
                (src, true)
            } else {
                (src - dest, false)
            };
            if bear_off {
                if src as usize > 24 || board[1][src as usize] < 1 {
                    return Err("invalid bear-off source");
                }
                board[1][src as usize] -= 1;
                board[1][0] += 1;
            } else {
                let ghost before = *board;
                match apply_sub_move(board, src, pips) {
                    Ok(()) => {},
                    Err(e) => {
                        return Err(e);
                    },
                }
                proof {
                    lemma_step_bound(before, mv.from_to@[i as int], (u32::MAX - 4 + i) as u32);
                }
            }
        }
        i = i + 1;
    }
    proof {
        assert(mv.from_to@.skip(4) =~= Seq::<Option<(u8, u8)>>::empty());
    }
    Ok(())
}

} // verus!

verus! {

// ---------------------------------------------------------------------------
// Specification of move generation
// ---------------------------------------------------------------------------

/// A (possibly partial) play reached while generating moves: the board, the
/// number of sub-moves made, the highest source point the next sub-move may
/// use, the pips used, and the `(source, destination)` of each sub-move (a
/// negative destination means borne off).
pub struct Play {
    pub board: Board,
    pub depth: nat,
    pub i_pip: int,
    pub c_pip: nat,
    pub steps: Seq<(int, int)>,
}

/// The dice to play, in order: two entries for a plain roll (the rest 0),
/// four equal entries for doubles.
pub open spec fn roll_ok(roll: [u8; 4]) -> bool {
    &&& 1 <= roll[0] <= 6
    &&& 1 <= roll[1] <= 6
    &&& if roll[0] == roll[1] {
        roll[2] == roll[0] && roll[3] == roll[0]
    } else {
        roll[2] == 0 && roll[3] == 0
    }
}

/// No die is left to play at this play.
pub open spec fn depth_done(roll: [u8; 4], n: Play) -> bool {
    n.depth > 3 || roll[n.depth as int] == 0
}

/// The play after moving from `src` by die `r`, when that sub-move succeeds.
pub open spec fn child(roll: [u8; 4], n: Play, src: int, r: int, next_pip: int) -> Play {
    Play {
        board: sub_move_spec(n.board, src, r).unwrap(),
        depth: n.depth + 1,
        i_pip: next_pip,
        c_pip: n.c_pip + r as nat,
        steps: n.steps.push((src, src - r)),
    }
}

/// A checker on the bar can enter with the current die (entry point open).
pub open spec fn bar_entry(roll: [u8; 4], n: Play) -> bool {
    let r = roll[n.depth as int] as int;
    &&& n.board[1][24] > 0
    &&& r <= 23
    &&& n.board[0][r] < 2
    &&& sub_move_spec(n.board, 24, r) is Some
}

/// Source `src` can be played with the current die (when not entering).
pub open spec fn candidate(roll: [u8; 4], n: Play, src: int) -> bool {
    let r = roll[n.depth as int] as int;
    &&& 0 <= src <= n.i_pip
    &&& n.board[1][src] > 0
    &&& legal_move_spec(n.board, src, r)
    &&& sub_move_spec(n.board, src, r) is Some
}

/// The highest source the next sub-move may use after moving from `src`:
/// the same point for doubles, the whole board otherwise.
pub open spec fn next_i_pip(roll: [u8; 4], src: int) -> int {
    if roll[0] == roll[1] {
        src
    } else {
        23
    }
}

/// The play ends here: no die left, or no sub-move possible.
pub open spec fn is_terminal(roll: [u8; 4], n: Play) -> bool {
    depth_done(roll, n) || (!bar_entry(roll, n) && !exists|src: int| candidate(roll, n, src))
}

/// `{c}` when `c` is a finished play, else empty.
pub open spec fn if_terminal(roll: [u8; 4], c: Play) -> Set<Play> {
    if is_terminal(roll, c) {
        set![c]
    } else {
        Set::empty()
    }
}

/// All finished plays that extend play `n` by at least one sub-move.  A
/// checker on the bar that can enter must enter; otherwise every source
/// point from `n.i_pip` down to 0 is tried.
pub open spec fn finished_below(roll: [u8; 4], n: Play) -> Set<Play>
    decreases 4 - n.depth, 30int,
{
    if depth_done(roll, n) {
        Set::empty()
    } else if bar_entry(roll, n) {
        let c = child(roll, n, 24, roll[n.depth as int] as int, 23);
        finished_below(roll, c) + if_terminal(roll, c)
    } else {
        finished_from(roll, n, 0)
    }
}

/// The finished plays below `n` whose first sub-move starts at `lo` or above.
pub open spec fn finished_from(roll: [u8; 4], n: Play, lo: int) -> Set<Play>
    decreases 4 - n.depth, 25 - lo,
{
    if depth_done(roll, n) || lo < 0 || lo > n.i_pip || lo > 24 {
        Set::empty()
    } else {
        let rest = finished_from(roll, n, lo + 1);
        if candidate(roll, n, lo) {
            let c = child(roll, n, lo, roll[n.depth as int] as int, next_i_pip(roll, lo));
            finished_below(roll, c) + if_terminal(roll, c) + rest
        } else {
            rest
        }
    }
}

/// `[c]` when `c` is a finished play, else empty.
pub open spec fn terminal_seq(roll: [u8; 4], c: Play) -> Seq<Play> {
    if is_terminal(roll, c) {
        seq![c]
    } else {
        Seq::empty()
    }
}

/// The finished plays below `n` in the order the generator offers them:
/// for each first sub-move, the plays that continue it, then that play
/// itself if it is finished.
pub open spec fn order_below(roll: [u8; 4], n: Play) -> Seq<Play>
    decreases 4 - n.depth, 30int,
{
    if depth_done(roll, n) {
        Seq::empty()
    } else if bar_entry(roll, n) {
        let c = child(roll, n, 24, roll[n.depth as int] as int, 23);
        order_below(roll, c) + terminal_seq(roll, c)
    } else {
        order_from(roll, n, 0)
    }
}

/// The finished plays below `n` whose first sub-move starts at `lo` or
/// above, in the order the generator offers them: higher sources first.
pub open spec fn order_from(roll: [u8; 4], n: Play, lo: int) -> Seq<Play>
    decreases 4 - n.depth, 25 - lo,
{
    if depth_done(roll, n) || lo < 0 || lo > n.i_pip || lo > 24 {
        Seq::empty()
    } else {
        let rest = order_from(roll, n, lo + 1);
        if candidate(roll, n, lo) {
            let c = child(roll, n, lo, roll[n.depth as int] as int, next_i_pip(roll, lo));
            rest + order_below(roll, c) + terminal_seq(roll, c)
        } else {
            rest
        }
    }
}

/// Every finished play for dice `d0`, `d1`, in the order the generator
/// offers them: the dice in the order rolled, then, for a plain roll,
/// swapped.
pub open spec fn generated_order(b: Board, d0: u8, d1: u8) -> Seq<Play> {
    order_below(pass_roll(d0, d1), root_play(b)) + if d0 != d1 {
        order_below(pass_roll(d1, d0), root_play(b))
    } else {
        Seq::empty()
    }
}

/// `mv` records the first play of `order` that is among the best of
/// `plays` and reaches `mv`'s position.
pub open spec fn records_first_best(mv: Move, order: Seq<Play>, plays: Set<Play>) -> bool {
    exists|k: int|
        0 <= k < order.len() && is_best(plays, #[trigger] order[k]) && records(mv, order[k])
            && forall|j: int|
            0 <= j < k && is_best(plays, #[trigger] order[j]) ==> play_key(order[j]) != move_key(mv)
}

/// The starting play of a generation pass.
pub open spec fn root_play(b: Board) -> Play {
    Play { board: b, depth: 0, i_pip: 23, c_pip: 0, steps: Seq::empty() }
}

/// The recorded sub-moves of a play, as stored in a `Move`.
pub open spec fn from_to_of(steps: Seq<(int, int)>) -> Seq<Option<(u8, u8)>> {
    Seq::new(
        4,
        |i: int|
            if i < steps.len() {
                Some(
                    (
                        steps[i].0 as u8,
                        if steps[i].1 >= 0 {
                            steps[i].1 as u8
                        } else {
                            0u8
                        },
                    ),
                )
            } else {
                None
            },
    )
}

/// The 80 key bits of the board a play reaches.
pub open spec fn play_key(n: Play) -> Seq<bool> {
    Seq::new(80, |j: int| crate::types::encoded_bit(n.board, j))
}

/// The 80 bits of a stored key.
pub open spec fn move_key(m: Move) -> Seq<bool> {
    crate::types::key_bits(m.key.0@)
}

/// `m` records play `n`.
pub open spec fn records(m: Move, n: Play) -> bool {
    &&& m.c_moves == n.depth
    &&& m.c_pips == n.c_pip
    &&& move_key(m) == play_key(n)
    &&& m.from_to@ == from_to_of(n.steps)
}

} // verus!

verus! {

// ---------------------------------------------------------------------------
// Saving generated moves
// ---------------------------------------------------------------------------

/// The most sub-moves and pips of the plays kept so far, and (as proof
/// artifacts) the set of finished plays offered to the list and the order
/// in which they were offered.
struct MoveLimits {
    c_max_moves: u8,
    c_max_pips: u8,
    offered: Ghost<Set<Play>>,
    order: Ghost<Seq<Play>>,
}

/// The list holds exactly the distinct resulting positions of the offered
/// plays that use the most sub-moves and pips, each recorded from one such
/// play; every offered play uses at most that many.
spec fn list_inv(moves: Seq<Move>, lim: MoveLimits) -> bool {
    let m = lim.c_max_moves as nat;
    let p = lim.c_max_pips as nat;
    let o = lim.offered@;
    &&& forall|n: Play| #[trigger] o.contains(n) ==> n.depth <= m && n.c_pip <= p
    &&& o.is_empty() ==> m == 0 && p == 0
    &&& !o.is_empty() ==> exists|n: Play| #[trigger] o.contains(n) && n.depth == m && n.c_pip == p
    &&& forall|i: int, j: int|
        0 <= i < moves.len() && 0 <= j < moves.len() && i != j ==> move_key(moves[i]) != move_key(
            moves[j],
        )
    &&& forall|i: int| 0 <= i < moves.len() ==> #[trigger] recorded_max(moves[i], lim)
    &&& forall|n: Play|
        #[trigger] o.contains(n) && n.depth == m && n.c_pip == p ==> key_listed(moves, play_key(n))
    &&& forall|n: Play| o.contains(n) <==> lim.order@.contains(n)
    &&& forall|i: int| 0 <= i < moves.len() ==> #[trigger] first_max_record(moves[i], lim.order@, m, p)
}

/// `mv` records the first play of `order` that uses `m` sub-moves and `p`
/// pips and reaches `mv`'s position.
spec fn first_max_record(mv: Move, order: Seq<Play>, m: nat, p: nat) -> bool {
    exists|k: int|
        0 <= k < order.len() && (#[trigger] order[k]).depth == m && order[k].c_pip == p && records(
            mv,
            order[k],
        ) && forall|j: int|
            0 <= j < k && (#[trigger] order[j]).depth == m && order[j].c_pip == p ==> play_key(
                order[j],
            ) != move_key(mv)
}

proof fn lemma_first_record_push(mv: Move, ord: Seq<Play>, n: Play, m: nat, p: nat)
    requires
        first_max_record(mv, ord, m, p),
    ensures
        first_max_record(mv, ord.push(n), m, p),
{
    let k = choose|k: int|
        0 <= k < ord.len() && (#[trigger] ord[k]).depth == m && ord[k].c_pip == p && records(
            mv,
            ord[k],
        ) && forall|j: int|
            0 <= j < k && (#[trigger] ord[j]).depth == m && ord[j].c_pip == p ==> play_key(ord[j])
                != move_key(mv);
    let o2 = ord.push(n);
    assert(o2[k] == ord[k]);
    assert forall|j: int| 0 <= j < k && (#[trigger] o2[j]).depth == m && o2[j].c_pip == p implies play_key(
        o2[j],
    ) != move_key(mv) by {
        assert(o2[j] == ord[j]);
    }
}

proof fn lemma_contains_push(o: Set<Play>, ord: Seq<Play>, n: Play)
    requires
        forall|x: Play| o.contains(x) <==> ord.contains(x),
    ensures
        forall|x: Play| o.insert(n).contains(x) <==> ord.push(n).contains(x),
{
    assert forall|x: Play| o.insert(n).contains(x) <==> ord.push(n).contains(x) by {
        if ord.contains(x) {
            let i = choose|i: int| 0 <= i < ord.len() && ord[i] == x;
            assert(ord.push(n)[i] == x);
        }
        if ord.push(n).contains(x) {
            let i = choose|i: int| 0 <= i < ord.push(n).len() && ord.push(n)[i] == x;
            if i < ord.len() {
                assert(ord[i] == x);
            }
        }
        assert(ord.push(n)[ord.len() as int] == n);
    }
}

proof fn lemma_inv_listed(moves: Seq<Move>, lim: MoveLimits, x: Play)
    requires
        list_inv(moves, lim),
        lim.offered@.contains(x),
        x.depth == lim.c_max_moves,
        x.c_pip == lim.c_max_pips,
    ensures
        key_listed(moves, play_key(x)),
{
}

proof fn lemma_recorded_grow(mv: Move, lim: MoveLimits, lim2: MoveLimits)
    requires
        recorded_max(mv, lim),
        lim2.c_max_moves == lim.c_max_moves,
        lim2.c_max_pips == lim.c_max_pips,
        lim.offered@.subset_of(lim2.offered@),
    ensures
        recorded_max(mv, lim2),
{
    let x = choose|x: Play|
        #[trigger] lim.offered@.contains(x) && x.depth == lim.c_max_moves && x.c_pip
            == lim.c_max_pips && records(mv, x);
    assert(lim2.offered@.contains(x));
}

/// `mv` records one of the offered plays using the most sub-moves and pips.
spec fn recorded_max(mv: Move, lim: MoveLimits) -> bool {
    exists|n: Play|
        #[trigger] lim.offered@.contains(n) && n.depth == lim.c_max_moves && n.c_pip
            == lim.c_max_pips && records(mv, n)
}

/// Some move of the list has key bits `k`.
pub open spec fn key_listed(moves: Seq<Move>, k: Seq<bool>) -> bool {
    exists|i: int| 0 <= i < moves.len() && move_key(moves[i]) == k
}

proof fn lemma_byte_from_bits(x: u8, y: u8)
    by (bit_vector)
    requires
        (x >> 0u8) & 1u8 == (y >> 0u8) & 1u8,
        (x >> 1u8) & 1u8 == (y >> 1u8) & 1u8,
        (x >> 2u8) & 1u8 == (y >> 2u8) & 1u8,
        (x >> 3u8) & 1u8 == (y >> 3u8) & 1u8,
        (x >> 4u8) & 1u8 == (y >> 4u8) & 1u8,
        (x >> 5u8) & 1u8 == (y >> 5u8) & 1u8,
        (x >> 6u8) & 1u8 == (y >> 6u8) & 1u8,
        (x >> 7u8) & 1u8 == (y >> 7u8) & 1u8,
    ensures
        x == y,
{
}

proof fn lemma_bit_is_bit(x: u8, r: u8)
    by (bit_vector)
    ensures
        (x >> r) & 1u8 == 0u8 || (x >> r) & 1u8 == 1u8,
{
}

proof fn lemma_bit_eq(a: Seq<u8>, b: Seq<u8>, i: int, r: int)
    requires
        a.len() == 10,
        b.len() == 10,
        crate::types::key_bits(a) == crate::types::key_bits(b),
        0 <= i < 10,
        0 <= r < 8,
    ensures
        (a[i] >> (r as u8)) & 1u8 == (b[i] >> (r as u8)) & 1u8,
{
    let j = 8 * i + r;
    assert(j / 8 == i && j % 8 == r);
    assert(crate::types::key_bits(a)[j] == crate::types::key_bits(b)[j]);
    assert(crate::types::key_bits(a)[j] == crate::types::key_bit(a, j));
    assert(crate::types::key_bits(b)[j] == crate::types::key_bit(b, j));
    assert(crate::types::byte_bit(a[i], r) == crate::types::byte_bit(b[i], r));
    lemma_bit_is_bit(a[i], r as u8);
    lemma_bit_is_bit(b[i], r as u8);
}

/// Two 10-byte keys with the same 80 bits are the same key.
proof fn lemma_key_bits_injective(a: Seq<u8>, b: Seq<u8>)
    requires
        a.len() == 10,
        b.len() == 10,
        crate::types::key_bits(a) == crate::types::key_bits(b),
    ensures
        a == b,
{
    assert forall|i: int| 0 <= i < 10 implies a[i] == b[i] by {
        lemma_bit_eq(a, b, i, 0);
        lemma_bit_eq(a, b, i, 1);
        lemma_bit_eq(a, b, i, 2);
        lemma_bit_eq(a, b, i, 3);
        lemma_bit_eq(a, b, i, 4);
        lemma_bit_eq(a, b, i, 5);
        lemma_bit_eq(a, b, i, 6);
        lemma_bit_eq(a, b, i, 7);
        lemma_byte_from_bits(a[i], b[i]);
    }
    assert(a =~= b);
}

/// Check if two position keys are equal.
pub(crate) fn equal_keys(k1: &PositionKey, k2: &PositionKey) -> (eq: bool)
    ensures
        eq == (k1.0@ == k2.0@),
{
    let mut i: usize = 0;
    while i < 10
        invariant
            i <= 10,
            forall|j: int| 0 <= j < i ==> k1.0[j] == k2.0[j],
        decreases 10 - i,
    {
        if k1.0[i] != k2.0[i] {
            return false;
        }
        i = i + 1;
    }
    assert(k1.0@ =~= k2.0@);
    true
}

/// The key of a board (used to find duplicate moves).
fn position_key(board: &Board) -> (key: PositionKey)
    requires
        crate::types::total_checkers(*board) + 50 <= u32::MAX,
    ensures
        crate::types::key_bits(key.0@) == Seq::new(
            80,
            |j: int| crate::types::encoded_bit(*board, j),
        ),
{
    let key = crate::types::old_position_key(board);
    assert(crate::types::key_bits(key.0@) =~= Seq::new(
        80,
        |j: int| crate::types::encoded_bit(*board, j),
    ));
    key
}

/// `an_moves` holds the sub-moves of `steps` in its first `2 * steps.len()`
/// entries.
spec fn encodes_steps(an_moves: [i8; 8], steps: Seq<(int, int)>) -> bool {
    &&& steps.len() <= 4
    &&& forall|k: int|
        0 <= k < steps.len() ==> an_moves[2 * k] == (#[trigger] steps[k]).0 && an_moves[2 * k + 1]
            == steps[k].1
    &&& forall|k: int| 0 <= k < steps.len() ==> 0 <= (#[trigger] steps[k]).0 <= 24
    &&& forall|k: int| 0 <= k < steps.len() ==> (#[trigger] steps[k]).1 <= 23
}

/// Two (sub-moves, pips) pairs are ordered the same way in both components.
spec fn comparable(m1: nat, p1: nat, m2: nat, p2: nat) -> bool {
    (m1 <= m2 && p1 <= p2) || (m1 >= m2 && p1 >= p2)
}

/// Offer a finished play to the list: a play using fewer sub-moves or pips
/// than the best so far is dropped, one using more replaces the list, and
/// one using as many is added unless its position is already listed.
fn save_moves(
    list: &mut MoveList,
    c_moves: u8,
    c_pip: u8,
    an_moves: &[i8; 8],
    board: &Board,
    limits: &mut MoveLimits,
    Ghost(n): Ghost<Play>,
)
    requires
        list_inv(old(list).moves@, *old(limits)),
        n.depth == c_moves,
        n.c_pip == c_pip,
        n.board == *board,
        n.steps.len() == n.depth,
        encodes_steps(*an_moves, n.steps),
        old(limits).offered@.is_empty() || comparable(
            c_moves as nat,
            c_pip as nat,
            old(limits).c_max_moves as nat,
            old(limits).c_max_pips as nat,
        ),
        crate::types::total_checkers(*board) + 50 <= u32::MAX,
    ensures
        final(limits).offered@ == old(limits).offered@.insert(n),
        final(limits).order@ == old(limits).order@.push(n),
        list_inv(final(list).moves@, *final(limits)),
        (final(limits).c_max_moves == old(limits).c_max_moves && final(limits).c_max_pips == old(
            limits,
        ).c_max_pips) || (final(limits).c_max_moves == c_moves && final(limits).c_max_pips
            == c_pip),
{
    let ghost o = old(limits).offered@;
    let ghost ord = old(limits).order@;
    if c_moves < limits.c_max_moves || c_pip < limits.c_max_pips {
        limits.offered = Ghost(o.insert(n));
        limits.order = Ghost(ord.push(n));
        proof {
            let lim = *limits;
            lemma_contains_push(o, ord, n);
            assert forall|i: int| 0 <= i < list.moves@.len() implies #[trigger] first_max_record(
                list.moves@[i],
                lim.order@,
                lim.c_max_moves as nat,
                lim.c_max_pips as nat,
            ) by {
                lemma_first_record_push(
                    list.moves@[i],
                    ord,
                    n,
                    lim.c_max_moves as nat,
                    lim.c_max_pips as nat,
                );
            }
            assert forall|x: Play| #[trigger] lim.offered@.contains(x) && x.depth
                == lim.c_max_moves && x.c_pip == lim.c_max_pips implies key_listed(
                list.moves@,
                play_key(x),
            ) by {
                assert(o.contains(x));
            }
            assert forall|i: int| 0 <= i < list.moves@.len() implies #[trigger] recorded_max(
                list.moves@[i],
                lim,
            ) by {
                assert(recorded_max(list.moves@[i], *old(limits)));
                let x = choose|x: Play|
                    #[trigger] o.contains(x) && x.depth == lim.c_max_moves && x.c_pip
                        == lim.c_max_pips && records(list.moves@[i], x);
                assert(lim.offered@.contains(x));
            }
            assert(!lim.offered@.is_empty() ==> exists|x: Play|
                #[trigger] lim.offered@.contains(x) && x.depth == lim.c_max_moves && x.c_pip
                    == lim.c_max_pips) by {
                let w = choose|x: Play|
                    #[trigger] o.contains(x) && x.depth == lim.c_max_moves && x.c_pip
                        == lim.c_max_pips;
                assert(lim.offered@.contains(w));
            }
        }
        return ;
    }
    let ghost raised = c_moves > limits.c_max_moves || c_pip > limits.c_max_pips;
    if c_moves > limits.c_max_moves || c_pip > limits.c_max_pips {
        list.moves.clear();
        limits.c_max_moves = c_moves;
        limits.c_max_pips = c_pip;
    }
    let key = position_key(board);
    let ghost listed = list.moves@;
    // Look for a move reaching the same position.
    let mut i: usize = 0;
    while i < list.moves.len()
        invariant
            i <= list.moves@.len(),
            list.moves@ == listed,
            forall|j: int| 0 <= j < i ==> move_key(listed[j]) != play_key(n),
            crate::types::key_bits(key.0@) == play_key(n),
            listed.len() > 0 ==> !raised,
            !raised ==> listed == old(list).moves@,
            list_inv(old(list).moves@, *old(limits)),
            limits.c_max_moves == c_moves,
            limits.c_max_pips == c_pip,
            n.depth == c_moves,
            n.c_pip == c_pip,
            n.steps.len() == n.depth,
            encodes_steps(*an_moves, n.steps),
            raised == (c_moves > old(limits).c_max_moves || c_pip > old(limits).c_max_pips),
            c_moves >= old(limits).c_max_moves,
            c_pip >= old(limits).c_max_pips,
            limits.offered == old(limits).offered,
            o == old(limits).offered@,
            limits.order == old(limits).order,
            ord == old(limits).order@,
        decreases list.moves@.len() - i,
    {
        if equal_keys(&key, &list.moves[i].key) {
            proof {
                assert(move_key(listed[i as int]) == play_key(n));
            }
            let mv = list.moves[i];
            proof {
                assert(!raised);
                assert(recorded_max(listed[i as int], *old(limits)));
                let w = choose|x: Play|
                    #[trigger] o.contains(x) && x.depth == old(limits).c_max_moves && x.c_pip
                        == old(limits).c_max_pips && records(listed[i as int], x);
                assert(mv.c_moves == c_moves && mv.c_pips == c_pip);
            }
            if c_moves > mv.c_moves || c_pip > mv.c_pips {
                // Keep the sub-moves of the longer play.
                let mut updated = mv;
                let mut idx: usize = 0;
                let mut j: usize = 0;
                while j < c_moves as usize
                    invariant
                        c_moves <= 4,
                        j <= c_moves,
                        idx <= j,
                    decreases c_moves - j,
                {
                    let s = an_moves[2 * j];
                    let d = an_moves[2 * j + 1];
                    if s >= 0 && d >= 0 {
                        if idx < 4 {
                            updated.from_to[idx] = Some((s as u8, d as u8));
                        }
                        idx += 1;
                    } else if s >= 0 {
                        if idx < 4 {
                            updated.from_to[idx] = Some((s as u8, 0));
                        }
                        idx += 1;
                    }
                    j = j + 1;
                }
                while idx < 4
                    invariant
                        idx <= 4,
                    decreases 4 - idx,
                {
                    updated.from_to[idx] = None;
                    idx += 1;
                }
                updated.c_moves = c_moves;
                updated.c_pips = c_pip;
                list.moves.set(i, updated);
                proof {
                    assert(false);
                }
            }
            limits.offered = Ghost(o.insert(n));
            limits.order = Ghost(ord.push(n));
            proof {
                assert(!raised);
                let lim = *limits;
                lemma_contains_push(o, ord, n);
                assert forall|k: int| 0 <= k < list.moves@.len() implies #[trigger] first_max_record(
                    list.moves@[k],
                    lim.order@,
                    lim.c_max_moves as nat,
                    lim.c_max_pips as nat,
                ) by {
                    lemma_first_record_push(
                        list.moves@[k],
                        ord,
                        n,
                        lim.c_max_moves as nat,
                        lim.c_max_pips as nat,
                    );
                }
                assert(lim.c_max_moves == old(limits).c_max_moves);
                assert(lim.c_max_pips == old(limits).c_max_pips);
                assert(list.moves@ == old(list).moves@);
                assert forall|x: Play| #[trigger] lim.offered@.contains(x) && x.depth
                    == lim.c_max_moves && x.c_pip == lim.c_max_pips implies key_listed(
                    list.moves@,
                    play_key(x),
                ) by {
                    if x != n {
                        assert(o.contains(x));
                        assert(list_inv(old(list).moves@, *old(limits)));
                        assert(x.depth == old(limits).c_max_moves);
                        assert(x.c_pip == old(limits).c_max_pips);
                        assert(list.moves@ == old(list).moves@);
                        lemma_inv_listed(old(list).moves@, *old(limits), x);
                    } else {
                        assert(0 <= i < list.moves@.len());
                        assert(move_key(list.moves@[i as int]) == play_key(x));
                    }
                }
                assert forall|k: int| 0 <= k < list.moves@.len() implies #[trigger] recorded_max(
                    list.moves@[k],
                    lim,
                ) by {
                    assert(recorded_max(list.moves@[k], *old(limits)));
                    lemma_recorded_grow(list.moves@[k], *old(limits), lim);
                }
                assert(lim.offered@.contains(n));
            }
            return ;
        }
        proof {
            if move_key(listed[i as int]) == play_key(n) {
                lemma_key_bits_injective(key.0@, listed[i as int].key.0@);
            }
        }
        i = i + 1;
    }
    // A new position: record it.
    let mut from_to: [Option<(u8, u8)>; 4] = [None;4];
    let mut idx: usize = 0;
    let mut j: usize = 0;
    while j < c_moves as usize
        invariant
            c_moves <= 4,
            j <= c_moves,
            idx == j,
            n.steps.len() == c_moves,
            encodes_steps(*an_moves, n.steps),
            forall|k: int| 0 <= k < j ==> from_to[k] == from_to_of(n.steps)[k],
            forall|k: int| j <= k < 4 ==> from_to[k] is None,
        decreases c_moves - j,
    {
        let s = an_moves[2 * j];
        let d = an_moves[2 * j + 1];
        proof {
            assert(s == n.steps[j as int].0 && d == n.steps[j as int].1);
        }
        if s >= 0 {
            let dest = if d >= 0 {
                d as u8
            } else {
                0u8
            };
            if idx < 4 {
                from_to[idx] = Some((s as u8, dest));
            }
            idx += 1;
        }
        j = j + 1;
    }
    proof {
        assert(from_to@ =~= from_to_of(n.steps));
    }
    let new_move = Move { from_to, c_moves, c_pips: c_pip, key };
    list.moves.push(new_move);
    limits.offered = Ghost(o.insert(n));
    limits.order = Ghost(ord.push(n));
    proof {
        let lim = *limits;
        let mv = list.moves@;
        assert(records(new_move, n));
        lemma_contains_push(o, ord, n);
        let o2 = ord.push(n);
        let mm = lim.c_max_moves as nat;
        let pp = lim.c_max_pips as nat;
        assert forall|k: int| 0 <= k < mv.len() implies #[trigger] first_max_record(
            mv[k],
            o2,
            mm,
            pp,
        ) by {
            if k < listed.len() {
                assert(mv[k] == listed[k]);
                assert(!raised);
                assert(first_max_record(listed[k], ord, mm, pp));
                lemma_first_record_push(listed[k], ord, n, mm, pp);
            } else {
                assert(mv[k] == new_move);
                let kk = ord.len() as int;
                assert(o2[kk] == n);
                assert forall|j: int| 0 <= j < kk && (#[trigger] o2[j]).depth == mm && o2[j].c_pip
                    == pp implies play_key(o2[j]) != move_key(new_move) by {
                    assert(o2[j] == ord[j]);
                    assert(ord.contains(ord[j]));
                    assert(o.contains(ord[j]));
                    if raised {
                        assert(ord[j].depth <= old(limits).c_max_moves);
                        assert(ord[j].c_pip <= old(limits).c_max_pips);
                    } else {
                        if play_key(ord[j]) == move_key(new_move) {
                            lemma_inv_listed(old(list).moves@, *old(limits), ord[j]);
                            let q = choose|q: int|
                                0 <= q < listed.len() && move_key(listed[q]) == play_key(ord[j]);
                            assert(move_key(listed[q]) != play_key(n));
                        }
                    }
                }
                assert(first_max_record(new_move, o2, mm, pp));
            }
        }
        assert(lim.offered@.contains(n));
        assert forall|x: Play| #[trigger] lim.offered@.contains(x) implies x.depth
            <= lim.c_max_moves && x.c_pip <= lim.c_max_pips by {
            if x != n {
                assert(o.contains(x));
            }
        }
        assert forall|k: int| 0 <= k < mv.len() implies #[trigger] recorded_max(mv[k], lim) by {
            if k < listed.len() {
                assert(mv[k] == listed[k]);
                assert(!raised);
                assert(recorded_max(listed[k], *old(limits)));
                let x = choose|x: Play|
                    #[trigger] o.contains(x) && x.depth == old(limits).c_max_moves && x.c_pip
                        == old(limits).c_max_pips && records(listed[k], x);
                assert(lim.offered@.contains(x));
            } else {
                assert(mv[k] == new_move);
                assert(lim.offered@.contains(n));
            }
        }
        assert forall|x: Play| #[trigger] lim.offered@.contains(x) && x.depth
            == lim.c_max_moves && x.c_pip == lim.c_max_pips implies key_listed(mv, play_key(x)) by {
            if x == n {
                assert(move_key(mv[mv.len() - 1]) == play_key(x));
            } else {
                assert(o.contains(x));
                if raised {
                    assert(false);
                } else {
                    assert(key_listed(listed, play_key(x)));
                    let k = choose|k: int|
                        0 <= k < listed.len() && move_key(listed[k]) == play_key(x);
                    assert(mv[k] == listed[k]);
                }
            }
        }
        assert forall|a: int, b: int|
            0 <= a < mv.len() && 0 <= b < mv.len() && a != b implies move_key(mv[a]) != move_key(
            mv[b],
        ) by {
            if a < listed.len() && b < listed.len() {
                assert(mv[a] == listed[a] && mv[b] == listed[b]);
            } else if a < listed.len() {
                assert(mv[a] == listed[a]);
            } else {
                assert(mv[b] == listed[b]);
            }
        }
    }
}

} // verus!

verus! {

// ---------------------------------------------------------------------------
// Checker totals never grow while moving
// ---------------------------------------------------------------------------

proof fn lemma_checkers_set(b: Board, s0: int, p0: int, v: u32, n: nat)
    requires
        0 <= s0 < 2,
        0 <= p0 < 25,
        n <= 50,
    ensures
        crate::types::checkers_before(set_cell(b, s0, p0, v), n) + (if 25 * s0 + p0 < n {
            b[s0][p0] as nat
        } else {
            0
        }) == crate::types::checkers_before(b, n) + (if 25 * s0 + p0 < n {
            v as nat
        } else {
            0
        }),
    decreases n,
{
    if n > 0 {
        lemma_checkers_set(b, s0, p0, v, (n - 1) as nat);
        lemma_set_cell(b, s0, p0, v);
        let f = n - 1;
        assert(0 <= f / 25 < 2 && 0 <= f % 25 < 25);
        assert(f / 25 == s0 && f % 25 == p0 <==> f == 25 * s0 + p0);
        assert(crate::types::cell(set_cell(b, s0, p0, v), f) == set_cell(b, s0, p0, v)[f / 25][f
            % 25]);
    }
}

/// A sub-move never adds checkers to the board.
proof fn lemma_sub_move_total(b: Board, src: int, pips: int)
    requires
        0 <= src,
        0 <= pips,
        sub_move_spec(b, src, pips) is Some,
    ensures
        crate::types::total_checkers(sub_move_spec(b, src, pips).unwrap())
            <= crate::types::total_checkers(b),
{
    let b1 = set_cell(b, 1, src, (b[1][src] - 1) as u32);
    lemma_set_cell(b, 1, src, (b[1][src] - 1) as u32);
    lemma_checkers_set(b, 1, src, (b[1][src] - 1) as u32, 50);
    let d = src - pips;
    if d <= 0 {
        lemma_set_cell(b1, 1, 0, (b1[1][0] + 1) as u32);
        lemma_checkers_set(b1, 1, 0, (b1[1][0] + 1) as u32, 50);
    } else if b1[0][24 - d] == 1 {
        let b2 = set_cell(b1, 1, d, 1);
        let b3 = set_cell(b2, 0, 24 - d, 0);
        lemma_set_cell(b1, 1, d, 1);
        lemma_checkers_set(b1, 1, d, 1, 50);
        lemma_set_cell(b2, 0, 24 - d, 0);
        lemma_checkers_set(b2, 0, 24 - d, 0, 50);
        lemma_set_cell(b3, 0, 24, (b3[0][24] + 1) as u32);
        lemma_checkers_set(b3, 0, 24, (b3[0][24] + 1) as u32, 50);
    } else {
        lemma_set_cell(b1, 1, d, (b1[1][d] + 1) as u32);
        lemma_checkers_set(b1, 1, d, (b1[1][d] + 1) as u32, 50);
    }
}

proof fn lemma_side_set(b: Board, s0: int, p0: int, v: u32, s: int, n: nat)
    requires
        0 <= s0 < 2,
        0 <= p0 < 25,
        0 <= s < 2,
        n <= 25,
    ensures
        crate::types::row_sum(set_cell(b, s0, p0, v)[s], n) + (if s == s0 && p0 < n {
            b[s0][p0] as nat
        } else {
            0
        }) == crate::types::row_sum(b[s], n) + (if s == s0 && p0 < n {
            v as nat
        } else {
            0
        }),
    decreases n,
{
    lemma_set_cell(b, s0, p0, v);
    if n > 0 {
        lemma_side_set(b, s0, p0, v, s, (n - 1) as nat);
        assert(set_cell(b, s0, p0, v)[s][n - 1] == if s == s0 && n - 1 == p0 {
            v
        } else {
            b[s][n - 1]
        });
    }
}

/// A sub-move keeps the number of checkers of each side (borne off, on the
/// board and on the bar together), as long as a hit never lands on a point
/// where the mover has other checkers.
pub proof fn lemma_sub_move_keeps_checkers(b: Board, src: int, pips: int)
    requires
        0 <= src,
        0 <= pips,
        sub_move_spec(b, src, pips) is Some,
        src - pips >= 1 && b[0][24 - (src - pips)] == 1 ==> b[1][src - pips] == (if pips == 0 {
            1u32
        } else {
            0u32
        }),
        cells_at_most(b, (u32::MAX - 1) as u32),
    ensures
        crate::types::side_checkers(sub_move_spec(b, src, pips).unwrap(), 0)
            == crate::types::side_checkers(b, 0),
        crate::types::side_checkers(sub_move_spec(b, src, pips).unwrap(), 1)
            == crate::types::side_checkers(b, 1),
{
    let b1 = set_cell(b, 1, src, (b[1][src] - 1) as u32);
    lemma_set_cell(b, 1, src, (b[1][src] - 1) as u32);
    lemma_side_set(b, 1, src, (b[1][src] - 1) as u32, 0, 25);
    lemma_side_set(b, 1, src, (b[1][src] - 1) as u32, 1, 25);
    let d = src - pips;
    if d <= 0 {
        lemma_set_cell(b1, 1, 0, (b1[1][0] + 1) as u32);
        lemma_side_set(b1, 1, 0, (b1[1][0] + 1) as u32, 0, 25);
        lemma_side_set(b1, 1, 0, (b1[1][0] + 1) as u32, 1, 25);
    } else if b1[0][24 - d] == 1 {
        let b2 = set_cell(b1, 1, d, 1);
        let b3 = set_cell(b2, 0, 24 - d, 0);
        lemma_set_cell(b1, 1, d, 1);
        lemma_side_set(b1, 1, d, 1, 0, 25);
        lemma_side_set(b1, 1, d, 1, 1, 25);
        lemma_set_cell(b2, 0, 24 - d, 0);
        lemma_side_set(b2, 0, 24 - d, 0, 0, 25);
        lemma_side_set(b2, 0, 24 - d, 0, 1, 25);
        lemma_set_cell(b3, 0, 24, (b3[0][24] + 1) as u32);
        lemma_side_set(b3, 0, 24, (b3[0][24] + 1) as u32, 0, 25);
        lemma_side_set(b3, 0, 24, (b3[0][24] + 1) as u32, 1, 25);
    } else {
        lemma_set_cell(b1, 1, d, (b1[1][d] + 1) as u32);
        lemma_side_set(b1, 1, d, (b1[1][d] + 1) as u32, 0, 25);
        lemma_side_set(b1, 1, d, (b1[1][d] + 1) as u32, 1, 25);
    }
}

// ---------------------------------------------------------------------------
// The sub-moves and pips a finished play can use
// ---------------------------------------------------------------------------

/// A finished play of dice `d0`, `d1` moves `m` checkers and `p` pips: one
/// die or both for a plain roll, 1 to 4 times the die for doubles.
spec fn shape(m: nat, p: nat, d0: int, d1: int) -> bool {
    if d0 == d1 {
        1 <= m <= 4 && p == m * d0
    } else {
        (m == 1 && (p == d0 || p == d1)) || (m == 2 && p == d0 + d1)
    }
}

proof fn lemma_shapes_comparable(m1: nat, p1: nat, m2: nat, p2: nat, d0: int, d1: int)
    requires
        1 <= d0 <= 6,
        1 <= d1 <= 6,
        shape(m1, p1, d0, d1),
        shape(m2, p2, d0, d1) || (m2 == 0 && p2 == 0),
    ensures
        comparable(m1, p1, m2, p2),
{
    if d0 == d1 && m2 != 0 {
        if m1 <= m2 {
            assert(m1 * d0 <= m2 * d0) by (nonlinear_arith)
                requires
                    m1 <= m2,
                    d0 >= 1,
            ;
        } else {
            assert(m1 * d0 >= m2 * d0) by (nonlinear_arith)
                requires
                    m1 >= m2,
                    d0 >= 1,
            ;
        }
    }
}

/// The dice of one generation pass: `(d0, d1)` or `(d1, d0)`.
spec fn pass_of(roll: [u8; 4], d0: int, d1: int) -> bool {
    &&& roll_ok(roll)
    &&& (roll[0] == d0 && roll[1] == d1) || (roll[0] == d1 && roll[1] == d0)
}

/// Pips used by the first `k` dice of a pass.
spec fn pips_used(roll: [u8; 4], k: int) -> int
    decreases k,
{
    if k <= 0 {
        0
    } else {
        pips_used(roll, k - 1) + roll[k - 1]
    }
}

/// The limits and every offered play have the shape of a finished play.
spec fn shaped(lim: MoveLimits, d0: int, d1: int) -> bool {
    &&& forall|x: Play|
        #[trigger] lim.offered@.contains(x) ==> shape(x.depth, x.c_pip, d0, d1)
    &&& (lim.c_max_moves == 0 && lim.c_max_pips == 0) || shape(
        lim.c_max_moves as nat,
        lim.c_max_pips as nat,
        d0,
        d1,
    )
}

proof fn lemma_child_shape(roll: [u8; 4], d0: int, d1: int, depth: nat)
    requires
        pass_of(roll, d0, d1),
        depth <= 3,
        roll[depth as int] != 0,
    ensures
        shape(depth + 1, (pips_used(roll, depth as int) + roll[depth as int]) as nat, d0, d1),
        pips_used(roll, depth + 1int) == pips_used(roll, depth as int) + roll[depth as int],
        pips_used(roll, depth as int) + roll[depth as int] <= 24,
{
    reveal_with_fuel(pips_used, 5);
    if d0 == d1 {
        assert(roll[0] == d0 && roll[1] == d0 && roll[2] == d0 && roll[3] == d0);
        assert(pips_used(roll, depth as int) == depth * d0) by {
            if depth == 0 {
            } else if depth == 1 {
            } else if depth == 2 {
            } else {
            }
            assert(depth * d0 == if depth == 0 {
                0
            } else if depth == 1 {
                d0
            } else if depth == 2 {
                2 * d0
            } else {
                3 * d0
            }) by (nonlinear_arith)
                requires
                    depth <= 3,
            ;
        }
        assert((depth + 1) * d0 == depth * d0 + d0) by (nonlinear_arith);
        assert((depth + 1) * d0 <= 24) by (nonlinear_arith)
            requires
                depth <= 3,
                d0 <= 6,
        ;
    }
}

} // verus!

verus! {

// ---------------------------------------------------------------------------
// Recursive generation
// ---------------------------------------------------------------------------

/// Offer every finished play below `n` to the list, depth first.  Returns
/// whether `n` itself is finished (so that the caller offers it).
fn generate_moves_sub(
    list: &mut MoveList,
    an_roll: &[u8; 4],
    n_move_depth: usize,
    i_pip: i8,
    c_pip: u8,
    board: &Board,
    an_moves: &mut [i8; 8],
    limits: &mut MoveLimits,
    Ghost(n): Ghost<Play>,
    Ghost(d0): Ghost<int>,
    Ghost(d1): Ghost<int>,
) -> (cont: bool)
    requires
        pass_of(*an_roll, d0, d1),
        n.board == *board,
        n.depth == n_move_depth,
        n.depth <= 4,
        n.i_pip == i_pip as int,
        0 <= i_pip <= 23,
        n.c_pip == c_pip,
        c_pip == pips_used(*an_roll, n.depth as int),
        n.steps.len() == n.depth,
        encodes_steps(*old(an_moves), n.steps),
        cells_at_most(*board, (u32::MAX - 4 + n.depth) as u32),
        crate::types::total_checkers(*board) + 50 <= u32::MAX,
        list_inv(old(list).moves@, *old(limits)),
        shaped(*old(limits), d0, d1),
    ensures
        final(limits).offered@ == old(limits).offered@ + finished_below(*an_roll, n),
        final(limits).order@ == old(limits).order@ + order_below(*an_roll, n),
        list_inv(final(list).moves@, *final(limits)),
        shaped(*final(limits), d0, d1),
        cont == is_terminal(*an_roll, n),
        forall|k: int| 0 <= k < 2 * n.depth ==> final(an_moves)[k] == old(an_moves)[k],
    decreases 4 - n_move_depth,
{
    let ghost off0 = limits.offered@;
    let ghost ord0 = limits.order@;
    if n_move_depth > 3 || an_roll[n_move_depth] == 0 {
        proof {
            assert(limits.offered@ =~= off0 + finished_below(*an_roll, n));
            assert(limits.order@ =~= ord0 + order_below(*an_roll, n));
        }
        return true;
    }
    let roll = an_roll[n_move_depth];
    proof {
        lemma_child_shape(*an_roll, d0, d1, n.depth);
    }
    if board[1][24] > 0 {
        let dest_point = roll as usize;
        if dest_point <= 23 && board[0][dest_point] < 2 {
            an_moves[n_move_depth * 2] = 24;
            an_moves[n_move_depth * 2 + 1] = 24 - roll as i8;
            let mut new_board = *board;
            if apply_sub_move(&mut new_board, 24, roll).is_ok() {
                let ghost c = child(*an_roll, n, 24, roll as int, 23);
                proof {
                    lemma_sub_move_bound(*board, 24, roll as int, (u32::MAX - 4 + n.depth) as u32);
                    lemma_sub_move_total(*board, 24, roll as int);
                    assert(c.steps[n.depth as int] == (24int, 24 - roll));
                    assert forall|k: int| 0 <= k < n.depth implies c.steps[k] == n.steps[k] by {}
                }
                let cont = generate_moves_sub(
                    list,
                    an_roll,
                    n_move_depth + 1,
                    23,
                    c_pip + roll,
                    &new_board,
                    an_moves,
                    limits,
                    Ghost(c),
                    Ghost(d0),
                    Ghost(d1),
                );
                if cont {
                    proof {
                        lemma_shapes_comparable(
                            c.depth,
                            c.c_pip,
                            limits.c_max_moves as nat,
                            limits.c_max_pips as nat,
                            d0,
                            d1,
                        );
                    }
                    save_moves(
                        list,
                        (n_move_depth + 1) as u8,
                        c_pip + roll,
                        an_moves,
                        &new_board,
                        limits,
                        Ghost(c),
                    );
                }
                proof {
                    assert(bar_entry(*an_roll, n));
                    assert(limits.offered@ =~= off0 + finished_below(*an_roll, n));
                    assert(limits.order@ =~= ord0 + order_below(*an_roll, n));
                }
                return false;
            }
        }
    }
    proof {
        assert(!bar_entry(*an_roll, n));
        assert(finished_from(*an_roll, n, i_pip + 1) =~= Set::<Play>::empty());
        assert(limits.offered@ =~= off0 + finished_from(*an_roll, n, i_pip + 1));
        assert(limits.order@ =~= ord0 + order_from(*an_roll, n, i_pip + 1));
    }
    let mut f_used = false;
    let mut src: i8 = i_pip;
    while src >= 0
        invariant
            -1 <= src <= i_pip,
            pass_of(*an_roll, d0, d1),
            n.board == *board,
            n.depth == n_move_depth,
            n.depth <= 3,
            roll == an_roll[n.depth as int],
            roll != 0,
            !bar_entry(*an_roll, n),
            !depth_done(*an_roll, n),
            n.i_pip == i_pip as int,
            0 <= i_pip <= 23,
            n.c_pip == c_pip,
            c_pip == pips_used(*an_roll, n.depth as int),
            n.steps.len() == n.depth,
            encodes_steps(*an_moves, n.steps),
            forall|k: int| 0 <= k < 2 * n.depth ==> an_moves[k] == old(an_moves)[k],
            cells_at_most(*board, (u32::MAX - 4 + n.depth) as u32),
            crate::types::total_checkers(*board) + 50 <= u32::MAX,
            list_inv(list.moves@, *limits),
            shaped(*limits, d0, d1),
            limits.offered@ == off0 + finished_from(*an_roll, n, src + 1),
            off0 == old(limits).offered@,
            limits.order@ == ord0 + order_from(*an_roll, n, src + 1),
            ord0 == old(limits).order@,
            f_used == exists|s: int| src < s && candidate(*an_roll, n, s),
            shape((n.depth + 1) as nat, (c_pip + roll) as nat, d0, d1),
            pips_used(*an_roll, n.depth + 1int) == c_pip + roll,
            c_pip + roll <= 24,
        decreases src + 1,
    {
        let ghost before = limits.offered@;
        let ghost used_before = f_used;
        if board[1][src as usize] > 0 && legal_move(board, src as u8, roll) {
            let dest = src - roll as i8;
            an_moves[n_move_depth * 2] = src;
            an_moves[n_move_depth * 2 + 1] = dest;
            let mut new_board = *board;
            if apply_sub_move(&mut new_board, src as u8, roll).is_ok() {
                let next_i_pip = if an_roll[0] == an_roll[1] {
                    src
                } else {
                    23
                };
                let ghost c = child(*an_roll, n, src as int, roll as int, next_i_pip as int);
                proof {
                    lemma_sub_move_bound(
                        *board,
                        src as int,
                        roll as int,
                        (u32::MAX - 4 + n.depth) as u32,
                    );
                    lemma_sub_move_total(*board, src as int, roll as int);
                    assert(c.steps[n.depth as int] == (src as int, src - roll));
                    assert forall|k: int| 0 <= k < n.depth implies c.steps[k] == n.steps[k] by {}
                    assert(candidate(*an_roll, n, src as int));
                }
                let cont = generate_moves_sub(
                    list,
                    an_roll,
                    n_move_depth + 1,
                    next_i_pip,
                    c_pip + roll,
                    &new_board,
                    an_moves,
                    limits,
                    Ghost(c),
                    Ghost(d0),
                    Ghost(d1),
                );
                if cont {
                    proof {
                        lemma_shapes_comparable(
                            c.depth,
                            c.c_pip,
                            limits.c_max_moves as nat,
                            limits.c_max_pips as nat,
                            d0,
                            d1,
                        );
                    }
                    save_moves(
                        list,
                        (n_move_depth + 1) as u8,
                        c_pip + roll,
                        an_moves,
                        &new_board,
                        limits,
                        Ghost(c),
                    );
                }
                f_used = true;
                proof {
                    assert(limits.offered@ =~= off0 + finished_from(*an_roll, n, src as int));
                    assert(limits.order@ =~= ord0 + order_from(*an_roll, n, src as int));
                }
            } else {
                proof {
                    assert(!candidate(*an_roll, n, src as int));
                    assert(limits.offered@ =~= off0 + finished_from(*an_roll, n, src as int));
                    assert(limits.order@ =~= ord0 + order_from(*an_roll, n, src as int));
                }
            }
        } else {
            proof {
                assert(!candidate(*an_roll, n, src as int));
                assert(limits.offered@ =~= off0 + finished_from(*an_roll, n, src as int));
                    assert(limits.order@ =~= ord0 + order_from(*an_roll, n, src as int));
            }
        }
        proof {
            assert(f_used == exists|s: int| src - 1 < s && candidate(*an_roll, n, s)) by {
                if f_used && !used_before {
                    assert(candidate(*an_roll, n, src as int));
                }
                if exists|s: int| src - 1 < s && candidate(*an_roll, n, s) {
                    let s = choose|s: int| src - 1 < s && candidate(*an_roll, n, s);
                    if s == src as int {
                    } else {
                        assert(src < s);
                    }
                }
            }
        }
        src = src - 1;
    }
    proof {
        assert(finished_below(*an_roll, n) == finished_from(*an_roll, n, 0));
        assert(order_below(*an_roll, n) == order_from(*an_roll, n, 0));
    }
    !f_used
}

} // verus!

verus! {

// ---------------------------------------------------------------------------
// Ordering of moves
// ---------------------------------------------------------------------------

/// Byte-wise lexicographic "less than" of keys, from byte `i` on.
pub open spec fn key_less_from(a: Seq<u8>, b: Seq<u8>, i: int) -> bool
    decreases 10 - i,
{
    if i < 0 || i >= 10 {
        false
    } else if a[i] < b[i] {
        true
    } else if a[i] > b[i] {
        false
    } else {
        key_less_from(a, b, i + 1)
    }
}

/// Key `a` sorts before key `b` (byte-wise lexicographic).
pub open spec fn key_less(a: Seq<u8>, b: Seq<u8>) -> bool {
    key_less_from(a, b, 0)
}

/// `a` sorts strictly before `b`: more pips first, then more checkers moved,
/// then the smaller key.
pub open spec fn move_before(a: Move, b: Move) -> bool {
    a.c_pips > b.c_pips || (a.c_pips == b.c_pips && (a.c_moves > b.c_moves || (a.c_moves
        == b.c_moves && key_less(a.key.0@, b.key.0@))))
}

/// No move of `s` sorts strictly before an earlier one.
pub open spec fn sorted_moves(s: Seq<Move>) -> bool {
    forall|i: int, j: int| 0 <= i < j < s.len() ==> !move_before(s[j], s[i])
}

/// Neither move sorts before the other.
pub open spec fn moves_tie(a: Move, b: Move) -> bool {
    !move_before(a, b) && !move_before(b, a)
}

/// `p` sends each place of `s` to the place of `t` that its move came from,
/// one to one.
pub open spec fn permutes(s: Seq<Move>, t: Seq<Move>, p: Seq<int>) -> bool {
    &&& p.len() == s.len()
    &&& s.len() == t.len()
    &&& forall|k: int| 0 <= k < p.len() ==> 0 <= #[trigger] p[k] < t.len() && s[k] == t[p[k]]
    &&& forall|a: int, b: int| 0 <= a < b < p.len() ==> p[a] != p[b]
}

/// Under the placement `p`, moves of `s` that tie keep the order they had.
pub open spec fn ties_keep_order(s: Seq<Move>, p: Seq<int>) -> bool {
    forall|a: int, b: int| 0 <= a < b < s.len() && moves_tie(s[a], s[b]) ==> p[a] < p[b]
}

proof fn lemma_key_less_trans(a: Seq<u8>, b: Seq<u8>, c: Seq<u8>, i: int)
    requires
        key_less_from(a, b, i) || (a.subrange(i, 10) == b.subrange(i, 10) && 0 <= i <= 10),
        key_less_from(b, c, i),
        a.len() == 10,
        b.len() == 10,
        c.len() == 10,
    ensures
        key_less_from(a, c, i),
    decreases 10 - i,
{
    if 0 <= i < 10 {
        if a.subrange(i, 10) == b.subrange(i, 10) {
            assert(a[i] == a.subrange(i, 10)[0]);
            assert(b[i] == b.subrange(i, 10)[0]);
            if a[i] == b[i] && b[i] == c[i] {
                assert(a.subrange(i + 1, 10) =~= a.subrange(i, 10).subrange(1, 10 - i));
                assert(b.subrange(i + 1, 10) =~= b.subrange(i, 10).subrange(1, 10 - i));
                lemma_key_less_trans(a, b, c, i + 1);
            }
        } else if a[i] == b[i] && b[i] == c[i] {
            lemma_key_less_trans(a, b, c, i + 1);
        }
    }
}

proof fn lemma_key_total(a: Seq<u8>, b: Seq<u8>, i: int)
    requires
        a.len() == 10,
        b.len() == 10,
        0 <= i <= 10,
    ensures
        key_less_from(a, b, i) || key_less_from(b, a, i) || a.subrange(i, 10) == b.subrange(i, 10),
    decreases 10 - i,
{
    if i == 10 {
        assert(a.subrange(10, 10) =~= b.subrange(10, 10));
    } else if a[i] == b[i] {
        lemma_key_total(a, b, i + 1);
        if a.subrange(i + 1, 10) == b.subrange(i + 1, 10) {
            assert forall|k: int| 0 <= k < 10 - i implies a.subrange(i, 10)[k] == b.subrange(
                i,
                10,
            )[k] by {
                if k > 0 {
                    assert(a.subrange(i, 10)[k] == a.subrange(i + 1, 10)[k - 1]);
                    assert(b.subrange(i, 10)[k] == b.subrange(i + 1, 10)[k - 1]);
                }
            }
            assert(a.subrange(i, 10) =~= b.subrange(i, 10));
        }
    }
}

proof fn lemma_key_less_irrefl(a: Seq<u8>, i: int)
    ensures
        !key_less_from(a, a, i),
    decreases 10 - i,
{
    if 0 <= i < 10 {
        lemma_key_less_irrefl(a, i + 1);
    }
}

proof fn lemma_before_trans(a: Move, b: Move, c: Move)
    requires
        !move_before(b, a),
        !move_before(c, b),
    ensures
        !move_before(c, a),
{
    if a.c_pips == c.c_pips && a.c_moves == c.c_moves && a.c_pips == b.c_pips && a.c_moves
        == b.c_moves {
        if key_less(c.key.0@, a.key.0@) {
            lemma_key_total(b.key.0@, c.key.0@, 0);
            assert(b.key.0@.subrange(0, 10) =~= b.key.0@);
            assert(c.key.0@.subrange(0, 10) =~= c.key.0@);
            lemma_key_less_trans(b.key.0@, c.key.0@, a.key.0@, 0);
        }
    }
}

proof fn lemma_before_asym(a: Move, b: Move)
    requires
        move_before(a, b),
    ensures
        !move_before(b, a),
{
    if a.c_pips == b.c_pips && a.c_moves == b.c_moves && key_less(b.key.0@, a.key.0@) {
        lemma_key_less_trans(a.key.0@, b.key.0@, a.key.0@, 0);
        lemma_key_less_irrefl(a.key.0@, 0);
    }
}

/// Byte-wise lexicographic comparison of keys.
fn key_lt(a: &PositionKey, b: &PositionKey) -> (lt: bool)
    ensures
        lt == key_less(a.0@, b.0@),
{
    let mut i: usize = 0;
    while i < 10
        invariant
            i <= 10,
            key_less(a.0@, b.0@) == key_less_from(a.0@, b.0@, i as int),
        decreases 10 - i,
    {
        if a.0[i] < b.0[i] {
            return true;
        }
        if a.0[i] > b.0[i] {
            return false;
        }
        i = i + 1;
    }
    false
}

fn moves_before(a: &Move, b: &Move) -> (r: bool)
    ensures
        r == move_before(*a, *b),
{
    if a.c_pips != b.c_pips {
        return a.c_pips > b.c_pips;
    }
    if a.c_moves != b.c_moves {
        return a.c_moves > b.c_moves;
    }
    key_lt(&a.key, &b.key)
}

/// Sort moves in place: more pips first, then more checkers moved, then by
/// key; moves that tie keep their order.
pub fn sort_moves(list: &mut MoveList)
    ensures
        final(list).moves@.to_multiset() == old(list).moves@.to_multiset(),
        final(list).moves@.len() == old(list).moves@.len(),
        sorted_moves(final(list).moves@),
        exists|p: Seq<int>|
            permutes(final(list).moves@, old(list).moves@, p) && ties_keep_order(
                final(list).moves@,
                p,
            ),
{
    let len = list.moves.len();
    let ghost mut perm: Seq<int> = Seq::new(len as nat, |k: int| k);
    if len == 0 {
        assert(permutes(list.moves@, old(list).moves@, perm) && ties_keep_order(
            list.moves@,
            perm,
        ));
        return ;
    }
    let mut i: usize = 1;
    while i < len
        invariant
            1 <= i <= len,
            len == list.moves@.len(),
            list.moves@.to_multiset() == old(list).moves@.to_multiset(),
            forall|a: int, b: int| 0 <= a < b < i ==> !move_before(list.moves@[b], list.moves@[a]),
            permutes(list.moves@, old(list).moves@, perm),
            ties_keep_order(list.moves@, perm),
            forall|k: int| i <= k < len ==> perm[k] == k,
            forall|k: int| 0 <= k < i ==> perm[k] < i,
        decreases len - i,
    {
        let mut j: usize = i;
        while j > 0 && moves_before(&list.moves[j], &list.moves[j - 1])
            invariant
                1 <= i < len,
                j <= i,
                len == list.moves@.len(),
                list.moves@.to_multiset() == old(list).moves@.to_multiset(),
                forall|a: int, b: int|
                    0 <= a < b <= i && a != j && b != j ==> !move_before(
                        list.moves@[b],
                        list.moves@[a],
                    ),
                forall|b: int| j < b <= i ==> !move_before(list.moves@[b], list.moves@[j as int]),
                permutes(list.moves@, old(list).moves@, perm),
                ties_keep_order(list.moves@, perm),
                forall|k: int| i < k < len ==> perm[k] == k,
                forall|k: int| 0 <= k <= i ==> perm[k] <= i,
            decreases j,
        {
            let a = list.moves[j - 1];
            let b = list.moves[j];
            let ghost s0 = list.moves@;
            let ghost p0 = perm;
            list.moves.set(j - 1, b);
            list.moves.set(j, a);
            proof {
                perm = p0.update(j - 1, p0[j as int]).update(j as int, p0[j - 1]);
                let s = list.moves@;
                assert(s =~= s0.update(j - 1, b).update(j as int, a));
                let s1 = s0.update(j - 1, b);
                vstd::seq_lib::to_multiset_update(s0, j - 1, b);
                vstd::seq_lib::to_multiset_update(s1, j as int, a);
                assert(s1.to_multiset() == s0.to_multiset().insert(b).remove(a));
                assert(s1[j as int] == b);
                assert(s.to_multiset() == s1.to_multiset().insert(a).remove(b));
                broadcast use {
                    vstd::multiset::group_multiset_axioms,
                    vstd::seq_lib::to_multiset_contains,
                };
                assert(s0.contains(a) && s0[j - 1] == a);
                assert(s0.contains(b) && s0[j as int] == b);
                assert(s.to_multiset() =~= s0.to_multiset());
                lemma_before_asym(b, a);
                assert forall|x: int, y: int|
                    0 <= x < y <= i && x != j - 1 && y != j - 1 implies !move_before(
                    s[y],
                    s[x],
                ) by {
                    if y == j {
                        assert(s[y] == s0[j - 1]);
                        assert(s[x] == s0[x]);
                    } else if x == j {
                        assert(s[x] == s0[j - 1]);
                        assert(s[y] == s0[y]);
                    } else {
                        assert(s[x] == s0[x]);
                        assert(s[y] == s0[y]);
                    }
                }
                assert forall|y: int| j - 1 < y <= i implies !move_before(
                    #[trigger] s[y],
                    s[j - 1],
                ) by {
                    if y != j {
                        assert(s[y] == s0[y]);
                    }
                }
                lemma_swap_keeps_placement(s0, old(list).moves@, p0, j - 1);
                assert(s == swap_adjacent(s0, j - 1));
                assert(perm == swap_adjacent(p0, j - 1));
                assert(!moves_tie(s0[j - 1], s0[j as int]));
                lemma_swap_keeps_ties(s0, p0, j - 1);
            }
            j = j - 1;
        }
        proof {
            let s = list.moves@;
            assert forall|x: int, y: int| 0 <= x < y < i + 1 implies !move_before(s[y], s[x]) by {
                if y == j && x < j {
                    if j > 0 {
                        assert(!move_before(s[j as int], s[j - 1]));
                        if x < j - 1 {
                            assert(!move_before(s[j - 1], s[x]));
                            lemma_before_trans(s[x], s[j - 1], s[j as int]);
                        }
                    }
                } else if x == j && y > j {
                } else {
                }
            }
        }
        i = i + 1;
    }
}

/// `s` with the entries at `j` and `j + 1` exchanged.
pub open spec fn swap_adjacent<T>(s: Seq<T>, j: int) -> Seq<T> {
    s.update(j, s[j + 1]).update(j + 1, s[j])
}

proof fn lemma_swap_keeps_placement(s: Seq<Move>, t: Seq<Move>, p: Seq<int>, j: int)
    requires
        permutes(s, t, p),
        0 <= j < j + 1 < s.len(),
    ensures
        permutes(swap_adjacent(s, j), t, swap_adjacent(p, j)),
{
    let s2 = swap_adjacent(s, j);
    let p2 = swap_adjacent(p, j);
    assert forall|k: int| 0 <= k < p2.len() implies 0 <= #[trigger] p2[k] < t.len() && s2[k]
        == t[p2[k]] by {
        if k == j {
            assert(p2[k] == p[j + 1]);
        } else if k == j + 1 {
            assert(p2[k] == p[j]);
        } else {
            assert(p2[k] == p[k]);
        }
    }
    assert forall|a: int, b: int| 0 <= a < b < p2.len() implies p2[a] != p2[b] by {
        let oa = if a == j { j + 1 } else if a == j + 1 { j } else { a };
        let ob = if b == j { j + 1 } else if b == j + 1 { j } else { b };
        assert(p2[a] == p[oa]);
        assert(p2[b] == p[ob]);
        if oa < ob {
            assert(p[oa] != p[ob]);
        } else {
            assert(p[ob] != p[oa]);
        }
    }
}

proof fn lemma_swap_keeps_ties(s: Seq<Move>, p: Seq<int>, j: int)
    requires
        ties_keep_order(s, p),
        p.len() == s.len(),
        0 <= j < j + 1 < s.len(),
        !moves_tie(s[j], s[j + 1]),
    ensures
        ties_keep_order(swap_adjacent(s, j), swap_adjacent(p, j)),
{
    let s2 = swap_adjacent(s, j);
    let p2 = swap_adjacent(p, j);
    assert forall|a: int, b: int|
        0 <= a < b < s2.len() && moves_tie(s2[a], s2[b]) implies p2[a] < p2[b] by {
        let oa = if a == j { j + 1 } else if a == j + 1 { j } else { a };
        let ob = if b == j { j + 1 } else if b == j + 1 { j } else { b };
        assert(s2[a] == s[oa] && p2[a] == p[oa]);
        assert(s2[b] == s[ob] && p2[b] == p[ob]);
        if a == j && b == j + 1 {
            assert(moves_tie(s[j + 1], s[j]));
        } else {
            assert(oa < ob);
        }
    }
}

} // verus!

verus! {

// ---------------------------------------------------------------------------
// Generating all moves for a roll
// ---------------------------------------------------------------------------

/// The dice of one generation pass: `a` then `b`, or four times `a` for
/// doubles.
pub open spec fn pass_roll(a: u8, b: u8) -> [u8; 4] {
    if a == b {
        [a, a, a, a]
    } else {
        [a, b, 0, 0]
    }
}

/// Every finished play for dice `d0`, `d1`: dice played in the order rolled
/// and, for a plain roll, in the swapped order too.
pub open spec fn generated_plays(b: Board, d0: u8, d1: u8) -> Set<Play> {
    finished_below(pass_roll(d0, d1), root_play(b)) + if d0 != d1 {
        finished_below(pass_roll(d1, d0), root_play(b))
    } else {
        Set::empty()
    }
}

/// Play `x` uses at least as many sub-moves and pips as every play of `plays`.
pub open spec fn is_best(plays: Set<Play>, x: Play) -> bool {
    forall|y: Play| #[trigger] plays.contains(y) ==> y.depth <= x.depth && y.c_pip <= x.c_pip
}

/// `mv` records one of the best plays of `plays`.
pub open spec fn records_best(mv: Move, plays: Set<Play>) -> bool {
    exists|x: Play| #[trigger] plays.contains(x) && is_best(plays, x) && records(mv, x)
}

/// The move list of a set of finished plays: one move per distinct
/// resulting position among the plays that use the most sub-moves and pips,
/// each recording such a play, sorted.
pub open spec fn lists_best_plays(moves: Seq<Move>, plays: Set<Play>) -> bool {
    &&& forall|i: int, j: int|
        0 <= i < moves.len() && 0 <= j < moves.len() && i != j ==> move_key(moves[i]) != move_key(
            moves[j],
        )
    &&& forall|i: int| 0 <= i < moves.len() ==> #[trigger] records_best(moves[i], plays)
    &&& forall|x: Play|
        #[trigger] plays.contains(x) && is_best(plays, x) ==> key_listed(moves, play_key(x))
    &&& sorted_moves(moves)
    &&& (moves.len() == 0 <==> plays.is_empty())
}

proof fn lemma_perm_transfer(a: Seq<Move>, b: Seq<Move>)
    requires
        a.to_multiset() == b.to_multiset(),
        forall|i: int, j: int|
            0 <= i < a.len() && 0 <= j < a.len() && i != j ==> move_key(a[i]) != move_key(a[j]),
    ensures
        forall|i: int| 0 <= i < b.len() ==> a.contains(#[trigger] b[i]),
        forall|i: int| 0 <= i < a.len() ==> b.contains(#[trigger] a[i]),
        forall|i: int, j: int|
            0 <= i < b.len() && 0 <= j < b.len() && i != j ==> move_key(b[i]) != move_key(b[j]),
{
    broadcast use {vstd::seq_lib::to_multiset_contains, vstd::multiset::group_multiset_axioms};

    assert forall|i: int| 0 <= i < b.len() implies a.contains(#[trigger] b[i]) by {
        assert(b.contains(b[i]));
        assert(b.to_multiset().count(b[i]) > 0);
    }
    assert forall|i: int| 0 <= i < a.len() implies b.contains(#[trigger] a[i]) by {
        assert(a.contains(a[i]));
        assert(a.to_multiset().count(a[i]) > 0);
    }
    assert(a.no_duplicates()) by {
        assert forall|i: int, j: int| 0 <= i < a.len() && 0 <= j < a.len() && i != j implies a[i]
            != a[j] by {
            assert(move_key(a[i]) != move_key(a[j]));
        }
    }
    a.lemma_multiset_has_no_duplicates();
    b.lemma_multiset_has_no_duplicates_conv();
    assert forall|i: int, j: int|
        0 <= i < b.len() && 0 <= j < b.len() && i != j implies move_key(b[i]) != move_key(b[j]) by {
        let x = choose|x: int| 0 <= x < a.len() && a[x] == b[i];
        let y = choose|y: int| 0 <= y < a.len() && a[y] == b[j];
        assert(b[i] != b[j]);
        assert(x != y);
    }
}

/// Generate all legal moves for a board and a roll of two dice: every way
/// of playing the dice (entering from the bar first, both dice orders for a
/// plain roll, up to four times for doubles) is tried, and the moves that
/// use the most checkers and pips are kept, one per resulting position,
/// sorted.
pub fn generate_moves(board: &Board, dice: (u8, u8)) -> (list: MoveList)
    requires
        1 <= dice.0 <= 6,
        1 <= dice.1 <= 6,
        cells_at_most(*board, (u32::MAX - 4) as u32),
        crate::types::total_checkers(*board) + 50 <= u32::MAX,
    ensures
        lists_best_plays(list.moves@, generated_plays(*board, dice.0, dice.1)),
        forall|i: int|
            0 <= i < list.moves@.len() ==> #[trigger] records_first_best(
                list.moves@[i],
                generated_order(*board, dice.0, dice.1),
                generated_plays(*board, dice.0, dice.1),
            ),
{
    let (n0, n1) = dice;
    let mut an_roll = [n0, n1, 0u8, 0u8];
    if n0 == n1 {
        an_roll[2] = n0;
        an_roll[3] = n0;
    }
    let mut list = MoveList::with_capacity(256);
    let mut an_moves = [-1i8; 8];
    let mut limits = MoveLimits {
        c_max_moves: 0,
        c_max_pips: 0,
        offered: Ghost(Set::empty()),
        order: Ghost(Seq::empty()),
    };
    let ghost root = root_play(*board);
    proof {
        assert(an_roll =~= pass_roll(n0, n1));
        reveal_with_fuel(pips_used, 1);
    }
    generate_moves_sub(
        &mut list,
        &an_roll,
        0,
        23,
        0,
        board,
        &mut an_moves,
        &mut limits,
        Ghost(root),
        Ghost(n0 as int),
        Ghost(n1 as int),
    );
    if n0 != n1 {
        an_roll = [n1, n0, 0u8, 0u8];
        an_moves = [-1i8; 8];
        proof {
            assert(an_roll =~= pass_roll(n1, n0));
        }
        generate_moves_sub(
            &mut list,
            &an_roll,
            0,
            23,
            0,
            board,
            &mut an_moves,
            &mut limits,
            Ghost(root),
            Ghost(n0 as int),
            Ghost(n1 as int),
        );
    }
    let ghost before_sort = list.moves@;
    sort_moves(&mut list);
    proof {
        let plays = generated_plays(*board, n0, n1);
        assert(limits.offered@ =~= plays);
        let m = limits.c_max_moves;
        let p = limits.c_max_pips;
        lemma_perm_transfer(before_sort, list.moves@);
        assert forall|x: Play| #[trigger] plays.contains(x) && x.depth == m && x.c_pip == p
            implies is_best(plays, x) by {}
        assert forall|x: Play| #[trigger] plays.contains(x) && is_best(plays, x) implies x.depth
            == m && x.c_pip == p by {
            let w = choose|w: Play| #[trigger] plays.contains(w) && w.depth == m && w.c_pip == p;
            assert(plays.contains(w));
        }
        assert forall|i: int| 0 <= i < list.moves@.len() implies #[trigger] records_best(
            list.moves@[i],
            plays,
        ) by {
            let k = choose|k: int| 0 <= k < before_sort.len() && before_sort[k] == list.moves@[i];
            assert(recorded_max(before_sort[k], limits));
            let x = choose|x: Play|
                #[trigger] limits.offered@.contains(x) && x.depth == limits.c_max_moves && x.c_pip
                    == limits.c_max_pips && records(before_sort[k], x);
            assert(plays.contains(x) && is_best(plays, x));
        }
        assert forall|x: Play| #[trigger] plays.contains(x) && is_best(plays, x) implies key_listed(
            list.moves@,
            play_key(x),
        ) by {
            assert(key_listed(before_sort, play_key(x)));
            let k = choose|k: int| 0 <= k < before_sort.len() && move_key(before_sort[k]) == play_key(
                x,
            );
            assert(list.moves@.contains(before_sort[k]));
            let j = choose|j: int| 0 <= j < list.moves@.len() && list.moves@[j] == before_sort[k];
            assert(move_key(list.moves@[j]) == play_key(x));
        }
        let ord = generated_order(*board, n0, n1);
        assert(limits.order@ =~= ord);
        assert forall|i: int| 0 <= i < list.moves@.len() implies #[trigger] records_first_best(
            list.moves@[i],
            ord,
            plays,
        ) by {
            let mv = list.moves@[i];
            let k = choose|k: int| 0 <= k < before_sort.len() && before_sort[k] == mv;
            assert(first_max_record(before_sort[k], limits.order@, m as nat, p as nat));
            let q = choose|q: int|
                0 <= q < ord.len() && (#[trigger] ord[q]).depth == m && ord[q].c_pip == p && records(
                    mv,
                    ord[q],
                ) && forall|j: int|
                    0 <= j < q && (#[trigger] ord[j]).depth == m && ord[j].c_pip == p ==> play_key(
                        ord[j],
                    ) != move_key(mv);
            assert(ord.contains(ord[q]));
            assert(plays.contains(ord[q]));
            assert(is_best(plays, ord[q]));
            assert forall|j: int| 0 <= j < q && is_best(plays, #[trigger] ord[j]) implies play_key(
                ord[j],
            ) != move_key(mv) by {
                assert(ord.contains(ord[j]));
                assert(plays.contains(ord[j]));
            }
        }
        if plays.is_empty() {
            if list.moves@.len() > 0 {
                assert(records_best(list.moves@[0], plays));
            }
        } else {
            let w = choose|w: Play| #[trigger] plays.contains(w) && w.depth == m && w.c_pip == p;
            assert(plays.contains(w) && is_best(plays, w));
            assert(key_listed(list.moves@, play_key(w)));
        }
    }
    list
}

} // verus!

verus! {

// ---------------------------------------------------------------------------
// Ordering moves by the position they reach
// ---------------------------------------------------------------------------

/// The score of the position a move reaches (higher is better): checkers
/// borne off first, then opponent checkers on the bar, then own checkers on
/// the bar (a penalty), then the pip lead, then how far back the last
/// checker is, then the opponent's checkers on the board, then the checkers
/// moved.
pub open spec fn score_spec(b: Board, mv: Move) -> int {
    let r = apply_steps(b, mv.from_to@).0;
    r[1][0] * 1_000_000_000_000int + r[0][24] * 100_000_000_000int - r[1][24] * 10_000_000_000int
        + (crate::types::side_pips(r, 0) - crate::types::side_pips(r, 1)) * 1_000_000int
        - back_point(r) * 10_000int - (crate::types::side_checkers(r, 0) - r[0][0]) * 100int
        + mv.c_moves * 10int
}

/// Cell bound under which move scores fit the machine integers.
pub open spec fn scorable(b: Board) -> bool {
    cells_at_most(b, 1_000_000u32)
}

proof fn lemma_apply_steps_bound(b: Board, steps: Seq<Option<(u8, u8)>>, limit: u32)
    requires
        cells_at_most(b, limit),
        limit + steps.len() < u32::MAX,
    ensures
        cells_at_most(apply_steps(b, steps).0, (limit + steps.len()) as u32),
    decreases steps.len(),
{
    if steps.len() > 0 {
        match step_spec(b, steps[0]) {
            Some(b2) => {
                lemma_step_bound(b, steps[0], limit);
                lemma_apply_steps_bound(b2, steps.drop_first(), (limit + 1) as u32);
            },
            None => {},
        }
    }
}

proof fn lemma_row_sum_bound(row: [u32; 25], n: nat, limit: u32)
    requires
        forall|p: int| 0 <= p < 25 ==> row[p] <= limit,
        n <= 25,
    ensures
        crate::types::row_sum(row, n) <= n * limit,
        crate::types::row_pips(row, n) <= n * 24 * limit,
    decreases n,
{
    if n > 0 {
        lemma_row_sum_bound(row, (n - 1) as nat, limit);
        let x = row[n - 1] as nat;
        let k = (n - 1) as nat;
        assert(k <= 24);
        assert(x * k <= 24 * limit) by (nonlinear_arith)
            requires
                x <= limit,
                k <= 24,
        ;
        assert((n - 1) * limit + limit == n * limit) by (nonlinear_arith);
        assert((n - 1) * 24 * limit + 24 * limit == n * 24 * limit) by (nonlinear_arith);
    }
}

fn row_pip_total(row: &[u32; 25]) -> (t: u32)
    requires
        forall|p: int| 0 <= p < 25 ==> row[p] <= 1_000_004,
    ensures
        t == crate::types::row_pips(*row, 25),
{
    let mut t: u32 = 0;
    let mut p: usize = 0;
    proof {
        lemma_row_sum_bound(*row, 25, 1_000_004);
    }
    while p < 25
        invariant
            p <= 25,
            forall|q: int| 0 <= q < 25 ==> row[q] <= 1_000_004,
            t == crate::types::row_pips(*row, p as nat),
        decreases 25 - p,
    {
        proof {
            lemma_row_sum_bound(*row, (p + 1) as nat, 1_000_004);
            assert((p + 1) * 24 * 1_000_004 <= 25 * 24 * 1_000_004) by (nonlinear_arith)
                requires
                    p < 25,
            ;
        }
        t = t + row[p] * p as u32;
        p = p + 1;
    }
    t
}

fn row_total_from(row: &[u32; 25], from: usize) -> (t: u32)
    requires
        forall|p: int| 0 <= p < 25 ==> row[p] <= 1_000_004,
        from <= 25,
    ensures
        t == crate::types::row_sum(*row, 25) - crate::types::row_sum(*row, from as nat),
{
    let mut t: u32 = 0;
    let mut p: usize = from;
    proof {
        lemma_row_sum_bound(*row, 25, 1_000_004);
    }
    while p < 25
        invariant
            from <= p <= 25,
            forall|q: int| 0 <= q < 25 ==> row[q] <= 1_000_004,
            t == crate::types::row_sum(*row, p as nat) - crate::types::row_sum(*row, from as nat),
            crate::types::row_sum(*row, 25) <= 25 * 1_000_004,
        decreases 25 - p,
    {
        proof {
            crate::types::lemma_row_sum_mono(*row, (p + 1) as nat, 25);
            crate::types::lemma_row_sum_mono(*row, from as nat, p as nat);
        }
        t = t + row[p];
        p = p + 1;
    }
    t
}

/// Score the position a move reaches (see `score_spec`).
pub fn score_move(board: &Board, mv: &Move) -> (score: i64)
    requires
        scorable(*board),
    ensures
        score == score_spec(*board, *mv),
{
    let mut result_board = *board;
    let _ = apply_move(&mut result_board, mv);
    proof {
        lemma_apply_steps_bound(*board, mv.from_to@, 1_000_000);
    }
    let r = &result_board;
    let our_pips = row_pip_total(&r[1]);
    let opp_pips = row_pip_total(&r[0]);
    let our_back = back_checker_point(r);
    let opp_total = row_total_from(&r[0], 1);
    proof {
        reveal_with_fuel(crate::types::row_sum, 2);
        lemma_row_sum_bound(r[0], 25, 1_000_004);
        lemma_row_sum_bound(r[1], 25, 1_000_004);
    }
    let mut score: i64 = 0;
    score = score + (r[1][0] as i64) * 1_000_000_000_000;
    score = score + (r[0][24] as i64) * 100_000_000_000;
    score = score - (r[1][24] as i64) * 10_000_000_000;
    score = score + (opp_pips as i64 - our_pips as i64) * 1_000_000;
    score = score - (our_back as i64) * 10000;
    score = score - (opp_total as i64) * 100;
    score = score + (mv.c_moves as i64) * 10;
    score
}

/// Compare two moves by the positions they reach: the better-scoring move
/// comes first.
pub fn compare_moves_general(board: &Board, a: &Move, b: &Move) -> (ord: std::cmp::Ordering)
    requires
        scorable(*board),
    ensures
        ord == (if score_spec(*board, *b) < score_spec(*board, *a) {
            std::cmp::Ordering::Less
        } else if score_spec(*board, *b) == score_spec(*board, *a) {
            std::cmp::Ordering::Equal
        } else {
            std::cmp::Ordering::Greater
        }),
{
    let score_a = score_move(board, a);
    let score_b = score_move(board, b);
    if score_b < score_a {
        std::cmp::Ordering::Less
    } else if score_b == score_a {
        std::cmp::Ordering::Equal
    } else {
        std::cmp::Ordering::Greater
    }
}

/// Under the placement `p`, moves of `s` whose positions score alike keep
/// the order they had.
pub open spec fn score_ties_keep_order(board: Board, s: Seq<Move>, p: Seq<int>) -> bool {
    forall|a: int, b: int|
        0 <= a < b < s.len() && score_spec(board, s[a]) == score_spec(board, s[b]) ==> p[a] < p[b]
}

proof fn lemma_swap_keeps_score_ties(board: Board, s: Seq<Move>, p: Seq<int>, j: int)
    requires
        score_ties_keep_order(board, s, p),
        p.len() == s.len(),
        0 <= j < j + 1 < s.len(),
        score_spec(board, s[j]) != score_spec(board, s[j + 1]),
    ensures
        score_ties_keep_order(board, swap_adjacent(s, j), swap_adjacent(p, j)),
{
    let s2 = swap_adjacent(s, j);
    let p2 = swap_adjacent(p, j);
    assert forall|a: int, b: int|
        0 <= a < b < s2.len() && score_spec(board, s2[a]) == score_spec(
            board,
            s2[b],
        ) implies p2[a] < p2[b] by {
        let oa = if a == j { j + 1 } else if a == j + 1 { j } else { a };
        let ob = if b == j { j + 1 } else if b == j + 1 { j } else { b };
        assert(s2[a] == s[oa] && p2[a] == p[oa]);
        assert(s2[b] == s[ob] && p2[b] == p[ob]);
        if !(a == j && b == j + 1) {
            assert(oa < ob);
        }
    }
}

/// Sort moves by the score of the positions they reach, best first; moves
/// with equal scores keep their order.
pub fn sort_moves_with_board(list: &mut MoveList, board: &Board)
    requires
        scorable(*board),
    ensures
        final(list).moves@.to_multiset() == old(list).moves@.to_multiset(),
        final(list).moves@.len() == old(list).moves@.len(),
        forall|i: int, j: int|
            0 <= i < j < final(list).moves@.len() ==> score_spec(*board, final(list).moves@[i])
                >= score_spec(*board, final(list).moves@[j]),
        exists|p: Seq<int>|
            permutes(final(list).moves@, old(list).moves@, p) && score_ties_keep_order(
                *board,
                final(list).moves@,
                p,
            ),
{
    let len = list.moves.len();
    let ghost mut perm: Seq<int> = Seq::new(len as nat, |k: int| k);
    if len == 0 {
        assert(permutes(list.moves@, old(list).moves@, perm) && score_ties_keep_order(
            *board,
            list.moves@,
            perm,
        ));
        return ;
    }
    let mut i: usize = 1;
    while i < len
        invariant
            1 <= i <= len,
            scorable(*board),
            len == list.moves@.len(),
            list.moves@.to_multiset() == old(list).moves@.to_multiset(),
            forall|a: int, b: int|
                0 <= a < b < i ==> score_spec(*board, list.moves@[a]) >= score_spec(
                    *board,
                    list.moves@[b],
                ),
            permutes(list.moves@, old(list).moves@, perm),
            score_ties_keep_order(*board, list.moves@, perm),
            forall|k: int| i <= k < len ==> perm[k] == k,
            forall|k: int| 0 <= k < i ==> perm[k] < i,
        decreases len - i,
    {
        let mut j: usize = i;
        while j > 0 && score_move(board, &list.moves[j]) > score_move(board, &list.moves[j - 1])
            invariant
                1 <= i < len,
                j <= i,
                scorable(*board),
                len == list.moves@.len(),
                list.moves@.to_multiset() == old(list).moves@.to_multiset(),
                forall|a: int, b: int|
                    0 <= a < b <= i && a != j && b != j ==> score_spec(*board, list.moves@[a])
                        >= score_spec(*board, list.moves@[b]),
                forall|b: int|
                    j < b <= i ==> score_spec(*board, list.moves@[j as int]) >= score_spec(
                        *board,
                        list.moves@[b],
                    ),
                permutes(list.moves@, old(list).moves@, perm),
                score_ties_keep_order(*board, list.moves@, perm),
                forall|k: int| i < k < len ==> perm[k] == k,
                forall|k: int| 0 <= k <= i ==> perm[k] <= i,
            decreases j,
        {
            let a = list.moves[j - 1];
            let b = list.moves[j];
            let ghost s0 = list.moves@;
            let ghost p0 = perm;
            list.moves.set(j - 1, b);
            list.moves.set(j, a);
            proof {
                perm = p0.update(j - 1, p0[j as int]).update(j as int, p0[j - 1]);
                let s = list.moves@;
                assert(s =~= s0.update(j - 1, b).update(j as int, a));
                let s1 = s0.update(j - 1, b);
                vstd::seq_lib::to_multiset_update(s0, j - 1, b);
                vstd::seq_lib::to_multiset_update(s1, j as int, a);
                broadcast use {
                    vstd::multiset::group_multiset_axioms,
                    vstd::seq_lib::to_multiset_contains,
                };
                assert(s0.contains(a) && s0[j - 1] == a);
                assert(s0.contains(b) && s0[j as int] == b);
                assert(s.to_multiset() =~= s0.to_multiset());
                assert forall|x: int, y: int|
                    0 <= x < y <= i && x != j - 1 && y != j - 1 implies score_spec(*board, s[x])
                    >= score_spec(*board, s[y]) by {
                    if y == j {
                        assert(s[y] == s0[j - 1]);
                        assert(s[x] == s0[x]);
                    } else if x == j {
                        assert(s[x] == s0[j - 1]);
                        assert(s[y] == s0[y]);
                    } else {
                        assert(s[x] == s0[x]);
                        assert(s[y] == s0[y]);
                    }
                }
                assert forall|y: int| j - 1 < y <= i implies score_spec(*board, s[j - 1])
                    >= score_spec(*board, #[trigger] s[y]) by {
                    if y != j {
                        assert(s[y] == s0[y]);
                    }
                }
                lemma_swap_keeps_placement(s0, old(list).moves@, p0, j - 1);
                assert(s == swap_adjacent(s0, j - 1));
                assert(perm == swap_adjacent(p0, j - 1));
                lemma_swap_keeps_score_ties(*board, s0, p0, j - 1);
            }
            j = j - 1;
        }
        i = i + 1;
    }
}

} // verus!

verus! {

// ---------------------------------------------------------------------------
// Replaying generated plays
// ---------------------------------------------------------------------------

/// The board reached by playing the sub-moves `(src, dest)` of `t` from `b`,
/// each moving a checker from `src` by `src - dest` pips; `None` when one of
/// them cannot be played.
pub open spec fn replay(b: Board, t: Seq<(int, int)>) -> Option<Board>
    decreases t.len(),
{
    if t.len() == 0 {
        Some(b)
    } else {
        match sub_move_spec(b, t[0].0, t[0].0 - t[0].1) {
            Some(b2) => replay(b2, t.drop_first()),
            None => None,
        }
    }
}

/// A sub-move of a generated play: a source point and a die of 1 to 6.
pub open spec fn step_ok(st: (int, int)) -> bool {
    0 <= st.0 <= 24 && 1 <= st.0 - st.1 <= 6
}

/// How a `Move` records one sub-move of a play (see `from_to_of`).
pub open spec fn step_entry(st: (int, int)) -> Option<(u8, u8)> {
    Some(
        (
            st.0 as u8,
            if st.1 >= 0 {
                st.1 as u8
            } else {
                0u8
            },
        ),
    )
}

/// Finished play `x` continues play `n`: it keeps `n`'s sub-moves and adds
/// valid ones that, replayed from `n`'s board, reach `x`'s board.
pub open spec fn extends(n: Play, x: Play) -> bool {
    &&& n.depth < x.depth <= 4
    &&& x.steps.len() == n.steps.len() + (x.depth - n.depth)
    &&& x.steps.subrange(0, n.steps.len() as int) == n.steps
    &&& forall|i: int| n.steps.len() <= i < x.steps.len() ==> step_ok(#[trigger] x.steps[i])
    &&& replay(n.board, x.steps.subrange(n.steps.len() as int, x.steps.len() as int)) == Some(
        x.board,
    )
}

proof fn lemma_child_extends(roll: [u8; 4], n: Play, src: int, r: int, next: int, x: Play)
    requires
        n.depth <= 3,
        0 <= src <= 24,
        1 <= r <= 6,
        sub_move_spec(n.board, src, r) is Some,
        x == child(roll, n, src, r, next) || extends(child(roll, n, src, r, next), x),
    ensures
        extends(n, x),
{
    let c = child(roll, n, src, r, next);
    let k = n.steps.len() as int;
    let st = (src, src - r);
    assert(c.steps[k] == st);
    assert(c.steps.subrange(0, k) =~= n.steps);
    if x == c {
        let t = x.steps.subrange(k, k + 1);
        assert(t =~= seq![st]);
        assert(t.drop_first() =~= Seq::<(int, int)>::empty());
        assert(replay(c.board, t.drop_first()) == Some(c.board));
        assert(st.0 - st.1 == r);
    } else {
        let len = x.steps.len() as int;
        assert(x.steps.subrange(0, k + 1) == c.steps);
        assert(x.steps[k] == x.steps.subrange(0, k + 1)[k]);
        assert(x.steps.subrange(0, k) =~= x.steps.subrange(0, k + 1).subrange(0, k));
        let t = x.steps.subrange(k, len);
        assert(t[0] == st);
        assert(t.drop_first() =~= x.steps.subrange(k + 1, len));
        assert(st.0 - st.1 == r);
        assert forall|i: int| k <= i < len implies step_ok(#[trigger] x.steps[i]) by {
            if i == k {
                assert(x.steps[i] == st);
            }
        }
    }
}

/// The die played at play `n` when it is not done: 1 to 6.
proof fn lemma_die_range(roll: [u8; 4], n: Play)
    requires
        roll_ok(roll),
        !depth_done(roll, n),
    ensures
        1 <= roll[n.depth as int] <= 6,
{
}

proof fn lemma_below_extends(roll: [u8; 4], n: Play, x: Play)
    requires
        roll_ok(roll),
        n.depth <= 4,
        n.i_pip <= 23,
        finished_below(roll, n).contains(x),
    ensures
        extends(n, x),
    decreases 4 - n.depth, 30int,
{
    if depth_done(roll, n) {
    } else if bar_entry(roll, n) {
        lemma_die_range(roll, n);
        let r = roll[n.depth as int] as int;
        let c = child(roll, n, 24, r, 23);
        if finished_below(roll, c).contains(x) {
            lemma_below_extends(roll, c, x);
        }
        lemma_child_extends(roll, n, 24, r, 23, x);
    } else {
        lemma_from_extends(roll, n, 0, x);
    }
}

proof fn lemma_from_extends(roll: [u8; 4], n: Play, lo: int, x: Play)
    requires
        roll_ok(roll),
        n.depth <= 4,
        n.i_pip <= 23,
        finished_from(roll, n, lo).contains(x),
    ensures
        extends(n, x),
    decreases 4 - n.depth, 25 - lo,
{
    if depth_done(roll, n) || lo < 0 || lo > n.i_pip || lo > 24 {
    } else if finished_from(roll, n, lo + 1).contains(x) {
        lemma_from_extends(roll, n, lo + 1, x);
    } else {
        lemma_die_range(roll, n);
        let r = roll[n.depth as int] as int;
        let c = child(roll, n, lo, r, next_i_pip(roll, lo));
        if finished_below(roll, c).contains(x) {
            lemma_below_extends(roll, c, x);
        }
        lemma_child_extends(roll, n, lo, r, next_i_pip(roll, lo), x);
    }
}

/// Playing a recorded sub-move as `apply_move` does agrees with the move
/// the generator made.
proof fn lemma_step_entry(b: Board, st: (int, int))
    requires
        step_ok(st),
        sub_move_spec(b, st.0, st.0 - st.1) is Some,
    ensures
        step_spec(b, step_entry(st)) == sub_move_spec(b, st.0, st.0 - st.1),
{
}

proof fn lemma_none_steps(b: Board, f: Seq<Option<(u8, u8)>>)
    requires
        forall|i: int| 0 <= i < f.len() ==> f[i] is None,
    ensures
        apply_steps(b, f) == (b, true),
    decreases f.len(),
{
    if f.len() > 0 {
        assert(f[0] is None);
        assert forall|i: int| 0 <= i < f.drop_first().len() implies f.drop_first()[i] is None by {
            assert(f.drop_first()[i] == f[i + 1]);
        }
        lemma_none_steps(b, f.drop_first());
    }
}

proof fn lemma_replay_apply(b: Board, t: Seq<(int, int)>, f: Seq<Option<(u8, u8)>>)
    requires
        replay(b, t) is Some,
        forall|i: int| 0 <= i < t.len() ==> step_ok(#[trigger] t[i]),
        t.len() <= f.len(),
        forall|i: int| 0 <= i < t.len() ==> f[i] == step_entry(#[trigger] t[i]),
        forall|i: int| t.len() <= i < f.len() ==> f[i] is None,
    ensures
        apply_steps(b, f) == (replay(b, t).unwrap(), true),
    decreases t.len(),
{
    if t.len() == 0 {
        lemma_none_steps(b, f);
    } else {
        let st = t[0];
        assert(step_ok(t[0]));
        assert(f[0] == step_entry(t[0]));
        lemma_step_entry(b, st);
        let b2 = sub_move_spec(b, st.0, st.0 - st.1).unwrap();
        let t2 = t.drop_first();
        let f2 = f.drop_first();
        assert forall|i: int| 0 <= i < t2.len() implies step_ok(#[trigger] t2[i]) by {
            assert(t2[i] == t[i + 1]);
        }
        assert forall|i: int| 0 <= i < t2.len() implies f2[i] == step_entry(#[trigger] t2[i]) by {
            assert(t2[i] == t[i + 1]);
            assert(f2[i] == f[i + 1]);
        }
        assert forall|i: int| t2.len() <= i < f2.len() implies f2[i] is None by {
            assert(f2[i] == f[i + 1]);
        }
        lemma_replay_apply(b2, t2, f2);
    }
}

/// A recorded generated play replays: its sub-moves are valid, replaying
/// them reaches its board, and `apply_steps` on the recording move agrees.
proof fn lemma_recorded_play_replays(b: Board, d0: u8, d1: u8, m: Move, x: Play)
    requires
        1 <= d0 <= 6,
        1 <= d1 <= 6,
        generated_plays(b, d0, d1).contains(x),
        records(m, x),
    ensures
        x.steps.len() <= 4,
        forall|i: int| 0 <= i < x.steps.len() ==> step_ok(#[trigger] x.steps[i]),
        replay(b, x.steps) == Some(x.board),
        apply_steps(b, m.from_to@) == (x.board, true),
{
    let root = root_play(b);
    if finished_below(pass_roll(d0, d1), root).contains(x) {
        lemma_below_extends(pass_roll(d0, d1), root, x);
    } else {
        lemma_below_extends(pass_roll(d1, d0), root, x);
    }
    assert(x.steps.subrange(0, x.steps.len() as int) =~= x.steps);
    let f = m.from_to@;
    assert(f == from_to_of(x.steps));
    assert forall|i: int| 0 <= i < x.steps.len() implies f[i] == step_entry(#[trigger] x.steps[i]) by {
    }
    lemma_replay_apply(b, x.steps, f);
}

/// A listed move replays to the position it records: when `m` records a
/// play that the generator finds for the roll (as every move that
/// `generate_moves` lists does), playing `m`'s sub-moves on the board with
/// `apply_move` succeeds, and `m`'s key is the key of the board it reaches.
pub proof fn lemma_listed_move_replays(b: Board, d0: u8, d1: u8, m: Move)
    requires
        1 <= d0 <= 6,
        1 <= d1 <= 6,
        exists|x: Play| #[trigger] generated_plays(b, d0, d1).contains(x) && records(m, x),
    ensures
        apply_steps(b, m.from_to@).1,
        forall|j: int|
            0 <= j < 80 ==> crate::types::key_bit(m.key.0@, j) == crate::types::encoded_bit(
                apply_steps(b, m.from_to@).0,
                j,
            ),
{
    let x = choose|x: Play| #[trigger] generated_plays(b, d0, d1).contains(x) && records(m, x);
    lemma_recorded_play_replays(b, d0, d1, m, x);
    assert forall|j: int| 0 <= j < 80 implies crate::types::key_bit(m.key.0@, j)
        == crate::types::encoded_bit(apply_steps(b, m.from_to@).0, j) by {
        assert(move_key(m)[j] == play_key(x)[j]);
    }
}

/// No point is held by both sides: point `i` of side 0 faces point `24 - i`
/// of side 1 (the rule `check_position` applies).
pub open spec fn no_shared_points(b: Board) -> bool {
    forall|i: int| 0 <= i < 24 ==> !(b[0][i] > 0 && b[1][24 - i] > 0)
}

/// A sub-move by a die keeps every point held by one side at most.
proof fn lemma_sub_move_no_shared(b: Board, src: int, pips: int)
    requires
        no_shared_points(b),
        0 <= src <= 24,
        1 <= pips,
        sub_move_spec(b, src, pips) is Some,
    ensures
        no_shared_points(sub_move_spec(b, src, pips).unwrap()),
{
    let r = sub_move_spec(b, src, pips).unwrap();
    let b1 = set_cell(b, 1, src, (b[1][src] - 1) as u32);
    lemma_set_cell(b, 1, src, (b[1][src] - 1) as u32);
    let d = src - pips;
    if d <= 0 {
        lemma_set_cell(b1, 1, 0, (b1[1][0] + 1) as u32);
        assert forall|i: int| 0 <= i < 24 implies !(r[0][i] > 0 && r[1][24 - i] > 0) by {
            assert(!(b[0][i] > 0 && b[1][24 - i] > 0));
        }
    } else if b1[0][24 - d] == 1 {
        let b2 = set_cell(b1, 1, d, 1);
        let b3 = set_cell(b2, 0, 24 - d, 0);
        lemma_set_cell(b1, 1, d, 1);
        lemma_set_cell(b2, 0, 24 - d, 0);
        lemma_set_cell(b3, 0, 24, (b3[0][24] + 1) as u32);
        assert forall|i: int| 0 <= i < 24 implies !(r[0][i] > 0 && r[1][24 - i] > 0) by {
            assert(!(b[0][i] > 0 && b[1][24 - i] > 0));
        }
    } else {
        lemma_set_cell(b1, 1, d, (b1[1][d] + 1) as u32);
        assert forall|i: int| 0 <= i < 24 implies !(r[0][i] > 0 && r[1][24 - i] > 0) by {
            assert(!(b[0][i] > 0 && b[1][24 - i] > 0));
        }
    }
}

/// Replaying valid sub-moves from a board where no point is shared keeps
/// each side's checkers.
proof fn lemma_replay_keeps_checkers(b: Board, t: Seq<(int, int)>, k: nat)
    requires
        replay(b, t) is Some,
        forall|i: int| 0 <= i < t.len() ==> step_ok(#[trigger] t[i]),
        no_shared_points(b),
        k + t.len() <= 4,
        cells_at_most(b, (u32::MAX - 4 + k) as u32),
    ensures
        crate::types::side_checkers(replay(b, t).unwrap(), 0) == crate::types::side_checkers(b, 0),
        crate::types::side_checkers(replay(b, t).unwrap(), 1) == crate::types::side_checkers(b, 1),
    decreases t.len(),
{
    if t.len() > 0 {
        assert(step_ok(t[0]));
        let src = t[0].0;
        let pips = t[0].0 - t[0].1;
        let d = src - pips;
        if d >= 1 {
            assert(!(b[0][24 - d] > 0 && b[1][24 - (24 - d)] > 0));
        }
        lemma_sub_move_keeps_checkers(b, src, pips);
        lemma_sub_move_bound(b, src, pips, (u32::MAX - 4 + k) as u32);
        lemma_sub_move_no_shared(b, src, pips);
        let b2 = sub_move_spec(b, src, pips).unwrap();
        let t2 = t.drop_first();
        assert forall|i: int| 0 <= i < t2.len() implies step_ok(#[trigger] t2[i]) by {
            assert(t2[i] == t[i + 1]);
        }
        lemma_replay_keeps_checkers(b2, t2, k + 1);
    }
}

/// Playing a listed move keeps each side's checkers: on a board where no
/// point is held by both sides, every move that records a play the
/// generator finds for the roll (as every move that `generate_moves` lists
/// does) applies with `apply_move`, and afterwards each side has as many
/// checkers (on the board, on the bar and borne off) as before.
pub proof fn lemma_listed_move_keeps_checkers(b: Board, d0: u8, d1: u8, m: Move)
    requires
        1 <= d0 <= 6,
        1 <= d1 <= 6,
        no_shared_points(b),
        cells_at_most(b, (u32::MAX - 4) as u32),
        exists|x: Play| #[trigger] generated_plays(b, d0, d1).contains(x) && records(m, x),
    ensures
        apply_steps(b, m.from_to@).1,
        crate::types::side_checkers(apply_steps(b, m.from_to@).0, 0) == crate::types::side_checkers(
            b,
            0,
        ),
        crate::types::side_checkers(apply_steps(b, m.from_to@).0, 1) == crate::types::side_checkers(
            b,
            1,
        ),
{
    let x = choose|x: Play| #[trigger] generated_plays(b, d0, d1).contains(x) && records(m, x);
    lemma_recorded_play_replays(b, d0, d1, m, x);
    lemma_replay_keeps_checkers(b, x.steps, 0);
}

/// The byte keys of a list of moves.
pub open spec fn move_keys(l: Seq<Move>) -> Seq<Seq<u8>> {
    Seq::new(l.len(), |i: int| l[i].key.0@)
}

/// Each key sorts strictly before every later one.
pub open spec fn keys_increasing(ks: Seq<Seq<u8>>) -> bool {
    forall|i: int, j: int| 0 <= i < j < ks.len() ==> key_less(ks[i], ks[j])
}

proof fn lemma_key_less_implies_ne(a: Seq<u8>, b: Seq<u8>)
    requires
        key_less(a, b),
    ensures
        a != b,
{
    lemma_key_less_irrefl(a, 0);
}

/// Two strictly increasing key sequences holding the same keys are equal.
proof fn lemma_increasing_unique(k1: Seq<Seq<u8>>, k2: Seq<Seq<u8>>)
    requires
        keys_increasing(k1),
        keys_increasing(k2),
        forall|i: int| 0 <= i < k1.len() ==> (#[trigger] k1[i]).len() == 10,
        forall|i: int| 0 <= i < k2.len() ==> (#[trigger] k2[i]).len() == 10,
        forall|i: int| 0 <= i < k1.len() ==> k2.contains(#[trigger] k1[i]),
        forall|j: int| 0 <= j < k2.len() ==> k1.contains(#[trigger] k2[j]),
    ensures
        k1 == k2,
    decreases k1.len() + k2.len(),
{
    if k1.len() == 0 {
        if k2.len() > 0 {
            assert(k1.contains(k2[0]));
        }
        assert(k1 =~= k2);
    } else if k2.len() == 0 {
        assert(k2.contains(k1[0]));
    } else {
        let a = k1[0];
        let b = k2[0];
        if a != b {
            assert(k2.contains(a));
            let j = choose|j: int| 0 <= j < k2.len() && k2[j] == a;
            assert(k1.contains(b));
            let i = choose|i: int| 0 <= i < k1.len() && k1[i] == b;
            assert(key_less(b, a));
            assert(key_less(a, b));
            lemma_key_less_trans(a, b, a, 0);
            lemma_key_less_irrefl(a, 0);
        }
        let t1 = k1.drop_first();
        let t2 = k2.drop_first();
        assert forall|i: int| 0 <= i < t1.len() implies t2.contains(#[trigger] t1[i]) by {
            assert(t1[i] == k1[i + 1]);
            assert(k2.contains(k1[i + 1]));
            let j = choose|j: int| 0 <= j < k2.len() && k2[j] == k1[i + 1];
            lemma_key_less_implies_ne(k1[0], k1[i + 1]);
            assert(j != 0);
            assert(t2[j - 1] == k2[j]);
        }
        assert forall|j: int| 0 <= j < t2.len() implies t1.contains(#[trigger] t2[j]) by {
            assert(t2[j] == k2[j + 1]);
            assert(k1.contains(k2[j + 1]));
            let i = choose|i: int| 0 <= i < k1.len() && k1[i] == k2[j + 1];
            lemma_key_less_implies_ne(k2[0], k2[j + 1]);
            assert(i != 0);
            assert(t1[i - 1] == k1[i]);
        }
        assert forall|i: int| 0 <= i < t1.len() implies (#[trigger] t1[i]).len() == 10 by {
            assert(t1[i] == k1[i + 1]);
        }
        assert forall|i: int| 0 <= i < t2.len() implies (#[trigger] t2[i]).len() == 10 by {
            assert(t2[i] == k2[i + 1]);
        }
        assert forall|i: int, j: int| 0 <= i < j < t1.len() implies key_less(t1[i], t1[j]) by {
            assert(t1[i] == k1[i + 1] && t1[j] == k1[j + 1]);
        }
        assert forall|i: int, j: int| 0 <= i < j < t2.len() implies key_less(t2[i], t2[j]) by {
            assert(t2[i] == k2[i + 1] && t2[j] == k2[j + 1]);
        }
        lemma_increasing_unique(t1, t2);
        assert(k1 =~= k2) by {
            assert forall|i: int| 0 <= i < k1.len() implies k1[i] == k2[i] by {
                if i > 0 {
                    assert(k1[i] == t1[i - 1]);
                    assert(k2[i] == t2[i - 1]);
                }
            }
        }
    }
}

/// The listed moves all use the most sub-moves and pips, so their keys
/// increase strictly along the list.
proof fn lemma_listing_increasing(l: Seq<Move>, plays: Set<Play>)
    requires
        lists_best_plays(l, plays),
    ensures
        keys_increasing(move_keys(l)),
{
    let ks = move_keys(l);
    assert forall|i: int, j: int| 0 <= i < j < ks.len() implies key_less(ks[i], ks[j]) by {
        assert(records_best(l[i], plays));
        assert(records_best(l[j], plays));
        let xi = choose|x: Play| #[trigger] plays.contains(x) && is_best(plays, x) && records(l[i], x);
        let xj = choose|x: Play| #[trigger] plays.contains(x) && is_best(plays, x) && records(l[j], x);
        assert(xi.depth <= xj.depth && xi.c_pip <= xj.c_pip);
        assert(xj.depth <= xi.depth && xj.c_pip <= xi.c_pip);
        assert(!move_before(l[j], l[i]));
        let a = l[i].key.0@;
        let c = l[j].key.0@;
        lemma_key_total(a, c, 0);
        assert(a.subrange(0, 10) =~= a);
        assert(c.subrange(0, 10) =~= c);
        assert(move_key(l[i]) != move_key(l[j]));
    }
}

/// Each key of one listing of `plays` is a key of any other listing.
proof fn lemma_listing_keys_shared(l1: Seq<Move>, l2: Seq<Move>, plays: Set<Play>)
    requires
        lists_best_plays(l1, plays),
        lists_best_plays(l2, plays),
    ensures
        forall|i: int| 0 <= i < l1.len() ==> move_keys(l2).contains(#[trigger] move_keys(l1)[i]),
{
    assert forall|i: int| 0 <= i < l1.len() implies move_keys(l2).contains(
        #[trigger] move_keys(l1)[i],
    ) by {
        assert(records_best(l1[i], plays));
        let x = choose|x: Play| #[trigger] plays.contains(x) && is_best(plays, x) && records(l1[i], x);
        assert(key_listed(l2, play_key(x)));
        let j = choose|j: int| 0 <= j < l2.len() && move_key(l2[j]) == play_key(x);
        lemma_key_bits_injective(l1[i].key.0@, l2[j].key.0@);
        assert(move_keys(l2)[j] == move_keys(l1)[i]);
    }
}

/// The order of the dice does not matter: the move lists for a roll taken as
/// `(d0, d1)` and as `(d1, d0)` have the same length and the same position
/// at each place.
pub proof fn lemma_dice_order_irrelevant(b: Board, d0: u8, d1: u8, l1: Seq<Move>, l2: Seq<Move>)
    requires
        lists_best_plays(l1, generated_plays(b, d0, d1)),
        lists_best_plays(l2, generated_plays(b, d1, d0)),
    ensures
        l1.len() == l2.len(),
        forall|i: int| 0 <= i < l1.len() ==> l1[i].key.0@ == l2[i].key.0@,
{
    let plays = generated_plays(b, d0, d1);
    if d0 != d1 {
        assert(generated_plays(b, d1, d0) =~= plays);
    }
    lemma_listing_increasing(l1, plays);
    lemma_listing_increasing(l2, plays);
    lemma_listing_keys_shared(l1, l2, plays);
    lemma_listing_keys_shared(l2, l1, plays);
    let k1 = move_keys(l1);
    let k2 = move_keys(l2);
    lemma_increasing_unique(k1, k2);
    assert(k1.len() == l1.len() && k2.len() == l2.len());
    assert forall|i: int| 0 <= i < l1.len() implies l1[i].key.0@ == l2[i].key.0@ by {
        assert(k1[i] == k2[i]);
    }
}

proof fn lemma_cell_le_row_sum(row: [u32; 25], k: int, n: nat)
    requires
        0 <= k < n <= 25,
    ensures
        row[k] <= crate::types::row_sum(row, n),
    decreases n,
{
    if k < n - 1 {
        lemma_cell_le_row_sum(row, k, (n - 1) as nat);
    }
}

proof fn lemma_pips_le_24_per_checker(row: [u32; 25], n: nat)
    requires
        n <= 25,
    ensures
        crate::types::row_pips(row, n) <= 24 * crate::types::row_sum(row, n),
    decreases n,
{
    if n > 0 {
        lemma_pips_le_24_per_checker(row, (n - 1) as nat);
        let c = row[n - 1] as nat;
        let p = (n - 1) as nat;
        assert(c * p <= 24 * c) by (nonlinear_arith)
            requires
                p <= 24,
        ;
    }
}

proof fn lemma_highest_from_range(row: [u32; 25], p: int)
    ensures
        0 <= highest_from(row, p),
        p >= 0 ==> highest_from(row, p) <= p,
    decreases p,
{
    if p > 0 && row[p] == 0 {
        lemma_highest_from_range(row, p - 1);
    }
}

/// Bearing off ranks first: of two moves on a board that leave the
/// opponent's side the same, the one whose result has more of the player's
/// checkers borne off scores higher, and so comes earlier in
/// `sort_moves_with_board`, whatever else the moves do (the player having
/// at most 15 checkers).
pub proof fn lemma_bear_off_scores_first(b: Board, a: Move, c: Move)
    requires
        apply_steps(b, a.from_to@).0[0] == apply_steps(b, c.from_to@).0[0],
        crate::types::side_checkers(apply_steps(b, a.from_to@).0, 1) <= 15,
        apply_steps(b, a.from_to@).0[1][0] > apply_steps(b, c.from_to@).0[1][0],
    ensures
        score_spec(b, a) > score_spec(b, c),
{
    let ra = apply_steps(b, a.from_to@).0;
    let rc = apply_steps(b, c.from_to@).0;
    lemma_cell_le_row_sum(ra[1], 24, 25);
    lemma_pips_le_24_per_checker(ra[1], 25);
    lemma_highest_from_range(ra[1], 24);
    lemma_highest_from_range(rc[1], 24);
    assert(crate::types::side_pips(ra, 0) == crate::types::side_pips(rc, 0));
    assert(crate::types::side_checkers(ra, 0) == crate::types::side_checkers(rc, 0));
}

} // verus!
