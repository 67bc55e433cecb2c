//! Position classification: which evaluator a position needs.
use vstd::prelude::*;
use crate::types::{row_sum, Board};

verus! {

/// The class of a position.
#[derive(Clone, Copy, Debug, PartialEq, Eq, Structural)]
pub enum Classification {
    Race,
    Contact,
    Crashed,
}

/// Highest index `<= p` of `row` holding a checker (index 0 included), or -1.
pub open spec fn highest_index(row: [u32; 25], p: int) -> int
    decreases p + 1,
{
    if p < 0 {
        -1
    } else if row[p] > 0 {
        p
    } else {
        highest_index(row, p - 1)
    }
}

/// The farthest-back occupied index of a side (0..=24), or -1 when empty.
pub open spec fn back_index(row: [u32; 25]) -> int {
    highest_index(row, 24)
}

/// Total checkers of a side.
pub open spec fn row_total(row: [u32; 25]) -> int {
    row_sum(row, 25) as int
}

/// One side leaves the other too few checkers to keep contact going: six
/// or fewer checkers, also counting those borne off or (with at least two
/// on the tray) the checkers on the tray and point 1.
pub open spec fn side_crashed(row: [u32; 25]) -> bool {
    let total = row_total(row);
    if total <= 6 {
        true
    } else if row[0] > 1 {
        total <= 6 + row[0] || (1 + (if total >= row[0] + row[1] {
            total - row[0] - row[1]
        } else {
            0
        }) <= 6 && row[1] > 1)
    } else {
        total <= 6 + (if row[1] >= 1 {
            row[1] - 1
        } else {
            0
        })
    }
}

/// The classification rule: a race once the farthest-back checkers have
/// passed each other, crashed when a side is crashed, contact otherwise.
pub open spec fn classify_spec(b: Board) -> Classification {
    if back_index(b[1]) + back_index(b[0]) > 22 {
        if side_crashed(b[0]) || side_crashed(b[1]) {
            Classification::Crashed
        } else {
            Classification::Contact
        }
    } else {
        Classification::Race
    }
}

/// The farthest-back occupied index (0..=24), or -1 when the side is empty.
pub fn back_checker(points: &[u32; 25]) -> (n: i32)
    ensures
        n == back_index(*points),
        -1 <= n <= 24,
{
    let mut idx: usize = 25;
    while idx > 0
        invariant
            idx <= 25,
            highest_index(*points, 24) == highest_index(*points, idx - 1),
        decreases idx,
    {
        if points[idx - 1] > 0 {
            return (idx - 1) as i32;
        }
        idx = idx - 1;
    }
    -1
}

fn side_total(row: &[u32; 25]) -> (t: u32)
    requires
        row_sum(*row, 25) + 6 <= u32::MAX,
    ensures
        t == row_sum(*row, 25),
{
    let mut t: u32 = 0;
    let mut p: usize = 0;
    while p < 25
        invariant
            p <= 25,
            row_sum(*row, 25) + 6 <= u32::MAX,
            t == row_sum(*row, p as nat),
        decreases 25 - p,
    {
        proof {
            crate::types::lemma_row_sum_mono(*row, (p + 1) as nat, 25);
        }
        t = t + row[p];
        p = p + 1;
    }
    t
}

fn crashed_side(row: &[u32; 25]) -> (c: bool)
    requires
        row_sum(*row, 25) + 6 <= u32::MAX,
    ensures
        c == side_crashed(*row),
{
    let total = side_total(row);
    proof {
        reveal_with_fuel(row_sum, 3);
        crate::types::lemma_row_sum_mono(*row, 2, 25);
    }
    if total <= 6 {
        return true;
    }
    if row[0] > 1 {
        if total <= 6 + row[0] {
            return true;
        }
        if 1 + total.saturating_sub(row[0] + row[1]) <= 6 && row[1] > 1 {
            return true;
        }
    } else if total <= 6 + row[1].saturating_sub(1) {
        return true;
    }
    false
}

/// Classify a position as race, contact or crashed.
pub fn classify_position(board: &Board) -> (c: Classification)
    requires
        row_sum(board[0], 25) + 6 <= u32::MAX,
        row_sum(board[1], 25) + 6 <= u32::MAX,
    ensures
        c == classify_spec(*board),
{
    let n_opp_back = back_checker(&board[0]);
    let n_back = back_checker(&board[1]);
    if n_back + n_opp_back > 22 {
        if crashed_side(&board[0]) {
            return Classification::Crashed;
        }
        if crashed_side(&board[1]) {
            return Classification::Crashed;
        }
        Classification::Contact
    } else {
        Classification::Race
    }
}

/// Both sides are treated alike: exchanging the two sides of the board
/// does not change the class of the position.
pub proof fn lemma_classify_sides_alike(b: Board)
    ensures
        classify_spec([b[1], b[0]]) == classify_spec(b),
{
}

/// Once the farthest-back checkers of the two sides have not yet passed
/// each other, a side with six or fewer checkers in all makes the position
/// crashed, whichever side it is; before that the position is a race.
pub proof fn lemma_classify_few_checkers(b: Board, s: int)
    requires
        0 <= s < 2,
    ensures
        back_index(b[1]) + back_index(b[0]) <= 22 ==> classify_spec(b) == Classification::Race,
        back_index(b[1]) + back_index(b[0]) > 22 && row_sum(b[s], 25) <= 6 ==> classify_spec(b)
            == Classification::Crashed,
{
}

} // verus!
