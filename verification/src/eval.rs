//! The evaluator's own types and checks: cube owners, errors, the board
//! check before evaluation and the integer parts of the race inputs.
use vstd::prelude::*;
use vstd::string::StringExecFns;
use crate::text::{ascii_chars, decimal, decimal_text};
use crate::types::{row_sum, Board};

verus! {

/// Who owns the cube.
#[derive(Clone, Copy, Debug, PartialEq, Eq, Structural)]
pub enum CubeOwner {
    Player,
    Opponent,
    Center,
}

/// An error of the neural network.
#[derive(Clone, Copy, Debug, PartialEq, Eq, Structural)]
pub enum NeuralNetError {
    InvalidInputLength { expected: usize, got: usize },
}

/// `text` followed by the decimal text of `n`.
pub open spec fn with_number(text: Seq<char>, n: nat) -> Seq<char> {
    text + ascii_chars(decimal(n))
}

fn append_number(s: &mut String, n: usize)
    ensures
        final(s)@ == old(s)@ + ascii_chars(decimal(n as nat)),
{
    let t = decimal_text(n as u64);
    s.append(t.as_str());
}

impl NeuralNetError {
    /// The message describing the error.
    pub fn message(&self) -> (s: String)
        ensures
            match *self {
                NeuralNetError::InvalidInputLength { expected, got } => s@ == with_number(
                    with_number("invalid neural net input length: expected "@, expected as nat)
                        + ", got "@,
                    got as nat,
                ),
            },
    {
        match self {
            NeuralNetError::InvalidInputLength { expected, got } => {
                let mut s = String::from_str("invalid neural net input length: expected ");
                append_number(&mut s, *expected);
                s.append(", got ");
                append_number(&mut s, *got);
                s
            },
        }
    }
}

/// An error of the evaluator.
#[derive(Clone, Debug, PartialEq, Eq)]
pub enum EvalError {
    WeightsParseError(String),
    InvalidBoard,
    InvalidInputLength { expected: usize, got: usize },
}

impl EvalError {
    /// The message describing the error.
    pub fn message(&self) -> (s: String)
        ensures
            match self {
                EvalError::WeightsParseError(e) => s@ == "weights parse error: "@ + e@,
                EvalError::InvalidBoard => s@ == "invalid board"@,
                EvalError::InvalidInputLength { expected, got } => s@ == with_number(
                    with_number("invalid input length: expected "@, *expected as nat) + ", got "@,
                    *got as nat,
                ),
            },
    {
        match self {
            EvalError::WeightsParseError(e) => {
                let mut s = String::from_str("weights parse error: ");
                s.append(e.as_str());
                s
            },
            EvalError::InvalidBoard => String::from_str("invalid board"),
            EvalError::InvalidInputLength { expected, got } => {
                let mut s = String::from_str("invalid input length: expected ");
                append_number(&mut s, *expected);
                s.append(", got ");
                append_number(&mut s, *got);
                s
            },
        }
    }

    /// The evaluator's error for a network error.
    pub fn from_neural_net(e: NeuralNetError) -> (r: Self)
        ensures
            match e {
                NeuralNetError::InvalidInputLength { expected, got } => r
                    == (EvalError::InvalidInputLength { expected, got }),
            },
    {
        match e {
            NeuralNetError::InvalidInputLength { expected, got } => EvalError::InvalidInputLength {
                expected,
                got,
            },
        }
    }
}

/// A board the evaluator accepts: no side has more than 15 checkers.
pub open spec fn board_ok(b: Board) -> bool {
    row_sum(b[0], 25) <= 15 && row_sum(b[1], 25) <= 15
}

fn side_over(row: &[u32; 25]) -> (over: bool)
    ensures
        over == (row_sum(*row, 25) > 15),
{
    let mut sum: u32 = 0;
    let mut i: usize = 0;
    while i < 25
        invariant
            i <= 25,
            sum == row_sum(*row, i as nat),
            sum <= 15,
        decreases 25 - i,
    {
        if row[i] > 15 - sum {
            proof {
                crate::types::lemma_row_sum_mono(*row, (i + 1) as nat, 25);
            }
            return true;
        }
        sum = sum + row[i];
        i = i + 1;
    }
    false
}

/// Refuse a board with more than 15 checkers on a side.
pub fn validate_board(board: &Board) -> (r: Result<(), EvalError>)
    ensures
        r is Ok <==> board_ok(*board),
        r is Err ==> r == Err::<(), EvalError>(EvalError::InvalidBoard),
{
    if side_over(&board[0]) || side_over(&board[1]) {
        return Err(EvalError::InvalidBoard);
    }
    Ok(())
}

/// The checkers on points `6 * k` to `6 * k + 5`, weighted by `k`, for the
/// quarters `k` from 1 to `q - 1`.
pub open spec fn crossings(row: [u32; 25], q: int) -> int
    decreases q,
{
    if q <= 1 {
        0
    } else {
        crossings(row, q - 1) + (q - 1) * (row_sum(row, (6 * (q - 1) + 6) as nat) - row_sum(
            row,
            (6 * (q - 1)) as nat,
        ))
    }
}

/// The integer race features of a side: the checkers borne off, counting
/// only points 0 to 22 as still on the board, and the outfield crossings
/// still to make.
pub open spec fn race_counts_spec(row: [u32; 25]) -> (int, int) {
    (15 - row_sum(row, 23), crossings(row, 4))
}

/// The checkers borne off (counting points 0 to 22 as on the board) and
/// the crossings still to make, of one side.  The counts are summed in
/// 32-bit arithmetic; a side the evaluator accepts has at most 15 checkers
/// (`validate_board`), and the bound of 100000, far above that, keeps every
/// intermediate sum in range.
pub fn race_counts(row: &[u32; 25]) -> (r: (i32, u32))
    requires
        row_sum(*row, 25) <= 100000,
    ensures
        r.0 as int == race_counts_spec(*row).0,
        r.1 as int == race_counts_spec(*row).1,
{
    let mut on: u32 = 0;
    let mut i: usize = 0;
    proof {
        crate::types::lemma_row_sum_mono(*row, 23, 25);
    }
    while i < 23
        invariant
            i <= 23,
            on == row_sum(*row, i as nat),
            row_sum(*row, 23) <= 100000,
        decreases 23 - i,
    {
        proof {
            crate::types::lemma_row_sum_mono(*row, (i + 1) as nat, 23);
        }
        on = on + row[i];
        i = i + 1;
    }
    let mut cross: u32 = 0;
    let mut k: usize = 1;
    while k < 4
        invariant
            1 <= k <= 4,
            cross == crossings(*row, k as int),
            cross <= k * 300000,
            row_sum(*row, 25) <= 100000,
        decreases 4 - k,
    {
        let mut part: u32 = 0;
        let mut j: usize = 6 * k;
        proof {
            crate::types::lemma_row_sum_mono(*row, (6 * k) as nat, (6 * k + 6) as nat);
            crate::types::lemma_row_sum_mono(*row, (6 * k + 6) as nat, 25);
        }
        while j < 6 * k + 6
            invariant
                1 <= k < 4,
                6 * k <= j <= 6 * k + 6,
                part == row_sum(*row, j as nat) - row_sum(*row, (6 * k) as nat),
                row_sum(*row, 25) <= 100000,
                row_sum(*row, (6 * k + 6) as nat) <= 100000,
            decreases 6 * k + 6 - j,
        {
            proof {
                crate::types::lemma_row_sum_mono(*row, (j + 1) as nat, (6 * k + 6) as nat);
                crate::types::lemma_row_sum_mono(*row, (6 * k) as nat, j as nat);
            }
            part = part + row[j];
            j = j + 1;
        }
        proof {
            assert(k * part <= 300000) by (nonlinear_arith)
                requires
                    k <= 3,
                    part <= 100000,
            ;
        }
        cross = cross + k as u32 * part;
        k = k + 1;
    }
    (15 - on as i32, cross)
}

} // verus!
