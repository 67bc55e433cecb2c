use gnubg::eval::{race_counts, validate_board, EvalError, NeuralNetError};
use gnubg::features::{escape_mask, escapes, escapes1, half_counts};

fn opening_board() -> [[u32; 25]; 2] {
    let mut b = [[0u32; 25]; 2];
    b[1][24] = 2;
    b[1][13] = 5;
    b[1][8] = 3;
    b[1][6] = 5;
    b[0][1] = 2;
    b[0][12] = 5;
    b[0][7] = 3;
    b[0][6] = 5;
    b
}

#[test]
fn open_board_lets_every_roll_escape() {
    let empty = [0u32; 25];
    assert_eq!(escape_mask(&empty, 8), 0);
    assert_eq!(escapes(&empty, 8), 36);
    assert_eq!(escapes1(&empty, 8), 0);
}

#[test]
fn a_made_point_blocks_rolls() {
    let mut row = [0u32; 25];
    row[20] = 2;
    // From distance 8 the mask bit 4 looks at point 24 + 4 - 8 = 20.
    assert_eq!(escape_mask(&row, 8), 1 << 4);
    // Rolls totalling 5 (1-4, 2-3) are blocked, and so is 5 with any die.
    assert!(escapes(&row, 8) < 36);
    assert!(escapes1(&row, 8) <= escapes(&row, 8));
}

#[test]
fn half_inputs_are_finite() {
    let mut b = [[0u32; 25]; 2];
    b[1][24] = 2;
    b[1][13] = 5;
    b[1][8] = 3;
    b[1][6] = 5;
    b[0][1] = 2;
    b[0][12] = 5;
    b[0][7] = 3;
    b[0][6] = 5;
    let counts = half_counts(&b[1], &b[0]);
    assert!(counts.back_chequer > 0);
    assert_eq!(counts.back_chequer, 24);
}

#[test]
fn opening_features_of_the_side_to_move() {
    let b = opening_board();
    let c = half_counts(&b[1], &b[0]);
    assert_eq!(c.closed, 1);
    assert_eq!(c.back_anchor, 13);
    assert!(c.hit_rolls <= 36);
    assert!(c.multi_hit_rolls <= c.hit_rolls);
    assert_eq!(c.back_anchors, 0);
    assert_eq!(c.back_total, 2);
}

#[test]
fn race_counts_of_a_bear_in() {
    let mut row = [0u32; 25];
    row[1] = 5;
    row[7] = 4;
    row[13] = 3;
    row[19] = 2;
    let (off, cross) = race_counts(&row);
    assert_eq!(off, 1);
    assert_eq!(cross, 4 + 3 * 2 + 2 * 3);
}

#[test]
fn boards_with_too_many_checkers_are_refused() {
    let b = opening_board();
    assert!(validate_board(&b).is_ok());
    let mut bad = b;
    bad[0][3] = 1;
    assert_eq!(validate_board(&bad), Err(EvalError::InvalidBoard));
}

#[test]
fn evaluator_errors_have_messages() {
    assert_eq!(EvalError::InvalidBoard.message(), "invalid board");
    assert_eq!(
        EvalError::InvalidInputLength { expected: 250, got: 3 }.message(),
        "invalid input length: expected 250, got 3"
    );
    let e = NeuralNetError::InvalidInputLength { expected: 2, got: 1 };
    assert_eq!(e.message(), "invalid neural net input length: expected 2, got 1");
    assert_eq!(
        EvalError::from_neural_net(e),
        EvalError::InvalidInputLength { expected: 2, got: 1 }
    );
}
