use gnubg::classify::{back_checker, classify_position, Classification};
use gnubg::position_id::{board_from_position_id, board_from_xg, position_id_from_board, POSITION_ID_LEN};
use gnubg::types::{
    board_from_old_key, check_position, old_position_key, pip_count, EvalPositionKey, Move,
    MoveList, PositionKey,
};

fn opening_board() -> [[u32; 25]; 2] {
    let mut b = [[0u32; 25]; 2];
    b[1][24] = 2;
    b[1][13] = 5;
    b[1][8] = 3;
    b[1][6] = 5;
    b[0][1] = 2;
    b[0][12] = 5;
    b[0][7] = 3;
    b[0][6] = 5;
    b
}

#[test]
fn test_board_roundtrip_via_position_id() {
    let board = opening_board();
    let id = position_id_from_board(&board);
    assert_eq!(id.len(), POSITION_ID_LEN);
    let decoded = board_from_position_id(&id).expect("should decode");
    assert_eq!(decoded, board);
}

#[test]
fn standard_opening_id_decodes_to_fifteen_checkers_a_side() {
    let board = board_from_position_id("4HPwATDgc/ABMA").expect("valid id");
    let total0: u32 = board[0].iter().sum();
    let total1: u32 = board[1].iter().sum();
    assert_eq!((total0, total1), (15, 15));
    assert_eq!(position_id_from_board(&board), "4HPwATDgc/ABMA");
}

#[test]
fn test_board_roundtrip_via_eval_key() {
    let board = opening_board();
    let ek = EvalPositionKey::from_board(&board);
    let decoded = ek.to_board();
    assert_eq!(decoded, board);
}

#[test]
fn test_old_position_key_roundtrip() {
    let board = opening_board();
    let key = old_position_key(&board);
    let decoded = board_from_old_key(&key);
    assert_eq!(decoded, board);
}

#[test]
fn test_check_position_valid() {
    let board = opening_board();
    assert!(check_position(&board));
}

#[test]
fn check_position_rejects_sixteen_checkers() {
    let mut board = opening_board();
    board[1][13] = 6;
    assert!(!check_position(&board));
}

#[test]
fn test_pip_count_opening() {
    let board = opening_board();
    let pips = pip_count(&board);
    let total0: u32 = board[0].iter().sum();
    let total1: u32 = board[1].iter().sum();
    assert_eq!(total0, 15, "player 0 should have 15 checkers");
    assert_eq!(total1, 15, "player 1 should have 15 checkers");
    assert_eq!(pips[0], 113, "pip count player 0 (opponent from player perspective)");
    assert_eq!(pips[1], 167, "pip count player 1 (current player)");
}

#[test]
fn test_board_from_xg_roundtrip() {
    let xg = "--a-----------------------";
    let board = board_from_xg(xg).expect("valid XG");
    assert!(check_position(&board));
    assert_eq!(board[1][1], 1);
}

#[test]
fn xg_rejects_short_or_bad_text() {
    assert!(board_from_xg("--a--").is_none());
    assert!(board_from_xg("--z-----------------------").is_none());
}

#[test]
fn test_position_id_encoding_format() {
    let board = opening_board();
    let id = position_id_from_board(&board);
    assert_eq!(id.len(), 14);
    for &ch in id.as_bytes() {
        assert!(ch.is_ascii_alphanumeric() || ch == b'+' || ch == b'/', "Invalid base64 char: {}", ch as char);
    }
    let decoded = board_from_position_id(&id).expect("should decode");
    assert_eq!(decoded, board);
}

#[test]
fn test_empty_board_position_id_is_rejected() {
    assert!(board_from_position_id("").is_none());
}

#[test]
fn test_move_list() {
    let mut ml = MoveList::with_capacity(10);
    assert!(ml.is_empty());
    let mv = Move {
        from_to: [Some((6, 5)), Some((3, 1)), None, None],
        c_moves: 2,
        c_pips: 5,
        key: PositionKey([0; 10]),
    };
    ml.push(mv);
    assert_eq!(ml.len(), 1);
    assert!(!ml.is_empty());
    let ml2 = ml.clone();
    assert_eq!(ml.len(), ml2.len());
}

#[test]
fn test_move_display() {
    let mv = Move {
        from_to: [Some((6, 5)), Some((3, 1)), None, None],
        c_moves: 2,
        c_pips: 5,
        key: PositionKey([0; 10]),
    };
    let display = mv.to_text();
    assert!(display.contains("6->5"));
    assert!(display.contains("3->1"));
    assert_eq!(display, "Move(6->5, 3->1 pips=5)");
}

#[test]
fn move_display_bears_off() {
    let mv = Move {
        from_to: [Some((2, 0)), None, None, None],
        c_moves: 1,
        c_pips: 2,
        key: PositionKey([0; 10]),
    };
    assert_eq!(mv.to_text(), "Move(2->off pips=2)");
}

#[test]
fn opening_position_is_contact() {
    assert_eq!(classify_position(&opening_board()), Classification::Contact);
}

#[test]
fn race_position_is_race() {
    let mut b = [[0u32; 25]; 2];
    b[0][1] = 15;
    b[1][5] = 15;
    assert_eq!(classify_position(&b), Classification::Race);
}

#[test]
fn low_checker_contact_is_crashed() {
    let mut b = opening_board();
    b[0] = [0; 25];
    b[0][24] = 6;
    assert_eq!(classify_position(&b), Classification::Crashed);
}

#[test]
fn back_checker_finds_the_farthest_point() {
    let b = opening_board();
    assert_eq!(back_checker(&b[1]), 24);
    assert_eq!(back_checker(&b[0]), 12);
    assert_eq!(back_checker(&[0; 25]), -1);
}
