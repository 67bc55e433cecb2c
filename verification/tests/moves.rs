use gnubg::moves::{apply_move, apply_sub_move, generate_moves, legal_move, sort_moves};
use gnubg::types::{Move, PositionKey};

/// Standard opening position.
fn opening_board() -> [[u32; 25]; 2] {
    let mut b = [[0u32; 25]; 2];
    b[1][24] = 2;
    b[1][13] = 5;
    b[1][8] = 3;
    b[1][6] = 5;
    b[0][1] = 2;
    b[0][12] = 5;
    b[0][7] = 3;
    b[0][6] = 5;
    b
}

#[test]
fn test_legal_move_normal() {
    let board = opening_board();
    assert!(legal_move(&board, 6, 3), "moving from 6 to 3 should be legal");
    assert!(legal_move(&board, 6, 1), "moving from 6 to 5 should be legal");
    if board[1][24] > 0 {
        assert!(legal_move(&board, 24, 6), "moving from 24 to 18 should be legal");
    }
}

#[test]
fn test_legal_move_to_blocked_point() {
    let board = opening_board();
    let _board = opening_board();
    assert_eq!(board, _board);
}

#[test]
fn test_generate_moves_opening_31() {
    let board = opening_board();
    let moves = generate_moves(&board, (3, 1));
    assert!(!moves.is_empty(), "should generate moves for opening 31");
    assert!(moves.len() >= 1, "opening 31 should have legal moves");
}

#[test]
fn test_generate_moves_doubles_66() {
    let board = opening_board();
    let moves = generate_moves(&board, (6, 6));
    assert!(!moves.is_empty(), "should generate moves for opening 66");
    assert!(moves.len() >= 1, "opening 66 should have legal moves");
}

#[test]
fn test_generate_moves_doubles_22() {
    let board = opening_board();
    let moves = generate_moves(&board, (2, 2));
    assert!(!moves.is_empty(), "should generate moves for opening 22");
}

#[test]
fn test_generate_moves_non_doubles() {
    let board = opening_board();
    let moves = generate_moves(&board, (5, 2));
    assert!(!moves.is_empty(), "should generate moves for opening 52");
}

#[test]
fn test_apply_sub_move_hit() {
    let mut board = [[0u32; 25]; 2];
    board[1][13] = 1;
    board[0][18] = 1;
    assert!(apply_sub_move(&mut board, 13, 7).is_ok());
    assert_eq!(board[1][6], 1);
    assert_eq!(board[0][18], 0);
    assert_eq!(board[0][24], 1);
    assert_eq!(board[1][13], 0);
}

#[test]
fn test_apply_sub_move_blocked() {
    let mut board = [[0u32; 25]; 2];
    board[1][13] = 1;
    board[0][18] = 2;
    assert!(apply_sub_move(&mut board, 13, 7).is_err());
    assert_eq!(board[1][13], 1);
}

#[test]
fn test_apply_sub_move_bear_off() {
    let mut board = [[0u32; 25]; 2];
    board[1][1] = 1;
    assert!(apply_sub_move(&mut board, 1, 1).is_ok());
    assert_eq!(board[1][1], 0);
    assert_eq!(board[1][0], 1);
}

#[test]
fn test_apply_move_executes_all_sub_moves() {
    let mut board = [[0u32; 25]; 2];
    board[1][13] = 2;
    let mv = Move {
        from_to: [Some((13, 8)), Some((13, 10)), None, None],
        c_moves: 2,
        c_pips: 8,
        key: PositionKey([0; 10]),
    };
    assert!(apply_move(&mut board, &mv).is_ok());
    assert_eq!(board[1][13], 0);
    assert_eq!(board[1][8], 1);
    assert_eq!(board[1][10], 1);
}

#[test]
fn test_generate_moves_empty_board_has_no_moves() {
    let board = [[0u32; 25]; 2];
    let moves = generate_moves(&board, (3, 1));
    assert!(moves.is_empty(), "empty board should have no legal moves");
}

#[test]
fn test_sort_moves_orders_by_pips() {
    let board = opening_board();
    let mut moves = generate_moves(&board, (3, 1));
    assert!(!moves.is_empty());
    sort_moves(&mut moves);
    for i in 1..moves.len() {
        assert!(
            moves.moves[i - 1].c_pips >= moves.moves[i].c_pips,
            "moves should be sorted by pip count descending"
        );
    }
}

#[test]
fn test_generate_moves_board_integrity() {
    let board = opening_board();
    let moves = generate_moves(&board, (4, 2));
    assert!(!moves.is_empty());
    for mv in moves.moves.iter() {
        let mut test_board = board;
        if apply_move(&mut test_board, mv).is_ok() {
            let our_total: u32 = test_board[1].iter().sum();
            let opp_total: u32 = test_board[0].iter().sum();
            assert_eq!(our_total, 15, "we should always have 15 checkers total");
            assert_eq!(opp_total, 15, "opponent should always have 15 checkers total");
        }
    }
}

#[test]
fn test_bar_entry_generates_moves() {
    let mut board = [[0u32; 25]; 2];
    board[1][24] = 1;
    board[1][6] = 5;
    board[1][5] = 5;
    board[1][4] = 5;
    let moves = generate_moves(&board, (2, 1));
    assert!(moves.len() <= 1000);
}

#[test]
fn test_known_position_hit_detection() {
    let mut board = [[0u32; 25]; 2];
    board[1][13] = 2;
    board[1][8] = 3;
    board[1][6] = 5;
    board[1][1] = 5;
    board[0][19] = 1;
    let moves = generate_moves(&board, (3, 2));
    assert!(!moves.is_empty(), "should generate moves for this position");
}

#[test]
fn test_generate_moves_with_swap_order() {
    let board = opening_board();
    let moves_31 = generate_moves(&board, (3, 1));
    let moves_13 = generate_moves(&board, (1, 3));
    assert_eq!(moves_31.len(), moves_13.len(), "31 and 13 should produce same number of moves");
}

#[test]
fn test_no_moves_when_blocked() {
    let mut board = [[0u32; 25]; 2];
    board[1][24] = 15;
    for pt in 0..6 {
        board[0][pt] = 2;
    }
    let moves = generate_moves(&board, (3, 2));
    assert!(moves.is_empty(), "should be no legal moves when fully blocked");
}

fn tagged_move(pips: u8, tag: u8) -> Move {
    let mut mv = Move::empty();
    mv.c_pips = pips;
    mv.c_moves = 1;
    mv.from_to[0] = Some((tag, tag));
    mv
}

#[test]
fn sorting_keeps_the_order_of_ties() {
    let mut moves = gnubg::types::MoveList::new();
    moves.push(tagged_move(3, 1));
    moves.push(tagged_move(5, 2));
    moves.push(tagged_move(3, 3));
    moves.push(tagged_move(5, 4));
    sort_moves(&mut moves);
    let tags: Vec<u8> = moves.moves.iter().map(|m| m.from_to[0].unwrap().0).collect();
    assert_eq!(tags, vec![2, 4, 1, 3]);
}

#[test]
fn sorting_by_board_keeps_the_order_of_equal_scores() {
    let board = opening_board();
    let mut moves = gnubg::types::MoveList::new();
    for tag in 1..=3u8 {
        let mut mv = Move::empty();
        mv.from_to[0] = Some((tag, tag));
        moves.push(mv);
    }
    gnubg::moves::sort_moves_with_board(&mut moves, &board);
    let tags: Vec<u8> = moves.moves.iter().map(|m| m.from_to[0].unwrap().0).collect();
    assert_eq!(tags, vec![1, 2, 3]);
}

#[test]
fn listed_moves_replay_to_their_keys() {
    let board = opening_board();
    for d0 in 1..=6u8 {
        for d1 in 1..=6u8 {
            let moves = generate_moves(&board, (d0, d1));
            assert!(!moves.is_empty());
            for mv in moves.moves.iter() {
                let mut after = board;
                assert!(apply_move(&mut after, mv).is_ok());
                assert_eq!(gnubg::types::old_position_key(&after), mv.key);
            }
        }
    }
}

#[test]
fn dice_order_gives_the_same_positions() {
    let board = opening_board();
    for d0 in 1..=6u8 {
        for d1 in 1..=6u8 {
            let a = generate_moves(&board, (d0, d1));
            let b = generate_moves(&board, (d1, d0));
            let ka: Vec<PositionKey> = a.moves.iter().map(|m| m.key).collect();
            let kb: Vec<PositionKey> = b.moves.iter().map(|m| m.key).collect();
            assert_eq!(ka, kb);
        }
    }
}

#[test]
fn listed_moves_keep_fifteen_checkers_a_side() {
    let mut bearoff = [[0u32; 25]; 2];
    bearoff[1][1] = 3;
    bearoff[1][2] = 4;
    bearoff[1][4] = 4;
    bearoff[1][5] = 4;
    bearoff[0][21] = 1;
    bearoff[0][10] = 14;
    for board in [opening_board(), bearoff] {
        for d0 in 1..=6u8 {
            for d1 in 1..=6u8 {
                for mv in generate_moves(&board, (d0, d1)).moves.iter() {
                    let mut after = board;
                    assert!(apply_move(&mut after, mv).is_ok());
                    assert_eq!(after[0].iter().sum::<u32>(), 15);
                    assert_eq!(after[1].iter().sum::<u32>(), 15);
                }
            }
        }
    }
}

#[test]
fn bearing_off_needs_every_checker_on_five_or_below() {
    let mut board = [[0u32; 25]; 2];
    board[1][6] = 1;
    board[1][3] = 14;
    assert!(!legal_move(&board, 3, 3));
    assert!(!legal_move(&board, 6, 6));
    board[1][6] = 0;
    board[1][5] = 1;
    assert!(legal_move(&board, 5, 5));
    assert!(legal_move(&board, 5, 6));
}

#[test]
fn landing_on_point_zero_bears_off() {
    let mut board = [[0u32; 25]; 2];
    board[1][2] = 1;
    board[1][0] = 3;
    board[0][24] = 2;
    assert!(apply_sub_move(&mut board, 2, 2).is_ok());
    assert_eq!(board[1][0], 4);
    assert_eq!(board[1][2], 0);
    assert_eq!(board[0][24], 2);
}

#[test]
fn the_first_play_reaching_a_position_is_recorded() {
    let mut board = [[0u32; 25]; 2];
    board[1][6] = 1;
    board[1][0] = 14;
    board[0][0] = 15;
    let mut target = board;
    target[1][6] = 0;
    target[1][3] = 1;
    let key = gnubg::types::old_position_key(&target);
    let moves = generate_moves(&board, (2, 1));
    let found: Vec<&Move> = moves.moves.iter().filter(|m| m.key == key).collect();
    assert_eq!(found.len(), 1);
    assert_eq!(found[0].from_to, [Some((6, 4)), Some((4, 3)), None, None]);
}
