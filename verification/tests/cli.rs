use gnubg::cli::parse_roll;
use gnubg::cli::render_board;
use gnubg::cli::{format_move, format_move_compact, format_pv, move_matches_input, normalize_move_text};
use gnubg::play::{PlaySession, TurnStart};
use gnubg::play::{read_player_input, PlayerInput};
use gnubg::search::Board;
use gnubg::search::Move;
use gnubg::search::SearchError;
use gnubg::types::PositionKey;
use gnubg::cli::{
    checker_cell, format_dice, parse_cube_value, parse_dice, parse_match_score, SplitMix64,
};

#[test]
fn parses_dice_formats() {
    assert_eq!(parse_dice("31").expect("31"), (3, 1));
    assert_eq!(parse_dice("3-1").expect("3-1"), (3, 1));
    assert!(parse_dice("70").is_err());
}

#[test]
fn parses_match_score() {
    assert_eq!(parse_match_score("5:3").expect("5:3"), (5, 3));
    assert_eq!(parse_match_score("1:25").expect("1:25"), (1, 25));
    assert!(parse_match_score("5-3").is_err());
    assert!(parse_match_score("0:3").is_err());
    assert!(parse_match_score("26:3").is_err());
}

#[test]
fn dice_errors_quote_the_input() {
    assert_eq!(
        parse_dice("123").unwrap_err(),
        "dice must contain exactly two dice in 1..=6, got '123'"
    );
    assert!(parse_dice("").is_err());
    assert_eq!(parse_dice(" 6 , 6 ").unwrap(), (6, 6));
}

#[test]
fn match_score_errors_name_the_problem() {
    assert_eq!(
        parse_match_score("5-3").unwrap_err(),
        "match must be PLAYER_AWAY:OPPONENT_AWAY, got '5-3'"
    );
    assert_eq!(
        parse_match_score("26:3").unwrap_err(),
        "match away scores must be in 1..=25, got '26:3'"
    );
    assert_eq!(parse_match_score("+7:07").unwrap(), (7, 7));
    assert!(parse_match_score("7:").is_err());
    assert!(parse_match_score("99999999999:3").is_err());
}

#[test]
fn cube_values_are_positive_powers_of_two() {
    assert_eq!(parse_cube_value("1").unwrap(), 1);
    assert_eq!(parse_cube_value("64").unwrap(), 64);
    assert!(parse_cube_value("0").is_err());
    assert!(parse_cube_value("-2").is_err());
    assert!(parse_cube_value("6").is_err());
    assert_eq!(
        parse_cube_value("x").unwrap_err(),
        "cube must be a positive power of two, got 'x'"
    );
}

#[test]
fn formats_dice_and_cells() {
    assert_eq!(format_dice((3, 1)), "31");
    assert_eq!(format_dice((6, 6)), "66");
    assert_eq!(checker_cell(3, 'X', 2), "X  ");
    assert_eq!(checker_cell(2, 'O', 2), ".  ");
}

#[test]
fn splitmix_matches_reference_sequence() {
    let mut rng = SplitMix64::new(0);
    assert_eq!(rng.next(), 0xe220a8397b1dcdaf);
    assert_eq!(rng.next(), 0x6e789e6aa1b965f4);
    let mut rng = SplitMix64::new(7);
    let (a, b) = rng.dice();
    assert!((1..=6).contains(&a) && (1..=6).contains(&b));
    let key = SplitMix64::new(1).position_key();
    let mut again = SplitMix64::new(1);
    let first = again.next().to_le_bytes();
    let second = again.next().to_le_bytes();
    assert_eq!(&key.0[..8], &first[..]);
    assert_eq!(&key.0[8..], &second[..2]);
}

#[test]
fn play_sessions_start_with_a_known_color() {
    assert!(PlaySession::start("blue").is_err());
    let mut session = PlaySession::start("player").expect("valid color");
    assert!(session.player_turn);
    let mut rng = SplitMix64::new(gnubg::play::PLAY_SEED);
    let expected = rng.dice();
    match session.begin_turn() {
        TurnStart::Player { dice, legal } => {
            assert_eq!(dice, expected);
            let first = legal.first().copied();
            session.end_turn(first);
            assert!(!session.player_turn);
        }
        _ => panic!("the player moves first"),
    }
    let engine_first = PlaySession::start("opponent").expect("valid color");
    assert!(!engine_first.player_turn);
}

#[test]
fn player_input_quits_or_names_a_move() {
    let mv = Move {
        id: 3,
        dice: (3, 1),
        from: 8,
        to: 5,
        steps: [Some((8, 5)), Some((6, 5)), None, None],
        resulting_position: PositionKey([0; 10]),
    };
    let legal = vec![mv];
    assert!(matches!(read_player_input(&legal, "  QUIT \n"), PlayerInput::Quit));
    assert!(matches!(read_player_input(&legal, "Exit"), PlayerInput::Quit));
    assert!(matches!(read_player_input(&legal, "8->5   6/5\n"), PlayerInput::Chosen(m) if m.id == 3));
    assert!(matches!(read_player_input(&legal, "#3 31 8/5 6/5"), PlayerInput::Chosen(_)));
    assert!(matches!(read_player_input(&legal, "13/10"), PlayerInput::Invalid));
}

#[test]
fn moves_are_written_and_matched() {
    let mv = Move {
        id: 3,
        dice: (3, 1),
        from: 8,
        to: 5,
        steps: [Some((8, 5)), Some((6, 5)), None, None],
        resulting_position: PositionKey([0; 10]),
    };
    assert_eq!(format_move_compact(&mv), "8/5 6/5");
    assert_eq!(format_move(&mv), "#3 31 8/5 6/5");
    assert_eq!(mv.to_text(), "#3 31 8/5 6/5");
    let off = Move { steps: [Some((2, 0)), None, None, None], ..mv };
    assert_eq!(format_move_compact(&off), "2/off");
    let none = Move { steps: [None; 4], ..mv };
    assert_eq!(format_move_compact(&none), "8/5");
    assert_eq!(format_pv(&[mv, off]), "8/5 6/5 2/off");
    assert_eq!(normalize_move_text("  8->5\t 6/5  "), "8/5 6/5");
    assert_eq!(normalize_move_text("Bar->Off"), "bar/off");
    assert!(move_matches_input(&mv, "8->5 6->5"));
    assert!(!move_matches_input(&mv, "8/5"));
}

#[test]
fn the_board_is_drawn_as_text() {
    let board = Board::from_key(gnubg::types::PositionKey([0; 10]));
    let text = render_board(&board);
    assert!(text.starts_with("13 14 15 16 17 18       19 20 21 22 23 24\n"));
    assert!(text.ends_with("12 11 10  9  8  7        6  5  4  3  2  1\n"));
    assert_eq!(text.lines().count(), 15);
}

#[test]
fn browser_rolls_are_two_dice() {
    assert_eq!(parse_roll(" 64 "), Ok((6, 4)));
    assert_eq!(parse_roll("6-4"), Err(SearchError::EmptyMoveList));
    assert_eq!(parse_roll("70"), Err(SearchError::EmptyMoveList));
}

#[test]
fn formats_full_move_steps() {
    let board = Board::from_position_id("4HPwATDgc/ABMA").expect("valid board");
    let moves = gnubg::search::generate_candidate_moves(&board, (3, 1));
    assert!(moves.iter().all(|mv| !format_move_compact(mv).is_empty()));
}

#[test]
fn written_rolls_read_back() {
    for d0 in 1..=6u8 {
        for d1 in 1..=6u8 {
            assert_eq!(gnubg::cli::parse_dice(&gnubg::cli::format_dice((d0, d1))), Ok((d0, d1)));
        }
    }
}
