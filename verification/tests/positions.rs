use gnubg::match_id::{
    match_id_from_state, match_state_from_id, GameState, MatchState, Variation, MATCH_ID_LEN,
};
use gnubg::position_id::{decode_position_id, old_key_from_position_id, position_id_from_old_key, GnuBgError};
use gnubg::transposition::zobrist_hash;
use gnubg::types::PositionKey;

fn opening_board() -> [[u32; 25]; 2] {
    let mut b = [[0u32; 25]; 2];
    b[1][24] = 2;
    b[1][13] = 5;
    b[1][8] = 3;
    b[1][6] = 5;
    b[0][1] = 2;
    b[0][12] = 5;
    b[0][7] = 3;
    b[0][6] = 5;
    b
}

#[test]
fn decodes_base64_position_id() {
    let key = decode_position_id("4HPwATDgc/ABMA").expect("start position id decodes");
    assert_eq!(key.0.len(), 10);
}

#[test]
fn decodes_hex_position_key() {
    let key = decode_position_id("00112233445566778899").expect("hex position key decodes");
    assert_eq!(key.0, [0x00, 0x11, 0x22, 0x33, 0x44, 0x55, 0x66, 0x77, 0x88, 0x99]);
}

#[test]
fn rejects_invalid_position_id() {
    assert_eq!(decode_position_id("short"), Err(GnuBgError::InvalidPositionId));
}

#[test]
fn zobrist_hash_is_deterministic() {
    let key = PositionKey([1, 2, 3, 4, 5, 6, 7, 8, 9, 10]);
    assert_eq!(zobrist_hash(&key), zobrist_hash(&key));
    assert_ne!(zobrist_hash(&key), zobrist_hash(&PositionKey([0; 10])));
}

#[test]
fn test_empty_position_id_is_rejected() {
    assert!(old_key_from_position_id("").is_none());
    assert!(old_key_from_position_id("short").is_none());
}

#[test]
fn position_id_roundtrips_through_key() {
    let key = old_key_from_position_id("4HPwATDgc/ABMA").expect("valid id");
    assert_eq!(position_id_from_old_key(&key), "4HPwATDgc/ABMA");
}

#[test]
fn test_variation_enum() {
    assert_ne!(Variation::Standard as i32, Variation::Nackgammon as i32);
    assert_ne!(Variation::Hypergammon1 as i32, Variation::Hypergammon2 as i32);
}

#[test]
fn test_game_state_enum() {
    assert_eq!(GameState::NoGame as i32, 0);
    assert_eq!(GameState::Playing as i32, 1);
}

#[test]
fn test_match_id_roundtrip() {
    let board = opening_board();
    let state = MatchState {
        board,
        dice: (3, 1),
        f_turn: true,
        f_resigned: 0,
        f_resignation_declined: false,
        f_doubled: false,
        c_games: 0,
        f_move: true,
        f_cube_owner: -1,
        f_crawford: false,
        f_post_crawford: false,
        n_match_to: 0,
        an_score: [0, 0],
        n_cube: 1,
        c_beavers: 0,
        bgv: Variation::Standard,
        f_cube_use: true,
        f_jacoby: true,
        gs: GameState::Playing,
    };
    let mid = match_id_from_state(&state);
    assert_eq!(mid.len(), MATCH_ID_LEN);
    let decoded = match_state_from_id(&mid, &board).expect("should decode");
    assert_eq!(decoded.dice, state.dice);
    assert_eq!(decoded.f_move, state.f_move);
    assert_eq!(decoded.f_crawford, state.f_crawford);
    assert_eq!(decoded.n_match_to, state.n_match_to);
    assert_eq!(decoded.an_score, state.an_score);
    assert_eq!(decoded.n_cube, state.n_cube);
    assert_eq!(decoded.f_jacoby, state.f_jacoby);
    assert_eq!(decoded.gs, state.gs);
}
