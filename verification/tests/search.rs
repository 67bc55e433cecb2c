use gnubg::cache::{EvalCache, CacheStats};
use gnubg::search::{
    all_rolls, generate_candidate_moves, hit_score, is_game_over, normalize_config, Board, Move,
    SearchConfig, SearchError, SearchStats,
};
use gnubg::transposition::{next_power_of_two, TTFlag, TranspositionTable};
use gnubg::types::PositionKey;

#[test]
fn stores_and_hits_at_sufficient_depth() {
    let mut tt = TranspositionTable::<f32>::new(3);
    let hash = 0x1234;
    tt.store(hash, 4, TTFlag::Exact, 0.25, 7, 0);
    assert_eq!(tt.lookup(hash, 3, 0), Some((0.25, TTFlag::Exact, 7)));
    assert_eq!(tt.stats(), (1, 1));
    assert_eq!(tt.lookup(hash, 5, 0), None);
    assert_eq!(tt.stats(), (1, 2));
}

#[test]
fn depth_preferred_replacement() {
    let mut tt = TranspositionTable::<f32>::new(2);
    let hash = 0x55;
    tt.store(hash, 4, TTFlag::Exact, 1.0, 1, 0);
    tt.store(hash, 2, TTFlag::LowerBound, 2.0, 2, 0);
    assert_eq!(tt.lookup(hash, 4, 0), Some((1.0, TTFlag::Exact, 1)));
    tt.store(hash, 5, TTFlag::UpperBound, 3.0, 3, 0);
    assert_eq!(tt.lookup(hash, 5, 0), Some((3.0, TTFlag::UpperBound, 3)));
}

#[test]
fn clear_resets_entries_and_stats() {
    let mut tt = TranspositionTable::<f32>::new(8);
    tt.store(1, 1, TTFlag::Exact, 0.0, 0, 0);
    assert!(tt.lookup(1, 1, 0).is_some());
    tt.clear();
    assert_eq!(tt.lookup(1, 1, 0), None);
    assert_eq!(tt.stats(), (0, 1));
}

#[test]
fn table_sizes_round_up_to_powers_of_two() {
    assert_eq!(next_power_of_two(0), 1);
    assert_eq!(next_power_of_two(1), 1);
    assert_eq!(next_power_of_two(3), 4);
    assert_eq!(next_power_of_two(1024), 1024);
    assert_eq!(next_power_of_two(1025), 2048);
    let config = normalize_config(SearchConfig { tt_size: 0, ..SearchConfig::default() });
    assert_eq!(config.tt_size, 2);
    let config = normalize_config(SearchConfig { tt_size: 1000, ..SearchConfig::default() });
    assert_eq!(config.tt_size, 1024);
    assert_eq!(config.max_depth, 4);
}

#[test]
fn defaults_match_the_documented_settings() {
    let config = SearchConfig::default();
    assert_eq!(config.max_depth, 4);
    assert_eq!(config.time_limit_ms, 0);
    assert_eq!(config.tt_size, 1 << 20);
    assert!(!config.randomize);
    let stats = SearchStats::default();
    assert_eq!(stats.nodes_searched + stats.tt_hits + stats.tt_lookups + stats.eval_calls + stats.time_ms, 0);
}

#[test]
fn all_rolls_lists_the_twenty_one_rolls() {
    let rolls = all_rolls();
    assert_eq!(rolls.len(), 21);
    assert_eq!(rolls[0], (1, 1));
    assert_eq!(rolls[1], (1, 2));
    assert_eq!(rolls[20], (6, 6));
}

#[test]
fn cache_returns_what_was_inserted() {
    let mut cache = EvalCache::<u32>::new(16);
    let key = PositionKey([1, 2, 3, 4, 5, 6, 7, 8, 9, 10]);
    assert_eq!(cache.lookup(&key, 0), None);
    cache.insert(key, 2, 77);
    assert_eq!(cache.lookup(&key, 2), Some(77));
    assert_eq!(cache.lookup(&key, 3), None);
    cache.insert(key, 1, 5);
    assert_eq!(cache.lookup(&key, 1), Some(77));
    assert_eq!(
        cache.stats(),
        CacheStats { entries: 16, lookups: 4, hits: 2, inserts: 1 }
    );
}

fn opening_board() -> [[u32; 25]; 2] {
    let mut b = [[0u32; 25]; 2];
    b[1][24] = 2;
    b[1][13] = 5;
    b[1][8] = 3;
    b[1][6] = 5;
    b[0][1] = 2;
    b[0][12] = 5;
    b[0][7] = 3;
    b[0][6] = 5;
    b
}

#[test]
fn candidate_moves_of_the_opening() {
    let board = Board::from_key(gnubg::types::old_position_key(&opening_board()));
    let moves = generate_candidate_moves(&board, (3, 1));
    assert!(!moves.is_empty());
    for (i, mv) in moves.iter().enumerate() {
        assert_eq!(mv.id, i);
        assert_eq!(mv.dice, (3, 1));
        let first = mv.steps.iter().flatten().next().copied().unwrap_or((0, 0));
        assert_eq!((mv.from, mv.to), first);
    }
    for mv in moves.iter() {
        assert!(mv.to_text().starts_with(&format!("#{} 31 ", mv.id)));
    }
}

#[test]
fn bad_position_ids_are_search_errors() {
    assert_eq!(Board::from_position_id("short"), Err(SearchError::Ffi(gnubg::position_id::GnuBgError::InvalidPositionId)));
    assert_eq!(SearchError::EmptyMoveList.message(), "no candidate moves to evaluate");
}

#[test]
fn hits_are_moves_onto_lower_points() {
    let mv = Move {
        id: 0,
        dice: (3, 1),
        from: 8,
        to: 5,
        steps: [Some((8, 5)), Some((6, 5)), Some((3, 0)), None],
        resulting_position: PositionKey([0; 10]),
    };
    assert_eq!(hit_score(&mv), 2);
}

#[test]
fn opening_is_not_over() {
    let board = Board::from_position_id("4HPwATDgc/ABMA").expect("valid board");
    assert!(!is_game_over(board.key()));
}
