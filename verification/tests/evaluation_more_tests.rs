use togatog_ai::board::Board;
use togatog_ai::evaluation::{
    compute_erasing_all_max_chain_count, compute_max_chain_count, evaluate_game_score_for_bomber,
    evaluate_pattern_match_cnt,
    evaluate_log10, evaluate_search_result_score_for_bomber, evaluate_shape, EvaluateCache,
    GAME_SCORE_DEPTH_RATES, SCORE_UNIT,
};
use togatog_ai::search_state::SearchState;
use togatog_ai::simulator::Simulator;

fn one_block() -> Board {
    let mut picture = [[0u8; 10]; 16];
    picture[15][0] = 1;
    Board::new(picture)
}

#[test]
fn shape_score_of_a_single_block() {
    assert_eq!(evaluate_shape(&one_block(), 0), 1_000_010_000);
    assert_eq!(evaluate_shape(&one_block(), 1), 1_100_100_000);
    assert_eq!(evaluate_shape(&Board::default(), 0), 0);
}

#[test]
fn shape_score_counts_centre_and_neighbours() {
    let mut picture = [[0u8; 10]; 16];
    picture[15][4] = 1;
    picture[15][5] = 2;
    assert_eq!(evaluate_shape(&Board::new(picture), 0), 2_000_200_000);
    picture[15][5] = 11;
    assert_eq!(evaluate_shape(&Board::new(picture), 0), 1_000_100_000);
}

#[test]
fn search_score_adds_the_chain_estimate_and_remembers_it() {
    let mut cache = EvaluateCache::new();
    let mut simulator = Simulator::new();
    let state = SearchState::default().with_board(one_block());
    assert_eq!(cache.len_estimate_max_chain_count(), 0);
    assert_eq!(cache.evaluate_search_score(&mut simulator, &state, 0), 101_000_010_000);
    assert_eq!(cache.len_estimate_max_chain_count(), 1);
    assert_eq!(cache.len_estimate_with_erasing_all_max_chain_count(), 0);
    assert_eq!(cache.evaluate_search_score(&mut simulator, &state, 0), 101_000_010_000);
    assert_eq!(cache.len_estimate_max_chain_count(), 1);
    assert_eq!(cache.evaluate_search_score(&mut simulator, &state, 1), 101_100_100_000);
    assert_eq!(cache.len_estimate_with_erasing_all_max_chain_count(), 1);
    cache.clear();
    assert_eq!(cache.len_estimate_max_chain_count(), 0);
    assert_eq!(cache.len_estimate_with_erasing_all_max_chain_count(), 0);
}

#[test]
fn search_score_judges_the_board_with_the_row_that_is_owed() {
    let mut cache = EvaluateCache::default();
    let mut simulator = Simulator::new();
    let state = SearchState::default().with_board(one_block()).with_obstacle_block_count(10);
    let mut dropped = one_block();
    dropped.drop_obstacles();
    let expected = evaluate_shape(&dropped, 0)
        + compute_max_chain_count(&mut simulator, &dropped).0 as i64 * 100_000 * SCORE_UNIT;
    assert_eq!(cache.evaluate_search_score(&mut simulator, &state, 0), expected);
}

#[test]
fn estimates_are_remembered_by_hash() {
    let mut cache = EvaluateCache::new();
    let mut simulator = Simulator::new();
    let board = one_block();
    assert_eq!(compute_max_chain_count(&mut simulator, &board), (1, 2));
    assert_eq!(cache.estimate_max_chain_count(&mut simulator, &board), (1, 2));
    assert_eq!(cache.estimate_max_chain_count(&mut simulator, &board), (1, 2));
    assert_eq!(cache.len_estimate_max_chain_count(), 1);
    assert_eq!(cache.estimate_max_chain_count(&mut simulator, &Board::default()), (0, 0));
    assert_eq!(cache.len_estimate_max_chain_count(), 2);
    assert_eq!(compute_erasing_all_max_chain_count(&mut simulator, &board), 1);
    assert_eq!(cache.estimate_with_erasing_all_max_chain_count(&mut simulator, &board), 1);
    assert_eq!(cache.len_estimate_with_erasing_all_max_chain_count(), 1);
    assert_eq!(compute_erasing_all_max_chain_count(&mut simulator, &Board::default()), 0);
}

#[test]
fn log10_in_millionths() {
    assert_eq!(evaluate_log10(0), 0);
    assert_eq!(evaluate_log10(1), 0);
    assert_eq!(evaluate_log10(2), 301029);
    assert_eq!(evaluate_log10(50), 1698969);
    assert_eq!(evaluate_log10(1000), 2999999);
    assert_eq!(evaluate_log10(u32::MAX), 9632959);
    let mut power = 1u32;
    for exponent in 0..10i64 {
        let value = evaluate_log10(power);
        assert!(exponent * 1_000_000 - 1 <= value && value <= exponent * 1_000_000);
        power = power.saturating_mul(10);
    }
    let mut last = 0;
    for value in 1..5000u32 {
        let now = evaluate_log10(value);
        assert!(now >= last);
        assert!((now as f64 / 1e6 - (value as f64).log10()).abs() < 2e-6);
        last = now;
    }
}

#[test]
fn bomber_scores_cap_at_what_a_chain_of_three_sends() {
    assert_eq!(evaluate_game_score_for_bomber(0, 0), 0);
    assert_eq!(evaluate_game_score_for_bomber(1, 0), 2);
    assert_eq!(evaluate_game_score_for_bomber(2, 5), 1);
    assert_eq!(evaluate_game_score_for_bomber(3, 0), 2 * SCORE_UNIT);
    assert_eq!(evaluate_game_score_for_bomber(12, 0), 2 * SCORE_UNIT);
    assert_eq!(evaluate_game_score_for_bomber(12, 1), 1_818_181);
    assert_eq!(
        evaluate_search_result_score_for_bomber(12, 3 * SCORE_UNIT, 2),
        (1_652_892, 2_479_338)
    );
    assert_eq!(evaluate_search_result_score_for_bomber(1, -3 * SCORE_UNIT, 2), (2, -2_479_338));
}

#[test]
fn the_decay_takes_off_an_eleventh_a_move() {
    assert_eq!(GAME_SCORE_DEPTH_RATES[0], 1_000_000_000);
    for depth in 1..20 {
        assert!(GAME_SCORE_DEPTH_RATES[depth] < GAME_SCORE_DEPTH_RATES[depth - 1]);
        let expected = GAME_SCORE_DEPTH_RATES[depth - 1] as f64 * 10.0 / 11.0;
        assert!((GAME_SCORE_DEPTH_RATES[depth] as f64 - expected).abs() < 2.0);
    }
}

#[test]
fn knights_move_pairs_count_towards_the_first_column() {
    let mut rows = [[0u8; 10]; 16];
    rows[15][0] = 11;
    rows[14][0] = 11;
    rows[13][0] = 9;
    rows[15][1] = 1;
    let (keima, jump, three_chain) = evaluate_pattern_match_cnt(&Board::new(rows));
    assert_eq!((keima, jump, three_chain), (1, 0, 0));
    let mut rows = [[0u8; 10]; 16];
    rows[15][1] = 3;
    rows[14][1] = 11;
    rows[13][1] = 11;
    rows[15][2] = 11;
    rows[14][2] = 11;
    rows[13][2] = 7;
    rows[15][0] = 11;
    rows[14][0] = 11;
    rows[13][0] = 7;
    let (keima, jump, _) = evaluate_pattern_match_cnt(&Board::new(rows));
    assert_eq!((keima, jump), (2, 0));
}
