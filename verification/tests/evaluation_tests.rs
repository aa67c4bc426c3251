use togatog_ai::board::Board;
use togatog_ai::evaluation::{
    evaluate_game_score_by_depth, evaluate_pattern_match_cnt, evaluate_search_result_score,
    EvaluateCache, SCORE_UNIT,
};
use togatog_ai::simulator;
use togatog_ai::simulator::Simulator;

/// A fixed-point score in points.
fn points(score: i64) -> f64 {
    score as f64 / SCORE_UNIT as f64
}

#[test]
fn test_estimate_with_erasing_all() {
    let board = [
        [0, 0, 0, 0, 0, 6, 0, 0, 0, 0],
        [0, 0, 0, 6, 0, 5, 0, 0, 0, 0],
        [0, 0, 11, 3, 0, 11, 7, 0, 0, 0],
        [0, 0, 11, 11, 0, 6, 1, 0, 0, 0],
        [0, 0, 11, 11, 0, 8, 7, 0, 0, 0],
        [0, 0, 7, 11, 8, 11, 4, 0, 0, 0],
        [0, 0, 11, 6, 5, 11, 9, 3, 0, 0],
        [0, 0, 11, 11, 3, 11, 11, 3, 0, 0],
        [0, 0, 1, 11, 11, 5, 11, 1, 0, 0],
        [0, 0, 8, 3, 11, 11, 8, 11, 0, 0],
        [0, 0, 6, 5, 11, 9, 11, 11, 1, 0],
        [11, 11, 2, 1, 11, 8, 11, 6, 11, 11],
        [11, 11, 4, 3, 11, 3, 3, 6, 11, 11],
        [11, 11, 1, 2, 1, 5, 11, 11, 11, 11],
        [11, 11, 2, 7, 4, 4, 2, 11, 11, 11],
        [11, 11, 9, 9, 5, 3, 3, 11, 11, 11]
    ];
    let mut evaluate_cache = EvaluateCache::new();
    let chain_count = evaluate_cache.estimate_with_erasing_all_max_chain_count(&mut Simulator::new(), &Board::new(board));
    assert_eq!(chain_count, 11);
    let board = [
        [11, 11, 11, 11, 11, 11, 11, 11, 11, 11],
        [11, 11, 11, 11, 11, 11, 11, 11, 11, 11],
        [11, 11, 11, 11, 11, 11, 11, 11, 11, 11],
        [11, 11, 11, 11, 11, 11, 11, 11, 11, 11],
        [11, 11, 11, 11, 11, 11, 11, 11, 11, 11],
        [11, 11, 11, 11, 11, 11, 11, 11, 11, 11],
        [11, 11, 11, 11, 11, 11, 11, 11, 11, 11],
        [11, 11, 11, 11, 11, 11, 11, 11, 11, 11],
        [11, 11, 11, 11, 11, 11, 11, 11, 11, 11],
        [11, 11, 11, 11, 11, 11, 11, 11, 11, 11],
        [11, 11, 11, 11, 11, 11, 11, 11, 11, 11],
        [11, 11, 11, 11, 11, 11, 11, 11, 11, 11],
        [11, 11, 11, 11, 11, 11, 11, 11, 11, 11],
        [11, 11, 11, 11, 11, 11, 11, 11, 11, 11],
        [11, 11, 11, 11, 11, 11, 11, 11, 11, 11],
        [11, 11, 11, 11, 11, 09, 11, 11, 11, 11]
    ];
    let chain_count = evaluate_cache.estimate_with_erasing_all_max_chain_count(&mut Simulator::new(), &Board::new(board));
    assert_eq!(chain_count, 0);
}


#[test]
fn test_evaluate_search_result_score() {
    let better = evaluate_search_result_score(simulator::calculate_game_score(10), 100 * SCORE_UNIT, 1);
    let worse = evaluate_search_result_score(simulator::calculate_game_score(9), 6727592 * SCORE_UNIT, 1);
    assert!(better >= worse);
}


#[test]
fn test_evaluate_game_score_by_depth() {
    let score = simulator::calculate_game_score(10);
    assert!((points(evaluate_game_score_by_depth(score, 0)) - 51.69897000433602).abs() < 1e-5);
    assert_eq!(evaluate_game_score_by_depth(score, 0), 51698969);
    let score = simulator::calculate_game_score(11);
    assert!((points(evaluate_game_score_by_depth(score, 0)) - 68.82607480270083).abs() < 1e-5);
    assert_eq!(evaluate_game_score_by_depth(score, 0), 68826074);

    let score = simulator::calculate_game_score(12);
    assert!((points(evaluate_game_score_by_depth(score, 2)) - 76.33440779869551).abs() < 1e-5);
    assert_eq!(evaluate_game_score_by_depth(score, 2), 76334407);
    let score = simulator::calculate_game_score(13);
    assert!((points(evaluate_game_score_by_depth(score, 2)) - 88.85604075017984).abs() < 1e-5);
    assert_eq!(evaluate_game_score_by_depth(score, 2), 88856040);

    let score = simulator::calculate_game_score(14);
    assert!((points(evaluate_game_score_by_depth(score, 3)) - 81.0894512189861).abs() < 1e-5);
    assert_eq!(evaluate_game_score_by_depth(score, 3), 81089451);

    let s1 = evaluate_game_score_by_depth(simulator::calculate_game_score(14), 11);
    let s2 = evaluate_game_score_by_depth(simulator::calculate_game_score(12), 7);
    assert!(s1 < s2);
}

#[test]
fn test_evaluate_pattern_match() {
    let board = [
        [0, 0, 0, 0, 0, 0, 0, 0, 0, 0],
        [0, 0, 0, 0, 0, 0, 0, 0, 0, 0],
        [0, 0, 0, 0, 0, 0, 0, 0, 0, 0],
        [0, 0, 0, 0, 0, 0, 0, 0, 0, 0],
        [0, 0, 0, 0, 0, 0, 0, 0, 0, 0],
        [0, 0, 0, 0, 0, 0, 0, 0, 0, 0],
        [0, 0, 0, 0, 0, 0, 0, 0, 0, 0],
        [0, 0, 0, 0, 0, 0, 0, 0, 0, 0],
        [0, 0, 0, 0, 0, 0, 0, 0, 0, 0],
        [0, 0, 0, 0, 0, 0, 0, 0, 0, 0],
        [0, 0, 0, 0, 0, 0, 0, 0, 0, 0],
        [0, 0, 0, 0, 0, 0, 0, 0, 0, 0],
        [0, 9, 9, 9, 0, 0, 0, 0, 0, 0],
        [0, 9, 9, 9, 0, 0, 0, 0, 0, 0],
        [0, 11, 2, 2, 0, 0, 0, 0, 0, 0],
        [0, 11, 1, 11, 0, 0, 0, 0, 0, 0],
    ];
    let board = Board::new(board);
    let (keima, jump, _) = evaluate_pattern_match_cnt(&board);
    assert_eq!((keima, jump), (2, 1));


    let board = [
        [0, 0, 0, 0, 0, 0, 0, 0, 0, 0],
        [0, 0, 0, 0, 0, 0, 0, 0, 0, 0],
        [0, 0, 0, 0, 0, 0, 0, 0, 0, 0],
        [0, 0, 0, 0, 0, 0, 0, 0, 0, 0],
        [0, 0, 0, 0, 0, 0, 0, 0, 0, 0],
        [0, 0, 0, 0, 0, 2, 1, 0, 0, 0],
        [0, 0, 0, 0, 0, 4, 7, 0, 0, 0],
        [0, 0, 0, 0, 0, 8, 4, 0, 0, 0],
        [0, 0, 0, 0, 0, 9, 3, 0, 0, 0],
        [0, 0, 0, 0, 0, 6, 3, 0, 0, 0],
        [0, 0, 0, 0, 0, 6, 2, 0, 0, 0],
        [0, 0, 0, 0, 8, 6, 2, 0, 0, 0],
        [0, 0, 0, 0, 8, 9, 6, 0, 0, 0],
        [0, 0, 0, 0, 7, 8, 8, 0, 0, 0],
        [0, 0, 0, 0, 8, 4, 4, 0, 0, 0],
        [0, 0, 0, 6, 1, 3, 2, 4, 0, 0],
    ];
    let (keima, jump, _) = evaluate_pattern_match_cnt(&Board::new(board));
    assert_eq!((keima, jump), (5, 5));
}

#[test]
fn test_estimate_max_chain_count() {
    let board = [
        [0, 0, 0, 0, 0, 0, 0, 0, 0, 0],
        [0, 0, 0, 0, 0, 0, 0, 0, 0, 0],
        [0, 0, 0, 0, 0, 0, 0, 0, 0, 0],
        [0, 0, 0, 0, 0, 0, 0, 0, 0, 0],
        [0, 0, 0, 0, 0, 0, 0, 0, 0, 0],
        [0, 0, 0, 0, 0, 0, 0, 0, 0, 0],
        [0, 0, 0, 0, 0, 0, 0, 0, 0, 0],
        [0, 0, 0, 0, 0, 0, 0, 0, 0, 0],
        [0, 0, 0, 0, 0, 0, 0, 0, 0, 0],
        [0, 0, 0, 0, 0, 0, 0, 0, 0, 0],
        [0, 0, 0, 0, 0, 0, 0, 0, 0, 0],
        [0, 0, 0, 0, 0, 0, 0, 0, 0, 0],
        [0, 0, 0, 0, 0, 0, 0, 0, 0, 0],
        [0, 0, 0, 0, 0, 0, 0, 0, 11, 0],
        [0, 0, 0, 0, 0, 0, 0, 0, 11, 0],
        [0, 0, 0, 0, 0, 0, 0, 0, 11, 9],
    ];
    let mut evaluate_cache = EvaluateCache::new();

    let (max_chain_count, height) =
        evaluate_cache.estimate_max_chain_count(&mut Simulator::new(), &Board::new(board));
    assert_eq!((max_chain_count, height), (1, 1));


    let board = [
        [0, 0, 0, 0, 0, 0, 0, 0, 0, 0],
        [0, 0, 0, 0, 0, 0, 0, 0, 0, 0],
        [0, 0, 0, 0, 4, 0, 0, 0, 0, 0],
        [0, 0, 0, 0, 5, 0, 0, 0, 0, 0],
        [0, 0, 0, 0, 2, 0, 0, 0, 0, 0],
        [0, 0, 0, 0, 5, 7, 0, 0, 0, 0],
        [0, 0, 0, 0, 8, 9, 0, 0, 0, 0],
        [0, 0, 0, 0, 5, 6, 0, 0, 0, 0],
        [0, 0, 0, 0, 7, 9, 0, 0, 0, 0],
        [0, 0, 0, 0, 4, 9, 0, 0, 0, 0],
        [0, 0, 0, 8, 3, 5, 0, 0, 0, 0],
        [0, 0, 0, 5, 8, 1, 0, 0, 0, 0],
        [0, 0, 0, 8, 6, 1, 5, 0, 0, 0],
        [0, 0, 0, 1, 5, 3, 3, 0, 0, 0],
        [0, 0, 0, 8, 1, 4, 8, 0, 0, 0],
        [0, 0, 1, 5, 1, 7, 7, 0, 0, 0],
    ];
    let (max_chain_count, height) =
        evaluate_cache.estimate_max_chain_count(&mut Simulator::new(), &Board::new(board));
    assert_eq!((max_chain_count, height), (12, 2));

    let board = [
        [0, 0, 0, 0, 0, 0, 0, 0, 0, 0],
        [0, 0, 0, 0, 0, 0, 0, 0, 0, 0],
        [0, 0, 0, 0, 0, 0, 0, 0, 0, 0],
        [0, 0, 0, 0, 0, 0, 0, 0, 0, 0],
        [0, 0, 0, 0, 0, 0, 0, 0, 0, 0],
        [0, 0, 0, 0, 0, 2, 1, 0, 0, 0],
        [0, 0, 0, 0, 0, 4, 7, 0, 0, 0],
        [0, 0, 0, 0, 0, 8, 4, 0, 0, 0],
        [0, 0, 0, 0, 0, 9, 3, 0, 0, 0],
        [0, 0, 0, 0, 0, 6, 3, 0, 0, 0],
        [0, 0, 0, 0, 0, 6, 2, 0, 0, 0],
        [0, 0, 0, 0, 8, 6, 2, 0, 0, 0],
        [0, 0, 0, 0, 8, 9, 6, 0, 0, 0],
        [0, 0, 0, 0, 7, 8, 8, 0, 0, 0],
        [0, 0, 0, 0, 8, 4, 4, 0, 0, 0],
        [0, 0, 0, 6, 1, 3, 2, 4, 0, 0],
    ];
    let (max_chain_count, height) =
        evaluate_cache.estimate_max_chain_count(&mut Simulator::new(), &Board::new(board));
    assert_eq!((max_chain_count, height), (11, 1));
}


