use togatog_ai::board::Board;
use togatog_ai::game_status::GameStatus;

#[test]
fn test_game_status() {
    let board = [
        [0, 0, 7, 0, 0, 0, 0, 0, 0, 0],
        [0, 0, 8, 0, 0, 0, 0, 0, 0, 0],
        [0, 6, 3, 0, 0, 0, 0, 0, 0, 0],
        [0, 8, 1, 2, 0, 11, 0, 0, 0, 0],
        [0, 3, 5, 3, 2, 1, 0, 0, 0, 0],
        [0, 6, 1, 11, 3, 11, 0, 0, 0, 0],
        [7, 5, 7, 11, 11, 8, 0, 0, 0, 0],
        [4, 7, 2, 11, 11, 7, 0, 0, 0, 0],
        [11, 11, 11, 7, 2, 11, 0, 0, 0, 0],
        [11, 11, 11, 2, 11, 11, 11, 0, 3, 8],
        [11, 11, 11, 2, 3, 3, 1, 0, 8, 3],
        [3, 3, 3, 2, 11, 11, 6, 11, 11, 11],
        [3, 9, 11, 3, 3, 9, 11, 11, 11, 11],
        [4, 11, 11, 11, 11, 9, 11, 11, 11, 11],
        [11, 11, 9, 11, 5, 9, 11, 11, 11, 11],
        [11, 6, 8, 7, 9, 2, 11, 11, 11, 11]
    ];
    let game_status = GameStatus::default()
        .with_rest_time_milliseconds(1126757)
        .with_obstacle_block_count(46)
        .with_skill_point(0)
        .with_cumulative_game_score(187)
        .with_board(Board::new(board));

    assert_eq!(game_status.rest_time_milliseconds(), 1126757);
    assert_eq!(game_status.obstacle_block_count(), 46);
    assert_eq!(game_status.skill_point(), 0);
    assert_eq!(game_status.cumulative_game_score(), 187);
    assert_eq!(game_status.board(), Board::new(board));
}
