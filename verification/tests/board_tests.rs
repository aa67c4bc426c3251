use togatog_ai::board::Board;

#[test]
fn board_test_is_game_over() {
    let board = [
        [0, 0, 9, 11, 11, 4, 8, 8, 0, 0],
        [0, 2, 3, 11, 11, 11, 7, 9, 0, 0],
        [0, 2, 1, 1, 11, 11, 11, 11, 11, 0],
        [0, 3, 11, 6, 6, 11, 11, 11, 1, 0],
        [0, 8, 11, 11, 6, 6, 11, 11, 11, 0],
        [8, 7, 9, 2, 9, 7, 7, 7, 11, 0],
        [9, 5, 11, 4, 11, 9, 2, 9, 5, 11],
        [3, 8, 7, 8, 11, 11, 3, 9, 7, 9],
        [5, 9, 7, 11, 11, 11, 8, 11, 5, 6],
        [11, 11, 11, 11, 4, 3, 11, 9, 3, 11],
        [11, 11, 11, 11, 5, 11, 11, 5, 11, 11],
        [11, 11, 11, 2, 11, 11, 8, 11, 1, 7],
        [11, 11, 11, 4, 7, 4, 7, 11, 8, 11],
        [11, 11, 3, 11, 8, 7, 11, 11, 11, 11],
        [11, 11, 2, 5, 9, 5, 11, 5, 11, 11],
        [11, 11, 2, 3, 3, 2, 7, 1, 11, 11],
    ];
    let mut board = Board::new(board);
    assert!(!board.is_game_over());
    board.drop_obstacles();
    assert!(board.is_game_over());
}

#[test]
fn board_test_count_live_blocks() {
    let board = [
        [0, 0, 0, 0, 0, 0, 0, 0, 0, 0],
        [0, 0, 0, 0, 0, 0, 0, 0, 0, 0],
        [0, 0, 0, 0, 0, 0, 0, 0, 0, 0],
        [0, 0, 0, 0, 0, 0, 0, 0, 0, 0],
        [0, 0, 0, 0, 0, 0, 0, 0, 0, 0],
        [0, 0, 0, 0, 0, 0, 0, 0, 0, 0],
        [0, 0, 0, 0, 2, 0, 0, 0, 0, 0],
        [0, 0, 0, 0, 4, 0, 0, 0, 0, 0],
        [0, 0, 0, 7, 4, 0, 0, 0, 0, 0],
        [0, 0, 0, 4, 4, 8, 0, 0, 0, 0],
        [0, 0, 0, 9, 8, 4, 0, 0, 0, 0],
        [0, 0, 0, 3, 4, 8, 9, 0, 0, 0],
        [0, 0, 0, 5, 9, 4, 8, 0, 0, 0],
        [0, 0, 1, 6, 3, 4, 1, 0, 11, 0],
        [0, 0, 6, 5, 1, 2, 3, 4, 11, 0],
        [0, 0, 1, 3, 6, 2, 2, 1, 11, 0],
    ];
    let board = Board::new(board);
    assert_eq!(board.count_blocks(), (35, 3));
}

#[test]
fn board_test_heights() {
    let board = [
        [0, 0, 0, 0, 0, 0, 0, 0, 0, 0],
        [0, 0, 0, 0, 0, 0, 0, 0, 0, 0],
        [0, 0, 0, 0, 0, 0, 0, 0, 0, 0],
        [0, 0, 0, 0, 0, 0, 0, 0, 0, 0],
        [0, 0, 0, 0, 0, 0, 0, 0, 0, 0],
        [0, 0, 0, 0, 0, 0, 0, 0, 0, 0],
        [0, 0, 0, 0, 0, 0, 0, 0, 0, 0],
        [0, 0, 0, 0, 0, 0, 0, 0, 0, 1],
        [0, 0, 0, 0, 0, 0, 0, 0, 1, 1],
        [0, 0, 0, 0, 0, 0, 0, 1, 1, 1],
        [0, 0, 0, 0, 0, 0, 1, 1, 1, 1],
        [0, 0, 0, 0, 0, 1, 1, 1, 1, 1],
        [0, 0, 0, 0, 1, 1, 1, 1, 1, 1],
        [0, 0, 0, 1, 1, 1, 1, 1, 1, 1],
        [0, 0, 1, 1, 1, 1, 1, 1, 1, 1],
        [0, 1, 1, 1, 1, 1, 1, 1, 1, 1],
    ];
    let board = Board::new(board);
    assert_eq!(board.heights, [0, 1, 2, 3, 4, 5, 6, 7, 8, 9]);
}

#[test]
fn board_drop_obstacles() {
    let board = [
        [0, 0, 0, 0, 0, 0, 0, 0, 0, 0],
        [0, 0, 0, 0, 0, 0, 0, 0, 0, 0],
        [0, 0, 0, 0, 0, 0, 0, 0, 0, 0],
        [0, 0, 0, 0, 0, 0, 0, 0, 0, 0],
        [0, 0, 0, 0, 0, 0, 0, 0, 0, 0],
        [0, 0, 0, 0, 0, 0, 0, 0, 0, 0],
        [0, 0, 0, 0, 0, 0, 0, 0, 0, 0],
        [0, 0, 0, 0, 0, 0, 0, 0, 0, 1],
        [0, 0, 0, 0, 0, 0, 0, 0, 1, 1],
        [0, 0, 0, 0, 0, 0, 0, 1, 1, 1],
        [0, 0, 0, 0, 0, 0, 1, 1, 1, 1],
        [0, 0, 0, 0, 0, 1, 1, 1, 1, 1],
        [0, 0, 0, 0, 1, 1, 1, 1, 1, 1],
        [0, 0, 0, 1, 1, 1, 1, 1, 1, 1],
        [0, 0, 1, 1, 1, 1, 1, 1, 1, 1],
        [0, 1, 1, 1, 1, 1, 1, 1, 1, 1],
    ];
    let mut board = Board::new(board);
    //drop
    board.drop_obstacles();
    //
    let dropped_obstacles_board = [
        [0, 0, 0, 0, 0, 0, 0, 0, 0, 0],
        [0, 0, 0, 0, 0, 0, 0, 0, 0, 0],
        [0, 0, 0, 0, 0, 0, 0, 0, 0, 0],
        [0, 0, 0, 0, 0, 0, 0, 0, 0, 0],
        [0, 0, 0, 0, 0, 0, 0, 0, 0, 0],
        [0, 0, 0, 0, 0, 0, 0, 0, 0, 0],
        [0, 0, 0, 0, 0, 0, 0, 0, 0, 11],
        [0, 0, 0, 0, 0, 0, 0, 0, 11, 1],
        [0, 0, 0, 0, 0, 0, 0, 11, 1, 1],
        [0, 0, 0, 0, 0, 0, 11, 1, 1, 1],
        [0, 0, 0, 0, 0, 11, 1, 1, 1, 1],
        [0, 0, 0, 0, 11, 1, 1, 1, 1, 1],
        [0, 0, 0, 11, 1, 1, 1, 1, 1, 1],
        [0, 0, 11, 1, 1, 1, 1, 1, 1, 1],
        [0, 11, 1, 1, 1, 1, 1, 1, 1, 1],
        [11, 1, 1, 1, 1, 1, 1, 1, 1, 1],
    ];
    let dropped_obstacles_board = Board::new(dropped_obstacles_board);
    assert_eq!(board, dropped_obstacles_board);
}
