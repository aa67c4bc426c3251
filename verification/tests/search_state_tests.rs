use togatog_ai::board::Board;
use togatog_ai::evaluation::SCORE_UNIT;
use togatog_ai::pack::Pack;
use togatog_ai::search_state::SearchState;

#[test]
fn test_transition_zobrist_hash() {
    let board = [
        [0, 0, 0, 0, 0, 0, 0, 0, 0, 0],
        [0, 0, 0, 0, 0, 0, 0, 0, 0, 0],
        [0, 0, 0, 0, 0, 0, 0, 0, 0, 0],
        [0, 0, 0, 0, 0, 4, 0, 0, 0, 0],
        [0, 0, 0, 0, 0, 1, 0, 0, 0, 0],
        [0, 0, 0, 0, 0, 4, 0, 0, 0, 0],
        [0, 0, 0, 0, 0, 9, 4, 0, 0, 0],
        [0, 0, 0, 0, 0, 2, 3, 0, 0, 0],
        [0, 0, 0, 0, 6, 9, 4, 0, 0, 0],
        [0, 0, 4, 0, 11, 11, 8, 0, 0, 0],
        [0, 0, 8, 0, 11, 11, 7, 0, 11, 0],
        [0, 6, 11, 9, 11, 11, 5, 0, 3, 0],
        [0, 11, 11, 7, 2, 2, 11, 3, 1, 0],
        [11, 11, 11, 11, 2, 6, 11, 11, 11, 11],
        [11, 11, 3, 11, 3, 9, 11, 11, 11, 11],
        [11, 3, 5, 11, 3, 9, 8, 11, 6, 11]
    ];

    let mut pack = Pack::new(&[4, 5, 6, 0]);
    //5 0 4 6
    pack.rotates(3);
    let s = SearchState::default()
        .with_spawn_obstacle_block_count(0)
        .with_obstacle_block_count(0)
        .with_board(Board::new(board))
        .with_point(3)
        .with_pack(pack);

    let mut t = s.clone().with_pack(Pack::new(&[5, 0, 4, 6]));
    assert_eq!(s.transition_zobrist_hash(), t.transition_zobrist_hash());
    t.set_point(1);
    assert_ne!(s.transition_zobrist_hash(),t.zobrist_hash());
}

#[test]
fn test_drop_obstacle_board() {
    let board = [
        [0, 0, 0, 0, 0, 0, 0, 0, 0, 0],
        [0, 0, 0, 0, 0, 0, 0, 0, 0, 0],
        [0, 0, 0, 0, 4, 0, 0, 0, 0, 0],
        [0, 0, 0, 0, 5, 0, 0, 0, 0, 0],
        [0, 0, 0, 0, 2, 0, 0, 0, 0, 0],
        [0, 0, 0, 0, 5, 7, 0, 0, 0, 0],
        [0, 0, 0, 0, 8, 9, 0, 0, 0, 0],
        [0, 0, 0, 0, 5, 6, 0, 0, 0, 0],
        [0, 0, 0, 0, 7, 9, 0, 0, 0, 0],
        [0, 0, 0, 0, 4, 9, 0, 0, 0, 0],
        [0, 0, 0, 8, 3, 5, 0, 0, 0, 0],
        [0, 0, 0, 5, 8, 1, 0, 0, 0, 0],
        [0, 0, 0, 8, 6, 1, 5, 0, 0, 0],
        [0, 0, 0, 1, 5, 3, 3, 0, 0, 0],
        [0, 0, 0, 8, 1, 4, 8, 0, 0, 0],
        [0, 0, 1, 5, 1, 7, 7, 0, 0, 0],
    ];

    let s = SearchState::default()
        .with_spawn_obstacle_block_count(0)
        .with_obstacle_block_count(20)
        .with_board(Board::new(board));
    let mut b = s.board();
    b.drop_obstacles();
    assert_ne!(b, s.board());
}

#[test]
fn test_update_obstacle_block_and_drop() {
    let board = [
        [0, 0, 0, 0, 0, 0, 0, 0, 0, 0],
        [0, 0, 0, 0, 0, 0, 0, 0, 0, 0],
        [0, 0, 0, 0, 4, 0, 0, 0, 0, 0],
        [0, 0, 0, 0, 5, 0, 0, 0, 0, 0],
        [0, 0, 0, 0, 2, 0, 0, 0, 0, 0],
        [0, 0, 0, 0, 5, 7, 0, 0, 0, 0],
        [0, 0, 0, 0, 8, 9, 0, 0, 0, 0],
        [0, 0, 0, 0, 5, 6, 0, 0, 0, 0],
        [0, 0, 0, 0, 7, 9, 0, 0, 0, 0],
        [0, 0, 0, 0, 4, 9, 0, 0, 0, 0],
        [0, 0, 0, 8, 3, 5, 0, 0, 0, 0],
        [0, 0, 0, 5, 8, 1, 0, 0, 0, 0],
        [0, 0, 0, 8, 6, 1, 5, 0, 0, 0],
        [0, 0, 0, 1, 5, 3, 3, 0, 0, 0],
        [0, 0, 0, 8, 1, 4, 8, 0, 0, 0],
        [0, 0, 1, 5, 1, 7, 7, 0, 0, 0],
    ];

    let mut s = SearchState::default()
        .with_spawn_obstacle_block_count(0)
        .with_obstacle_block_count(20)
        .with_board(Board::new(board));
    s.update_obstacle_block_and_drop();
    assert_eq!(s.spawn_obstacle_block_count, 0);
    assert_eq!(s.obstacle_block_count, 10);
    let board = [
        [0, 0, 0, 0, 0, 0, 0, 0, 0, 0],
        [0, 0, 0, 0, 11, 0, 0, 0, 0, 0],
        [0, 0, 0, 0, 4, 0, 0, 0, 0, 0],
        [0, 0, 0, 0, 5, 0, 0, 0, 0, 0],
        [0, 0, 0, 0, 2, 11, 0, 0, 0, 0],
        [0, 0, 0, 0, 5, 7, 0, 0, 0, 0],
        [0, 0, 0, 0, 8, 9, 0, 0, 0, 0],
        [0, 0, 0, 0, 5, 6, 0, 0, 0, 0],
        [0, 0, 0, 0, 7, 9, 0, 0, 0, 0],
        [0, 0, 0, 11, 4, 9, 0, 0, 0, 0],
        [0, 0, 0, 8, 3, 5, 0, 0, 0, 0],
        [0, 0, 0, 5, 8, 1, 11, 0, 0, 0],
        [0, 0, 0, 8, 6, 1, 5, 0, 0, 0],
        [0, 0, 0, 1, 5, 3, 3, 0, 0, 0],
        [0, 0, 11, 8, 1, 4, 8, 0, 0, 0],
        [11, 11, 1, 5, 1, 7, 7, 11, 11, 11],
    ];
    assert_eq!(s.board, Board::new(board));
}

#[test]
fn test_update_obstacle_block() {
    let mut s = SearchState::default()
        .with_spawn_obstacle_block_count(30)
        .with_obstacle_block_count(20);
    assert_eq!(s.obstacle_block_count(), 20);
    assert_eq!(s.spawn_obstacle_block_count(), 30);
    s.update_obstacle_block();
    assert_eq!(s.obstacle_block_count(), 0);
    assert_eq!(s.spawn_obstacle_block_count(), 10);
    let mut s = SearchState::default()
        .with_spawn_obstacle_block_count(30)
        .with_obstacle_block_count(60);
    assert_eq!(s.obstacle_block_count(), 60);
    assert_eq!(s.spawn_obstacle_block_count(), 30);
    s.update_obstacle_block();
    s.update_obstacle_block();
    assert_eq!(s.obstacle_block_count(), 30);
    assert_eq!(s.spawn_obstacle_block_count(), 0);
}

#[test]
fn search_state_test_zobrist_hash() {
    let board = [
        [0, 0, 0, 0, 0, 0, 0, 0, 0, 0],
        [0, 0, 0, 0, 0, 0, 0, 0, 0, 0],
        [0, 0, 0, 0, 4, 0, 0, 0, 0, 0],
        [0, 0, 0, 0, 5, 0, 0, 0, 0, 0],
        [0, 0, 0, 0, 2, 0, 0, 0, 0, 0],
        [0, 0, 0, 0, 5, 7, 0, 0, 0, 0],
        [0, 0, 0, 0, 8, 9, 0, 0, 0, 0],
        [0, 0, 0, 0, 5, 6, 0, 0, 0, 0],
        [0, 0, 0, 0, 7, 9, 0, 0, 0, 0],
        [0, 0, 0, 0, 4, 9, 0, 0, 0, 0],
        [0, 0, 0, 8, 3, 5, 0, 0, 0, 0],
        [0, 0, 0, 5, 8, 1, 0, 0, 0, 0],
        [0, 0, 0, 8, 6, 1, 5, 0, 0, 0],
        [0, 0, 0, 1, 5, 3, 3, 0, 0, 0],
        [0, 0, 0, 8, 1, 4, 8, 0, 0, 0],
        [0, 0, 1, 5, 1, 7, 7, 0, 0, 0],
    ];
    let x1 = SearchState::default()
        .with_cumulative_game_score(120)
        .with_board(Board::new(board))
        .with_cumulative_game_score(100);

    let x2 = SearchState::default()
        .with_cumulative_game_score(200)
        .with_board(Board::new(board));
    assert_ne!(x1, x2);
    let x2 = SearchState::default()
        .with_cumulative_game_score(120)
        .with_board(Board::default());

    assert_ne!(x1, x2);
}

#[test]
fn test_compare_search_state() {
    let lower = SearchState::default().with_search_score(-1000 * SCORE_UNIT);
    let med = SearchState::default().with_search_score(-100 * SCORE_UNIT);
    let higher = SearchState::default().with_search_score(10000 * SCORE_UNIT);
    let mut heaps = min_max_heap::MinMaxHeap::new();
    heaps.push(med);
    heaps.push(higher);
    heaps.push(lower);
    assert_eq!(heaps.pop_max(), Some(higher));
    assert_eq!(heaps.pop_max(), Some(med));
    assert_eq!(heaps.pop_max(), Some(lower));
}
