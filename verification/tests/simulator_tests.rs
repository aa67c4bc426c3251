use togatog_ai::board;
use togatog_ai::board::{FIELD_HEIGHT, FIELD_WIDTH};
use togatog_ai::pack;
use togatog_ai::simulator::{calculate_obstacle_count, Simulator, CHAIN_CUMULATIVE_SCORES};

#[test]
fn test_calculate_obstacle_count() {
    let chain_count = 11;
    let obstacle_count = calculate_obstacle_count(CHAIN_CUMULATIVE_SCORES[chain_count], 0);
    assert_eq!(obstacle_count, 33);
}

#[test]
fn test_simulate_must_dead() {
    let board = [
        [0, 0, 0, 0, 0, 11, 0, 0, 0, 0],
        [0, 0, 0, 0, 0, 11, 0, 0, 0, 0],
        [0, 0, 0, 0, 11, 11, 0, 0, 0, 0],
        [0, 0, 3, 0, 2, 11, 0, 7, 0, 0],
        [0, 0, 4, 0, 11, 9, 7, 7, 0, 0],
        [0, 4, 7, 0, 11, 8, 4, 5, 0, 0],
        [0, 4, 7, 6, 11, 4, 1, 11, 0, 0],
        [0, 7, 5, 11, 7, 8, 11, 11, 0, 0],
        [0, 11, 6, 9, 7, 4, 11, 11, 2, 0],
        [0, 11, 11, 5, 4, 2, 11, 4, 2, 0],
        [11, 1, 11, 11, 1, 1, 11, 4, 11, 7],
        [11, 3, 8, 11, 5, 4, 2, 11, 11, 7],
        [11, 11, 11, 11, 9, 9, 3, 3, 11, 11],
        [11, 11, 11, 3, 6, 8, 6, 5, 9, 11],
        [9, 3, 8, 8, 6, 6, 9, 6, 2, 11],
        [2, 9, 5, 3, 5, 9, 8, 3, 11, 11]
    ];
    let mut pack = pack::Pack::new(&[8, 5, 5, 0]);
    pack.rotates(1);
    assert_eq!(pack, pack::Pack::new(&[5, 8, 0, 5]));
    pack.drop();
    assert_eq!(pack, pack::Pack::new(&[0, 8, 5, 5]));
    let mut simulated_board = board::Board::new(board);
    Simulator::new().simulate(&mut simulated_board, 5, &pack);

    for y in 0..FIELD_HEIGHT {
        let mut row = String::new();
        for x in 0..FIELD_WIDTH {
            row.push_str(&format!("{:02} ", simulated_board.get(FIELD_HEIGHT - 1 - y, x)));
        }
        println!("{}", row);
    }
    assert!(simulated_board.is_game_over());
}

#[test]
fn test_simulate_sandwich_obstacle_board() {
    let board = [
        [0, 0, 0, 0, 0, 0, 0, 0, 0, 0],
        [0, 0, 0, 0, 0, 0, 0, 0, 0, 0],
        [0, 0, 0, 0, 0, 0, 0, 0, 0, 0],
        [0, 0, 0, 0, 0, 0, 0, 0, 0, 0],
        [0, 0, 0, 0, 0, 0, 0, 0, 0, 0],
        [0, 0, 0, 0, 0, 0, 0, 0, 0, 0],
        [0, 0, 0, 0, 0, 0, 0, 0, 0, 0],
        [0, 0, 0, 0, 0, 0, 0, 0, 0, 0],
        [0, 0, 0, 0, 0, 2, 0, 0, 0, 0],
        [0, 0, 0, 0, 5, 9, 7, 0, 0, 0],
        [0, 0, 0, 0, 3, 8, 7, 0, 0, 0],
        [0, 0, 0, 0, 3, 5, 7, 0, 0, 0],
        [0, 0, 6, 0, 2, 2, 1, 0, 0, 0],
        [0, 5, 7, 5, 2, 5, 3, 4, 0, 0],
        [0, 4, 7, 7, 1, 6, 8, 3, 0, 0],
        [0, 8, 5, 2, 5, 3, 6, 6, 0, 0]
    ];
    let mut board = board::Board::new(board);
    board.drop_obstacles();
    let pack = pack::Pack::new(&[3, 6, 2, 2]);
    let chain_count = Simulator::new().simulate(&mut board, 0, &pack);
    let target_board = [
        [0, 0, 0, 0, 0, 0, 0, 0, 0, 0],
        [0, 0, 0, 0, 0, 0, 0, 0, 0, 0],
        [0, 0, 0, 0, 0, 0, 0, 0, 0, 0],
        [0, 0, 0, 0, 0, 0, 0, 0, 0, 0],
        [0, 0, 0, 0, 0, 0, 0, 0, 0, 0],
        [0, 0, 0, 0, 0, 0, 0, 0, 0, 0],
        [0, 0, 0, 0, 0, 0, 0, 0, 0, 0],
        [0, 0, 0, 0, 0, 11, 0, 0, 0, 0],
        [0, 0, 0, 0, 11, 2, 11, 0, 0, 0],
        [0, 0, 0, 0, 5, 9, 7, 0, 0, 0],
        [0, 0, 0, 0, 3, 8, 7, 0, 0, 0],
        [0, 0, 0, 0, 3, 5, 7, 0, 0, 0],
        [0, 6, 11, 11, 2, 2, 1, 11, 0, 0],
        [0, 2, 6, 5, 2, 5, 3, 4, 0, 0],
        [3, 11, 7, 7, 1, 6, 8, 3, 0, 0],
        [11, 4, 7, 2, 5, 3, 6, 6, 11, 11]
    ];
    let target_board = board::Board::new(target_board);
    assert_eq!(board, target_board);
}

#[test]
fn test_simulate_same_board() {
    let board = [
        [0, 0, 0, 0, 0, 0, 0, 0, 0, 0],
        [0, 0, 0, 0, 0, 0, 0, 0, 0, 0],
        [0, 0, 0, 0, 0, 0, 0, 0, 0, 0],
        [0, 0, 0, 0, 0, 0, 0, 0, 0, 0],
        [0, 0, 0, 0, 0, 0, 0, 0, 0, 0],
        [0, 0, 0, 0, 0, 0, 0, 0, 0, 0],
        [0, 0, 0, 0, 0, 0, 0, 0, 0, 0],
        [0, 8, 0, 0, 0, 0, 0, 0, 0, 0],
        [0, 4, 0, 8, 0, 0, 0, 0, 0, 0],
        [0, 8, 0, 1, 0, 0, 0, 0, 0, 0],
        [7, 7, 0, 1, 0, 0, 0, 0, 0, 0],
        [6, 5, 0, 2, 0, 0, 0, 0, 0, 0],
        [2, 9, 4, 7, 1, 0, 0, 7, 2, 0],
        [6, 7, 2, 4, 8, 0, 0, 2, 1, 0],
        [2, 2, 7, 9, 9, 0, 0, 6, 3, 0],
        [7, 6, 6, 9, 4, 9, 3, 9, 3, 6]
    ];
    let old_board = board::Board::new(board);
    let mut simulated_board = board::Board::new(board);
    Simulator::new().simulate(&mut simulated_board, 7, &pack::Pack::new(&[0, 9, 1, 9]));
    // 0 9   => 0 0
    // 1 9      0 0
    assert_eq!(simulated_board, old_board);
}

#[test]
fn test_simulate_with_obstacles() {
    //score 210
    //chain_count 15
    let raw_board = [
        [0, 0, 0, 11, 0, 0, 0, 0, 0, 0],
        [0, 0, 0, 11, 0, 0, 0, 0, 0, 0],
        [0, 0, 0, 11, 0, 0, 0, 0, 0, 0],
        [0, 0, 0, 7, 0, 0, 0, 0, 0, 0],
        [0, 0, 0, 2, 0, 0, 0, 0, 0, 0],
        [0, 0, 0, 7, 0, 0, 0, 0, 0, 0],
        [0, 0, 11, 4, 11, 0, 0, 0, 0, 0],
        [0, 0, 11, 9, 11, 11, 7, 0, 0, 0],
        [0, 0, 11, 6, 11, 11, 11, 7, 0, 0],
        [0, 0, 3, 1, 8, 11, 11, 9, 0, 0],
        [0, 0, 8, 6, 1, 3, 5, 11, 0, 0],
        [0, 0, 6, 5, 8, 8, 1, 11, 0, 0],
        [0, 11, 7, 7, 7, 5, 11, 3, 0, 0],
        [11, 6, 9, 2, 1, 6, 2, 11, 11, 11],
        [11, 11, 3, 2, 5, 6, 2, 9, 11, 11],
        [11, 11, 3, 9, 3, 9, 2, 6, 11, 11]
    ];
    let mut board = board::Board::new(raw_board);
    let pack = pack::Pack::new(&[6, 7, 2, 0]);
    //drop
    board.drop_obstacles();
    let chain_count = Simulator::new().simulate(&mut board, 7, &pack);
    let score = CHAIN_CUMULATIVE_SCORES[chain_count as usize];
    assert_eq!((score, chain_count), (210, 15));

    let simulated_board = [
        [0, 0, 0, 0, 0, 0, 0, 0, 0, 0],
        [0, 0, 0, 0, 0, 0, 0, 0, 0, 0],
        [0, 0, 0, 0, 0, 0, 0, 0, 0, 0],
        [0, 0, 0, 0, 0, 0, 0, 0, 0, 0],
        [0, 0, 0, 0, 0, 0, 0, 0, 0, 0],
        [0, 0, 0, 0, 0, 0, 0, 0, 0, 0],
        [0, 0, 0, 0, 0, 0, 0, 0, 0, 0],
        [0, 0, 0, 0, 0, 0, 0, 6, 0, 0],
        [0, 0, 0, 0, 0, 0, 0, 2, 0, 0],
        [0, 0, 0, 0, 0, 0, 11, 11, 0, 0],
        [0, 0, 0, 0, 0, 11, 7, 7, 0, 0],
        [0, 11, 11, 11, 0, 11, 11, 11, 0, 0],
        [11, 11, 11, 11, 11, 11, 11, 11, 11, 11],
        [11, 6, 11, 11, 11, 11, 11, 11, 11, 11],
        [11, 11, 11, 11, 11, 6, 2, 9, 11, 11],
        [11, 11, 6, 6, 11, 6, 2, 6, 11, 11]
    ];
    let simulated_board = board::Board::new(simulated_board);
    assert_eq!(board, simulated_board);
}

#[test]
fn test_simulate() {
    //score 120
    //chain_count 13
    let raw_board = [
        [0, 0, 0, 0, 0, 0, 0, 0, 0, 0],
        [0, 0, 0, 0, 0, 0, 0, 0, 0, 0],
        [0, 0, 0, 0, 0, 0, 0, 0, 0, 0],
        [0, 0, 0, 0, 0, 0, 0, 0, 0, 0],
        [0, 0, 0, 0, 0, 0, 0, 0, 0, 0],
        [0, 0, 0, 0, 0, 0, 0, 0, 0, 0],
        [0, 0, 0, 0, 2, 0, 0, 0, 0, 0],
        [0, 0, 0, 0, 4, 0, 0, 0, 0, 0],
        [0, 0, 0, 7, 4, 0, 0, 0, 0, 0],
        [0, 0, 0, 4, 4, 8, 0, 0, 0, 0],
        [0, 0, 0, 9, 8, 4, 0, 0, 0, 0],
        [0, 0, 0, 3, 4, 8, 9, 0, 0, 0],
        [0, 0, 0, 5, 9, 4, 8, 0, 0, 0],
        [0, 0, 1, 6, 3, 4, 1, 0, 0, 0],
        [0, 0, 6, 5, 1, 2, 3, 4, 0, 0],
        [0, 0, 1, 3, 6, 2, 2, 1, 0, 0]
    ];

    let mut board = board::Board::new(raw_board);
    let pack = pack::Pack::new(&[7, 6, 6, 9]);
    let chain_count = Simulator::new().simulate(&mut board, 6, &pack);
    let score = CHAIN_CUMULATIVE_SCORES[chain_count as usize];
    assert_eq!((score, chain_count), (120, 13));


    let simulated_board = [
        [0, 0, 0, 0, 0, 0, 0, 0, 0, 0],
        [0, 0, 0, 0, 0, 0, 0, 0, 0, 0],
        [0, 0, 0, 0, 0, 0, 0, 0, 0, 0],
        [0, 0, 0, 0, 0, 0, 0, 0, 0, 0],
        [0, 0, 0, 0, 0, 0, 0, 0, 0, 0],
        [0, 0, 0, 0, 0, 0, 0, 0, 0, 0],
        [0, 0, 0, 0, 0, 0, 0, 0, 0, 0],
        [0, 0, 0, 0, 0, 0, 0, 0, 0, 0],
        [0, 0, 0, 0, 0, 0, 0, 0, 0, 0],
        [0, 0, 0, 0, 0, 0, 0, 0, 0, 0],
        [0, 0, 0, 0, 0, 0, 0, 0, 0, 0],
        [0, 0, 0, 0, 0, 0, 0, 0, 0, 0],
        [0, 0, 0, 0, 0, 0, 0, 0, 0, 0],
        [0, 0, 0, 0, 4, 0, 0, 0, 0, 0],
        [0, 0, 0, 0, 4, 0, 0, 0, 0, 0],
        [0, 0, 1, 3, 4, 4, 0, 0, 0, 0]
    ];
    let simulated_board = board::Board::new(simulated_board);
    assert_eq!(board, simulated_board);


    let board = [
        [0, 0, 0, 0, 0, 0, 0, 0, 0, 0],
        [0, 0, 0, 0, 0, 0, 0, 0, 0, 0],
        [0, 0, 0, 0, 0, 0, 0, 0, 0, 0],
        [0, 0, 0, 0, 0, 0, 0, 0, 0, 0],
        [0, 0, 0, 0, 0, 0, 0, 0, 0, 0],
        [0, 0, 0, 0, 0, 0, 0, 0, 0, 0],
        [0, 0, 0, 11, 0, 0, 0, 0, 0, 0],
        [0, 0, 11, 5, 0, 11, 0, 0, 0, 0],
        [0, 0, 11, 7, 0, 11, 8, 0, 0, 0],
        [0, 0, 2, 11, 11, 3, 11, 0, 0, 0],
        [0, 11, 2, 3, 11, 9, 11, 7, 0, 0],
        [0, 11, 1, 5, 3, 5, 8, 9, 0, 0],
        [0, 4, 7, 4, 9, 6, 3, 11, 0, 0],
        [11, 5, 4, 5, 2, 2, 5, 11, 0, 0],
        [11, 1, 8, 7, 7, 4, 7, 4, 11, 11],
        [4, 1, 5, 6, 5, 8, 4, 4, 11, 11]
    ];
    let mut board = board::Board::new(board);
    //drop obstacles before dropping
    board.drop_obstacles();
    let mut pack = pack::Pack::new(&[5, 1, 1, 3]);
    pack.rotates(1);
    assert_eq!(pack.vec(), [1, 5, 3, 1]);
    let chain_count = Simulator::new().simulate(&mut board, 7, &pack);
    let score = CHAIN_CUMULATIVE_SCORES[chain_count as usize];
    assert_eq!((score, chain_count), (37, 9));
    let simulated_board = [
        [0, 0, 0, 0, 0, 0, 0, 0, 0, 0],
        [0, 0, 0, 0, 0, 0, 0, 0, 0, 0],
        [0, 0, 0, 0, 0, 0, 0, 0, 0, 0],
        [0, 0, 0, 0, 0, 0, 0, 0, 0, 0],
        [0, 0, 0, 0, 0, 0, 0, 0, 0, 0],
        [0, 0, 0, 0, 0, 0, 0, 0, 0, 0],
        [0, 0, 0, 0, 0, 0, 0, 0, 0, 0],
        [0, 0, 0, 0, 0, 0, 0, 0, 0, 0],
        [0, 0, 0, 0, 0, 0, 0, 0, 0, 0],
        [0, 11, 11, 0, 0, 0, 0, 1, 0, 0],
        [0, 11, 11, 11, 0, 0, 0, 3, 0, 0],
        [0, 11, 11, 11, 0, 0, 11, 11, 0, 0],
        [11, 4, 2, 5, 11, 11, 8, 11, 5, 0],
        [11, 5, 2, 7, 11, 11, 11, 11, 11, 11],
        [11, 1, 1, 11, 11, 11, 11, 4, 11, 11],
        [4, 1, 8, 5, 9, 9, 4, 4, 11, 11]
    ];
    assert_eq!(board, board::Board::new(simulated_board));
}

#[test]
fn test_drop_pack() {
    let raw_board = [
        [0, 0, 0, 0, 0, 0, 0, 0, 0, 0],
        [0, 0, 0, 0, 0, 0, 0, 0, 0, 0],
        [0, 0, 0, 0, 0, 0, 0, 0, 0, 0],
        [0, 0, 0, 0, 0, 0, 0, 0, 0, 0],
        [0, 0, 0, 0, 0, 0, 0, 0, 0, 0],
        [0, 0, 0, 0, 0, 0, 0, 0, 0, 0],
        [0, 0, 0, 0, 0, 0, 0, 0, 0, 0],
        [0, 0, 0, 0, 0, 0, 0, 0, 0, 0],
        [0, 0, 0, 0, 5, 0, 0, 0, 0, 0],
        [0, 0, 0, 0, 8, 0, 0, 0, 0, 0],
        [0, 0, 0, 0, 8, 4, 0, 0, 0, 0],
        [0, 0, 0, 0, 8, 5, 0, 0, 0, 0],
        [0, 0, 0, 3, 6, 7, 0, 7, 0, 0],
        [0, 0, 6, 9, 9, 2, 0, 1, 0, 0],
        [0, 0, 8, 3, 3, 3, 0, 1, 3, 0],
        [0, 4, 1, 1, 8, 5, 3, 1, 6, 0]
    ];
    let mut board = board::Board::new(raw_board);
    let pack = pack::Pack::new(&[0, 9, 1, 2]);

    let mut simulator = Simulator::new();
    simulator.drop_pack(&mut board, 1, &pack);
    assert_eq!(*simulator.modified_blocks(), vec![(3, 2), (1, 1), (4, 2)]);

    let dropped_board = [
        [0, 0, 0, 0, 0, 0, 0, 0, 0, 0],
        [0, 0, 0, 0, 0, 0, 0, 0, 0, 0],
        [0, 0, 0, 0, 0, 0, 0, 0, 0, 0],
        [0, 0, 0, 0, 0, 0, 0, 0, 0, 0],
        [0, 0, 0, 0, 0, 0, 0, 0, 0, 0],
        [0, 0, 0, 0, 0, 0, 0, 0, 0, 0],
        [0, 0, 0, 0, 0, 0, 0, 0, 0, 0],
        [0, 0, 0, 0, 0, 0, 0, 0, 0, 0],
        [0, 0, 0, 0, 5, 0, 0, 0, 0, 0],
        [0, 0, 0, 0, 8, 0, 0, 0, 0, 0],
        [0, 0, 0, 0, 8, 4, 0, 0, 0, 0],
        [0, 0, 9, 0, 8, 5, 0, 0, 0, 0],
        [0, 0, 2, 3, 6, 7, 0, 7, 0, 0],
        [0, 0, 6, 9, 9, 2, 0, 1, 0, 0],
        [0, 1, 8, 3, 3, 3, 0, 1, 3, 0],
        [0, 4, 1, 1, 8, 5, 3, 1, 6, 0]
    ];
    let dropped_board = board::Board::new(dropped_board);
    assert_eq!(board, dropped_board);
}

