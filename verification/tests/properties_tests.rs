use togatog_ai::bit_board::BitBoard;
use togatog_ai::board::{Board, FIELD_HEIGHT, FIELD_WIDTH};
use togatog_ai::pack::Pack;
use togatog_ai::simulator::{
    calculate_game_score, calculate_obstacle_count, calculate_obstacle_count_from_chain_count,
    calculate_spawn_obstacle_line_from_obstacle_count, is_on_board, Simulator,
    CHAIN_CUMULATIVE_SCORES, DIRECTION_YXS,
};
use togatog_ai::xorshift::Xorshift;

fn empty_picture() -> [[u8; 10]; 16] {
    [[0; 10]; 16]
}

fn cells(board: &Board) -> Vec<Vec<u8>> {
    (0..FIELD_HEIGHT).map(|y| (0..FIELD_WIDTH).map(|x| board.get(y, x)).collect()).collect()
}

#[test]
fn set_then_get_returns_the_value_and_leaves_the_rest() {
    let mut rnd = Xorshift::with_seed(7);
    let mut board = Board::default();
    let mut model = vec![vec![0u8; FIELD_WIDTH]; FIELD_HEIGHT];
    for _ in 0..2000 {
        let y = rnd.rand(FIELD_HEIGHT as u64) as usize;
        let x = rnd.rand(FIELD_WIDTH as u64) as usize;
        let v = rnd.rand(12) as u8;
        board.set(y, x, v);
        model[y][x] = v;
        assert_eq!(board.get(y, x), v);
        assert_eq!(cells(&board), model);
    }
}

#[test]
fn bit_board_set_then_get_at_the_corners() {
    let mut board = BitBoard::default();
    board.set(0, 0, 11);
    board.set(0, 1, 1);
    board.set(18, 9, 9);
    board.set(18, 8, 10);
    assert_eq!(board.get(0, 0), 11);
    assert_eq!(board.get(0, 1), 1);
    assert_eq!(board.get(18, 9), 9);
    assert_eq!(board.get(18, 8), 10);
    assert_eq!(board.get(1, 0), 0);
    board.set(0, 0, 0);
    assert_eq!(board.get(0, 0), 0);
    assert_eq!(board.get(0, 1), 1);
}

#[test]
fn hash_is_the_fold_over_the_cells_whatever_the_order() {
    let mut first = Board::default();
    first.set(0, 0, 9);
    first.set(0, 7, 5);
    assert_eq!(first.zobrist_hash(), 3261487826806371663);
    let mut second = Board::default();
    second.set(0, 7, 5);
    second.set(3, 3, 4);
    second.set(0, 0, 2);
    second.set(3, 3, 0);
    second.set(0, 0, 9);
    assert_eq!(second.zobrist_hash(), first.zobrist_hash());
    assert!(first == second);
    let mut picture = empty_picture();
    picture[15][0] = 9;
    picture[15][7] = 5;
    assert_eq!(Board::new(picture).zobrist_hash(), first.zobrist_hash());
    let mut one = Board::default();
    one.set(0, 0, 9);
    assert_eq!(one.zobrist_hash(), 7518142022867140872);
    assert_eq!(Board::default().zobrist_hash(), 0);
}

#[test]
fn simulate_twice_gives_the_same_chain_and_board() {
    let picture = [
        [0, 0, 0, 0, 0, 0, 0, 0, 0, 0],
        [0, 0, 0, 0, 0, 0, 0, 0, 0, 0],
        [0, 0, 0, 0, 0, 0, 0, 0, 0, 0],
        [0, 0, 0, 0, 0, 0, 0, 0, 0, 0],
        [0, 0, 0, 0, 0, 0, 0, 0, 0, 0],
        [0, 0, 0, 0, 0, 0, 0, 0, 0, 0],
        [0, 0, 0, 0, 2, 0, 0, 0, 0, 0],
        [0, 0, 0, 0, 4, 0, 0, 0, 0, 0],
        [0, 0, 0, 7, 4, 0, 0, 0, 0, 0],
        [0, 0, 0, 4, 4, 8, 0, 0, 0, 0],
        [0, 0, 0, 9, 8, 4, 0, 0, 0, 0],
        [0, 0, 0, 3, 4, 8, 9, 0, 0, 0],
        [0, 0, 0, 5, 9, 4, 8, 0, 0, 0],
        [0, 0, 1, 6, 3, 4, 1, 0, 0, 0],
        [0, 0, 6, 5, 1, 2, 3, 4, 0, 0],
        [0, 0, 1, 3, 6, 2, 2, 1, 0, 0],
    ];
    let pack = Pack::new(&[7, 6, 6, 9]);
    let mut simulator = Simulator::new();
    let mut first = Board::new(picture);
    let mut second = Board::new(picture);
    let chain_first = simulator.simulate(&mut first, 6, &pack);
    let chain_second = simulator.simulate(&mut second, 6, &pack);
    let mut third = Board::new(picture);
    let chain_third = Simulator::new().simulate(&mut third, 6, &pack);
    assert_eq!(chain_first, 13);
    assert_eq!(chain_first, chain_second);
    assert_eq!(chain_first, chain_third);
    assert!(first == second);
    assert!(first == third);
    assert_eq!(first.heights, second.heights);
    assert_eq!(first.zobrist_hash(), third.zobrist_hash());
}

#[test]
fn obstacles_end_the_game_after_exactly_k_plus_one_rows() {
    for k in 0..=16usize {
        let mut picture = empty_picture();
        for y in 0..(16 - k) {
            picture[15 - y][3] = 1;
        }
        for y in 0..(16 - k).min(2) {
            picture[15 - y][7] = 11;
        }
        let mut board = Board::new(picture);
        assert_eq!(board.heights[3], 16 - k);
        for _ in 0..k {
            assert!(!board.is_game_over());
            board.drop_obstacles();
        }
        assert!(!board.is_game_over());
        board.drop_obstacles();
        assert!(board.is_game_over());
    }
}

#[test]
fn a_drop_that_completes_nothing_starts_no_chain() {
    let mut picture = empty_picture();
    picture[15] = [1, 2, 3, 0, 0, 0, 0, 0, 0, 0];
    picture[14] = [4, 0, 1, 0, 0, 0, 0, 0, 0, 0];
    let before = Board::new(picture);
    let mut board = Board::new(picture);
    let chain_count = Simulator::new().simulate(&mut board, 1, &Pack::new(&[0, 2, 1, 1]));
    assert_eq!(chain_count, 0);
    let mut expected = cells(&before);
    expected[1][1] = 1;
    expected[2][2] = 1;
    expected[3][2] = 2;
    assert_eq!(cells(&board), expected);
    assert_eq!(board.heights, [2, 2, 4, 0, 0, 0, 0, 0, 0, 0]);
}

#[test]
fn a_single_two_on_the_eighth_column_fires_twelve() {
    let picture = [
        [0, 0, 0, 0, 0, 0, 0, 0, 0, 0],
        [0, 0, 0, 0, 0, 0, 0, 0, 0, 0],
        [0, 0, 0, 0, 4, 0, 0, 0, 0, 0],
        [0, 0, 0, 0, 5, 0, 0, 0, 0, 0],
        [0, 0, 0, 0, 2, 0, 0, 0, 0, 0],
        [0, 0, 0, 0, 5, 7, 0, 0, 0, 0],
        [0, 0, 0, 0, 8, 9, 0, 0, 0, 0],
        [0, 0, 0, 0, 5, 6, 0, 0, 0, 0],
        [0, 0, 0, 0, 7, 9, 0, 0, 0, 0],
        [0, 0, 0, 0, 4, 9, 0, 0, 0, 0],
        [0, 0, 0, 8, 3, 5, 0, 0, 0, 0],
        [0, 0, 0, 5, 8, 1, 0, 0, 0, 0],
        [0, 0, 0, 8, 6, 1, 5, 0, 0, 0],
        [0, 0, 0, 1, 5, 3, 3, 0, 0, 0],
        [0, 0, 0, 8, 1, 4, 8, 0, 0, 0],
        [0, 0, 1, 5, 1, 7, 7, 0, 0, 0],
    ];
    let mut board = Board::new(picture);
    let chain_count = Simulator::new().simulate(&mut board, 7, &Pack::new(&[0, 0, 2, 0]));
    assert_eq!(chain_count, 12);
    assert_eq!(calculate_game_score(chain_count), 90);
}

#[test]
fn the_score_table_is_strictly_increasing() {
    assert_eq!(CHAIN_CUMULATIVE_SCORES[0], 0);
    assert_eq!(CHAIN_CUMULATIVE_SCORES[1], 1);
    assert_eq!(CHAIN_CUMULATIVE_SCORES[49], 1659735);
    for chain_count in 1..50u8 {
        assert!(calculate_game_score(chain_count - 1) < calculate_game_score(chain_count));
        assert!(
            calculate_obstacle_count_from_chain_count(chain_count - 1)
                <= calculate_obstacle_count_from_chain_count(chain_count)
        );
        assert_eq!(
            calculate_obstacle_count_from_chain_count(chain_count),
            calculate_game_score(chain_count) / 2
        );
    }
}

#[test]
fn obstacle_counts_are_halves_rounded_down() {
    assert_eq!(calculate_obstacle_count(67, 0), 33);
    assert_eq!(calculate_obstacle_count(67, 5), 35);
    assert_eq!(calculate_obstacle_count(1, 1), 0);
    assert_eq!(calculate_obstacle_count(u32::MAX, u32::MAX), u32::MAX - 1);
    assert_eq!(calculate_spawn_obstacle_line_from_obstacle_count(9), 0);
    assert_eq!(calculate_spawn_obstacle_line_from_obstacle_count(10), 1);
    assert_eq!(calculate_spawn_obstacle_line_from_obstacle_count(39), 3);
}

#[test]
fn is_on_board_knows_the_edges() {
    assert!(is_on_board(0, 0));
    assert!(is_on_board(18, 9));
    assert!(!is_on_board(19, 0));
    assert!(!is_on_board(0, 10));
    assert!(!is_on_board(-1, 0));
    assert!(!is_on_board(0, -1));
    assert_eq!(DIRECTION_YXS.len(), 8);
    assert_eq!(DIRECTION_YXS[6], (1, 0));
}

#[test]
fn erase_and_fall_step_by_step() {
    let mut picture = empty_picture();
    picture[15] = [3, 0, 0, 0, 0, 0, 0, 0, 0, 0];
    picture[14] = [11, 0, 0, 0, 0, 0, 0, 0, 0, 0];
    picture[13] = [4, 0, 0, 0, 0, 0, 0, 0, 0, 0];
    let mut board = Board::new(picture);
    let mut simulator = Simulator::new();
    simulator.drop_pack(&mut board, 0, &Pack::new(&[0, 0, 0, 7]));
    assert_eq!(*simulator.modified_blocks(), vec![(0, 1)]);
    simulator.calculate_erase_blocks(&board);
    simulator.apply_erase_blocks(&mut board);
    assert_eq!(board.heights, [2, 0, 0, 0, 0, 0, 0, 0, 0, 0]);
    assert_eq!(board.get(0, 0), 11);
    assert_eq!(board.get(1, 0), 4);
    assert_eq!(board.get(2, 0), 0);
    assert_eq!(board.get(0, 1), 0);
    assert_eq!(*simulator.modified_blocks(), vec![(1, 0)]);
    let chain_count = simulator.calculate_chain_count(&mut board);
    assert_eq!(chain_count, 0);
    simulator.init();
    assert!(simulator.modified_blocks().is_empty());
}

#[test]
fn board_default_is_empty_and_well_formed() {
    let board = Board::default();
    assert!(board.is_well_formed());
    assert_eq!(board.count_blocks(), (0, 0));
    assert_eq!(board.heights, [0; 10]);
    assert!(!board.is_game_over());
    let mut floating = Board::default();
    floating.set(5, 5, 3);
    assert!(!floating.is_well_formed());
    floating.heights[5] = 6;
    assert!(!floating.is_well_formed());
}

#[test]
fn try_simulate_answers_alike_whatever_the_simulator_did_before() {
    let mut picture = empty_picture();
    picture[15] = [3, 0, 0, 0, 0, 0, 0, 0, 0, 0];
    picture[14] = [11, 0, 0, 0, 0, 0, 0, 0, 0, 0];
    let pack = Pack::new(&[0, 0, 0, 7]);
    let mut used = Simulator::new();
    let mut other = Board::new(picture);
    used.simulate(&mut other, 4, &Pack::new(&[1, 2, 3, 4]));
    let mut first = Board::new(picture);
    let mut second = Board::new(picture);
    assert_eq!(used.try_simulate(&mut first, 0, &pack), Some(1));
    assert_eq!(Simulator::new().try_simulate(&mut second, 0, &pack), Some(1));
    assert!(first == second);
    assert_eq!(first.heights, second.heights);
    assert_eq!(first.zobrist_hash(), second.zobrist_hash());
    let mut board = Board::new(picture);
    assert_eq!(used.try_simulate(&mut board, 9, &pack), None);
    assert!(board == Board::new(picture));
    let mut floating = Board::new(picture);
    floating.set(9, 9, 4);
    assert_eq!(used.try_simulate(&mut floating, 0, &pack), None);
    assert_eq!(floating.get(9, 9), 4);
    let mut full = Board::new([[11; 10]; 16]);
    full.drop_obstacles();
    full.drop_obstacles();
    assert_eq!(used.try_simulate(&mut full, 0, &Pack::new(&[1, 1, 1, 1])), None);
    assert_eq!(used.try_simulate(&mut full, 0, &Pack::new(&[0, 0, 1, 1])), Some(0));
    assert_eq!(full.heights[0], 19);
    assert_eq!(used.try_simulate(&mut full, 0, &Pack::new(&[0, 0, 1, 0])), None);
}
