use togatog_ai::bit_board::BitBoard;
use togatog_ai::board::{FIELD_WIDTH, INPUT_FIELD_HEIGHT};

#[test]
fn bit_board_test_zobrist_hash() {
    let input_board = [
        [0, 0, 0, 0, 0, 0, 0, 0, 11, 0],
        [0, 0, 0, 0, 0, 0, 0, 0, 11, 0],
        [0, 0, 0, 0, 0, 0, 0, 0, 11, 0],
        [0, 0, 0, 0, 0, 11, 0, 0, 2, 0],
        [0, 0, 0, 0, 11, 11, 11, 11, 5, 0],
        [0, 0, 0, 0, 11, 11, 11, 11, 2, 0],
        [0, 0, 0, 11, 11, 1, 4, 4, 5, 11],
        [0, 7, 0, 4, 2, 3, 11, 11, 4, 11],
        [0, 5, 11, 2, 1, 5, 1, 5, 8, 11],
        [8, 11, 3, 11, 6, 7, 4, 7, 9, 3],
        [8, 11, 11, 11, 5, 2, 4, 7, 6, 5],
        [11, 11, 11, 7, 4, 4, 9, 9, 2, 1],
        [11, 3, 2, 11, 8, 11, 3, 4, 3, 11],
        [11, 2, 11, 11, 11, 9, 11, 4, 11, 11],
        [11, 11, 11, 1, 11, 11, 7, 11, 11, 9],
        [11, 11, 5, 7, 1, 7, 11, 11, 6, 8]
    ];
    let mut bit_board = BitBoard::new(input_board);
    bit_board.set(0, 0, 9);
    bit_board.set(0, 1, 8);
    bit_board.set(0, 2, 7);
    bit_board.set(10, 9, 5);

    let board = [
        [0, 0, 0, 0, 0, 0, 0, 0, 11, 0],
        [0, 0, 0, 0, 0, 0, 0, 0, 11, 0],
        [0, 0, 0, 0, 0, 0, 0, 0, 11, 0],
        [0, 0, 0, 0, 0, 11, 0, 0, 2, 0],
        [0, 0, 0, 0, 11, 11, 11, 11, 5, 0],
        [0, 0, 0, 0, 11, 11, 11, 11, 2, 5],
        [0, 0, 0, 11, 11, 1, 4, 4, 5, 11],
        [0, 7, 0, 4, 2, 3, 11, 11, 4, 11],
        [0, 5, 11, 2, 1, 5, 1, 5, 8, 11],
        [8, 11, 3, 11, 6, 7, 4, 7, 9, 3],
        [8, 11, 11, 11, 5, 2, 4, 7, 6, 5],
        [11, 11, 11, 7, 4, 4, 9, 9, 2, 1],
        [11, 3, 2, 11, 8, 11, 3, 4, 3, 11],
        [11, 2, 11, 11, 11, 9, 11, 4, 11, 11],
        [11, 11, 11, 1, 11, 11, 7, 11, 11, 9],
        [9, 8, 7, 7, 1, 7, 11, 11, 6, 8]
    ];
    let board = BitBoard::new(board);
    for y in 0..togatog_ai::board::FIELD_HEIGHT {
        for x in 0..FIELD_WIDTH {
            assert_eq!(bit_board.get(y, x), board.get(y, x));
        }
    }
    assert_eq!(bit_board.zobrist_hash(), board.zobrist_hash());
    assert!(bit_board == board);


}

#[test]
fn test_bit_board() {
    let input_board = [
        [0, 0, 0, 0, 0, 0, 0, 0, 11, 0],
        [0, 0, 0, 0, 0, 0, 0, 0, 11, 0],
        [0, 0, 0, 0, 0, 0, 0, 0, 11, 0],
        [0, 0, 0, 0, 0, 11, 0, 0, 2, 0],
        [0, 0, 0, 0, 11, 11, 11, 11, 5, 0],
        [0, 0, 0, 0, 11, 11, 11, 11, 2, 0],
        [0, 0, 0, 11, 11, 1, 4, 4, 5, 11],
        [0, 7, 0, 4, 2, 3, 11, 11, 4, 11],
        [0, 5, 11, 2, 1, 5, 1, 5, 8, 11],
        [8, 11, 3, 11, 6, 7, 4, 7, 9, 3],
        [8, 11, 11, 11, 5, 2, 4, 7, 6, 5],
        [11, 11, 11, 7, 4, 4, 9, 9, 2, 1],
        [11, 3, 2, 11, 8, 11, 3, 4, 3, 11],
        [11, 2, 11, 11, 11, 9, 11, 4, 11, 11],
        [11, 11, 11, 1, 11, 11, 7, 11, 11, 9],
        [11, 11, 5, 7, 1, 7, 11, 11, 6, 8]
    ];
    let bit_board = BitBoard::new(input_board);
    for y in 0..INPUT_FIELD_HEIGHT {
        for x in 0..FIELD_WIDTH {
            assert_eq!(bit_board.get(y, x), input_board[INPUT_FIELD_HEIGHT - 1 - y][x]);
        }
    }
}
