use solver::bits::{count_ones, first_digit};
use solver::board::{unit_squares, values_word};
use solver::{Board, InputError, Square};

const CLASSIC: [u8; 81] = [
    5, 3, 0, 0, 7, 0, 0, 0, 0,
    6, 0, 0, 1, 9, 5, 0, 0, 0,
    0, 9, 8, 0, 0, 0, 0, 6, 0,
    8, 0, 0, 0, 6, 0, 0, 0, 3,
    4, 0, 0, 8, 0, 3, 0, 0, 1,
    7, 0, 0, 0, 2, 0, 0, 0, 6,
    0, 6, 0, 0, 0, 0, 2, 8, 0,
    0, 0, 0, 4, 1, 9, 0, 0, 5,
    0, 0, 0, 0, 8, 0, 0, 7, 9,
];

const CLASSIC_SOLVED: [u8; 81] = [
    5, 3, 4, 6, 7, 8, 9, 1, 2,
    6, 7, 2, 1, 9, 5, 3, 4, 8,
    1, 9, 8, 3, 4, 2, 5, 6, 7,
    8, 5, 9, 7, 6, 1, 4, 2, 3,
    4, 2, 6, 8, 5, 3, 7, 9, 1,
    7, 1, 3, 9, 2, 4, 8, 5, 6,
    9, 6, 1, 5, 3, 7, 2, 8, 4,
    2, 8, 7, 4, 1, 9, 6, 3, 5,
    3, 4, 5, 2, 8, 6, 1, 7, 9,
];

fn square(index: usize) -> Square {
    Square::new(index).unwrap()
}

fn indices(cells: [Square; 9]) -> Vec<usize> {
    cells.iter().map(|s| s.index()).collect()
}

#[test]
fn square_is_a_number_below_81() {
    assert!(Square::new(0).is_some());
    assert!(Square::new(80).is_some());
    assert!(Square::new(81).is_none());
    assert!(Square::new(usize::MAX).is_none());
    assert_eq!(square(37).index(), 37);
}

#[test]
fn square_row_column_block() {
    let s = square(0);
    assert_eq!((s.row(), s.row_start(), s.col(), s.block()), (0, 0, 0, 0));
    let s = square(80);
    assert_eq!((s.row(), s.row_start(), s.col(), s.block()), (8, 72, 8, 8));
    let s = square(40);
    assert_eq!((s.row(), s.row_start(), s.col(), s.block()), (4, 36, 4, 4));
    let s = square(33);
    assert_eq!((s.row(), s.row_start(), s.col(), s.block()), (3, 27, 6, 5));
    let s = square(56);
    assert_eq!((s.row(), s.row_start(), s.col(), s.block()), (6, 54, 2, 6));
}

#[test]
fn block_cells_row_by_row() {
    assert_eq!(indices(Board::get_block(0, 0)), vec![0, 1, 2, 9, 10, 11, 18, 19, 20]);
    assert_eq!(indices(Board::get_block(2, 0)), vec![6, 7, 8, 15, 16, 17, 24, 25, 26]);
    assert_eq!(indices(Board::get_block(1, 2)), vec![57, 58, 59, 66, 67, 68, 75, 76, 77]);
    assert_eq!(indices(Board::get_block(2, 2)), vec![60, 61, 62, 69, 70, 71, 78, 79, 80]);
}

#[test]
fn unit_cells_in_order() {
    assert_eq!(indices(unit_squares(0)), vec![0, 1, 2, 3, 4, 5, 6, 7, 8]);
    assert_eq!(indices(unit_squares(8)), vec![72, 73, 74, 75, 76, 77, 78, 79, 80]);
    assert_eq!(indices(unit_squares(9)), vec![0, 9, 18, 27, 36, 45, 54, 63, 72]);
    assert_eq!(indices(unit_squares(17)), vec![8, 17, 26, 35, 44, 53, 62, 71, 80]);
    assert_eq!(indices(unit_squares(18)), vec![0, 1, 2, 9, 10, 11, 18, 19, 20]);
    assert_eq!(indices(unit_squares(22)), vec![30, 31, 32, 39, 40, 41, 48, 49, 50]);
    assert_eq!(indices(unit_squares(26)), vec![60, 61, 62, 69, 70, 71, 78, 79, 80]);
}

#[test]
fn row_column_block_values() {
    let board = Board { inner: CLASSIC };
    let s = square(40);
    assert_eq!(board.get_row_for_square(s), [4, 0, 0, 8, 0, 3, 0, 0, 1]);
    assert_eq!(board.get_col_for_square(s), [7, 9, 0, 6, 0, 2, 0, 1, 8]);
    assert_eq!(board.get_block_for_square(s), [0, 6, 0, 8, 0, 3, 0, 2, 0]);
    let s = square(8);
    assert_eq!(board.get_row_for_square(s), [5, 3, 0, 0, 7, 0, 0, 0, 0]);
    assert_eq!(board.get_col_for_square(s), [0, 0, 0, 3, 1, 6, 0, 5, 9]);
    assert_eq!(board.get_block_for_square(s), [0, 0, 0, 0, 0, 0, 0, 6, 0]);
}

#[test]
fn word_of_values() {
    assert_eq!(values_word(&[0; 9]), 0x0001);
    assert_eq!(values_word(&[1, 2, 3, 4, 5, 6, 7, 8, 9]), 0x03FE);
    assert_eq!(values_word(&[5, 3, 0, 0, 7, 0, 0, 0, 0]), 0x00A9);
    assert_eq!(values_word(&[9, 9, 9, 9, 9, 9, 9, 9, 9]), 0x0200);
}

#[test]
fn constraints_and_moves_of_a_cell() {
    let board = Board { inner: CLASSIC };
    // The centre sees every digit but 5.
    assert_eq!(board.get_constraints_for_square(square(40)), 0x03DF);
    assert_eq!(board.get_moves_for_square(square(40)), 0xFC20);
    // Row {3,5,7}, column {8}, block {3,5,6,8,9}, and empty cells.
    assert_eq!(board.get_constraints_for_square(square(2)), 0x03E9);
    assert_eq!(board.get_moves_for_square(square(2)), 0xFC16);
    let empty = Board { inner: [0; 81] };
    assert_eq!(empty.get_constraints_for_square(square(0)), 0x0001);
    assert_eq!(empty.get_moves_for_square(square(0)), 0xFFFE);
}

#[test]
fn empty_squares_counts_zeros() {
    assert_eq!(Board { inner: [0; 81] }.empty_squares(), 81);
    assert_eq!(Board { inner: CLASSIC }.empty_squares(), 51);
    assert_eq!(Board { inner: CLASSIC_SOLVED }.empty_squares(), 0);
}

#[test]
fn is_solved_asks_that_every_cell_sees_every_digit() {
    assert!(Board { inner: CLASSIC_SOLVED }.is_solved());
    assert!(!Board { inner: CLASSIC }.is_solved());
    assert!(!Board { inner: [0; 81] }.is_solved());
    let mut cells = CLASSIC_SOLVED;
    cells[0] = 0;
    assert!(!Board { inner: cells }.is_solved());
    cells[0] = 3;
    assert!(!Board { inner: cells }.is_solved());
}

#[test]
fn is_solved_is_no_proof_of_a_finished_game() {
    // Two digits of the last row change places: each row is still whole,
    // so every cell sees every digit, though two columns hold a digit twice.
    let mut cells = CLASSIC_SOLVED;
    cells.swap(79, 80);
    assert!(Board { inner: cells }.is_solved());
}

#[test]
fn from_slice_reads_81_digits() {
    let board = Board::from_slice(&CLASSIC).unwrap();
    assert_eq!(board.inner, CLASSIC);
    assert!(board.is_well_formed());
}

#[test]
fn from_slice_tells_a_wrong_length() {
    assert_eq!(Board::from_slice(&CLASSIC[..80]).err(), Some(InputError::Length));
    assert_eq!(Board::from_slice(&[]).err(), Some(InputError::Length));
    let long = [0u8; 82];
    assert_eq!(Board::from_slice(&long).err(), Some(InputError::Length));
    // The length is told first.
    let bad = [10u8; 80];
    assert_eq!(Board::from_slice(&bad).err(), Some(InputError::Length));
}

#[test]
fn from_slice_tells_a_value_above_nine() {
    let mut cells = CLASSIC;
    cells[80] = 10;
    assert_eq!(Board::from_slice(&cells).err(), Some(InputError::Digit));
    assert!(!Board { inner: cells }.is_well_formed());
    cells[80] = 255;
    assert_eq!(Board::from_slice(&cells).err(), Some(InputError::Digit));
    cells[80] = 9;
    assert!(Board::from_slice(&cells).is_ok());
}

#[test]
fn count_of_set_bits() {
    assert_eq!(count_ones(0), 0);
    assert_eq!(count_ones(0xFFFF), 16);
    assert_eq!(count_ones(0xFC00), 6);
    assert_eq!(count_ones(0xFC16), 9);
    assert_eq!(count_ones(0x8001), 2);
}

#[test]
fn lowest_digit_of_a_word() {
    assert_eq!(first_digit(0), 0);
    assert_eq!(first_digit(0xFC00), 0);
    assert_eq!(first_digit(0xFC01), 0);
    assert_eq!(first_digit(0xFC16), 1);
    assert_eq!(first_digit(0xFE00), 9);
    assert_eq!(first_digit(0x0220), 5);
}
