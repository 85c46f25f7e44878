use solver::{count_solutions, generate_solved_board, solve, Board};

const CLASSIC: [u8; 81] = [
    5, 3, 0, 0, 7, 0, 0, 0, 0,
    6, 0, 0, 1, 9, 5, 0, 0, 0,
    0, 9, 8, 0, 0, 0, 0, 6, 0,
    8, 0, 0, 0, 6, 0, 0, 0, 3,
    4, 0, 0, 8, 0, 3, 0, 0, 1,
    7, 0, 0, 0, 2, 0, 0, 0, 6,
    0, 6, 0, 0, 0, 0, 2, 8, 0,
    0, 0, 0, 4, 1, 9, 0, 0, 5,
    0, 0, 0, 0, 8, 0, 0, 7, 9,
];

const CLASSIC_SOLVED: [u8; 81] = [
    5, 3, 4, 6, 7, 8, 9, 1, 2,
    6, 7, 2, 1, 9, 5, 3, 4, 8,
    1, 9, 8, 3, 4, 2, 5, 6, 7,
    8, 5, 9, 7, 6, 1, 4, 2, 3,
    4, 2, 6, 8, 5, 3, 7, 9, 1,
    7, 1, 3, 9, 2, 4, 8, 5, 6,
    9, 6, 1, 5, 3, 7, 2, 8, 4,
    2, 8, 7, 4, 1, 9, 6, 3, 5,
    3, 4, 5, 2, 8, 6, 1, 7, 9,
];

const ESCARGOT: [u8; 81] = [
    1, 0, 0, 0, 0, 7, 0, 9, 0,
    0, 3, 0, 0, 2, 0, 0, 0, 8,
    0, 0, 9, 6, 0, 0, 5, 0, 0,
    0, 0, 5, 3, 0, 0, 9, 0, 0,
    0, 1, 0, 0, 8, 0, 0, 0, 2,
    6, 0, 0, 0, 0, 4, 0, 0, 0,
    3, 0, 0, 0, 0, 0, 0, 1, 0,
    0, 4, 0, 0, 0, 0, 0, 0, 7,
    0, 0, 7, 0, 0, 0, 3, 0, 0,
];

const ESCARGOT_SOLVED: [u8; 81] = [
    1, 6, 2, 8, 5, 7, 4, 9, 3,
    5, 3, 4, 1, 2, 9, 6, 7, 8,
    7, 8, 9, 6, 4, 3, 5, 2, 1,
    4, 7, 5, 3, 1, 2, 9, 8, 6,
    9, 1, 3, 5, 8, 6, 7, 4, 2,
    6, 2, 8, 7, 9, 4, 1, 3, 5,
    3, 5, 6, 4, 7, 8, 2, 1, 9,
    2, 4, 1, 9, 3, 5, 8, 6, 7,
    8, 9, 7, 2, 6, 1, 3, 5, 4,
];

const INKALA: [u8; 81] = [
    8, 0, 0, 0, 0, 0, 0, 0, 0,
    0, 0, 3, 6, 0, 0, 0, 0, 0,
    0, 7, 0, 0, 9, 0, 2, 0, 0,
    0, 5, 0, 0, 0, 7, 0, 0, 0,
    0, 0, 0, 0, 4, 5, 7, 0, 0,
    0, 0, 0, 1, 0, 0, 0, 3, 0,
    0, 0, 1, 0, 0, 0, 0, 6, 8,
    0, 0, 8, 5, 0, 0, 0, 1, 0,
    0, 9, 0, 0, 0, 0, 4, 0, 0,
];

const INKALA_SOLVED: [u8; 81] = [
    8, 1, 2, 7, 5, 3, 6, 4, 9,
    9, 4, 3, 6, 8, 2, 1, 7, 5,
    6, 7, 5, 4, 9, 1, 2, 8, 3,
    1, 5, 4, 2, 3, 7, 8, 9, 6,
    3, 6, 9, 8, 4, 5, 7, 2, 1,
    2, 8, 7, 1, 6, 9, 5, 3, 4,
    5, 2, 1, 9, 7, 4, 3, 6, 8,
    4, 3, 8, 5, 2, 6, 9, 1, 7,
    7, 9, 6, 3, 1, 8, 4, 5, 2,
];

const SPARSE: [u8; 81] = [
    0, 0, 0, 0, 0, 0, 0, 0, 0,
    0, 0, 0, 0, 0, 0, 0, 0, 0,
    0, 0, 0, 0, 0, 0, 6, 0, 0,
    0, 0, 0, 0, 9, 0, 0, 0, 0,
    0, 0, 0, 0, 0, 0, 0, 0, 0,
    0, 0, 0, 0, 4, 0, 0, 6, 0,
    0, 0, 0, 0, 0, 0, 0, 0, 0,
    0, 0, 0, 0, 0, 0, 0, 0, 0,
    0, 0, 0, 0, 0, 0, 0, 0, 0,
];

/// Whether each row, each column and each block holds each digit once.
fn is_finished(cells: &[u8; 81]) -> bool {
    let units = (0..9).flat_map(|u| {
        let row: Vec<usize> = (0..9).map(|k| u * 9 + k).collect();
        let col: Vec<usize> = (0..9).map(|k| k * 9 + u).collect();
        let block: Vec<usize> =
            (0..9).map(|k| (u / 3 * 3 + k / 3) * 9 + u % 3 * 3 + k % 3).collect();
        [row, col, block]
    });
    for unit in units {
        for digit in 1..=9u8 {
            if unit.iter().filter(|&&c| cells[c] == digit).count() != 1 {
                return false;
            }
        }
    }
    true
}

fn keeps(output: &[u8; 81], input: &[u8; 81]) -> bool {
    (0..81).all(|i| input[i] == 0 || output[i] == input[i])
}

/// The classic solution with the first cell empty and the fourth row
/// emptied but for a five at its start: the first cell has no digit left.
fn dead() -> [u8; 81] {
    let mut cells = CLASSIC_SOLVED;
    cells[0] = 0;
    for col in 0..9 {
        cells[27 + col] = 0;
    }
    cells[27] = 5;
    cells
}

/// The classic solution with the first cell empty and the last two cells
/// exchanged: two columns hold a digit twice.
fn clashing() -> [u8; 81] {
    let mut cells = CLASSIC_SOLVED;
    cells[0] = 0;
    cells.swap(79, 80);
    cells
}

fn test(input: [u8; 81], output: [u8; 81]) {
    let input = Board { inner: input };
    let (board, solved) = solve(input, false);
    assert!(solved);
    assert!(board.inner == output);
}

#[test]
fn test_puzzle1() {
    test(CLASSIC, CLASSIC_SOLVED);
}

#[test]
fn test_puzzle2() {
    test(ESCARGOT, ESCARGOT_SOLVED);
}

#[test]
fn test_puzzle3() {
    test(INKALA, INKALA_SOLVED);
}

#[test]
fn classic_puzzle_is_solved() {
    let (board, solved) = solve(Board { inner: CLASSIC }, false);
    assert!(solved);
    assert_eq!(board.inner, CLASSIC_SOLVED);
    assert!(is_finished(&board.inner));
    assert!(keeps(&board.inner, &CLASSIC));
}

#[test]
fn the_flag_for_reports_changes_no_result() {
    let (board, solved) = solve(Board { inner: ESCARGOT }, true);
    assert!(solved);
    assert_eq!(board.inner, ESCARGOT_SOLVED);
}

#[test]
fn a_finished_grid_is_returned_as_it_is() {
    let (board, solved) = solve(Board { inner: CLASSIC_SOLVED }, false);
    assert!(solved);
    assert_eq!(board.inner, CLASSIC_SOLVED);
    assert_eq!(count_solutions(Board { inner: CLASSIC_SOLVED }), 1);
}

#[test]
fn empty_grid_is_solved() {
    let (board, solved) = solve(Board { inner: [0; 81] }, false);
    assert!(solved);
    assert!(is_finished(&board.inner));
    assert!(board.is_solved());
    assert_eq!(board.empty_squares(), 0);
}

#[test]
fn a_grid_with_many_solutions_gets_one_of_them() {
    let (board, solved) = solve(Board { inner: SPARSE }, false);
    assert!(solved);
    assert!(is_finished(&board.inner));
    assert!(keeps(&board.inner, &SPARSE));
}

#[test]
fn a_grid_without_a_solution_comes_back_as_deduction_left_it() {
    let (board, solved) = solve(Board { inner: dead() }, false);
    assert!(!solved);
    let mut expected = CLASSIC_SOLVED;
    expected[0] = 0;
    expected[27] = 5;
    expected[28] = 0;
    assert_eq!(board.inner, expected);
    assert!(keeps(&board.inner, &dead()));
    assert_eq!(count_solutions(Board { inner: dead() }), 0);
}

#[test]
fn a_grid_with_a_clash_is_filled_all_the_same() {
    let (board, solved) = solve(Board { inner: clashing() }, false);
    assert!(solved);
    let mut expected = CLASSIC_SOLVED;
    expected.swap(79, 80);
    assert_eq!(board.inner, expected);
    assert!(!is_finished(&board.inner));
    assert_eq!(count_solutions(Board { inner: clashing() }), 1);
}

#[test]
fn classic_puzzle_counts_one() {
    assert_eq!(count_solutions(Board { inner: CLASSIC }), 1);
}

#[test]
fn generated_boards_are_finished_games() {
    for _ in 0..200 {
        let cells = generate_solved_board();
        assert!(is_finished(&cells));
        assert!(Board { inner: cells }.is_solved());
        assert_eq!(Board { inner: cells }.empty_squares(), 0);
    }
}

#[test]
fn generated_boards_differ() {
    let boards: Vec<[u8; 81]> = (0..20).map(|_| generate_solved_board()).collect();
    // The first row is shuffled: it is not always the digits in order.
    assert!(boards.iter().any(|b| b[..9] != [1, 2, 3, 4, 5, 6, 7, 8, 9]));
    assert!(boards.iter().any(|b| b != &boards[0]));
    // Rows and columns change places: a board is not always the first row
    // turned by three from row to row.
    assert!(boards.iter().any(|b| (0..9).any(|c| b[9 + c] != b[(c + 3) % 9])));
}

#[test]
fn generated_boards_solve_to_themselves() {
    let cells = generate_solved_board();
    let (board, solved) = solve(Board { inner: cells }, false);
    assert!(solved);
    assert_eq!(board.inner, cells);
    let mut holes = cells;
    holes[0] = 0;
    holes[40] = 0;
    holes[80] = 0;
    let (board, solved) = solve(Board { inner: holes }, false);
    assert!(solved);
    assert_eq!(board.inner, cells);
}
