use solver::{Board, Solver, Square, SpeculationState};

const CLASSIC: [u8; 81] = [
    5, 3, 0, 0, 7, 0, 0, 0, 0,
    6, 0, 0, 1, 9, 5, 0, 0, 0,
    0, 9, 8, 0, 0, 0, 0, 6, 0,
    8, 0, 0, 0, 6, 0, 0, 0, 3,
    4, 0, 0, 8, 0, 3, 0, 0, 1,
    7, 0, 0, 0, 2, 0, 0, 0, 6,
    0, 6, 0, 0, 0, 0, 2, 8, 0,
    0, 0, 0, 4, 1, 9, 0, 0, 5,
    0, 0, 0, 0, 8, 0, 0, 7, 9,
];

const CLASSIC_SOLVED: [u8; 81] = [
    5, 3, 4, 6, 7, 8, 9, 1, 2,
    6, 7, 2, 1, 9, 5, 3, 4, 8,
    1, 9, 8, 3, 4, 2, 5, 6, 7,
    8, 5, 9, 7, 6, 1, 4, 2, 3,
    4, 2, 6, 8, 5, 3, 7, 9, 1,
    7, 1, 3, 9, 2, 4, 8, 5, 6,
    9, 6, 1, 5, 3, 7, 2, 8, 4,
    2, 8, 7, 4, 1, 9, 6, 3, 5,
    3, 4, 5, 2, 8, 6, 1, 7, 9,
];

const ESCARGOT: [u8; 81] = [
    1, 0, 0, 0, 0, 7, 0, 9, 0,
    0, 3, 0, 0, 2, 0, 0, 0, 8,
    0, 0, 9, 6, 0, 0, 5, 0, 0,
    0, 0, 5, 3, 0, 0, 9, 0, 0,
    0, 1, 0, 0, 8, 0, 0, 0, 2,
    6, 0, 0, 0, 0, 4, 0, 0, 0,
    3, 0, 0, 0, 0, 0, 0, 1, 0,
    0, 4, 0, 0, 0, 0, 0, 0, 7,
    0, 0, 7, 0, 0, 0, 3, 0, 0,
];

/// Four ones that leave the top left cell as the only place for a one in
/// its row, in its column and in its block, while the cell itself may
/// still take eight digits.
fn ones() -> [u8; 81] {
    let mut cells = [0u8; 81];
    cells[1 * 9 + 3] = 1;
    cells[2 * 9 + 6] = 1;
    cells[3 * 9 + 1] = 1;
    cells[6 * 9 + 2] = 1;
    cells
}

fn square(index: usize) -> Square {
    Square::new(index).unwrap()
}

fn state_of(cells: [u8; 81]) -> SpeculationState {
    SpeculationState::new_initial(Board { inner: cells })
}

#[test]
fn classic_puzzle_falls_to_deduction_alone() {
    let mut state = state_of(CLASSIC);
    Solver::place_obvious(&mut state);
    assert!(state.is_solved());
    assert_eq!(state.remaining_empty(), 0);
    assert_eq!(state.board().inner, CLASSIC_SOLVED);
    assert!(state.board().is_solved());
    for index in 0..81 {
        assert_eq!(state.candidates(square(index)), 0);
    }
}

#[test]
fn deduction_twice_is_deduction_once() {
    for cells in [CLASSIC, ESCARGOT, ones(), [0u8; 81]] {
        let mut once = state_of(cells);
        Solver::place_obvious(&mut once);
        let mut twice = once;
        Solver::place_obvious(&mut twice);
        assert_eq!(twice.board().inner, once.board().inner);
        assert_eq!(twice.remaining_empty(), once.remaining_empty());
        for index in 0..81 {
            assert_eq!(twice.candidates(square(index)), once.candidates(square(index)));
        }
        for unit in 0..27 {
            assert_eq!(twice.present(unit), once.present(unit));
        }
    }
}

#[test]
fn deduction_leaves_the_empty_grid_alone() {
    let mut state = state_of([0; 81]);
    Solver::place_obvious(&mut state);
    assert_eq!(state.remaining_empty(), 81);
    assert_eq!(state.board().inner, [0u8; 81]);
}

#[test]
fn deduction_keeps_the_given_digits() {
    let mut state = state_of(ESCARGOT);
    Solver::place_obvious(&mut state);
    assert_eq!(state.remaining_empty(), 57);
    let board = state.board();
    for index in 0..81 {
        if ESCARGOT[index] != 0 {
            assert_eq!(board.inner[index], ESCARGOT[index]);
        }
    }
}

#[test]
fn cell_pass_fills_a_cell_with_one_candidate() {
    let mut cells = CLASSIC_SOLVED;
    cells[0] = 0;
    cells[40] = 0;
    let mut state = state_of(cells);
    assert_eq!(state.candidates(square(0)), 0xFC20);
    let mut made_move = false;
    Solver::fill_squares(&mut state, &mut made_move);
    assert!(made_move);
    assert_eq!(state.board().inner, CLASSIC_SOLVED);
    assert_eq!(state.remaining_empty(), 0);
}

#[test]
fn cell_pass_without_a_single_changes_nothing() {
    let mut state = state_of(ones());
    let mut made_move = false;
    Solver::fill_squares(&mut state, &mut made_move);
    assert!(!made_move);
    assert_eq!(state.board().inner, ones());
    assert_eq!(state.remaining_empty(), 77);
    // A flag that is set stays set.
    let mut made_move = true;
    Solver::fill_squares(&mut state, &mut made_move);
    assert!(made_move);
    assert_eq!(state.remaining_empty(), 77);
}

#[test]
fn row_pass_finds_the_only_place_of_a_digit() {
    let mut state = state_of(ones());
    assert_eq!(state.candidates(square(0)), 0xFFFE);
    let mut made_move = false;
    Solver::fill_rows(&mut state, &mut made_move);
    assert!(made_move);
    let mut expected = ones();
    expected[0] = 1;
    assert_eq!(state.board().inner, expected);
    assert_eq!(state.remaining_empty(), 76);
}

#[test]
fn column_pass_finds_the_only_place_of_a_digit() {
    let mut state = state_of(ones());
    let mut made_move = false;
    Solver::fill_columns(&mut state, &mut made_move);
    assert!(made_move);
    let mut expected = ones();
    expected[0] = 1;
    assert_eq!(state.board().inner, expected);
    assert_eq!(state.remaining_empty(), 76);
}

#[test]
fn block_pass_finds_the_only_place_of_a_digit() {
    let mut state = state_of(ones());
    let mut made_move = false;
    Solver::fill_blocks(&mut state, &mut made_move);
    assert!(made_move);
    let mut expected = ones();
    expected[0] = 1;
    assert_eq!(state.board().inner, expected);
    assert_eq!(state.remaining_empty(), 76);
}

#[test]
fn unit_pass_works_on_one_unit_only() {
    // The only place of the one is found from its row, its column and its
    // block, and from no other unit.
    for unit in 0..27 {
        let mut state = state_of(ones());
        let mut made_move = false;
        Solver::fill_unit(&mut state, unit, &mut made_move);
        let found = unit == 0 || unit == 9 || unit == 18;
        assert_eq!(made_move, found, "unit {}", unit);
        assert_eq!(state.board().inner[0], if found { 1 } else { 0 });
        assert_eq!(state.remaining_empty(), if found { 76 } else { 77 });
    }
}

#[test]
fn deduction_ends_where_nothing_is_left_to_deduce() {
    let mut state = state_of(ones());
    Solver::place_obvious(&mut state);
    let mut expected = ones();
    expected[0] = 1;
    assert_eq!(state.board().inner, expected);
    assert_eq!(state.remaining_empty(), 76);
    let mut made_move = false;
    Solver::fill_squares(&mut state, &mut made_move);
    Solver::fill_rows(&mut state, &mut made_move);
    Solver::fill_columns(&mut state, &mut made_move);
    Solver::fill_blocks(&mut state, &mut made_move);
    assert!(!made_move);
}
