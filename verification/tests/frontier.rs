use solver::{Board, Square, SpeculationState};

const CLASSIC: [u8; 81] = [
    5, 3, 0, 0, 7, 0, 0, 0, 0,
    6, 0, 0, 1, 9, 5, 0, 0, 0,
    0, 9, 8, 0, 0, 0, 0, 6, 0,
    8, 0, 0, 0, 6, 0, 0, 0, 3,
    4, 0, 0, 8, 0, 3, 0, 0, 1,
    7, 0, 0, 0, 2, 0, 0, 0, 6,
    0, 6, 0, 0, 0, 0, 2, 8, 0,
    0, 0, 0, 4, 1, 9, 0, 0, 5,
    0, 0, 0, 0, 8, 0, 0, 7, 9,
];

fn square(index: usize) -> Square {
    Square::new(index).unwrap()
}

/// The digits 1 to 9 of a word.
fn digits(word: u16) -> u16 {
    word & 0x03FE
}

#[test]
fn initial_state_of_the_classic_puzzle() {
    let state = SpeculationState::new_initial(Board { inner: CLASSIC });
    assert_eq!(state.board().inner, CLASSIC);
    assert_eq!(state.remaining_empty(), 51);
    assert!(!state.is_solved());
    assert_eq!(state.candidates(square(0)), 0);
    assert_eq!(state.candidates(square(2)), 0xFC16);
    assert_eq!(state.candidates(square(6)), 0xFF12);
    assert_eq!(state.candidates(square(40)), 0xFC20);
    assert_eq!(state.present(0), 0x00A9);
    assert_eq!(state.present(9 + 2), 0x0101);
    assert_eq!(state.present(18), 0x0369);
}

#[test]
fn initial_candidates_are_the_complement_of_what_the_units_hold() {
    let state = SpeculationState::new_initial(Board { inner: CLASSIC });
    for index in 0..81 {
        let s = square(index);
        let held = state.present(s.row()) | state.present(9 + s.col()) | state.present(18 + s.block());
        if CLASSIC[index] == 0 {
            assert_eq!(digits(state.candidates(s)), digits(!held));
            assert_eq!(state.candidates(s) & 0xFC01, 0xFC00);
        } else {
            assert_eq!(state.candidates(s), 0);
        }
    }
}

#[test]
fn initial_state_of_the_empty_grid() {
    let state = SpeculationState::new_initial(Board { inner: [0; 81] });
    assert_eq!(state.remaining_empty(), 81);
    for index in 0..81 {
        assert_eq!(state.candidates(square(index)), 0xFFFE);
    }
    for unit in 0..27 {
        assert_eq!(state.present(unit), 0x0001);
    }
}

#[test]
fn make_move_enters_a_digit() {
    let mut state = SpeculationState::new_initial(Board { inner: CLASSIC });
    state.make_move(square(2), 4);
    let mut expected = CLASSIC;
    expected[2] = 4;
    assert_eq!(state.board().inner, expected);
    assert_eq!(state.remaining_empty(), 50);
    assert_eq!(state.candidates(square(2)), 0);
    // The row, the column and the block of the cell hold the digit.
    assert_eq!(state.present(0), 0x00B9);
    assert_eq!(state.present(9 + 2), 0x0111);
    assert_eq!(state.present(18), 0x0379);
    // A cell of the same row loses the digit.
    assert_eq!(state.candidates(square(6)), 0xFF02);
    // Filled peers stay without candidates.
    assert_eq!(state.candidates(square(0)), 0);
    // A cell that shares no unit with the cell keeps its candidates.
    assert_eq!(state.candidates(square(40)), 0xFC20);
}

#[test]
fn make_move_keeps_the_candidates_exact() {
    let mut state = SpeculationState::new_initial(Board { inner: CLASSIC });
    state.make_move(square(2), 4);
    state.make_move(square(40), 5);
    let board = state.board();
    for index in 0..81 {
        let s = square(index);
        let held = state.present(s.row()) | state.present(9 + s.col()) | state.present(18 + s.block());
        if board.inner[index] == 0 {
            assert_eq!(digits(state.candidates(s)), digits(!held));
        } else {
            assert_eq!(state.candidates(s), 0);
        }
    }
}

#[test]
fn each_move_fills_one_cell() {
    let mut state = SpeculationState::new_initial(Board { inner: [0; 81] });
    let moves = [(0, 1), (1, 2), (2, 3), (40, 1), (80, 9)];
    let mut remaining = 81;
    for (index, digit) in moves {
        state.make_move(square(index), digit);
        remaining -= 1;
        assert_eq!(state.remaining_empty(), remaining);
    }
    assert_eq!(state.remaining_empty(), 76);
    assert_eq!(state.board().empty_squares(), 76);
}

#[test]
fn make_move_on_the_empty_grid_strikes_the_peers() {
    let mut state = SpeculationState::new_initial(Board { inner: [0; 81] });
    state.make_move(square(40), 7);
    for index in 0..81 {
        let s = square(index);
        let expected = if index == 40 {
            0
        } else if s.row() == 4 || s.col() == 4 || s.block() == 4 {
            0xFF7E
        } else {
            0xFFFE
        };
        assert_eq!(state.candidates(s), expected, "cell {}", index);
    }
}

#[test]
fn remove_candidate_strikes_one_digit_of_one_cell() {
    let mut state = SpeculationState::new_initial(Board { inner: CLASSIC });
    state.remove_candidate(square(2), 2);
    assert_eq!(state.candidates(square(2)), 0xFC12);
    assert_eq!(state.candidates(square(6)), 0xFF12);
    assert_eq!(state.remaining_empty(), 51);
    assert_eq!(state.board().inner, CLASSIC);
}
