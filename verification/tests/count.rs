use solver::count::{count_below, has_stuck_cell};
use solver::dispatch::{count_branch, count_solutions_from_state, split_branches};
use solver::{count_solutions, generate_solved_board, Board, Solver, Square, SpeculationState};

const CLASSIC: [u8; 81] = [
    5, 3, 0, 0, 7, 0, 0, 0, 0,
    6, 0, 0, 1, 9, 5, 0, 0, 0,
    0, 9, 8, 0, 0, 0, 0, 6, 0,
    8, 0, 0, 0, 6, 0, 0, 0, 3,
    4, 0, 0, 8, 0, 3, 0, 0, 1,
    7, 0, 0, 0, 2, 0, 0, 0, 6,
    0, 6, 0, 0, 0, 0, 2, 8, 0,
    0, 0, 0, 4, 1, 9, 0, 0, 5,
    0, 0, 0, 0, 8, 0, 0, 7, 9,
];

const ESCARGOT: [u8; 81] = [
    1, 0, 0, 0, 0, 7, 0, 9, 0,
    0, 3, 0, 0, 2, 0, 0, 0, 8,
    0, 0, 9, 6, 0, 0, 5, 0, 0,
    0, 0, 5, 3, 0, 0, 9, 0, 0,
    0, 1, 0, 0, 8, 0, 0, 0, 2,
    6, 0, 0, 0, 0, 4, 0, 0, 0,
    3, 0, 0, 0, 0, 0, 0, 1, 0,
    0, 4, 0, 0, 0, 0, 0, 0, 7,
    0, 0, 7, 0, 0, 0, 3, 0, 0,
];

const ESCARGOT_SOLVED: [u8; 81] = [
    1, 6, 2, 8, 5, 7, 4, 9, 3,
    5, 3, 4, 1, 2, 9, 6, 7, 8,
    7, 8, 9, 6, 4, 3, 5, 2, 1,
    4, 7, 5, 3, 1, 2, 9, 8, 6,
    9, 1, 3, 5, 8, 6, 7, 4, 2,
    6, 2, 8, 7, 9, 4, 1, 3, 5,
    3, 5, 6, 4, 7, 8, 2, 1, 9,
    2, 4, 1, 9, 3, 5, 8, 6, 7,
    8, 9, 7, 2, 6, 1, 3, 5, 4,
];

const INKALA: [u8; 81] = [
    8, 0, 0, 0, 0, 0, 0, 0, 0,
    0, 0, 3, 6, 0, 0, 0, 0, 0,
    0, 7, 0, 0, 9, 0, 2, 0, 0,
    0, 5, 0, 0, 0, 7, 0, 0, 0,
    0, 0, 0, 0, 4, 5, 7, 0, 0,
    0, 0, 0, 1, 0, 0, 0, 3, 0,
    0, 0, 1, 0, 0, 0, 0, 6, 8,
    0, 0, 8, 5, 0, 0, 0, 1, 0,
    0, 9, 0, 0, 0, 0, 4, 0, 0,
];

const INKALA_SOLVED: [u8; 81] = [
    8, 1, 2, 7, 5, 3, 6, 4, 9,
    9, 4, 3, 6, 8, 2, 1, 7, 5,
    6, 7, 5, 4, 9, 1, 2, 8, 3,
    1, 5, 4, 2, 3, 7, 8, 9, 6,
    3, 6, 9, 8, 4, 5, 7, 2, 1,
    2, 8, 7, 1, 6, 9, 5, 3, 4,
    5, 2, 1, 9, 7, 4, 3, 6, 8,
    4, 3, 8, 5, 2, 6, 9, 1, 7,
    7, 9, 6, 3, 1, 8, 4, 5, 2,
];

const CLASSIC_SOLVED: [u8; 81] = [
    5, 3, 4, 6, 7, 8, 9, 1, 2,
    6, 7, 2, 1, 9, 5, 3, 4, 8,
    1, 9, 8, 3, 4, 2, 5, 6, 7,
    8, 5, 9, 7, 6, 1, 4, 2, 3,
    4, 2, 6, 8, 5, 3, 7, 9, 1,
    7, 1, 3, 9, 2, 4, 8, 5, 6,
    9, 6, 1, 5, 3, 7, 2, 8, 4,
    2, 8, 7, 4, 1, 9, 6, 3, 5,
    3, 4, 5, 2, 8, 6, 1, 7, 9,
];

/// Counts the completions of a grid by trying every digit in every empty
/// cell in turn.
fn brute(cells: &mut [u8; 81], from: usize) -> u64 {
    let mut at = from;
    while at < 81 && cells[at] != 0 {
        at += 1;
    }
    if at == 81 {
        return 1;
    }
    let (row, col) = (at / 9, at % 9);
    let mut total = 0;
    for digit in 1..=9u8 {
        let clash = (0..9).any(|k| {
            cells[row * 9 + k] == digit
                || cells[k * 9 + col] == digit
                || cells[(row / 3 * 3 + k / 3) * 9 + col / 3 * 3 + k % 3] == digit
        });
        if !clash {
            cells[at] = digit;
            total += brute(cells, at + 1);
            cells[at] = 0;
        }
    }
    total
}

fn without(cells: [u8; 81], digits: &[u8]) -> [u8; 81] {
    let mut out = cells;
    for c in out.iter_mut() {
        if digits.contains(c) {
            *c = 0;
        }
    }
    out
}

fn rows_emptied(rows: usize) -> [u8; 81] {
    let mut cells = CLASSIC_SOLVED;
    for cell in cells.iter_mut().take(rows * 9) {
        *cell = 0;
    }
    cells
}

/// The classic solution with the first cell empty and the fourth row
/// emptied but for a five at its start: the first cell has no digit left.
fn dead() -> [u8; 81] {
    let mut cells = CLASSIC_SOLVED;
    cells[0] = 0;
    for col in 0..9 {
        cells[27 + col] = 0;
    }
    cells[27] = 5;
    cells
}

fn square(index: usize) -> Square {
    Square::new(index).unwrap()
}

fn state_of(cells: [u8; 81]) -> SpeculationState {
    SpeculationState::new_initial(Board { inner: cells })
}

fn deduced(cells: [u8; 81]) -> SpeculationState {
    let mut state = state_of(cells);
    Solver::place_obvious(&mut state);
    state
}

#[test]
fn one_solution_counts_one() {
    assert_eq!(count_solutions(Board { inner: CLASSIC }), 1);
    assert_eq!(count_solutions(Board { inner: ESCARGOT }), 1);
    assert_eq!(count_solutions(Board { inner: INKALA }), 1);
    assert_eq!(count_solutions(Board { inner: CLASSIC_SOLVED }), 1);
}

#[test]
fn no_solution_counts_zero() {
    assert_eq!(count_solutions(Board { inner: dead() }), 0);
    // Two cells of a row that can only take the same digit.
    let mut cells = CLASSIC_SOLVED;
    cells[0] = 0;
    cells[1] = 0;
    cells[10] = 5;
    cells[12] = 7;
    assert_eq!(brute(&mut cells.clone(), 0), 0);
    assert_eq!(count_solutions(Board { inner: cells }), 0);
}

#[test]
fn each_completion_counts_once() {
    // Two digits taken out everywhere: they can go back as they were, or
    // the other way round.
    assert_eq!(count_solutions(Board { inner: without(CLASSIC_SOLVED, &[1, 2]) }), 2);
    assert_eq!(count_solutions(Board { inner: without(CLASSIC_SOLVED, &[1, 2, 3]) }), 18);
    assert_eq!(count_solutions(Board { inner: rows_emptied(3) }), 144);
    assert_eq!(count_solutions(Board { inner: rows_emptied(4) }), 1224);
}

#[test]
fn the_count_is_the_number_of_completions() {
    let grids = [
        without(CLASSIC_SOLVED, &[4, 5]),
        without(CLASSIC_SOLVED, &[7, 8, 9]),
        without(ESCARGOT_SOLVED, &[1, 5, 9]),
        without(INKALA_SOLVED, &[2, 3, 4, 6]),
        rows_emptied(2),
    ];
    for cells in grids {
        let expected = brute(&mut cells.clone(), 0);
        assert!(expected >= 1);
        assert_eq!(count_solutions(Board { inner: cells }) as u64, expected);
        assert_eq!(count_solutions_from_state(state_of(cells)) as u64, expected);
    }
}

#[test]
fn holes_in_generated_boards_count_as_brute_force_counts() {
    for _ in 0..10 {
        let full = generate_solved_board();
        let cells = without(full, &[full[0], full[1], full[2]]);
        let expected = brute(&mut cells.clone(), 0);
        assert!(expected >= 1);
        assert_eq!(count_solutions(Board { inner: cells }) as u64, expected);
    }
}

#[test]
fn a_grid_with_a_clash_is_counted_as_it_is_filled() {
    // The first cell is empty and the last two cells are exchanged: no
    // finished game completes the grid, but deduction fills it.
    let mut cells = CLASSIC_SOLVED;
    cells[0] = 0;
    cells.swap(79, 80);
    assert_eq!(brute(&mut cells.clone(), 0), 1);
    assert_eq!(count_solutions(Board { inner: cells }), 1);
}

#[test]
fn one_worker_counts_all_below_a_state() {
    assert_eq!(count_solutions_from_state(state_of(CLASSIC)), 1);
    assert_eq!(count_solutions_from_state(state_of(ESCARGOT)), 1);
    assert_eq!(count_solutions_from_state(state_of(dead())), 0);
    assert_eq!(count_solutions_from_state(state_of(rows_emptied(3))), 144);

    let state = deduced(rows_emptied(3));
    assert!(!state.is_solved());
    assert_eq!(count_below(state), 144);
    assert_eq!(count_branch(state), 144);
    let state = deduced(without(CLASSIC_SOLVED, &[1, 2]));
    assert!(!state.is_solved());
    assert_eq!(count_below(state), 2);
    assert_eq!(count_below(deduced(dead())), 0);
    assert_eq!(count_below(deduced(ESCARGOT)), 1);
}

#[test]
fn a_state_whose_candidates_are_struck_counts_what_is_left() {
    // Of the two ways to put the ones and twos back, one has a 1 in cell 7.
    let mut state = deduced(without(CLASSIC_SOLVED, &[1, 2]));
    assert_eq!(state.candidates(square(7)) & 0x03FE, 0x0006);
    state.remove_candidate(square(7), 2);
    assert_eq!(count_below(state), 1);
    state.remove_candidate(square(7), 1);
    assert!(has_stuck_cell(&state));
    assert_eq!(count_below(state), 0);
}

#[test]
fn stuck_cells_are_empty_cells_without_a_candidate() {
    assert!(!has_stuck_cell(&state_of(CLASSIC)));
    assert!(!has_stuck_cell(&state_of([0; 81])));
    assert!(!has_stuck_cell(&state_of(CLASSIC_SOLVED)));
    assert!(has_stuck_cell(&state_of(dead())));
    assert!(has_stuck_cell(&deduced(dead())));
    let mut cells = CLASSIC_SOLVED;
    cells[0] = 0;
    let mut state = state_of(cells);
    assert!(!has_stuck_cell(&state));
    state.remove_candidate(square(0), 5);
    assert!(has_stuck_cell(&state));
}

#[test]
fn a_round_of_guesses_keeps_the_count() {
    let root = deduced(rows_emptied(3));
    let mut states = vec![root];
    let mut found = 0;
    for _ in 0..6 {
        let (next, more) = split_branches(&states);
        assert!(next.len() <= 2 * states.len());
        assert!(more <= states.len());
        found += more;
        states = next;
        let below: u64 = states.iter().map(|s| count_below(*s) as u64).sum();
        assert_eq!(found as u64 + below, 144);
    }
    let (none, zero) = split_branches(&Vec::new());
    assert!(none.is_empty());
    assert_eq!(zero, 0);
    // A stuck state and a full state are dropped.
    let (none, zero) = split_branches(&vec![deduced(dead()), state_of(CLASSIC_SOLVED)]);
    assert!(none.is_empty());
    assert_eq!(zero, 0);
}

#[test]
fn the_first_round_parts_the_root_by_its_first_guess() {
    let root = deduced(without(CLASSIC_SOLVED, &[1, 2]));
    let (next, found) = split_branches(&vec![root]);
    // The guess leads deduction to a full grid, which is counted; the root
    // without the guess is listed.
    assert_eq!(found, 1);
    assert_eq!(next.len(), 1);
    assert_eq!(next[0].board().inner, root.board().inner);
    assert_eq!(next[0].remaining_empty(), root.remaining_empty());
    assert_eq!(count_below(next[0]), 1);
}
