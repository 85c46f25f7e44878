//! A Sudoku solver: constraint propagation on bit-packed candidate sets, and
//! a backtracking search over an explicit stack that is fanned out over
//! parallel workers.

pub mod bits;
pub mod board;
pub mod cancel;
pub mod count;
pub mod dispatch;
pub mod frontier;
pub mod generate;
pub mod grid;
pub mod laws;
pub mod propagate;
pub mod search;
pub mod units;

pub use dispatch::{count_solutions, solve};
pub use frontier::SpeculationState;
pub use generate::generate_solved_board;
pub use board::{Board, InputError, Square};
pub use search::Solver;
