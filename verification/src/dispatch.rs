//! The entry points. `solve` runs deduction on the input, and where that
//! does not finish the grid, one search for each first guess, in parallel,
//! until one of them finds a grid. `count_solutions` parts the search into
//! branches that share no finished game, and adds up what one worker for
//! each branch counts.

use crate::bits::lemma_holds_zero;
use crate::board::{Board, Square};
use crate::cancel::{is_raised, new_flag, raise};
use crate::count::{
    completions, completions_of, count_below, count_from, frontiers, has_stuck_cell, leaves,
    lemma_count_from, lemma_count_is_completions, lemma_count_unique, lemma_exact_completions,
    lemma_sum_counts, lemma_sum_push, saturate, sum_counts, sum_leaves,
};
use crate::frontier::{lemma_place, Frontier, SpeculationState};
use crate::grid::{
    consistent, covered, extends, lemma_extends_trans, lemma_solved_is_full_consistent, solved,
    well_formed,
};
use crate::laws::{lemma_solve_from_sound, lemma_solved_state, only_completion};
use crate::propagate::{lemma_propagate, propagate};
use crate::search::{
    grid_of, lemma_guess, lemma_stack_push, search_stack, solve_from, stack_wf, Solver,
};
use rayon::iter::{IntoParallelIterator, ParallelIterator};
use std::sync::atomic::AtomicBool;
use vstd::prelude::*;

verus! {

/// A first guess as mathematics: the number of the cell and the digit.
pub open spec fn move_of(branch: (Square, u8)) -> (int, int) {
    (branch.0@, branch.1 as int)
}

/// The first guesses among the first `n` pairs of a cell and a digit, the
/// pairs taken cell by cell and for each cell digit by digit: each pair of
/// which the cell may take the digit.
pub open spec fn root_moves(f: Frontier, n: int) -> Seq<(int, int)>
    decreases n,
{
    if n <= 0 {
        Seq::empty()
    } else {
        let c = (n - 1) / 9;
        let d = (n - 1) % 9 + 1;
        if f.allows(c, d) {
            root_moves(f, n - 1).push((c, d))
        } else {
            root_moves(f, n - 1)
        }
    }
}

/// The first guesses are pairs of which the cell may take the digit, no
/// more than 729, and every such pair is among them.
pub proof fn lemma_root_moves(f: Frontier, n: int)
    requires
        0 <= n <= 729,
    ensures
        root_moves(f, n).len() <= n,
        forall|i: int| 0 <= i < root_moves(f, n).len() ==> f.allows(
            (#[trigger] root_moves(f, n)[i]).0,
            root_moves(f, n)[i].1,
        ),
        forall|c: int, d: int|
            0 <= c < 81 && 1 <= d <= 9 && c * 9 + d - 1 < n && #[trigger] f.allows(c, d)
                ==> root_moves(f, n).contains((c, d)),
    decreases n,
{
    if n > 0 {
        lemma_root_moves(f, n - 1);
        let s = root_moves(f, n - 1);
        let c0 = (n - 1) / 9;
        let d0 = (n - 1) % 9 + 1;
        assert forall|c: int, d: int|
            0 <= c < 81 && 1 <= d <= 9 && c * 9 + d - 1 < n && #[trigger] f.allows(
                c,
                d,
            ) implies root_moves(f, n).contains((c, d)) by {
            if c * 9 + d - 1 < n - 1 {
                let i = choose|i: int| 0 <= i < s.len() && s[i] == (c, d);
                assert(root_moves(f, n)[i] == (c, d));
            } else {
                assert(c == c0 && d == d0);
                assert(root_moves(f, n)[s.len() as int] == (c, d));
            }
        }
    }
}

/// The first guesses of a state: every pair of a cell and a digit that the
/// cell may take, cell by cell and digit by digit.
pub fn root_branches(state: &SpeculationState) -> (branches: Vec<(Square, u8)>)
    ensures
        branches@.map_values(|b: (Square, u8)| move_of(b)) == root_moves(state@, 729),
        branches@.len() <= 729,
{
    let ghost f = state@;
    let mut branches: Vec<(Square, u8)> = Vec::new();
    let mut square: usize = 0;
    while square < 81
        invariant
            square <= 81,
            state@ == f,
            branches@.map_values(|b: (Square, u8)| move_of(b)) == root_moves(f, square * 9),
            branches@.len() <= square * 9,
        decreases 81 - square,
    {
        let moves = state.candidates(Square::at(square));
        if moves != 0 {
            let mut i: u8 = 1;
            while i < 10
                invariant
                    1 <= i <= 10,
                    square < 81,
                    state@ == f,
                    moves == f.candidates[square as int],
                    branches@.map_values(|b: (Square, u8)| move_of(b)) == root_moves(
                        f,
                        square * 9 + i - 1,
                    ),
                    branches@.len() <= square * 9 + i - 1,
                decreases 10 - i,
            {
                let ghost before = branches@;
                if moves & (1u16 << i) != 0 {
                    branches.push((Square::at(square), i));
                    proof {
                        assert(branches@.map_values(|b: (Square, u8)| move_of(b)) =~= before.map_values(
                            |b: (Square, u8)| move_of(b),
                        ).push((square as int, i as int)));
                    }
                }
                proof {
                    let n = square * 9 + i;
                    assert((n - 1) / 9 == square && (n - 1) % 9 + 1 == i);
                }
                i += 1;
            }
        } else {
            proof {
                lemma_no_moves(f, square as int, 9);
            }
        }
        square += 1;
    }
    branches
}

/// A cell without a word has no first guess.
proof fn lemma_no_moves(f: Frontier, c: int, k: int)
    requires
        0 <= c < 81,
        0 <= k <= 9,
        f.candidates[c] == 0,
    ensures
        root_moves(f, c * 9 + k) == root_moves(f, c * 9),
    decreases k,
{
    if k > 0 {
        lemma_no_moves(f, c, k - 1);
        let n = c * 9 + k;
        assert((n - 1) / 9 == c && (n - 1) % 9 + 1 == k);
        lemma_holds_zero(k);
    }
}

/// The work of one worker of `solve` on one first guess. It reads the
/// flag and goes on as `search_branch` says for what it read: nothing is
/// done if the flag was seen raised, and a grid that comes back is what one
/// worker finds from the root state with the guess entered.
pub fn try_branch(root: &SpeculationState, branch: (Square, u8), solved: &AtomicBool) -> (res:
    Option<Board>)
    requires
        root@.wf(),
        root@.allows(branch.0@, branch.1 as int),
    ensures
        res.is_some() ==> grid_of(res) == solve_from(root@.place(branch.0@, branch.1 as int)),
{
    let raised = is_raised(solved);
    search_branch(root, branch, raised, solved)
}

/// What a worker of `solve` does with a first guess once it has read the
/// flag. With `raised` it does nothing and returns `None`. Else it enters
/// the guess on a copy of the root state and searches from there; if it
/// finds a grid it raises the flag. Where deduction alone fills the grid
/// after the guess, that grid is returned; where a search is needed, the
/// flag is read again before each cycle, and a grid that comes back is
/// the one that the search finds.
pub fn search_branch(
    root: &SpeculationState,
    branch: (Square, u8),
    raised: bool,
    solved: &AtomicBool,
) -> (res: Option<Board>)
    requires
        root@.wf(),
        root@.allows(branch.0@, branch.1 as int),
    ensures
        raised ==> res.is_none(),
        !raised && propagate(root@.place(branch.0@, branch.1 as int)).solved() ==> grid_of(res)
            == Some(propagate(root@.place(branch.0@, branch.1 as int)).grid),
        res.is_some() ==> grid_of(res) == solve_from(root@.place(branch.0@, branch.1 as int)),
{
    if raised {
        return None;
    }
    let mut initial_state = *root;
    initial_state.make_move(branch.0, branch.1);
    let mut solver = Solver::default();
    proof {
        lemma_stack_push(solver@, propagate(initial_state@));
        assert(search_stack(solver@).is_none());
    }
    let result = solver.solve(initial_state, solved);
    if result.is_some() {
        raise(solved);
    }
    result
}

/// The work of one worker of `count_solutions`: the number of full grids
/// below a state that is not full, as the counter holds it.
pub fn count_branch(state: SpeculationState) -> (n: u64)
    requires
        state@.wf(),
    ensures
        n == saturate(leaves(state@) as int),
{
    let n = count_below(state);
    n as u64
}

/// Counts the full grids that are reached from a state: it deduces, counts
/// 1 if the grid is full, and else searches to the end and counts every
/// full grid on the way. For a state without a clash that is the number of
/// finished games that the state can become, up to the counter's highest
/// value.
pub fn count_solutions_from_state(initial: SpeculationState) -> (n: u32)
    requires
        initial@.wf(),
    ensures
        n == saturate(count_from(initial@) as int),
        consistent(initial@.grid) ==> completions_of(initial@).finite() && n == saturate(
            completions_of(initial@).len() as int,
        ),
        consistent(initial@.grid) && initial@.exact() ==> n == saturate(
            completions(initial@.grid).len() as int,
        ),
{
    proof {
        if consistent(initial@.grid) {
            lemma_count_from(initial@);
            if initial@.exact() {
                lemma_exact_completions(initial@);
            }
        }
    }
    let mut state = initial;
    Solver::place_obvious(&mut state);

    if state.is_solved() {
        return 1;
    }
    count_below(state)
}

/// One round of guesses on a list of states: each state that has a guess
/// gives way to the state without the guess and the state with the guess
/// entered and deduction run; a state without a guess, or with a stuck
/// cell, is dropped. Full grids that turn up are counted and not listed.
pub fn split_branches(states: &Vec<SpeculationState>) -> (res: (Vec<SpeculationState>, usize))
    requires
        stack_wf(frontiers(states@)),
    ensures
        stack_wf(frontiers(res.0@)),
        res.1 + sum_leaves(frontiers(res.0@)) == sum_leaves(frontiers(states@)),
        res.0@.len() <= 2 * states@.len(),
        res.1 <= states@.len(),
{
    let mut next: Vec<SpeculationState> = Vec::new();
    let mut found: usize = 0;
    let mut i: usize = 0;
    proof {
        assert(frontiers(states@.take(0)) =~= Seq::<Frontier>::empty());
        assert(frontiers(next@) =~= Seq::<Frontier>::empty());
    }
    while i < states.len()
        invariant
            i <= states@.len(),
            stack_wf(frontiers(states@)),
            stack_wf(frontiers(next@)),
            found + sum_leaves(frontiers(next@)) == sum_leaves(frontiers(states@.take(i as int))),
            next@.len() <= 2 * i,
            found <= i,
        decreases states@.len() - i,
    {
        let mut state = states[i];
        let ghost top = state@;
        let ghost listed = frontiers(next@);
        proof {
            assert(frontiers(states@)[i as int] == top);
            assert(top.wf());
            assert(frontiers(states@.take(i + 1)) =~= frontiers(states@.take(i as int)).push(top));
            lemma_sum_push(frontiers(states@.take(i as int)), top);
        }
        if !has_stuck_cell(&state) {
            match Solver::get_speculation(&mut state) {
                None => {},
                Some(new) => {
                    let mut child = new;
                    Solver::place_obvious(&mut child);
                    proof {
                        lemma_guess(top);
                        lemma_sum_push(listed, state@);
                    }
                    next.push(state);
                    proof {
                        assert(frontiers(next@) =~= listed.push(state@));
                    }
                    if child.is_solved() {
                        found += 1;
                    } else {
                        proof {
                            lemma_sum_push(listed.push(state@), child@);
                        }
                        next.push(child);
                        proof {
                            assert(frontiers(next@) =~= listed.push(state@).push(child@));
                        }
                    }
                },
            }
        }
        i += 1;
    }
    proof {
        assert(states@.take(states@.len() as int) =~= states@);
    }
    (next, found)
}

/// Runs `try_branch` on the first guesses, in parallel, and hands back the
/// grid of one that found one.
///
/// Not proved, but taken from rayon: the list goes through
/// `IntoParallelIterator::into_par_iter` and
/// `ParallelIterator::find_map_any`, which returns `None` or a value that
/// its closure returned for one of the items. The closure is one call of
/// `try_branch`, so a grid that comes back is what `try_branch` promises
/// for one of the guesses. Nothing is claimed of `None`: a worker also
/// returns it when it saw the flag raised.
#[verifier::external_body]
fn find_any_solution(root: &SpeculationState, branches: Vec<(Square, u8)>, solved: &AtomicBool) -> (res:
    Option<Board>)
    requires
        root@.wf(),
        forall|i: int|
            0 <= i < branches@.len() ==> root@.allows(
                (#[trigger] branches@[i]).0@,
                branches@[i].1 as int,
            ),
    ensures
        res.is_some() ==> exists|i: int|
            0 <= i < branches@.len() && grid_of(res) == #[trigger] solve_from(
                root@.place(branches@[i].0@, branches@[i].1 as int),
            ),
{
    branches.into_par_iter().find_map_any(|branch| try_branch(root, branch, solved))
}

/// Runs `count_branch` on every state of a list, in parallel, and adds
/// up what the calls return.
///
/// Not proved, but taken from rayon: the list goes through
/// `IntoParallelIterator::into_par_iter`, `ParallelIterator::map` and
/// `ParallelIterator::sum`, which hand each item to the closure once and
/// add up what it returns. The closure is one call of `count_branch`, which
/// returns a count that fits 32 bits, so the sum of as many counts as 32
/// bits can number fits the 64 bits of the result.
#[verifier::external_body]
fn sum_over_branches(states: Vec<SpeculationState>) -> (n: u64)
    requires
        stack_wf(frontiers(states@)),
        states@.len() <= u32::MAX,
    ensures
        n == sum_counts(frontiers(states@)),
{
    states.into_par_iter().map(|state| count_branch(state)).sum()
}

/// The answer of `solve` once the workers are done: the grid that one of
/// them found, or the grid of the root state and `false`.
pub fn settle(root: &SpeculationState, result: Option<Board>) -> (res: (Board, bool))
    ensures
        res.0@ == match result {
            Some(b) => b@,
            None => root@.grid,
        },
        res.1 == result.is_some(),
{
    match result {
        Some(res) => (res, true),
        None => (root.board(), false),
    }
}

/// Solves a grid as far as it can. Deduction is run on the input; where
/// it fills the grid, that grid is returned, with the outcome of the check
/// that every cell sees every digit. Else one worker for each first guess
/// searches in parallel, and the grid of one that found one is returned
/// with `true`; if none found one, the grid as deduction left it is
/// returned with `false`. `print_dbg` is for callers that report progress;
/// nothing is written here.
pub fn solve(input: Board, print_dbg: bool) -> (res: (Board, bool))
    requires
        well_formed(input@),
    ensures
        well_formed(res.0@),
        extends(res.0@, input@),
        consistent(input@) && res.1 ==> solved(res.0@),
        ({
            let root = propagate(Frontier::initial(input@));
            if root.solved() {
                res.0@ == root.grid && res.1 == covered(root.grid)
            } else if res.1 {
                exists|c: int, d: int|
                    root.allows(c, d) && #[trigger] solve_from(root.place(c, d)) == Some(res.0@)
            } else {
                res.0@ == root.grid
            }
        }),
{
    let mut initial = SpeculationState::new_initial(input);
    let ghost start = initial@;

    Solver::place_obvious(&mut initial);
    let ghost root = initial@;
    proof {
        lemma_propagate(start);
    }

    if initial.is_solved() {
        let board = initial.board();
        proof {
            lemma_solved_state(root);
            if consistent(input@) {
                lemma_solved_is_full_consistent(root.grid);
            }
        }
        return (board, board.is_solved());
    }
    let initial_moves = root_branches(&initial);
    proof {
        lemma_root_moves(root, 729);
        assert forall|i: int| 0 <= i < initial_moves@.len() implies root.allows(
            (#[trigger] initial_moves@[i]).0@,
            initial_moves@[i].1 as int,
        ) by {
            let m = initial_moves@.map_values(|b: (Square, u8)| move_of(b));
            assert(m[i] == move_of(initial_moves@[i]));
        }
    }

    let solved = new_flag();

    let result = find_any_solution(&initial, initial_moves, &solved);
    proof {
        if result.is_some() {
            let i = choose|i: int|
                0 <= i < initial_moves@.len() && grid_of(result) == #[trigger] solve_from(
                    root.place(initial_moves@[i].0@, initial_moves@[i].1 as int),
                );
            let c = initial_moves@[i].0@;
            let d = initial_moves@[i].1 as int;
            let entered = root.place(c, d);
            lemma_place(root, c, d);
            lemma_solve_from_sound(entered);
            let g = solve_from(entered).unwrap();
            lemma_extends_trans(g, entered.grid, root.grid);
            lemma_extends_trans(g, root.grid, input@);
            assert(solve_from(root.place(c, d)) == Some(g));
        }
    }
    settle(&initial, result)
}

/// Counts the finished games that complete a grid. Deduction is run on
/// the input; where it fills the grid the count is 1. Else a few rounds of
/// guesses part the search into branches, one worker for each branch
/// searches to the end, in parallel, and the count is the sum of what they
/// find. Each finished game is reached once. The counter has 32 bits: a
/// count above its highest value is returned as that value.
pub fn count_solutions(input: Board) -> (n: u32)
    requires
        well_formed(input@),
    ensures
        n == saturate(count_from(Frontier::initial(input@)) as int),
        consistent(input@) ==> completions(input@).finite() && n == saturate(
            completions(input@).len() as int,
        ),
        forall|g: Seq<u8>| #[trigger] only_completion(g, input@) ==> n == 1,
{
    proof {
        if consistent(input@) {
            lemma_count_is_completions(input@);
        }
        assert forall|g: Seq<u8>| #[trigger] only_completion(g, input@) implies count_from(
            Frontier::initial(input@),
        ) == 1 by {
            lemma_count_unique(input@, g);
        }
    }
    let mut initial = SpeculationState::new_initial(input);

    Solver::place_obvious(&mut initial);

    if initial.is_solved() {
        return 1;
    }
    let ghost root = initial@;
    let mut branches: Vec<SpeculationState> = Vec::new();
    branches.push(initial);
    let mut found: usize = 0;
    let mut bound: usize = 1;
    proof {
        assert(frontiers(branches@) =~= Seq::<Frontier>::empty().push(root));
        lemma_sum_push(Seq::empty(), root);
    }
    while bound < 16
        invariant
            bound == 1 || bound == 2 || bound == 4 || bound == 8 || bound == 16,
            stack_wf(frontiers(branches@)),
            branches@.len() <= bound,
            found < bound,
            found + sum_leaves(frontiers(branches@)) == leaves(root),
        decreases 16 - bound,
    {
        let (next, more) = split_branches(&branches);
        branches = next;
        found = found + more;
        bound = bound * 2;
    }
    proof {
        lemma_sum_counts(frontiers(branches@));
    }
    let below = sum_over_branches(branches);
    let total: u64 = found as u64 + below;
    if total > 0xFFFF_FFFF {
        u32::MAX
    } else {
        total as u32
    }
}

} // verus!
