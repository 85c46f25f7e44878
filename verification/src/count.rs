//! Counting every finished game that completes a grid.
//!
//! The count goes through the same guesses as the search, but to the end:
//! each guess parts the finished games that a state can still become into
//! those that have the guessed digit in the guessed cell and those that do
//! not, so each of them is reached once. A state with an empty cell that
//! may take no digit can become none and is dropped at once.

use crate::bits::{
    digit_count, first_digit, holds, lemma_count_bounds, lemma_count_zero, lemma_holds_clear,
    lemma_holds_not, lemma_holds_or, lemma_holds_zero, lemma_lowest_digit, lemma_same_digits,
    lemma_single_digit, lowest_digit,
};
use crate::board::Square;
use crate::frontier::{lemma_consume, lemma_initial, lemma_place, Frontier, SpeculationState};
use crate::grid::{
    consistent, extends, lemma_count_empty_bounds, lemma_seen_by_units,
    lemma_solved_is_full_consistent, seen, solved, well_formed,
};
use crate::laws::{
    compatible, lemma_completed_is_consistent, lemma_consume_compatible,
    lemma_initial_compatible, lemma_place_compatible, lemma_propagate_compatible,
    lemma_solved_state, only_completion,
};
use crate::propagate::{
    hidden_single, hidden_step, last_holder, lemma_holders, lemma_naked_upto, lemma_propagate,
    lemma_round, lemma_unit_at, lemma_unit_digits, lemma_units_upto, naked_step, naked_upto,
    propagate, unit_at, unit_digits, units_upto,
};
use crate::search::{
    branch_cell, has_branch, lemma_guess, lemma_options, options, stack_wf, total_options, Solver,
};
use crate::units::{
    block_unit, col_unit, lemma_unit_cell, lemma_units_of, peers, row_unit, unit_cell,
};
use vstd::prelude::*;

verus! {

/// Whether some empty cell may take no digit.
pub open spec fn stuck(f: Frontier) -> bool {
    exists|c: int| 0 <= c < 81 && f.grid[c] == 0 && digit_count(#[trigger] f.candidates[c]) == 0
}

/// How many full grids the count reaches below a state that is not full:
/// none where a cell is stuck or no cell has a candidate; else those below
/// the state with the guess entered, after deduction, and those below the
/// state without the guess.
pub open spec fn leaves(f: Frontier) -> nat
    decreases f.remaining, total_options(f.candidates, 81),
    when f.wf()
{
    if stuck(f) || !has_branch(f.candidates) {
        0
    } else {
        let c = branch_cell(f.candidates);
        let d = lowest_digit(f.candidates[c]);
        let child = propagate(f.place(c, d));
        proof {
            lemma_guess(f);
        }
        (if child.solved() {
            1nat
        } else {
            leaves(child)
        }) + leaves(f.consume(c, d))
    }
}

/// How many states the count looks at below a state.
pub open spec fn visits(f: Frontier) -> nat
    decreases f.remaining, total_options(f.candidates, 81),
    when f.wf()
{
    if stuck(f) || !has_branch(f.candidates) {
        1
    } else {
        let c = branch_cell(f.candidates);
        let d = lowest_digit(f.candidates[c]);
        let child = propagate(f.place(c, d));
        proof {
            lemma_guess(f);
        }
        1 + (if child.solved() {
            0nat
        } else {
            visits(child)
        }) + visits(f.consume(c, d))
    }
}

/// How many full grids the count reaches from a state: it deduces, counts
/// 1 if the grid is full, and else counts below.
pub open spec fn count_from(f: Frontier) -> nat {
    let r = propagate(f);
    if r.solved() {
        1
    } else {
        leaves(r)
    }
}

/// A count as the counter holds it: the counter has 32 bits and stays at
/// its highest value once it has reached it.
pub open spec fn saturate(n: int) -> int {
    if n <= u32::MAX {
        n
    } else {
        u32::MAX as int
    }
}

/// The full grids that the count reaches below the states of a list.
pub open spec fn sum_leaves(states: Seq<Frontier>) -> nat
    decreases states.len(),
{
    if states.len() == 0 {
        0
    } else {
        sum_leaves(states.drop_last()) + leaves(states.last())
    }
}

/// The full grids below the states of a list, each state's count as the
/// counter holds it.
pub open spec fn sum_counts(states: Seq<Frontier>) -> int
    decreases states.len(),
{
    if states.len() == 0 {
        0
    } else {
        sum_counts(states.drop_last()) + saturate(leaves(states.last()) as int)
    }
}

/// The states that the count looks at below the states of a list.
pub open spec fn sum_visits(states: Seq<Frontier>) -> nat
    decreases states.len(),
{
    if states.len() == 0 {
        0
    } else {
        sum_visits(states.drop_last()) + visits(states.last())
    }
}

/// The states of a list as mathematics.
pub open spec fn frontiers(states: Seq<SpeculationState>) -> Seq<Frontier> {
    states.map_values(|s: SpeculationState| s@)
}

/// The finished games that a state can still become.
pub open spec fn completions_of(f: Frontier) -> Set<Seq<u8>> {
    Set::new(|g: Seq<u8>| compatible(g, f))
}

/// The finished games that complete a grid: those that keep every filled
/// cell of it.
pub open spec fn completions(input: Seq<u8>) -> Set<Seq<u8>> {
    Set::new(|g: Seq<u8>| solved(g) && extends(g, input))
}

/// Adding a state to a list adds what is below it.
pub proof fn lemma_sum_push(states: Seq<Frontier>, f: Frontier)
    ensures
        sum_leaves(states.push(f)) == sum_leaves(states) + leaves(f),
        sum_counts(states.push(f)) == sum_counts(states) + saturate(leaves(f) as int),
        sum_visits(states.push(f)) == sum_visits(states) + visits(f),
        stack_wf(states) && f.wf() ==> stack_wf(states.push(f)),
{
    assert(states.push(f).drop_last() =~= states);
}

/// The sum of the counts as the counter holds them is, as the counter
/// holds it, the sum of the counts.
pub proof fn lemma_sum_counts(states: Seq<Frontier>)
    ensures
        0 <= sum_counts(states) <= sum_leaves(states),
        sum_counts(states) <= states.len() * u32::MAX,
        saturate(sum_counts(states)) == saturate(sum_leaves(states) as int),
    decreases states.len(),
{
    if states.len() > 0 {
        lemma_sum_counts(states.drop_last());
        assert(states.len() * u32::MAX == (states.len() - 1) * u32::MAX + u32::MAX) by (nonlinear_arith);
    }
}

/// The count looks at one state at least below a state that agrees with
/// its grid.
pub proof fn lemma_visits(f: Frontier)
    requires
        f.wf(),
    ensures
        visits(f) >= 1,
{
}

/// A state with the guessed digit entered can become the finished games
/// that the state could become and that have the digit in the cell.
pub proof fn lemma_place_back(g: Seq<u8>, f: Frontier, c: int, d: int)
    requires
        f.wf(),
        f.allows(c, d),
        compatible(g, f.place(c, d)),
    ensures
        compatible(g, f),
        g[c] == d,
{
    let p = f.place(c, d);
    lemma_place(f, c, d);
    assert(p.grid[c] == d && p.grid[c] != 0);
    assert(g[c] == p.grid[c]);
    assert forall|x: int| 0 <= x < 81 && #[trigger] f.grid[x] != 0 implies g[x] == f.grid[x] by {
        assert(p.grid[x] == f.grid[x]);
        assert(p.grid[x] != 0);
    }
    assert forall|x: int| 0 <= x < 81 && f.grid[x] == 0 implies holds(
        #[trigger] f.candidates[x],
        g[x] as int,
    ) by {
        if x != c {
            assert(p.grid[x] == 0);
            assert(holds(p.candidates[x], g[x] as int));
            lemma_holds_clear(f.candidates[x], d, g[x] as int);
        }
    }
}

/// A state without the guessed digit can become the finished games that
/// the state could become and that do not have the digit in the cell.
pub proof fn lemma_consume_back(g: Seq<u8>, f: Frontier, c: int, d: int)
    requires
        f.wf(),
        f.allows(c, d),
        compatible(g, f.consume(c, d)),
    ensures
        compatible(g, f),
        g[c] != d,
{
    let p = f.consume(c, d);
    if f.grid[c] != 0 {
        lemma_holds_zero(d);
    }
    assert(holds(p.candidates[c], g[c] as int));
    lemma_solved_is_full_consistent(g);
    assert(1 <= g[c] <= 9);
    lemma_holds_clear(f.candidates[c], d, g[c] as int);
    assert forall|x: int| 0 <= x < 81 && f.grid[x] == 0 implies holds(
        #[trigger] f.candidates[x],
        g[x] as int,
    ) by {
        assert(holds(p.candidates[x], g[x] as int));
    }
}

/// What a state can become after a step of the cell pass, it could become
/// before.
pub proof fn lemma_naked_step_back(g: Seq<u8>, f: Frontier, c: int)
    requires
        f.wf(),
        0 <= c < 81,
        compatible(g, naked_step(f, c)),
    ensures
        compatible(g, f),
{
    if digit_count(f.candidates[c]) == 1 {
        lemma_single_digit(f.candidates[c]);
        lemma_place_back(g, f, c, lowest_digit(f.candidates[c]));
    }
}

/// What a state can become after a step of a unit pass, it could become
/// before.
pub proof fn lemma_hidden_step_back(g: Seq<u8>, f: Frontier, u: int, d: int)
    requires
        f.wf(),
        0 <= u < 27,
        1 <= d <= 9,
        compatible(g, hidden_step(f, u, d)),
    ensures
        compatible(g, f),
{
    if hidden_single(f, u, d) {
        lemma_holders(f.candidates, u, d, 9);
        let k = last_holder(f.candidates, u, d, 9);
        lemma_unit_cell(u, k);
        lemma_place_back(g, f, unit_cell(u, k), d);
    }
}

/// What a state can become after the cell pass, it could become before.
pub proof fn lemma_naked_upto_back(g: Seq<u8>, f: Frontier, n: int)
    requires
        f.wf(),
        0 <= n <= 81,
        compatible(g, naked_upto(f, n)),
    ensures
        compatible(g, f),
    decreases n,
{
    if n > 0 {
        lemma_naked_upto(f, n - 1);
        lemma_naked_step_back(g, naked_upto(f, n - 1), n - 1);
        lemma_naked_upto_back(g, f, n - 1);
    }
}

/// What a state can become after the digits were tried on a unit, it
/// could become before.
pub proof fn lemma_unit_digits_back(g: Seq<u8>, f: Frontier, u: int, n: int)
    requires
        f.wf(),
        0 <= u < 27,
        0 <= n <= 9,
        compatible(g, unit_digits(f, u, n)),
    ensures
        compatible(g, f),
    decreases n,
{
    if n > 0 {
        lemma_unit_digits(f, u, n - 1);
        lemma_hidden_step_back(g, unit_digits(f, u, n - 1), u, n);
        lemma_unit_digits_back(g, f, u, n - 1);
    }
}

/// What a state can become after a pass over some units, it could become
/// before.
pub proof fn lemma_units_upto_back(g: Seq<u8>, f: Frontier, from: int, n: int)
    requires
        f.wf(),
        0 <= from <= n <= 27,
        compatible(g, units_upto(f, from, n)),
    ensures
        compatible(g, f),
    decreases n - from,
{
    if n > from {
        lemma_units_upto(f, from, n - 1);
        lemma_unit_at(n - 1);
        lemma_unit_digits_back(g, units_upto(f, from, n - 1), unit_at(n - 1), 9);
        lemma_units_upto_back(g, f, from, n - 1);
    }
}

/// Deduction adds no finished game: what a state can become after it, it
/// could become before.
pub proof fn lemma_propagate_back(g: Seq<u8>, f: Frontier)
    requires
        f.wf(),
        compatible(g, propagate(f)),
    ensures
        compatible(g, f),
    decreases f.remaining,
{
    let a = naked_upto(f, 81);
    let b = units_upto(a, 0, 9);
    let c = units_upto(b, 9, 18);
    let e = units_upto(c, 18, 27);
    lemma_naked_upto(f, 81);
    lemma_units_upto(a, 0, 9);
    lemma_units_upto(b, 9, 18);
    lemma_units_upto(c, 18, 27);
    lemma_round(f);
    lemma_count_empty_bounds(e.grid);
    if e.remaining < f.remaining {
        lemma_propagate_back(g, e);
    }
    lemma_units_upto_back(g, c, 18, 27);
    lemma_units_upto_back(g, b, 9, 18);
    lemma_units_upto_back(g, a, 0, 9);
    lemma_naked_upto_back(g, f, 81);
}

/// Deduction keeps the finished games that a state can become.
pub proof fn lemma_propagate_keeps(f: Frontier)
    requires
        f.wf(),
    ensures
        completions_of(propagate(f)) == completions_of(f),
{
    assert forall|g: Seq<u8>| compatible(g, propagate(f)) <==> compatible(g, f) by {
        if compatible(g, propagate(f)) {
            lemma_propagate_back(g, f);
        }
        if compatible(g, f) {
            lemma_propagate_compatible(g, f);
        }
    }
    assert(completions_of(propagate(f)) =~= completions_of(f));
}

/// A full state without a clash can become its own grid and no other.
pub proof fn lemma_full_is_only(f: Frontier)
    requires
        f.wf(),
        f.solved(),
        consistent(f.grid),
    ensures
        completions_of(f) == set![f.grid],
        completions_of(f).finite(),
        completions_of(f).len() == 1,
{
    lemma_solved_state(f);
    lemma_count_empty_bounds(f.grid);
    assert forall|g: Seq<u8>| compatible(g, f) <==> g == f.grid by {
        if compatible(g, f) {
            assert forall|c: int| 0 <= c < 81 implies g[c] == f.grid[c] by {
                assert(f.grid[c] != 0);
            }
            assert(g =~= f.grid);
        }
    }
    assert(completions_of(f) =~= set![f.grid]);
}

/// A state that is not full and has a stuck cell, or no cell with a
/// candidate, can become no finished game.
pub proof fn lemma_dead_is_empty(f: Frontier)
    requires
        f.wf(),
        !f.solved(),
        stuck(f) || !has_branch(f.candidates),
    ensures
        completions_of(f) == Set::<Seq<u8>>::empty(),
{
    lemma_count_empty_bounds(f.grid);
    assert forall|g: Seq<u8>| !compatible(g, f) by {
        if compatible(g, f) {
            lemma_solved_is_full_consistent(g);
            let x = if stuck(f) {
                choose|c: int|
                    0 <= c < 81 && f.grid[c] == 0 && digit_count(#[trigger] f.candidates[c]) == 0
            } else {
                choose|x: int| 0 <= x < 81 && #[trigger] f.grid[x] == 0
            };
            lemma_options(f, x);
            assert(options(f.candidates, x) <= 6);
            assert(holds(f.candidates[x], g[x] as int));
            assert(1 <= g[x] <= 9);
            lemma_count_zero(f.candidates[x], 1, 10);
            lemma_count_bounds(f.candidates[x], 1, 10);
        }
    }
    assert(completions_of(f) =~= Set::<Seq<u8>>::empty());
}

/// The count is right: below a state without a clash that is not full it
/// reaches as many full grids as there are finished games that the state
/// can become.
pub proof fn lemma_leaves(f: Frontier)
    requires
        f.wf(),
        !f.solved(),
        consistent(f.grid),
    ensures
        completions_of(f).finite(),
        completions_of(f).len() == leaves(f),
    decreases f.remaining, total_options(f.candidates, 81),
{
    if stuck(f) || !has_branch(f.candidates) {
        lemma_dead_is_empty(f);
    } else {
        lemma_guess(f);
        let c = branch_cell(f.candidates);
        let d = lowest_digit(f.candidates[c]);
        let entered = f.place(c, d);
        let child = propagate(entered);
        let rest = f.consume(c, d);
        lemma_place(f, c, d);
        lemma_consume(f, c, d);
        lemma_propagate(entered);
        lemma_propagate_keeps(entered);
        if child.solved() {
            lemma_full_is_only(child);
        } else {
            lemma_leaves(child);
        }
        lemma_leaves(rest);
        let with = completions_of(entered);
        let without = completions_of(rest);
        assert forall|g: Seq<u8>| compatible(g, f) <==> compatible(g, entered) || compatible(
            g,
            rest,
        ) by {
            if compatible(g, entered) {
                lemma_place_back(g, f, c, d);
            }
            if compatible(g, rest) {
                lemma_consume_back(g, f, c, d);
            }
            if compatible(g, f) {
                if g[c] == d {
                    lemma_place_compatible(g, f, c, d);
                } else {
                    lemma_consume_compatible(g, f, c, d);
                }
            }
        }
        assert(completions_of(f) =~= with + without);
        assert(with.disjoint(without)) by {
            assert forall|g: Seq<u8>| !(with.contains(g) && without.contains(g)) by {
                if compatible(g, entered) && compatible(g, rest) {
                    lemma_place_back(g, f, c, d);
                    lemma_consume_back(g, f, c, d);
                }
            }
        }
        vstd::set_lib::lemma_set_disjoint_lens(with, without);
        vstd::set_lib::lemma_set_union_finite_iff(with, without);
    }
}

/// From a state without a clash the count reaches as many full grids as
/// there are finished games that the state can become.
pub proof fn lemma_count_from(f: Frontier)
    requires
        f.wf(),
        consistent(f.grid),
    ensures
        completions_of(f).finite(),
        completions_of(f).len() == count_from(f),
{
    lemma_propagate(f);
    lemma_propagate_keeps(f);
    if propagate(f).solved() {
        lemma_full_is_only(propagate(f));
    } else {
        lemma_leaves(propagate(f));
    }
}

/// The finished games that complete a grid are those that its frontier can
/// become.
pub proof fn lemma_completions(input: Seq<u8>)
    requires
        well_formed(input),
    ensures
        completions(input) == completions_of(Frontier::initial(input)),
{
    lemma_initial(input);
    assert forall|g: Seq<u8>| solved(g) && extends(g, input) <==> compatible(
        g,
        Frontier::initial(input),
    ) by {
        if solved(g) && extends(g, input) {
            lemma_initial_compatible(g, input);
        }
    }
    assert(completions(input) =~= completions_of(Frontier::initial(input)));
}

/// Where the candidates of a state are exact, the finished games that the
/// state can become are those that complete its grid.
pub proof fn lemma_exact_completions(f: Frontier)
    requires
        f.wf(),
        f.exact(),
    ensures
        completions_of(f) == completions(f.grid),
{
    assert forall|g: Seq<u8>| solved(g) && extends(g, f.grid) implies compatible(g, f) by {
        lemma_solved_is_full_consistent(g);
        assert forall|c: int| 0 <= c < 81 && f.grid[c] == 0 implies holds(
            #[trigger] f.candidates[c],
            g[c] as int,
        ) by {
            let d = g[c] as int;
            assert(1 <= g[c] <= 9);
            lemma_units_of(c);
            let r = f.present[row_unit(c)];
            let q = f.present[col_unit(c)];
            let b = f.present[block_unit(c)];
            lemma_same_digits(f.candidates[c], !(r | q | b), d as u16);
            lemma_holds_not(r | q | b, d);
            lemma_holds_or(r | q, b, d);
            lemma_holds_or(r, q, d);
            lemma_seen_by_units(f.grid, c, d);
            if seen(f.grid, c, d) {
                let x = choose|x: int| 0 <= x < 81 && #[trigger] peers(c, x) && f.grid[x] == d;
                assert(f.grid[x] != 0);
                assert(g[x] == f.grid[x]);
                assert(peers(c, x));
            }
        }
    }
    assert(completions_of(f) =~= completions(f.grid));
}

/// For a grid without a clash the count is the number of finished games
/// that complete the grid.
pub proof fn lemma_count_is_completions(input: Seq<u8>)
    requires
        well_formed(input),
        consistent(input),
    ensures
        completions(input).finite(),
        count_from(Frontier::initial(input)) == completions(input).len(),
{
    lemma_initial(input);
    lemma_completions(input);
    lemma_count_from(Frontier::initial(input));
}

/// A grid with one solution counts 1.
pub proof fn lemma_count_unique(input: Seq<u8>, g: Seq<u8>)
    requires
        well_formed(input),
        only_completion(g, input),
    ensures
        count_from(Frontier::initial(input)) == 1,
{
    lemma_completed_is_consistent(g, input);
    lemma_count_is_completions(input);
    assert(completions(input) =~= set![g]);
}

/// A grid without a clash that no finished game completes counts 0.
pub proof fn lemma_count_unsolvable(input: Seq<u8>)
    requires
        well_formed(input),
        consistent(input),
        forall|g: Seq<u8>| !(#[trigger] solved(g) && extends(g, input)),
    ensures
        count_from(Frontier::initial(input)) == 0,
{
    lemma_count_is_completions(input);
    assert(completions(input) =~= Set::<Seq<u8>>::empty());
}

/// Whether some empty cell of a state may take no digit.
pub fn has_stuck_cell(state: &SpeculationState) -> (b: bool)
    requires
        state@.wf(),
    ensures
        b == stuck(state@),
{
    let board = state.board();
    let mut i: usize = 0;
    while i < 81
        invariant
            i <= 81,
            state@.wf(),
            board@ == state@.grid,
            forall|c: int|
                0 <= c < i ==> !(state@.grid[c] == 0 && digit_count(
                    #[trigger] state@.candidates[c],
                ) == 0),
        decreases 81 - i,
    {
        let moves = state.candidates(Square::at(i));
        proof {
            lemma_lowest_digit(moves);
        }
        if board.inner[i] == 0 && first_digit(moves) == 0 {
            return true;
        }
        i += 1;
    }
    false
}

/// Counts the full grids below a state that is not full: a search over an
/// explicit stack that goes on after each full grid, until the stack is
/// empty. The counter stays at its highest value once it has reached it.
pub fn count_below(state: SpeculationState) -> (n: u32)
    requires
        state@.wf(),
    ensures
        n == saturate(leaves(state@) as int),
{
    let mut stack: Vec<SpeculationState> = Vec::new();
    stack.push(state);
    let mut count: u32 = 0;
    let ghost mut found: nat = 0;
    proof {
        lemma_sum_push(Seq::empty(), state@);
        assert(frontiers(stack@) =~= Seq::<Frontier>::empty().push(state@));
    }
    while stack.len() > 0
        invariant
            stack_wf(frontiers(stack@)),
            found + sum_leaves(frontiers(stack@)) == leaves(state@),
            count == saturate(found as int),
        decreases sum_visits(frontiers(stack@)),
    {
        let ghost before = frontiers(stack@);
        let n = stack.len();
        let ghost top = before.last();
        let ghost below = before.drop_last();
        proof {
            assert(before =~= below.push(top));
            assert(top == before[n - 1]);
            assert(top.wf());
            assert forall|i: int| 0 <= i < below.len() implies (#[trigger] below[i]).wf() by {
                assert(before[i].wf());
            }
            lemma_sum_push(below, top);
            lemma_visits(top);
        }
        if has_stuck_cell(&stack[n - 1]) {
            stack.pop();
            proof {
                assert(frontiers(stack@) =~= below);
            }
        } else {
            match Solver::get_speculation(&mut stack[n - 1]) {
                None => {
                    stack.pop();
                    proof {
                        assert(frontiers(stack@) =~= below);
                    }
                },
                Some(new) => {
                    let mut child = new;
                    Solver::place_obvious(&mut child);
                    let ghost rest = top.consume(
                        branch_cell(top.candidates),
                        lowest_digit(top.candidates[branch_cell(top.candidates)]),
                    );
                    proof {
                        lemma_guess(top);
                        assert(frontiers(stack@) =~= below.push(rest));
                        lemma_sum_push(below, rest);
                        lemma_visits(rest);
                    }
                    if child.is_solved() {
                        if count < u32::MAX {
                            count += 1;
                        }
                        proof {
                            found = found + 1;
                        }
                    } else {
                        proof {
                            lemma_sum_push(below.push(rest), child@);
                        }
                        stack.push(child);
                        proof {
                            assert(frontiers(stack@) =~= below.push(rest).push(child@));
                        }
                    }
                },
            }
        }
    }
    proof {
        assert(frontiers(stack@) =~= Seq::<Frontier>::empty());
    }
    count
}

} // verus!
