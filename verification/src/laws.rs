//! What holds of finished grids, of the frontier and of the search.

use crate::bits::{
    digit_count, holds, lemma_count_bounds, lemma_count_zero, lemma_holds_clear, lemma_holds_not,
    lemma_popcount_zero, lemma_single_digit, lowest_digit,
};
use crate::frontier::{lemma_consume, lemma_place, Frontier};
use crate::grid::{
    complete, consistent, constraints, extends, lemma_constraints, lemma_count_empty_bounds,
    lemma_extends_trans, lemma_full_consistent_is_solved, lemma_solved_is_full_consistent,
    once_in_unit, seen, solved, unit_holds, well_formed,
};
use crate::propagate::{
    advances, hidden_single, hidden_step, holders, last_holder, lemma_holders, lemma_naked_upto,
    lemma_propagate, lemma_propagate_quiet, lemma_round, lemma_unit_at, lemma_unit_digits,
    lemma_units_upto, naked_step, naked_upto, propagate, unit_at, unit_digits, units_upto,
};
use crate::search::{
    branch_cell, lemma_guess, lemma_options, options, search, solve_from, total_options,
};
use crate::units::{in_unit, lemma_unit_cell, lemma_unit_pos, peers, unit_cell, unit_pos};
use vstd::prelude::*;

verus! {

/// What a grid that the search hands back is to the state it set out from:
/// it is full, keeps every filled cell of the state, and is a finished game
/// if the state had no clash.
pub open spec fn completes(g: Seq<u8>, f: Frontier) -> bool {
    &&& well_formed(g)
    &&& complete(g)
    &&& extends(g, f.grid)
    &&& consistent(f.grid) ==> solved(g)
}

/// The grid of a state with no cell left to fill completes the state.
pub proof fn lemma_solved_state(f: Frontier)
    requires
        f.wf(),
        f.solved(),
    ensures
        completes(f.grid, f),
{
    lemma_count_empty_bounds(f.grid);
    if consistent(f.grid) {
        lemma_full_consistent_is_solved(f.grid);
    }
}

/// A state that advances to a second state is completed by what completes
/// the second.
pub proof fn lemma_completes_back(g: Seq<u8>, f: Frontier, h: Frontier)
    requires
        f.wf(),
        advances(f, h),
        completes(g, h),
    ensures
        completes(g, f),
{
    lemma_extends_trans(g, h.grid, f.grid);
}

/// Whatever the search finds below a state completes the state.
pub proof fn lemma_search_sound(f: Frontier)
    requires
        f.wf(),
        search(f).is_some(),
    ensures
        completes(search(f).unwrap(), f),
    decreases f.remaining, total_options(f.candidates, 81),
{
    lemma_guess(f);
    let c = branch_cell(f.candidates);
    let d = lowest_digit(f.candidates[c]);
    let entered = f.place(c, d);
    let child = propagate(entered);
    let rest = f.consume(c, d);
    lemma_place(f, c, d);
    lemma_consume(f, c, d);
    if child.solved() {
        lemma_solved_state(child);
        lemma_completes_back(child.grid, entered, child);
        lemma_extends_trans(child.grid, entered.grid, f.grid);
    } else if search(child).is_some() {
        lemma_search_sound(child);
        let g = search(child).unwrap();
        lemma_completes_back(g, entered, child);
        lemma_extends_trans(g, entered.grid, f.grid);
    } else {
        lemma_search_sound(rest);
    }
}

/// Whatever one worker finds from a state completes the state.
pub proof fn lemma_solve_from_sound(f: Frontier)
    requires
        f.wf(),
        solve_from(f).is_some(),
    ensures
        completes(solve_from(f).unwrap(), f),
{
    let r = propagate(f);
    lemma_propagate(f);
    if r.solved() {
        lemma_solved_state(r);
    } else {
        lemma_search_sound(r);
    }
    lemma_completes_back(solve_from(f).unwrap(), f, r);
}

/// The frontier after the moves of a list have been entered one after the
/// other.
pub open spec fn place_all(f: Frontier, moves: Seq<(int, int)>) -> Frontier
    decreases moves.len(),
{
    if moves.len() == 0 {
        f
    } else {
        place_all(f, moves.drop_last()).place(moves.last().0, moves.last().1)
    }
}

/// The number of empty cells falls by one with each move that is entered:
/// after any list of moves it is lower by the length of the list, and it
/// never rises on the way.
pub proof fn lemma_moves_lower_remaining(f: Frontier, moves: Seq<(int, int)>)
    ensures
        place_all(f, moves).remaining == f.remaining - moves.len(),
        forall|n: int|
            0 <= n <= moves.len() ==> place_all(f, moves).remaining <= (#[trigger] place_all(
                f,
                moves.take(n),
            )).remaining,
    decreases moves.len(),
{
    if moves.len() > 0 {
        let init = moves.drop_last();
        lemma_moves_lower_remaining(f, init);
        assert forall|n: int| 0 <= n <= moves.len() implies place_all(f, moves).remaining <= (
        #[trigger] place_all(f, moves.take(n))).remaining by {
            if n < moves.len() {
                assert(moves.take(n) =~= init.take(n));
            } else {
                assert(moves.take(n) =~= moves);
            }
        }
    } else {
        assert forall|n: int| 0 <= n <= moves.len() implies place_all(f, moves).remaining <= (
        #[trigger] place_all(f, moves.take(n))).remaining by {
            assert(moves.take(n) =~= moves);
        }
    }
}

/// Deducing twice is deducing once: where deduction has ended, nothing is
/// left to deduce, and a second run changes nothing.
pub proof fn lemma_place_obvious_idempotent(f: Frontier)
    requires
        f.wf(),
    ensures
        propagate(propagate(f)) == propagate(f),
{
    lemma_propagate(f);
    lemma_propagate_quiet(propagate(f));
}

/// A finished game that a state can still become: it keeps the filled
/// cells of the state, and the digit it has in each empty cell is one that
/// the cell may still take.
pub open spec fn compatible(g: Seq<u8>, f: Frontier) -> bool {
    &&& solved(g)
    &&& extends(g, f.grid)
    &&& forall|c: int|
        0 <= c < 81 && f.grid[c] == 0 ==> holds(#[trigger] f.candidates[c], g[c] as int)
}

/// A finished game that keeps the filled cells of a grid is one that the
/// frontier of the grid can become.
pub proof fn lemma_initial_compatible(g: Seq<u8>, input: Seq<u8>)
    requires
        well_formed(input),
        solved(g),
        extends(g, input),
    ensures
        compatible(g, Frontier::initial(input)),
{
    let f = Frontier::initial(input);
    lemma_solved_is_full_consistent(g);
    assert forall|c: int| 0 <= c < 81 && f.grid[c] == 0 implies holds(
        #[trigger] f.candidates[c],
        g[c] as int,
    ) by {
        let d = g[c] as int;
        lemma_constraints(input, c, d);
        lemma_holds_not(constraints(input, c), d);
        if seen(input, c, d) {
            let x = choose|x: int| 0 <= x < 81 && #[trigger] peers(c, x) && input[x] == d;
            assert(g[c] != 0);
            assert(input[x] != 0);
            assert(g[x] == input[x]);
            assert(peers(c, x));
        }
    }
}

/// Entering the digit that a finished game has in a cell leaves a state
/// that can still become that game.
pub proof fn lemma_place_compatible(g: Seq<u8>, f: Frontier, c: int, d: int)
    requires
        f.wf(),
        f.allows(c, d),
        compatible(g, f),
        g[c] == d,
    ensures
        compatible(g, f.place(c, d)),
{
    let p = f.place(c, d);
    lemma_solved_is_full_consistent(g);
    assert forall|x: int| 0 <= x < 81 && p.grid[x] == 0 implies holds(
        #[trigger] p.candidates[x],
        g[x] as int,
    ) by {
        assert(holds(f.candidates[x], g[x] as int));
        if peers(c, x) {
            lemma_holds_clear(f.candidates[x], d, g[x] as int);
            assert(g[c] != 0);
        }
    }
}

/// Striking a digit that a finished game does not have in a cell leaves a
/// state that can still become that game.
pub proof fn lemma_consume_compatible(g: Seq<u8>, f: Frontier, c: int, d: int)
    requires
        f.wf(),
        f.allows(c, d),
        compatible(g, f),
        g[c] != d,
    ensures
        compatible(g, f.consume(c, d)),
{
    let p = f.consume(c, d);
    assert forall|x: int| 0 <= x < 81 && p.grid[x] == 0 implies holds(
        #[trigger] p.candidates[x],
        g[x] as int,
    ) by {
        assert(holds(f.candidates[x], g[x] as int));
        lemma_holds_clear(f.candidates[x], d, g[x] as int);
    }
}

/// Where one cell only of a unit may take a digit, every cell of the unit
/// that may take it is at the place of the last holder.
pub proof fn lemma_unique_holder(candidates: Seq<u16>, u: int, d: int, n: int, k: int)
    requires
        0 <= k < n <= 9,
        holders(candidates, u, d, n) == 1,
        holds(candidates[unit_cell(u, k)], d),
    ensures
        last_holder(candidates, u, d, n) == k,
    decreases n,
{
    lemma_holders(candidates, u, d, n - 1);
    if !holds(candidates[unit_cell(u, n - 1)], d) {
        lemma_unique_holder(candidates, u, d, n - 1, k);
    }
}

/// A step of the cell pass loses no finished game.
pub proof fn lemma_naked_step_compatible(g: Seq<u8>, f: Frontier, c: int)
    requires
        f.wf(),
        0 <= c < 81,
        compatible(g, f),
    ensures
        compatible(g, naked_step(f, c)),
{
    let w = f.candidates[c];
    if digit_count(w) == 1 {
        lemma_single_digit(w);
        if f.grid[c] != 0 {
            lemma_popcount_zero();
        }
        lemma_solved_is_full_consistent(g);
        assert(holds(f.candidates[c], g[c] as int));
        assert(1 <= g[c] <= 9);
        lemma_place_compatible(g, f, c, lowest_digit(w));
    }
}

/// A step of a unit pass loses no finished game.
pub proof fn lemma_hidden_step_compatible(g: Seq<u8>, f: Frontier, u: int, d: int)
    requires
        f.wf(),
        0 <= u < 27,
        1 <= d <= 9,
        compatible(g, f),
    ensures
        compatible(g, hidden_step(f, u, d)),
{
    if hidden_single(f, u, d) {
        lemma_holders(f.candidates, u, d, 9);
        let k = last_holder(f.candidates, u, d, 9);
        lemma_unit_cell(u, k);
        assert(once_in_unit(g, u, d));
        let y = choose|y: int| 0 <= y < 81 && #[trigger] in_unit(y, u) && g[y] == d;
        if f.grid[y] != 0 {
            assert(in_unit(y, u) && f.grid[y] == d);
            assert(unit_holds(f.grid, u, d));
            assert(holds(f.present[u], d));
        }
        assert(holds(f.candidates[y], g[y] as int));
        lemma_unit_pos(y, u);
        lemma_unique_holder(f.candidates, u, d, 9, unit_pos(y, u));
        lemma_place_compatible(g, f, unit_cell(u, k), d);
    }
}

/// The cell pass loses no finished game.
pub proof fn lemma_naked_upto_compatible(g: Seq<u8>, f: Frontier, n: int)
    requires
        f.wf(),
        0 <= n <= 81,
        compatible(g, f),
    ensures
        compatible(g, naked_upto(f, n)),
    decreases n,
{
    if n > 0 {
        lemma_naked_upto_compatible(g, f, n - 1);
        lemma_naked_upto(f, n - 1);
        lemma_naked_step_compatible(g, naked_upto(f, n - 1), n - 1);
    }
}

/// Trying the digits on a unit loses no finished game.
pub proof fn lemma_unit_digits_compatible(g: Seq<u8>, f: Frontier, u: int, n: int)
    requires
        f.wf(),
        0 <= u < 27,
        0 <= n <= 9,
        compatible(g, f),
    ensures
        compatible(g, unit_digits(f, u, n)),
    decreases n,
{
    if n > 0 {
        lemma_unit_digits_compatible(g, f, u, n - 1);
        lemma_unit_digits(f, u, n - 1);
        lemma_hidden_step_compatible(g, unit_digits(f, u, n - 1), u, n);
    }
}

/// A pass over some units loses no finished game.
pub proof fn lemma_units_upto_compatible(g: Seq<u8>, f: Frontier, from: int, n: int)
    requires
        f.wf(),
        0 <= from <= n <= 27,
        compatible(g, f),
    ensures
        compatible(g, units_upto(f, from, n)),
    decreases n - from,
{
    if n > from {
        lemma_units_upto_compatible(g, f, from, n - 1);
        lemma_units_upto(f, from, n - 1);
        lemma_unit_at(n - 1);
        lemma_unit_digits_compatible(g, units_upto(f, from, n - 1), unit_at(n - 1), 9);
    }
}

/// Deduction loses no finished game: what a state could become before,
/// it can become after.
pub proof fn lemma_propagate_compatible(g: Seq<u8>, f: Frontier)
    requires
        f.wf(),
        compatible(g, f),
    ensures
        compatible(g, propagate(f)),
    decreases f.remaining,
{
    let a = naked_upto(f, 81);
    let b = units_upto(a, 0, 9);
    let c = units_upto(b, 9, 18);
    let e = units_upto(c, 18, 27);
    lemma_naked_upto(f, 81);
    lemma_naked_upto_compatible(g, f, 81);
    lemma_units_upto(a, 0, 9);
    lemma_units_upto_compatible(g, a, 0, 9);
    lemma_units_upto(b, 9, 18);
    lemma_units_upto_compatible(g, b, 9, 18);
    lemma_units_upto(c, 18, 27);
    lemma_units_upto_compatible(g, c, 18, 27);
    lemma_round(f);
    lemma_count_empty_bounds(e.grid);
    if e.remaining < f.remaining {
        lemma_propagate_compatible(g, e);
    }
}

/// The search is complete: below a state that is not full and can still
/// become a finished game, it finds a grid.
pub proof fn lemma_search_complete(g: Seq<u8>, f: Frontier)
    requires
        f.wf(),
        !f.solved(),
        compatible(g, f),
    ensures
        search(f).is_some(),
    decreases f.remaining, total_options(f.candidates, 81),
{
    lemma_count_empty_bounds(f.grid);
    let x = choose|x: int| 0 <= x < 81 && #[trigger] f.grid[x] == 0;
    lemma_solved_is_full_consistent(g);
    assert(holds(f.candidates[x], g[x] as int));
    assert(1 <= g[x] <= 9);
    lemma_count_zero(f.candidates[x], 1, 10);
    lemma_count_bounds(f.candidates[x], 1, 10);
    lemma_options(f, x);
    assert(options(f.candidates, x) > 6);
    lemma_guess(f);
    let c = branch_cell(f.candidates);
    let d = lowest_digit(f.candidates[c]);
    let entered = f.place(c, d);
    let child = propagate(entered);
    if g[c] == d {
        lemma_place(f, c, d);
        lemma_place_compatible(g, f, c, d);
        lemma_propagate_compatible(g, entered);
        if !child.solved() {
            lemma_search_complete(g, child);
        }
    } else {
        lemma_consume_compatible(g, f, c, d);
        lemma_search_complete(g, f.consume(c, d));
    }
}

/// One worker finds a grid from any state that can still become a
/// finished game.
pub proof fn lemma_solve_from_complete(g: Seq<u8>, f: Frontier)
    requires
        f.wf(),
        compatible(g, f),
    ensures
        solve_from(f).is_some(),
{
    lemma_propagate(f);
    lemma_propagate_compatible(g, f);
    if !propagate(f).solved() {
        lemma_search_complete(g, propagate(f));
    }
}

/// A grid that a finished game completes has no clash.
pub proof fn lemma_completed_is_consistent(g: Seq<u8>, input: Seq<u8>)
    requires
        solved(g),
        extends(g, input),
    ensures
        consistent(input),
{
    lemma_solved_is_full_consistent(g);
    assert forall|a: int, b: int|
        0 <= a < 81 && 0 <= b < 81 && a != b && #[trigger] peers(a, b) && input[a]
            != 0 implies input[a] != input[b] by {
        if input[b] != 0 {
            assert(g[a] == input[a] && g[b] == input[b]);
            assert(g[a] != 0);
        }
    }
}

/// The one finished game that completes a grid.
pub open spec fn only_completion(g: Seq<u8>, input: Seq<u8>) -> bool {
    &&& solved(g)
    &&& extends(g, input)
    &&& forall|h: Seq<u8>| #[trigger] solved(h) && extends(h, input) ==> h == g
}

} // verus!
