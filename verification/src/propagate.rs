//! Deduction without guessing: a cell that may take one digit only takes
//! it, and a digit that one cell only of a unit may take goes there. The
//! passes are repeated until one of them all places nothing.

use crate::bits::{
    count_in, digit_count, holds, lemma_popcount_zero, lemma_single_digit, lowest_digit,
};
use crate::board::{unit_squares, Square};
use crate::frontier::{lemma_place, Frontier, SpeculationState};
use crate::grid::{consistent, extends, lemma_count_empty_bounds};
use crate::search::Solver;
use crate::units::{lemma_unit_cell, unit_cell};
use vstd::prelude::*;

verus! {

/// `g` is `f` after some allowed moves were entered, or `f` itself: no cell
/// was emptied or changed, at least as many cells are filled, and if none
/// was filled nothing changed at all. What held of `f` holds of `g`.
pub open spec fn advances(f: Frontier, g: Frontier) -> bool {
    &&& g.remaining <= f.remaining
    &&& g.remaining == f.remaining ==> g == f
    &&& f.wf() ==> g.wf() && extends(g.grid, f.grid)
    &&& f.wf() && f.exact() ==> g.exact()
    &&& f.wf() && consistent(f.grid) ==> consistent(g.grid)
}

/// The cell `c` takes its digit if it may take one digit only.
pub open spec fn naked_step(f: Frontier, c: int) -> Frontier {
    if digit_count(f.candidates[c]) == 1 {
        f.place(c, lowest_digit(f.candidates[c]))
    } else {
        f
    }
}

/// The first `n` cells, one after the other, take their digit if they may
/// take one only.
pub open spec fn naked_upto(f: Frontier, n: int) -> Frontier
    decreases n,
{
    if n <= 0 {
        f
    } else {
        naked_step(naked_upto(f, n - 1), n - 1)
    }
}

/// How many of the first `n` cells of unit `u` may take the digit `d`.
pub open spec fn holders(candidates: Seq<u16>, u: int, d: int, n: int) -> int
    decreases n,
{
    if n <= 0 {
        0
    } else {
        holders(candidates, u, d, n - 1) + if holds(candidates[unit_cell(u, n - 1)], d) {
            1int
        } else {
            0int
        }
    }
}

/// The place of the last of the first `n` cells of unit `u` that may take
/// the digit `d`, or 0 if none of them may.
pub open spec fn last_holder(candidates: Seq<u16>, u: int, d: int, n: int) -> int
    decreases n,
{
    if n <= 0 {
        0
    } else if holds(candidates[unit_cell(u, n - 1)], d) {
        n - 1
    } else {
        last_holder(candidates, u, d, n - 1)
    }
}

/// Whether unit `u` lacks the digit `d` and one cell only of it may take
/// `d`.
pub open spec fn hidden_single(f: Frontier, u: int, d: int) -> bool {
    !holds(f.present[u], d) && holders(f.candidates, u, d, 9) == 1
}

/// The digit `d` goes into the one cell of unit `u` that may take it, if
/// the unit lacks it and there is one such cell only.
pub open spec fn hidden_step(f: Frontier, u: int, d: int) -> Frontier {
    if hidden_single(f, u, d) {
        f.place(unit_cell(u, last_holder(f.candidates, u, d, 9)), d)
    } else {
        f
    }
}

/// The digits 1 to `n`, one after the other, are tried on unit `u`.
pub open spec fn unit_digits(f: Frontier, u: int, n: int) -> Frontier
    decreases n,
{
    if n <= 0 {
        f
    } else {
        hidden_step(unit_digits(f, u, n - 1), u, n)
    }
}

/// The unit that is visited as the `i`-th: first the rows from top to
/// bottom, then the columns from left to right, then the blocks column of
/// blocks by column of blocks.
pub open spec fn unit_at(i: int) -> int {
    if i < 18 {
        i
    } else {
        18 + (i - 18) % 3 * 3 + (i - 18) / 3
    }
}

/// The units visited as the `from`-th up to the `n`-th (without it), one
/// after the other, are tried with every digit.
pub open spec fn units_upto(f: Frontier, from: int, n: int) -> Frontier
    decreases n - from,
{
    if n <= from {
        f
    } else {
        unit_digits(units_upto(f, from, n - 1), unit_at(n - 1), 9)
    }
}

/// One round: the cells, then the rows, the columns and the blocks.
pub open spec fn round(f: Frontier) -> Frontier {
    units_upto(units_upto(units_upto(naked_upto(f, 81), 0, 9), 9, 18), 18, 27)
}

/// Rounds are repeated until one of them places nothing.
pub open spec fn propagate(f: Frontier) -> Frontier
    decreases f.remaining,
{
    let g = round(f);
    if 0 <= g.remaining < f.remaining {
        propagate(g)
    } else {
        g
    }
}

/// Nothing is left to deduce: no cell may take one digit only, and no unit
/// lacks a digit that one cell only of it may take.
pub open spec fn quiet(f: Frontier) -> bool {
    &&& forall|c: int| 0 <= c < 81 ==> digit_count(#[trigger] f.candidates[c]) != 1
    &&& forall|u: int, d: int| 0 <= u < 27 && 1 <= d <= 9 ==> !#[trigger] hidden_single(f, u, d)
}

/// A frontier that advances to a second, which advances to a third,
/// advances to the third.
pub proof fn lemma_advances_trans(f: Frontier, g: Frontier, h: Frontier)
    requires
        advances(f, g),
        advances(g, h),
    ensures
        advances(f, h),
{
    if f.wf() {
        assert forall|c: int| 0 <= c < 81 && #[trigger] f.grid[c] != 0 implies h.grid[c]
            == f.grid[c] by {
            assert(g.grid[c] == f.grid[c]);
        }
    }
}

/// The first `n` of the nine cells of a unit hold at most `n` cells that
/// may take a digit; where they hold one, the last holder is one; where
/// they hold none, no cell of them may take it.
pub proof fn lemma_holders(candidates: Seq<u16>, u: int, d: int, n: int)
    requires
        0 <= n <= 9,
    ensures
        0 <= holders(candidates, u, d, n) <= n,
        holders(candidates, u, d, n) >= 1 ==> 0 <= last_holder(candidates, u, d, n) < n && holds(
            candidates[unit_cell(u, last_holder(candidates, u, d, n))],
            d,
        ),
        holders(candidates, u, d, n) == 0 <==> forall|k: int|
            0 <= k < n ==> !holds(#[trigger] candidates[unit_cell(u, k)], d),
    decreases n,
{
    if n > 0 {
        lemma_holders(candidates, u, d, n - 1);
    }
}

/// A step of the cell pass advances the frontier, and leaves it as it is
/// exactly when the cell does not have one candidate only.
pub proof fn lemma_naked_step(f: Frontier, c: int)
    requires
        0 <= c < 81,
    ensures
        advances(f, naked_step(f, c)),
        naked_step(f, c) == f <==> digit_count(f.candidates[c]) != 1,
{
    if digit_count(f.candidates[c]) == 1 {
        lemma_single_digit(f.candidates[c]);
        if f.wf() {
            lemma_place(f, c, lowest_digit(f.candidates[c]));
        }
    }
}

/// A step of a unit pass advances the frontier, and leaves it as it is
/// exactly when there is no hidden single.
pub proof fn lemma_hidden_step(f: Frontier, u: int, d: int)
    requires
        0 <= u < 27,
        1 <= d <= 9,
    ensures
        advances(f, hidden_step(f, u, d)),
        hidden_step(f, u, d) == f <==> !hidden_single(f, u, d),
{
    if hidden_single(f, u, d) {
        lemma_holders(f.candidates, u, d, 9);
        let k = last_holder(f.candidates, u, d, 9);
        lemma_unit_cell(u, k);
        if f.wf() {
            lemma_place(f, unit_cell(u, k), d);
        }
    }
}

/// The cell pass advances the frontier, and leaves it as it is exactly
/// when none of its cells has one candidate only.
pub proof fn lemma_naked_upto(f: Frontier, n: int)
    requires
        0 <= n <= 81,
    ensures
        advances(f, naked_upto(f, n)),
        naked_upto(f, n) == f <==> forall|c: int|
            0 <= c < n ==> digit_count(#[trigger] f.candidates[c]) != 1,
    decreases n,
{
    if n > 0 {
        let g = naked_upto(f, n - 1);
        lemma_naked_upto(f, n - 1);
        lemma_naked_step(g, n - 1);
        lemma_advances_trans(f, g, naked_step(g, n - 1));
    }
}

/// Trying the digits 1 to `n` on a unit advances the frontier, and leaves
/// it as it is exactly when none of them is a hidden single.
pub proof fn lemma_unit_digits(f: Frontier, u: int, n: int)
    requires
        0 <= u < 27,
        0 <= n <= 9,
    ensures
        advances(f, unit_digits(f, u, n)),
        unit_digits(f, u, n) == f <==> forall|d: int|
            1 <= d <= n ==> !#[trigger] hidden_single(f, u, d),
    decreases n,
{
    if n > 0 {
        let g = unit_digits(f, u, n - 1);
        lemma_unit_digits(f, u, n - 1);
        lemma_hidden_step(g, u, n);
        lemma_advances_trans(f, g, hidden_step(g, u, n));
    }
}

/// The units are visited in an order that reaches each of them once.
pub proof fn lemma_unit_at(i: int)
    requires
        0 <= i < 27,
    ensures
        0 <= unit_at(i) < 27,
        unit_at(unit_at(i)) == i,
        i < 9 <==> unit_at(i) < 9,
        i < 18 <==> unit_at(i) < 18,
{
}

/// A pass over some units advances the frontier, and leaves it as it is
/// exactly when none of them has a hidden single.
pub proof fn lemma_units_upto(f: Frontier, from: int, n: int)
    requires
        0 <= from <= n <= 27,
    ensures
        advances(f, units_upto(f, from, n)),
        units_upto(f, from, n) == f <==> forall|i: int, d: int|
            from <= i < n && 1 <= d <= 9 ==> !#[trigger] hidden_single(f, unit_at(i), d),
    decreases n - from,
{
    if n > from {
        let g = units_upto(f, from, n - 1);
        lemma_units_upto(f, from, n - 1);
        lemma_unit_at(n - 1);
        lemma_unit_digits(g, unit_at(n - 1), 9);
        lemma_advances_trans(f, g, unit_digits(g, unit_at(n - 1), 9));
    }
}

/// A round advances the frontier, and leaves it as it is exactly when
/// nothing is left to deduce.
pub proof fn lemma_round(f: Frontier)
    ensures
        advances(f, round(f)),
        round(f) == f <==> quiet(f),
{
    let a = naked_upto(f, 81);
    let b = units_upto(a, 0, 9);
    let c = units_upto(b, 9, 18);
    let e = units_upto(c, 18, 27);
    lemma_naked_upto(f, 81);
    lemma_units_upto(a, 0, 9);
    lemma_units_upto(b, 9, 18);
    lemma_units_upto(c, 18, 27);
    lemma_advances_trans(f, a, b);
    lemma_advances_trans(f, b, c);
    lemma_advances_trans(f, c, e);
    if e == f {
        assert(a == f && b == f && c == f);
        assert forall|u: int, d: int| 0 <= u < 27 && 1 <= d <= 9 implies !#[trigger] hidden_single(
            f,
            u,
            d,
        ) by {
            lemma_unit_at(u);
            assert(!hidden_single(f, unit_at(unit_at(u)), d));
        }
    }
    if quiet(f) {
        assert forall|i: int, d: int| 0 <= i < 27 && 1 <= d <= 9 implies !#[trigger] hidden_single(
            f,
            unit_at(i),
            d,
        ) by {
            lemma_unit_at(i);
        }
    }
}

/// Deduction advances the frontier and ends where nothing is left to
/// deduce.
pub proof fn lemma_propagate(f: Frontier)
    requires
        f.wf(),
    ensures
        advances(f, propagate(f)),
        quiet(propagate(f)),
        propagate(f).wf(),
    decreases f.remaining,
{
    let g = round(f);
    lemma_round(f);
    lemma_count_empty_bounds(g.grid);
    if g.remaining < f.remaining {
        lemma_propagate(g);
        lemma_advances_trans(f, g, propagate(g));
    }
}

/// Where nothing is left to deduce, deduction changes nothing.
pub proof fn lemma_propagate_quiet(f: Frontier)
    requires
        quiet(f),
    ensures
        propagate(f) == f,
{
    lemma_round(f);
}

impl Solver {
    /// Deduces what can be deduced: the four passes, cells, rows, columns
    /// and blocks, are repeated until a round places nothing.
    pub fn place_obvious(state: &mut SpeculationState)
        requires
            old(state)@.wf(),
        ensures
            final(state)@ == propagate(old(state)@),
            final(state)@.wf(),
            quiet(final(state)@),
            advances(old(state)@, final(state)@),
    {
        let ghost f0 = state@;
        proof {
            lemma_propagate(f0);
        }
        let mut made_move = true;
        while made_move
            invariant
                state@.wf(),
                propagate(f0) == if made_move {
                    propagate(state@)
                } else {
                    state@
                },
            decreases
                    state@.remaining + if made_move {
                        1int
                    } else {
                        0int
                    },
        {
            let ghost f = state@;
            proof {
                lemma_round(f);
                lemma_count_empty_bounds(f.grid);
                lemma_count_empty_bounds(round(f).grid);
            }
            made_move = false;

            Self::fill_squares(state, &mut made_move);
            Self::fill_rows(state, &mut made_move);
            Self::fill_columns(state, &mut made_move);
            Self::fill_blocks(state, &mut made_move);
            proof {
                let a = naked_upto(f, 81);
                let b = units_upto(a, 0, 9);
                let c = units_upto(b, 9, 18);
                lemma_naked_upto(f, 81);
                lemma_units_upto(a, 0, 9);
                lemma_units_upto(b, 9, 18);
                lemma_units_upto(c, 18, 27);
                assert(state@ == round(f));
                assert(made_move == (state@.remaining < f.remaining));
            }
        }
    }

    /// The cell pass: each cell in turn takes its digit if it may take one
    /// digit only.
    pub fn fill_squares(state: &mut SpeculationState, made_move: &mut bool)
        requires
            old(state)@.wf(),
        ensures
            final(state)@ == naked_upto(old(state)@, 81),
            final(state)@.wf(),
            *final(made_move) == (*old(made_move) || final(state)@.remaining < old(
                state,
            )@.remaining),
    {
        let ghost f0 = state@;
        let ghost m0 = *made_move;
        let mut square: usize = 0;
        while square < 81
            invariant
                square <= 81,
                state@ == naked_upto(f0, square as int),
                state@.wf(),
                advances(f0, state@),
                *made_move == (m0 || state@.remaining < f0.remaining),
            decreases 81 - square,
        {
            let ghost f = state@;
            let moves = state.candidates(Square::at(square));
            if moves != 0 {
                let mut possible_moves: u8 = 0;
                let mut possible_move: u8 = 0;

                let mut i: u8 = 1;
                while i < 10
                    invariant
                        1 <= i <= 10,
                        possible_moves == count_in(moves, 1, i as int),
                        possible_moves < i,
                        possible_moves >= 1 ==> 1 <= possible_move < i && holds(
                            moves,
                            possible_move as int,
                        ),
                    decreases 10 - i,
                {
                    let can_place = moves & (1u16 << i) != 0;
                    if can_place {
                        possible_move = i;
                        possible_moves += 1;
                    }
                    i += 1;
                }

                if possible_moves == 1 {
                    proof {
                        lemma_single_digit(moves);
                    }
                    state.make_move(Square::at(square), possible_move);
                    *made_move = true;
                }
            } else {
                proof {
                    lemma_popcount_zero();
                }
            }
            proof {
                lemma_naked_step(f, square as int);
                lemma_advances_trans(f0, f, state@);
            }
            square += 1;
        }
    }

    /// The pass over one unit: each digit 1 to 9 that the unit lacks goes
    /// into the one cell of the unit that may take it, if there is one such
    /// cell only.
    pub fn fill_unit(state: &mut SpeculationState, unit: usize, made_move: &mut bool)
        requires
            unit < 27,
            old(state)@.wf(),
        ensures
            final(state)@ == unit_digits(old(state)@, unit as int, 9),
            final(state)@.wf(),
            advances(old(state)@, final(state)@),
            *final(made_move) == (*old(made_move) || final(state)@.remaining < old(
                state,
            )@.remaining),
    {
        let ghost f0 = state@;
        let ghost m0 = *made_move;
        let ghost u = unit as int;
        let cells = unit_squares(unit);
        let mut i: u8 = 1;
        while i < 10
            invariant
                1 <= i <= 10,
                unit < 27,
                u == unit,
                forall|k: int| 0 <= k < 9 ==> (#[trigger] cells@[k])@ == unit_cell(u, k),
                state@ == unit_digits(f0, u, i - 1),
                state@.wf(),
                advances(f0, state@),
                *made_move == (m0 || state@.remaining < f0.remaining),
            decreases 10 - i,
        {
            let ghost f = state@;
            let present = state.present(unit);
            if present & (1u16 << i) == 0 {
                let mut index: usize = 0;
                let mut count: usize = 0;

                let mut k: usize = 0;
                while k < 9
                    invariant
                        k <= 9,
                        1 <= i <= 9,
                        state@ == f,
                        forall|j: int| 0 <= j < 9 ==> (#[trigger] cells@[j])@ == unit_cell(u, j),
                        count == holders(f.candidates, u, i as int, k as int),
                        count <= k,
                        index < 9,
                        count >= 1 ==> index == last_holder(f.candidates, u, i as int, k as int),
                    decreases 9 - k,
                {
                    let can_place = state.candidates(cells[k]) & (1u16 << i) != 0;
                    if can_place {
                        index = k;
                        count += 1;
                    }
                    k += 1;
                }

                if count == 1 {
                    proof {
                        lemma_holders(f.candidates, u, i as int, 9);
                        lemma_unit_cell(u, index as int);
                    }
                    state.make_move(cells[index], i);
                    *made_move = true;
                }
            }
            proof {
                lemma_hidden_step(f, u, i as int);
                lemma_advances_trans(f0, f, state@);
            }
            i += 1;
        }
    }

    /// The row pass: the rows from top to bottom.
    pub fn fill_rows(state: &mut SpeculationState, made_move: &mut bool)
        requires
            old(state)@.wf(),
        ensures
            final(state)@ == units_upto(old(state)@, 0, 9),
            final(state)@.wf(),
            *final(made_move) == (*old(made_move) || final(state)@.remaining < old(
                state,
            )@.remaining),
    {
        let ghost f0 = state@;
        let ghost m0 = *made_move;
        let mut row: usize = 0;
        while row < 9
            invariant
                row <= 9,
                state@ == units_upto(f0, 0, row as int),
                state@.wf(),
                advances(f0, state@),
                *made_move == (m0 || state@.remaining < f0.remaining),
            decreases 9 - row,
        {
            let ghost f = state@;
            Self::fill_unit(state, row, made_move);
            proof {
                lemma_advances_trans(f0, f, state@);
            }
            row += 1;
        }
    }

    /// The column pass: the columns from left to right.
    pub fn fill_columns(state: &mut SpeculationState, made_move: &mut bool)
        requires
            old(state)@.wf(),
        ensures
            final(state)@ == units_upto(old(state)@, 9, 18),
            final(state)@.wf(),
            *final(made_move) == (*old(made_move) || final(state)@.remaining < old(
                state,
            )@.remaining),
    {
        let ghost f0 = state@;
        let ghost m0 = *made_move;
        let mut col_start: usize = 0;
        while col_start < 9
            invariant
                col_start <= 9,
                state@ == units_upto(f0, 9, 9 + col_start),
                state@.wf(),
                advances(f0, state@),
                *made_move == (m0 || state@.remaining < f0.remaining),
            decreases 9 - col_start,
        {
            let ghost f = state@;
            Self::fill_unit(state, 9 + col_start, made_move);
            proof {
                lemma_advances_trans(f0, f, state@);
            }
            col_start += 1;
        }
    }

    /// The block pass: the blocks, one column of blocks after the other,
    /// each from top to bottom.
    pub fn fill_blocks(state: &mut SpeculationState, made_move: &mut bool)
        requires
            old(state)@.wf(),
        ensures
            final(state)@ == units_upto(old(state)@, 18, 27),
            final(state)@.wf(),
            *final(made_move) == (*old(made_move) || final(state)@.remaining < old(
                state,
            )@.remaining),
    {
        let ghost f0 = state@;
        let ghost m0 = *made_move;
        let mut x: usize = 0;
        while x < 3
            invariant
                x <= 3,
                state@ == units_upto(f0, 18, 18 + x * 3),
                state@.wf(),
                advances(f0, state@),
                *made_move == (m0 || state@.remaining < f0.remaining),
            decreases 3 - x,
        {
            let mut y: usize = 0;
            while y < 3
                invariant
                    y <= 3,
                    x < 3,
                    state@ == units_upto(f0, 18, 18 + x * 3 + y),
                    state@.wf(),
                    advances(f0, state@),
                    *made_move == (m0 || state@.remaining < f0.remaining),
                decreases 3 - y,
            {
                let ghost f = state@;
                proof {
                    assert(unit_at(18 + x * 3 + y) == 18 + y * 3 + x);
                }
                Self::fill_unit(state, 18 + y * 3 + x, made_move);
                proof {
                    lemma_advances_trans(f0, f, state@);
                }
                y += 1;
            }
            x += 1;
        }
    }
}

} // verus!
