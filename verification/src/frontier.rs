//! The constraint frontier: for each empty cell the digits it may still
//! take, for each unit the digits it already holds, and the number of
//! cells left to fill. It is built once from a board and then kept up
//! move by move.

use crate::bits::{
    bit, framed, holds, lemma_clear_keeps_frame, lemma_complement_framed, lemma_holds_clear,
    lemma_holds_not, lemma_holds_set, lemma_holds_zero, DIGIT_MASK,
};
use crate::board::{unit_squares, values_word, Board, Square};
use crate::grid::{
    consistent, constraints, count_empty, extends, lemma_constraints, lemma_count_empty_bounds,
    lemma_count_empty_update, lemma_unit_word, seen, unit_holds, unit_values, unit_word,
    well_formed,
};
use crate::units::{
    block_unit, col_unit, in_unit, lemma_row_cell, lemma_unit_cell, lemma_unit_pos, lemma_units_of,
    peers, row_unit, unit_cell, unit_pos,
};
use vstd::prelude::*;

verus! {

/// A grid together with its bookkeeping, as mathematics.
pub struct Frontier {
    /// The 81 cells: 0 for an empty cell, else its digit.
    pub grid: Seq<u8>,
    /// For each cell the word of the digits it may still take: bits 1 to 9.
    /// The word of a filled cell is 0; that of an empty cell carries the
    /// six bits above 9 besides its digits, and so is never 0.
    pub candidates: Seq<u16>,
    /// For each of the 27 units the word of the digits it holds.
    pub present: Seq<u16>,
    /// The number of empty cells.
    pub remaining: int,
}

/// A word without bit `d`.
pub open spec fn cleared(w: u16, d: int) -> u16 {
    w & !bit(d)
}

impl Frontier {
    /// The bookkeeping agrees with the grid: every candidate of an empty
    /// cell is a digit that the cell does not see, a filled cell has no
    /// candidate, each unit's word holds the digits of the unit, and the
    /// count of empty cells is right.
    pub open spec fn wf(self) -> bool {
        &&& self.candidates.len() == 81
        &&& self.present.len() == 27
        &&& well_formed(self.grid)
        &&& self.remaining == count_empty(self.grid)
        &&& forall|c: int| 0 <= c < 81 && self.grid[c] != 0 ==> #[trigger] self.candidates[c] == 0
        &&& forall|c: int| 0 <= c < 81 && self.grid[c] == 0 ==> framed(#[trigger] self.candidates[c])
        &&& forall|c: int, d: int|
            0 <= c < 81 && 1 <= d <= 9 && #[trigger] holds(self.candidates[c], d) ==> !seen(
                self.grid,
                c,
                d,
            )
        &&& forall|u: int, d: int|
            0 <= u < 27 && 1 <= d <= 9 ==> (#[trigger] holds(self.present[u], d) <==> unit_holds(
                self.grid,
                u,
                d,
            ))
    }

    /// The candidates of every empty cell are, on the bits 1 to 9, the
    /// complement of what its row, its column and its block hold.
    pub open spec fn exact(self) -> bool {
        forall|c: int|
            0 <= c < 81 && self.grid[c] == 0 ==> (#[trigger] self.candidates[c]) & DIGIT_MASK == !(
            self.present[row_unit(c)] | self.present[col_unit(c)] | self.present[block_unit(c)])
                & DIGIT_MASK
    }

    /// No cell is left to fill.
    pub open spec fn solved(self) -> bool {
        self.remaining == 0
    }

    /// The frontier of a grid: each empty cell may take what it does not
    /// see.
    pub open spec fn initial(g: Seq<u8>) -> Frontier {
        Frontier {
            grid: g,
            candidates: Seq::new(
                81,
                |c: int|
                    if g[c] == 0 {
                        !constraints(g, c)
                    } else {
                        0u16
                    },
            ),
            present: Seq::new(27, |u: int| unit_word(g, u)),
            remaining: count_empty(g),
        }
    }

    /// The frontier after the digit `d` is put into cell `c`: the cell is
    /// filled and has no candidate left, its three units hold `d`, and no
    /// peer of the cell may take `d` any more.
    pub open spec fn place(self, c: int, d: int) -> Frontier {
        Frontier {
            grid: self.grid.update(c, d as u8),
            candidates: Seq::new(
                81,
                |x: int|
                    if x == c {
                        0u16
                    } else if peers(c, x) {
                        cleared(self.candidates[x], d)
                    } else {
                        self.candidates[x]
                    },
            ),
            present: self.present.update(row_unit(c), self.present[row_unit(c)] | bit(d)).update(
                col_unit(c),
                self.present[col_unit(c)] | bit(d),
            ).update(block_unit(c), self.present[block_unit(c)] | bit(d)),
            remaining: self.remaining - 1,
        }
    }

    /// The frontier in which cell `c` may no longer take the digit `d`.
    pub open spec fn consume(self, c: int, d: int) -> Frontier {
        Frontier { candidates: self.candidates.update(c, cleared(self.candidates[c], d)), ..self }
    }

    /// Whether the digit `d` may be put into cell `c`.
    pub open spec fn allows(self, c: int, d: int) -> bool {
        0 <= c < 81 && 1 <= d <= 9 && holds(self.candidates[c], d)
    }
}

/// Clearing a bit twice is clearing it once, and the empty word stays
/// empty.
proof fn lemma_cleared(w: u16, b: u16)
    by (bit_vector)
    ensures
        (w & !b) & !b == w & !b,
        0u16 & !b == 0,
{
}

/// Candidates that are the complement of what three units hold stay so
/// when a digit goes into one of the units, or more, and out of the
/// candidates.
proof fn lemma_exact_step(a: u16, r: u16, q: u16, k: u16, r2: u16, q2: u16, k2: u16, b: u16)
    by (bit_vector)
    requires
        a & 0x03FE == !(r | q | k) & 0x03FE,
        r2 == r | b || r2 == r,
        q2 == q | b || q2 == q,
        k2 == k | b || k2 == k,
        r2 == r | b || q2 == q | b || k2 == k | b,
    ensures
        (a & !b) & 0x03FE == !(r2 | q2 | k2) & 0x03FE,
{
}

/// The frontier of a well-formed grid agrees with the grid, and its
/// candidates are exactly the digits that each empty cell does not see.
pub proof fn lemma_initial(g: Seq<u8>)
    requires
        well_formed(g),
    ensures
        Frontier::initial(g).wf(),
        Frontier::initial(g).exact(),
        Frontier::initial(g).grid == g,
{
    let f = Frontier::initial(g);
    assert forall|c: int| 0 <= c < 81 && f.grid[c] == 0 implies framed(
        #[trigger] f.candidates[c],
    ) by {
        lemma_constraints(g, c, 0);
        lemma_complement_framed(constraints(g, c));
    }
    assert forall|c: int, d: int|
        0 <= c < 81 && 1 <= d <= 9 && #[trigger] holds(f.candidates[c], d) implies !seen(
        f.grid,
        c,
        d,
    ) by {
        if g[c] == 0 {
            lemma_constraints(g, c, d);
            lemma_holds_not(constraints(g, c), d);
        } else {
            lemma_holds_zero(d);
        }
    }
    assert forall|u: int, d: int| 0 <= u < 27 && 1 <= d <= 9 implies (#[trigger] holds(
        f.present[u],
        d,
    ) <==> unit_holds(f.grid, u, d)) by {
        lemma_unit_word(g, u, d);
    }
    assert forall|c: int| 0 <= c < 81 && f.grid[c] == 0 implies (#[trigger] f.candidates[c])
        & DIGIT_MASK == !(f.present[row_unit(c)] | f.present[col_unit(c)] | f.present[block_unit(
        c,
    )]) & DIGIT_MASK by {
        lemma_units_of(c);
    }
}

/// Putting an allowed digit into an empty cell keeps the bookkeeping in
/// agreement with the grid, keeps exact candidates exact, keeps a grid
/// without clashes free of them, and fills one cell and no other.
pub proof fn lemma_place(f: Frontier, c: int, d: int)
    requires
        f.wf(),
        f.allows(c, d),
    ensures
        f.grid[c] == 0,
        f.place(c, d).wf(),
        f.exact() ==> f.place(c, d).exact(),
        consistent(f.grid) ==> consistent(f.place(c, d).grid),
        extends(f.place(c, d).grid, f.grid),
        f.place(c, d).remaining == f.remaining - 1,
        f.remaining >= 1,
{
    let p = f.place(c, d);
    let b = bit(d);
    lemma_units_of(c);
    if f.grid[c] != 0 {
        lemma_holds_zero(d);
    }
    lemma_count_empty_update(f.grid, c, d as u8);
    lemma_count_empty_bounds(p.grid);
    assert forall|x: int| 0 <= x < 81 && p.grid[x] != 0 implies #[trigger] p.candidates[x]
        == 0 by {
        lemma_cleared(f.candidates[x], b);
    }
    assert forall|x: int| 0 <= x < 81 && p.grid[x] == 0 implies framed(
        #[trigger] p.candidates[x],
    ) by {
        lemma_clear_keeps_frame(f.candidates[x], d as u16);
    }
    assert forall|x: int, e: int|
        0 <= x < 81 && 1 <= e <= 9 && #[trigger] holds(p.candidates[x], e) implies !seen(
        p.grid,
        x,
        e,
    ) by {
        lemma_holds_zero(e);
        lemma_holds_clear(f.candidates[x], d, e);
        assert(holds(f.candidates[x], e));
        if seen(p.grid, x, e) {
            let y = choose|y: int| 0 <= y < 81 && #[trigger] peers(x, y) && p.grid[y] == e;
            if y == c {
                assert(peers(c, x));
            } else {
                assert(peers(x, y) && f.grid[y] == e);
            }
        }
    }
    assert forall|u: int, e: int| 0 <= u < 27 && 1 <= e <= 9 implies (#[trigger] holds(
        p.present[u],
        e,
    ) <==> unit_holds(p.grid, u, e)) by {
        lemma_holds_set(f.present[u], d, e);
        assert(holds(f.present[u], e) <==> unit_holds(f.grid, u, e));
        if unit_holds(p.grid, u, e) {
            let y = choose|y: int| 0 <= y < 81 && #[trigger] in_unit(y, u) && p.grid[y] == e;
            if y != c {
                assert(in_unit(y, u) && f.grid[y] == e);
            }
        }
        if unit_holds(f.grid, u, e) {
            let y = choose|y: int| 0 <= y < 81 && #[trigger] in_unit(y, u) && f.grid[y] == e;
            assert(in_unit(y, u) && p.grid[y] == e);
        }
        if in_unit(c, u) && e == d {
            assert(in_unit(c, u) && p.grid[c] == e);
        }
    }
    if f.exact() {
        assert forall|x: int| 0 <= x < 81 && p.grid[x] == 0 implies (#[trigger] p.candidates[x])
            & DIGIT_MASK == !(p.present[row_unit(x)] | p.present[col_unit(x)] | p.present[block_unit(
            x,
        )]) & DIGIT_MASK by {
            lemma_units_of(x);
            if peers(c, x) {
                lemma_exact_step(
                    f.candidates[x],
                    f.present[row_unit(x)],
                    f.present[col_unit(x)],
                    f.present[block_unit(x)],
                    p.present[row_unit(x)],
                    p.present[col_unit(x)],
                    p.present[block_unit(x)],
                    b,
                );
            }
        }
    }
    if consistent(f.grid) {
        assert forall|x: int, y: int|
            0 <= x < 81 && 0 <= y < 81 && x != y && #[trigger] peers(x, y) && p.grid[x]
                != 0 implies p.grid[x] != p.grid[y] by {
            if x == c {
                assert(peers(c, y));
            } else if y == c {
                assert(peers(c, x));
            }
        }
    }
}

/// Taking a candidate away from a cell keeps the bookkeeping in agreement
/// with the grid, and changes neither the grid nor the count.
pub proof fn lemma_consume(f: Frontier, c: int, d: int)
    requires
        f.wf(),
        f.allows(c, d),
    ensures
        f.consume(c, d).wf(),
        f.consume(c, d).grid == f.grid,
        f.consume(c, d).remaining == f.remaining,
{
    let p = f.consume(c, d);
    if f.grid[c] != 0 {
        lemma_holds_zero(d);
    }
    lemma_clear_keeps_frame(f.candidates[c], d as u16);
    assert forall|x: int, e: int|
        0 <= x < 81 && 1 <= e <= 9 && #[trigger] holds(p.candidates[x], e) implies !seen(
        p.grid,
        x,
        e,
    ) by {
        lemma_holds_clear(f.candidates[x], d, e);
        assert(holds(f.candidates[x], e));
    }
}

/// The candidates after every cell of unit `u` has lost the digit `d`.
pub open spec fn struck(candidates: Seq<u16>, u: int, d: int) -> Seq<u16> {
    Seq::new(
        81,
        |x: int|
            if in_unit(x, u) {
                cleared(candidates[x], d)
            } else {
                candidates[x]
            },
    )
}

/// A grid with its frontier: the state that the search copies, changes
/// and throws away.
#[derive(Clone, Copy)]
pub struct SpeculationState {
    board: Board,
    empty_squares: usize,
    valid_moves: [u16; 81],
    row_values: [u16; 9],
    col_values: [u16; 9],
    block_values: [u16; 9],
}

impl View for SpeculationState {
    type V = Frontier;

    /// The state as mathematics: the words of the units in one sequence,
    /// rows first, then columns, then blocks.
    closed spec fn view(&self) -> Frontier {
        Frontier {
            grid: self.board@,
            candidates: self.valid_moves@,
            present: self.row_values@ + self.col_values@ + self.block_values@,
            remaining: self.empty_squares as int,
        }
    }
}

impl SpeculationState {
    /// The frontier of a board: one scan of each unit, and for each empty
    /// cell the complement of what its row, its column and its block hold.
    pub fn new_initial(input: Board) -> (s: SpeculationState)
        requires
            well_formed(input@),
        ensures
            s@ == Frontier::initial(input@),
            s@.wf(),
            s@.exact(),
    {
        let mut initial = SpeculationState {
            empty_squares: input.empty_squares(),
            board: input,
            valid_moves: [0;81],
            row_values: [0;9],
            col_values: [0;9],
            block_values: [0;9],
        };
        let ghost g = input@;
        proof {
            lemma_count_empty_bounds(g);
            assert forall|u: int, k: int| 0 <= u < 27 && 0 <= k < 9 implies (
            #[trigger] unit_values(g, u)[k]) <= 9 by {
                lemma_unit_cell(u, k);
            }
        }

        let mut square: usize = 0;
        while square < 81
            invariant
                square <= 81,
                well_formed(g),
                initial.board == input,
                initial.empty_squares == count_empty(g),
                input@ == g,
                forall|c: int|
                    0 <= c < 81 ==> #[trigger] initial.valid_moves@[c] == if c < square && g[c]
                        == 0 {
                        !constraints(g, c)
                    } else {
                        0u16
                    },
            decreases 81 - square,
        {
            if input.inner[square] == 0 {
                initial.valid_moves[square] = input.get_moves_for_square(Square::at(square));
            }
            square += 1;
        }

        let ghost cands = initial.valid_moves@;
        let mut row: usize = 0;
        while row < 9
            invariant
                row <= 9,
                initial.board == input,
                initial.empty_squares == count_empty(g),
                initial.valid_moves@ == cands,
                well_formed(g),
                input@ == g,
                forall|u: int, k: int|
                    0 <= u < 27 && 0 <= k < 9 ==> (#[trigger] unit_values(g, u)[k])
                        <= 9,
                forall|r: int| 0 <= r < row ==> #[trigger] initial.row_values@[r] == unit_word(g, r),
            decreases 9 - row,
        {
            proof {
                lemma_row_cell(row as int, 0);
            }
            let values = input.get_row_for_square(Square::at(row * 9));
            initial.row_values[row] = values_word(&values);
            row += 1;
        }

        let ghost rows = initial.row_values@;
        let mut col: usize = 0;
        while col < 9
            invariant
                col <= 9,
                initial.board == input,
                initial.empty_squares == count_empty(g),
                initial.valid_moves@ == cands,
                initial.row_values@ == rows,
                well_formed(g),
                input@ == g,
                forall|u: int, k: int|
                    0 <= u < 27 && 0 <= k < 9 ==> (#[trigger] unit_values(g, u)[k])
                        <= 9,
                forall|r: int|
                    0 <= r < col ==> #[trigger] initial.col_values@[r] == unit_word(g, 9 + r),
            decreases 9 - col,
        {
            let values = input.get_col_for_square(Square::at(col));
            initial.col_values[col] = values_word(&values);
            col += 1;
        }

        let ghost cols = initial.col_values@;
        let mut x: usize = 0;
        while x < 3
            invariant
                x <= 3,
                initial.board == input,
                initial.empty_squares == count_empty(g),
                initial.valid_moves@ == cands,
                initial.row_values@ == rows,
                initial.col_values@ == cols,
                well_formed(g),
                input@ == g,
                forall|u: int, k: int|
                    0 <= u < 27 && 0 <= k < 9 ==> (#[trigger] unit_values(g, u)[k])
                        <= 9,
                forall|b: int|
                    0 <= b < 9 && b % 3 < x ==> #[trigger] initial.block_values@[b] == unit_word(
                        g,
                        18 + b,
                    ),
            decreases 3 - x,
        {
            let mut y: usize = 0;
            while y < 3
                invariant
                    y <= 3,
                    x < 3,
                    initial.board == input,
                    initial.empty_squares == count_empty(g),
                    initial.valid_moves@ == cands,
                    initial.row_values@ == rows,
                    initial.col_values@ == cols,
                    well_formed(g),
                    input@ == g,
                    forall|u: int, k: int|
                        0 <= u < 27 && 0 <= k < 9 ==> (#[trigger] unit_values(
                            g,
                            u,
                        )[k]) <= 9,
                    forall|b: int|
                        0 <= b < 9 && (b % 3 < x || (b % 3 == x && b / 3 < y))
                            ==> #[trigger] initial.block_values@[b] == unit_word(g, 18 + b),
                decreases 3 - y,
            {
                let block = Board::get_block(x, y);
                proof {
                    lemma_unit_cell(18 + y * 3 + x, 0);
                }
                let values = input.get_block_for_square(block[0]);
                initial.block_values[y * 3 + x] = values_word(&values);
                y += 1;
            }
            x += 1;
        }

        proof {
            lemma_initial(g);
            assert(initial@.candidates =~= Frontier::initial(g).candidates);
            assert(initial@.present =~= Frontier::initial(g).present);
        }
        initial
    }

    /// The board as it stands.
    pub fn board(&self) -> (b: Board)
        ensures
            b@ == self@.grid,
    {
        self.board
    }

    /// The number of cells left to fill.
    pub fn remaining_empty(&self) -> (n: usize)
        ensures
            n == self@.remaining,
    {
        self.empty_squares
    }

    /// Whether no cell is left to fill.
    pub fn is_solved(&self) -> (b: bool)
        ensures
            b == self@.solved(),
    {
        self.empty_squares == 0
    }

    /// The word of the digits that a cell may still take.
    pub fn candidates(&self, square: Square) -> (w: u16)
        ensures
            0 <= square@ < 81,
            w == self@.candidates[square@],
    {
        self.valid_moves[square.index()]
    }

    /// The word of the digits that unit `unit` holds.
    pub fn present(&self, unit: usize) -> (w: u16)
        requires
            unit < 27,
        ensures
            w == self@.present[unit as int],
    {
        if unit < 9 {
            self.row_values[unit]
        } else if unit < 18 {
            self.col_values[unit - 9]
        } else {
            self.block_values[unit - 18]
        }
    }

    /// Takes the digit `digit` away from the candidates of a cell.
    pub fn remove_candidate(&mut self, square: Square, digit: u8)
        requires
            old(self)@.wf(),
            old(self)@.allows(square@, digit as int),
        ensures
            final(self)@ == old(self)@.consume(square@, digit as int),
            final(self)@.wf(),
    {
        proof {
            lemma_consume(self@, square@, digit as int);
        }
        self.valid_moves[square.index()] &= !(1u16 << digit);
    }

    /// Takes the digit `value` away from the candidates of the nine cells
    /// of a unit.
    fn strike(&mut self, unit: usize, value: u8)
        requires
            unit < 27,
            value < 16,
        ensures
            final(self).valid_moves@ == struck(old(self).valid_moves@, unit as int, value as int),
            final(self).board == old(self).board,
            final(self).empty_squares == old(self).empty_squares,
            final(self).row_values == old(self).row_values,
            final(self).col_values == old(self).col_values,
            final(self).block_values == old(self).block_values,
    {
        let ghost before = self.valid_moves@;
        let ghost u = unit as int;
        let ghost d = value as int;
        let cells = unit_squares(unit);
        let mut k: usize = 0;
        while k < 9
            invariant
                k <= 9,
                0 <= u < 27,
                u == unit,
                d == value,
                value < 16,
                forall|i: int| 0 <= i < 9 ==> (#[trigger] cells@[i])@ == unit_cell(u, i),
                forall|x: int|
                    0 <= x < 81 ==> #[trigger] self.valid_moves@[x] == if in_unit(x, u)
                        && unit_pos(x, u) < k {
                        cleared(before[x], d)
                    } else {
                        before[x]
                    },
                self.board == old(self).board,
                self.empty_squares == old(self).empty_squares,
                self.row_values == old(self).row_values,
                self.col_values == old(self).col_values,
                self.block_values == old(self).block_values,
            decreases 9 - k,
        {
            let cell = cells[k].index();
            proof {
                lemma_unit_cell(u, k as int);
                assert forall|x: int| 0 <= x < 81 && in_unit(x, u) implies (unit_pos(
                    x,
                    u,
                ) == k <==> x == cell) by {
                    lemma_unit_pos(x, u);
                }
            }
            self.valid_moves[cell] &= !(1u16 << value);
            k += 1;
        }
        proof {
            assert forall|x: int| 0 <= x < 81 && in_unit(x, u) implies unit_pos(x, u)
                < 9 by {
                lemma_unit_pos(x, u);
            }
            assert(self.valid_moves@ =~= struck(before, u, d));
        }
    }

    /// Enters a move: writes the digit into the cell, counts the cell as
    /// filled, empties its candidates, adds the digit to the cell's row,
    /// column and block, and takes it away from the candidates of every
    /// cell of these three.
    pub fn make_move(&mut self, square: Square, value: u8)
        requires
            old(self)@.wf(),
            old(self)@.allows(square@, value as int),
        ensures
            final(self)@ == old(self)@.place(square@, value as int),
            final(self)@.wf(),
            old(self)@.exact() ==> final(self)@.exact(),
            final(self)@.remaining == old(self)@.remaining - 1,
    {
        let ghost f = self@;
        let ghost c = square@;
        let ghost d = value as int;
        let idx = square.index();
        proof {
            lemma_place(f, c, d);
            lemma_units_of(c);
        }
        self.board.inner[idx] = value;
        self.empty_squares -= 1;

        // No more moves are valid for this square.
        self.valid_moves[idx] = 0;
        let ghost before = self.valid_moves@;

        let row = square.row();
        self.row_values[row] |= 1u16 << value;
        self.strike(row, value);

        let col = square.col();
        self.col_values[col] |= 1u16 << value;
        self.strike(9 + col, value);

        let block = square.block();
        self.block_values[block] |= 1u16 << value;
        self.strike(18 + block, value);

        proof {
            let target = f.place(c, d);
            assert forall|x: int| 0 <= x < 81 implies #[trigger] self.valid_moves@[x]
                == target.candidates[x] by {
                lemma_cleared(before[x], bit(d));
                lemma_units_of(x);
            }
            assert(self@.candidates =~= target.candidates);
            assert(self@.present =~= target.present);
        }
    }
}

} // verus!
