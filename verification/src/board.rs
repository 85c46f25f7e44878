//! The board and its cells as the program holds them.

use crate::grid::{
    constraints, count_empty, covered, lemma_constraints, seen, unit_values, well_formed, word_of,
};
use crate::units::{
    block_of, block_unit, col_of, col_unit, lemma_unit_cell, lemma_units_of, row_of, row_unit,
    unit_cell,
};
use vstd::prelude::*;

verus! {

/// A cell of the board, by its number. The number is below 81.
#[derive(Clone, Copy, Debug)]
pub struct Square(usize);

impl View for Square {
    type V = int;

    /// The number of the cell.
    closed spec fn view(&self) -> int {
        self.0 as int
    }
}

impl Square {
    /// Every cell has a number below 81.
    #[verifier::type_invariant]
    spec fn in_range(self) -> bool {
        self.0 < 81
    }

    /// The cell with the given number, if there is one.
    pub fn new(index: usize) -> (r: Option<Square>)
        ensures
            index < 81 <==> r.is_some(),
            r matches Some(s) ==> s@ == index,
    {
        if index < 81 {
            Some(Square(index))
        } else {
            None
        }
    }

    /// The cell with the given number.
    pub(crate) fn at(index: usize) -> (s: Square)
        requires
            index < 81,
        ensures
            s@ == index,
    {
        Square(index)
    }

    /// The number of the cell.
    pub fn index(&self) -> (i: usize)
        ensures
            i == self@,
            i < 81,
    {
        proof {
            use_type_invariant(self);
        }
        self.0
    }

    /// The row of the cell.
    pub fn row(&self) -> (r: usize)
        ensures
            r == row_of(self@),
            r < 9,
    {
        proof {
            use_type_invariant(self);
        }
        self.0 / 9
    }

    /// The number of the first cell of the row.
    pub fn row_start(&self) -> (i: usize)
        ensures
            i == row_of(self@) * 9,
            i <= 72,
    {
        self.row() * 9
    }

    /// The column of the cell.
    pub fn col(&self) -> (c: usize)
        ensures
            c == col_of(self@),
            c < 9,
    {
        proof {
            use_type_invariant(self);
        }
        self.0 - self.row_start()
    }

    /// The block of the cell.
    pub fn block(&self) -> (b: usize)
        ensures
            b == block_of(self@),
            b < 9,
    {
        proof {
            use_type_invariant(self);
        }
        self.row() / 3 * 3 + self.col() / 3
    }
}

/// Why a buffer of bytes is no board.
#[derive(Clone, Copy, Debug, PartialEq, Eq)]
pub enum InputError {
    /// The buffer does not hold 81 cells.
    Length,
    /// A cell holds a value above 9.
    Digit,
}

/// The 81 cells of a game, row by row: 0 for an empty cell, else its digit.
#[derive(Clone, Copy)]
pub struct Board {
    pub inner: [u8; 81],
}

impl View for Board {
    type V = Seq<u8>;

    /// The 81 values of the board.
    open spec fn view(&self) -> Seq<u8> {
        self.inner@
    }
}

/// The word of nine values.
pub fn values_word(values: &[u8; 9]) -> (w: u16)
    requires
        forall|k: int| 0 <= k < 9 ==> #[trigger] values@[k] <= 9,
    ensures
        w == word_of(values@),
{
    let mut w: u16 = 0;
    let mut k: usize = 0;
    while k < 9
        invariant
            k <= 9,
            forall|j: int| 0 <= j < 9 ==> #[trigger] values@[j] <= 9,
            w == word_of(values@.take(k as int)),
        decreases 9 - k,
    {
        proof {
            assert(values@.take(k + 1).drop_last() =~= values@.take(k as int));
        }
        w |= 1u16 << values[k];
        k += 1;
    }
    proof {
        assert(values@.take(9) =~= values@);
    }
    w
}

impl Board {
    /// Reads a board from a buffer of 81 bytes, each 0 to 9.
    pub fn from_slice(cells: &[u8]) -> (r: Result<Board, InputError>)
        ensures
            match r {
                Ok(b) => b@ == cells@ && well_formed(cells@),
                Err(InputError::Length) => cells@.len() != 81,
                Err(InputError::Digit) => cells@.len() == 81 && !well_formed(cells@),
            },
    {
        if cells.len() != 81 {
            return Err(InputError::Length);
        }
        let mut inner = [0u8; 81];
        let mut i: usize = 0;
        while i < 81
            invariant
                i <= 81,
                cells@.len() == 81,
                forall|j: int| 0 <= j < i ==> #[trigger] cells@[j] <= 9,
                forall|j: int| 0 <= j < i ==> #[trigger] inner@[j] == cells@[j],
            decreases 81 - i,
        {
            if cells[i] > 9 {
                return Err(InputError::Digit);
            }
            inner[i] = cells[i];
            i += 1;
        }
        proof {
            assert(inner@ =~= cells@);
        }
        Ok(Board { inner })
    }

    /// Whether every cell holds a value 0 to 9.
    pub fn is_well_formed(&self) -> (b: bool)
        ensures
            b == well_formed(self@),
    {
        let mut i: usize = 0;
        while i < 81
            invariant
                i <= 81,
                forall|j: int| 0 <= j < i ==> #[trigger] self@[j] <= 9,
            decreases 81 - i,
        {
            if self.inner[i] > 9 {
                return false;
            }
            i += 1;
        }
        true
    }

    /// The number of empty cells.
    pub fn empty_squares(&self) -> (n: usize)
        ensures
            n == count_empty(self@),
    {
        let mut n: usize = 0;
        let mut i: usize = 0;
        while i < 81
            invariant
                i <= 81,
                n <= i,
                n == count_empty(self@.take(i as int)),
            decreases 81 - i,
        {
            proof {
                assert(self@.take(i + 1).drop_last() =~= self@.take(i as int));
            }
            if self.inner[i] == 0 {
                n += 1;
            }
            i += 1;
        }
        proof {
            assert(self@.take(81) =~= self@);
        }
        n
    }

    /// Whether every cell sees every digit 1 to 9 in its row, its column
    /// or its block.
    pub fn is_solved(&self) -> (b: bool)
        requires
            well_formed(self@),
        ensures
            b == covered(self@),
    {
        let mut i: usize = 0;
        while i < 81
            invariant
                i <= 81,
                well_formed(self@),
                forall|c: int, d: int| 0 <= c < i && 1 <= d <= 9 ==> #[trigger] seen(self@, c, d),
            decreases 81 - i,
        {
            let s = Square::at(i);
            let constraints = self.get_constraints_for_square(s);
            let mut d: u8 = 1;
            while d < 10
                invariant
                    1 <= d <= 10,
                    i < 81,
                    well_formed(self@),
                    constraints == self::constraints(self@, i as int),
                    forall|e: int| 1 <= e < d ==> #[trigger] seen(self@, i as int, e),
                decreases 10 - d,
            {
                proof {
                    lemma_constraints(self@, i as int, d as int);
                }
                if constraints & (1u16 << d) == 0 {
                    return false;
                }
                d += 1;
            }
            i += 1;
        }
        true
    }

    /// The digits that a cell does not see, as a word: the complement of
    /// its constraints.
    pub fn get_moves_for_square(&self, square: Square) -> (w: u16)
        requires
            well_formed(self@),
        ensures
            w == !constraints(self@, square@),
    {
        !self.get_constraints_for_square(square)
    }

    /// The values that a cell sees in its row, its column and its block,
    /// as a word.
    pub fn get_constraints_for_square(&self, square: Square) -> (w: u16)
        requires
            well_formed(self@),
        ensures
            w == constraints(self@, square@),
    {
        let ghost c = square@;
        proof {
            use_type_invariant(square);
            lemma_units_of(square@);
            assert forall|u: int, k: int| 0 <= u < 27 && 0 <= k < 9 implies #[trigger] unit_values(
                self@,
                u,
            )[k] <= 9 by {
                lemma_unit_cell(u, k);
            }
        }
        let row = self.get_row_for_square(square);
        let col = self.get_col_for_square(square);
        let block = self.get_block_for_square(square);
        values_word(&row) | values_word(&col) | values_word(&block)
    }

    /// The nine values of the row of a cell.
    pub fn get_row_for_square(&self, square: Square) -> (r: [u8; 9])
        ensures
            r@ == unit_values(self@, row_unit(square@)),
    {
        let start = square.row_start();
        let mut result = [0u8; 9];
        let mut k: usize = 0;
        while k < 9
            invariant
                k <= 9,
                start == row_of(square@) * 9,
                start <= 72,
                forall|j: int| 0 <= j < k ==> #[trigger] result@[j] == self@[start + j],
            decreases 9 - k,
        {
            result[k] = self.inner[start + k];
            k += 1;
        }
        proof {
            assert(result@ =~= unit_values(self@, row_unit(square@)));
        }
        result
    }

    /// The nine values of the column of a cell.
    pub fn get_col_for_square(&self, square: Square) -> (r: [u8; 9])
        ensures
            r@ == unit_values(self@, col_unit(square@)),
    {
        let col = square.col();
        let mut result = [0u8; 9];
        let mut row: usize = 0;
        while row < 9
            invariant
                row <= 9,
                col == col_of(square@),
                col < 9,
                forall|j: int| 0 <= j < row ==> #[trigger] result@[j] == self@[j * 9 + col],
            decreases 9 - row,
        {
            result[row] = self.inner[row * 9 + col];
            row += 1;
        }
        proof {
            assert(result@ =~= unit_values(self@, col_unit(square@)));
        }
        result
    }

    /// The nine values of the block of a cell.
    pub fn get_block_for_square(&self, square: Square) -> (r: [u8; 9])
        ensures
            r@ == unit_values(self@, block_unit(square@)),
    {
        let x = square.col() / 3;
        let y = square.row() / 3;
        let cells = Board::get_block(x, y);
        let mut result = [0u8; 9];
        let mut k: usize = 0;
        while k < 9
            invariant
                k <= 9,
                y * 3 + x == block_of(square@),
                forall|j: int| 0 <= j < 9 ==> (#[trigger] cells@[j])@ == unit_cell(18 + y * 3 + x, j),
                forall|j: int|
                    0 <= j < k ==> #[trigger] result@[j] == self@[unit_cell(18 + y * 3 + x, j)],
            decreases 9 - k,
        {
            result[k] = self.inner[cells[k].index()];
            k += 1;
        }
        proof {
            assert(result@ =~= unit_values(self@, block_unit(square@)));
        }
        result
    }

    /// The nine cells of the block in column `x` and row `y` of blocks.
    pub fn get_block(x: usize, y: usize) -> (r: [Square; 9])
        requires
            x < 3,
            y < 3,
        ensures
            forall|k: int| 0 <= k < 9 ==> (#[trigger] r@[k])@ == unit_cell(18 + y * 3 + x, k),
    {
        let row = y * 3;
        let row_start = row * 9;
        let col = x * 3;
        let mut result = [Square::at(0);9];
        let ghost u = 18 + y * 3 + x;
        let mut i: usize = 0;
        while i < 3
            invariant
                i <= 3,
                x < 3,
                y < 3,
                row_start == y * 27,
                col == x * 3,
                u == 18 + y * 3 + x,
                forall|k: int| 0 <= k < i * 3 ==> (#[trigger] result@[k])@ == unit_cell(u, k),
            decreases 3 - i,
        {
            let start = row_start + i * 9 + col;
            let mut j: usize = 0;
            while j < 3
                invariant
                    j <= 3,
                    i < 3,
                    x < 3,
                    y < 3,
                    start == y * 27 + i * 9 + x * 3,
                    u == 18 + y * 3 + x,
                    forall|k: int|
                        0 <= k < i * 3 + j ==> (#[trigger] result@[k])@ == unit_cell(u, k),
                decreases 3 - j,
            {
                result[i * 3 + j] = Square::at(start + j);
                proof {
                    let k = i * 3 + j;
                    assert(k / 3 == i && k % 3 == j);
                    assert((u - 18) / 3 == y && (u - 18) % 3 == x);
                    assert(unit_cell(u, k) == start + j);
                }
                j += 1;
            }
            i += 1;
        }
        result
    }
}

/// The nine cells of a unit, in the order of its places.
pub fn unit_squares(unit: usize) -> (r: [Square; 9])
    requires
        unit < 27,
    ensures
        forall|k: int| 0 <= k < 9 ==> (#[trigger] r@[k])@ == unit_cell(unit as int, k),
{
    if unit >= 18 {
        let b = unit - 18;
        return Board::get_block(b % 3, b / 3);
    }
    let mut result = [Square::at(0);9];
    let mut k: usize = 0;
    while k < 9
        invariant
            k <= 9,
            unit < 18,
            forall|j: int| 0 <= j < k ==> (#[trigger] result@[j])@ == unit_cell(unit as int, j),
        decreases 9 - k,
    {
        if unit < 9 {
            result[k] = Square::at(unit * 9 + k);
        } else {
            result[k] = Square::at(k * 9 + (unit - 9));
        }
        k += 1;
    }
    result
}

} // verus!
