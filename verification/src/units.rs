//! The cells of the board and the 27 units of nine cells each in which
//! every digit has to stand once.
//!
//! Cells are numbered 0 to 80 row by row. Units are numbered 0 to 26: the
//! rows are 0 to 8, the columns 9 to 17, and the 3x3 blocks 18 to 26.

use vstd::prelude::*;

verus! {

/// The row of a cell.
pub open spec fn row_of(c: int) -> int {
    c / 9
}

/// The column of a cell.
pub open spec fn col_of(c: int) -> int {
    c % 9
}

/// The block of a cell: three to a band of rows, counted row by row.
pub open spec fn block_of(c: int) -> int {
    (c / 27) * 3 + (c % 9) / 3
}

/// The unit that is the row of a cell.
pub open spec fn row_unit(c: int) -> int {
    row_of(c)
}

/// The unit that is the column of a cell.
pub open spec fn col_unit(c: int) -> int {
    9 + col_of(c)
}

/// The unit that is the block of a cell.
pub open spec fn block_unit(c: int) -> int {
    18 + block_of(c)
}

/// Whether cell `c` lies in unit `u`.
pub open spec fn in_unit(c: int, u: int) -> bool {
    u == row_unit(c) || u == col_unit(c) || u == block_unit(c)
}

/// The `k`-th cell of unit `u`: a row from left to right, a column from top
/// to bottom, a block row by row.
pub open spec fn unit_cell(u: int, k: int) -> int {
    if u < 9 {
        u * 9 + k
    } else if u < 18 {
        k * 9 + (u - 9)
    } else {
        ((u - 18) / 3 * 3 + k / 3) * 9 + (u - 18) % 3 * 3 + k % 3
    }
}

/// The place of cell `c` within unit `u`.
pub open spec fn unit_pos(c: int, u: int) -> int {
    if u < 9 {
        c % 9
    } else if u < 18 {
        c / 9
    } else {
        (c / 9) % 3 * 3 + (c % 9) % 3
    }
}

/// Whether two cells share a row, a column or a block. A cell is its own
/// peer.
pub open spec fn peers(a: int, b: int) -> bool {
    row_of(a) == row_of(b) || col_of(a) == col_of(b) || block_of(a) == block_of(b)
}

/// Row `r`, place `k`.
pub proof fn lemma_row_cell(r: int, k: int)
    requires
        0 <= r < 9,
        0 <= k < 9,
    ensures
        0 <= r * 9 + k < 81,
        (r * 9 + k) / 9 == r,
        (r * 9 + k) % 9 == k,
{
}

/// Block `b`, place `k`.
proof fn lemma_block_cell(b: int, k: int)
    requires
        0 <= b < 9,
        0 <= k < 9,
    ensures
        ({
            let c = (b / 3 * 3 + k / 3) * 9 + b % 3 * 3 + k % 3;
            &&& 0 <= c < 81
            &&& c / 9 == b / 3 * 3 + k / 3
            &&& c % 9 == b % 3 * 3 + k % 3
            &&& block_of(c) == b
            &&& (c / 9) % 3 * 3 + (c % 9) % 3 == k
        }),
{
    let r = b / 3 * 3 + k / 3;
    let q = b % 3 * 3 + k % 3;
    lemma_row_cell(r, q);
    let c = r * 9 + q;
    assert(c / 27 == b / 3);
    assert(q / 3 == b % 3);
    assert(r % 3 == k / 3);
    assert(q % 3 == k % 3);
}

/// The cells of a unit are cells of the board, lie in the unit, and stand
/// there at the place they were taken from.
pub proof fn lemma_unit_cell(u: int, k: int)
    requires
        0 <= u < 27,
        0 <= k < 9,
    ensures
        0 <= unit_cell(u, k) < 81,
        in_unit(unit_cell(u, k), u),
        unit_pos(unit_cell(u, k), u) == k,
{
    if u < 9 {
        lemma_row_cell(u, k);
    } else if u < 18 {
        lemma_row_cell(k, u - 9);
    } else {
        lemma_block_cell(u - 18, k);
    }
}

/// A cell of a unit is the cell at its place in that unit.
pub proof fn lemma_unit_pos(c: int, u: int)
    requires
        0 <= c < 81,
        0 <= u < 27,
        in_unit(c, u),
    ensures
        0 <= unit_pos(c, u) < 9,
        unit_cell(u, unit_pos(c, u)) == c,
{
    let r = c / 9;
    let q = c % 9;
    assert(c == r * 9 + q);
    if u >= 18 {
        let b = u - 18;
        assert(b == (c / 27) * 3 + q / 3);
        assert(c / 27 == r / 3);
        assert(b / 3 == r / 3);
        assert(b % 3 == q / 3);
        let k = r % 3 * 3 + q % 3;
        assert(k / 3 == r % 3);
        assert(k % 3 == q % 3);
    }
}

/// The three units of a cell are a row, a column and a block, and two cells
/// are peers exactly when they share one of them.
pub proof fn lemma_units_of(c: int)
    requires
        0 <= c < 81,
    ensures
        0 <= row_unit(c) < 9,
        9 <= col_unit(c) < 18,
        18 <= block_unit(c) < 27,
        forall|x: int|
            0 <= x < 81 ==> (#[trigger] peers(c, x) <==> in_unit(x, row_unit(c)) || in_unit(
                x,
                col_unit(c),
            ) || in_unit(x, block_unit(c))),
{
}

} // verus!
