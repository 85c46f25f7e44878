//! A random finished game, for tests and benchmarks.
//!
//! A shuffled row of the digits 1 to 9 is laid out nine times, each time
//! turned a little further, so that rows, columns and blocks all hold each
//! digit once. Then the three rows of each band and the three columns of
//! each stack change places at random, which keeps that.

use crate::grid::{lemma_full_consistent_is_solved, solved};
use crate::units::peers;
use vstd::prelude::*;

verus! {

/// Not proved, but taken from fastrand: `fastrand::shuffle` reorders a
/// slice in place by swapping pairs of its items, so the slice holds
/// afterwards what it held before, each item as often. Nothing is claimed
/// of the order, which is left to chance.
pub assume_specification<T>[ fastrand::shuffle::<T> ](slice: &mut [T])
    ensures
        final(slice)@.to_multiset() == old(slice)@.to_multiset(),
;

/// By how many places row `r` is turned to the left against the first row.
pub open spec fn offset(r: int) -> int {
    7 * (r / 3) + 3 * (r % 3)
}

/// A row of the nine digits, each once.
pub open spec fn is_base(base: Seq<u8>) -> bool {
    &&& base.len() == 9
    &&& forall|i: int| 0 <= i < 9 ==> 1 <= #[trigger] base[i] <= 9
    &&& forall|i: int, j: int| 0 <= i < j < 9 ==> base[i] != base[j]
}

/// A reordering of the numbers 0 to 8 that keeps each within its group of
/// three.
pub open spec fn banded(m: Seq<int>) -> bool {
    &&& m.len() == 9
    &&& forall|i: int| 0 <= i < 9 ==> 0 <= #[trigger] m[i] < 9 && m[i] / 3 == i / 3
    &&& forall|i: int, j: int| 0 <= i < j < 9 ==> m[i] != m[j]
}

/// The grid whose row `r` is row `rows[r]` and whose column `c` is column
/// `cols[c]` of the grid made of the base row turned further row by row.
pub open spec fn pattern(base: Seq<u8>, rows: Seq<int>, cols: Seq<int>) -> Seq<u8> {
    Seq::new(81, |x: int| base[(cols[x % 9] + offset(rows[x / 9])) % 9])
}

/// The numbers 0 to 8 in their order.
pub open spec fn in_order() -> Seq<int> {
    Seq::new(9, |i: int| i)
}

/// The three numbers 0, 1 and 2 in some order.
pub open spec fn is_order(p: Seq<usize>) -> bool {
    &&& p.len() == 3
    &&& forall|i: int| 0 <= i < 3 ==> #[trigger] p[i] < 3
    &&& forall|i: int, j: int| 0 <= i < j < 3 ==> p[i] != p[j]
}

/// The place at which an order of three holds the number `d`.
pub open spec fn place_of(p: Seq<usize>, d: int) -> int {
    if p[0] == d {
        0
    } else if p[1] == d {
        1
    } else {
        2
    }
}

/// The reordering `m` after the three members of group `band` changed
/// places as `p` says: the member at place `i` goes to place `p[i]`.
pub open spec fn regroup(m: Seq<int>, band: int, p: Seq<usize>) -> Seq<int> {
    Seq::new(
        9,
        |i: int|
            if i / 3 == band {
                m[band * 3 + place_of(p, i % 3)]
            } else {
                m[i]
            },
    )
}

/// An order of three holds each of the three numbers at its place.
pub proof fn lemma_place_of(p: Seq<usize>, d: int)
    requires
        is_order(p),
        0 <= d < 3,
    ensures
        0 <= place_of(p, d) < 3,
        p[place_of(p, d)] == d,
{
    if p[0] != d && p[1] != d {
        assert(p[0] < 3 && p[1] < 3 && p[2] < 3);
        assert(p[0] != p[1] && p[0] != p[2] && p[1] != p[2]);
    }
}

/// Changing places within a group keeps a reordering within its groups.
pub proof fn lemma_regroup(m: Seq<int>, band: int, p: Seq<usize>)
    requires
        banded(m),
        is_order(p),
        0 <= band < 3,
    ensures
        banded(regroup(m, band, p)),
{
    let n = regroup(m, band, p);
    assert forall|i: int| 0 <= i < 9 implies 0 <= #[trigger] n[i] < 9 && n[i] / 3 == i / 3 by {
        lemma_place_of(p, i % 3);
        if i / 3 == band {
            let k = band * 3 + place_of(p, i % 3);
            assert(0 <= m[k] < 9 && m[k] / 3 == k / 3);
        } else {
            assert(0 <= m[i] < 9 && m[i] / 3 == i / 3);
        }
    }
    assert forall|i: int, j: int| 0 <= i < j < 9 implies n[i] != n[j] by {
        lemma_place_of(p, i % 3);
        lemma_place_of(p, j % 3);
        let a = if i / 3 == band {
            band * 3 + place_of(p, i % 3)
        } else {
            i
        };
        let b = if j / 3 == band {
            band * 3 + place_of(p, j % 3)
        } else {
            j
        };
        assert(n[i] == m[a] && n[j] == m[b]);
        assert(a != b);
        if a < b {
            assert(m[a] != m[b]);
        } else {
            assert(m[b] != m[a]);
        }
    }
}

/// What a slice holds after a shuffle of an order of three is an order of
/// three.
pub proof fn lemma_shuffled_order(before: Seq<usize>, after: Seq<usize>)
    requires
        is_order(before),
        after.to_multiset() == before.to_multiset(),
    ensures
        is_order(after),
{
    lemma_shuffled(before, after);
    assert forall|i: int| 0 <= i < 3 implies #[trigger] after[i] < 3 by {
        assert(after.contains(after[i]));
        let j = choose|j: int| 0 <= j < before.len() && before[j] == after[i];
        assert(before[j] < 3);
    }
}

/// A shuffle keeps the length of a sequence without duplicates, what it
/// holds, and that it has no duplicates.
pub proof fn lemma_shuffled<A>(before: Seq<A>, after: Seq<A>)
    requires
        before.no_duplicates(),
        after.to_multiset() == before.to_multiset(),
    ensures
        after.len() == before.len(),
        after.no_duplicates(),
        forall|a: A| after.contains(a) <==> before.contains(a),
{
    vstd::seq_lib::to_multiset_len(before);
    vstd::seq_lib::to_multiset_len(after);
    before.lemma_multiset_has_no_duplicates();
    after.lemma_multiset_has_no_duplicates_conv();
    assert forall|a: A| after.contains(a) <==> before.contains(a) by {
        vstd::seq_lib::to_multiset_contains(before, a);
        vstd::seq_lib::to_multiset_contains(after, a);
    }
}

/// What a slice holds after a shuffle of the digits 1 to 9 is a row of
/// the nine digits, each once.
pub proof fn lemma_shuffled_base(before: Seq<u8>, after: Seq<u8>)
    requires
        is_base(before),
        after.to_multiset() == before.to_multiset(),
    ensures
        is_base(after),
{
    lemma_shuffled(before, after);
    assert forall|i: int| 0 <= i < 9 implies 1 <= #[trigger] after[i] <= 9 by {
        assert(after.contains(after[i]));
        let j = choose|j: int| 0 <= j < before.len() && before[j] == after[i];
        assert(1 <= before[j] <= 9);
    }
}

/// The pattern of a base row under reorderings of rows and of columns that
/// keep bands and stacks is a finished game.
pub proof fn lemma_pattern_solved(base: Seq<u8>, rows: Seq<int>, cols: Seq<int>)
    requires
        is_base(base),
        banded(rows),
        banded(cols),
    ensures
        solved(pattern(base, rows, cols)),
{
    let g = pattern(base, rows, cols);
    assert forall|x: int| 0 <= x < 81 implies 1 <= #[trigger] g[x] <= 9 by {
        lemma_pattern_cell(base, rows, cols, x);
    }
    assert forall|a: int, b: int|
        0 <= a < 81 && 0 <= b < 81 && a != b && #[trigger] peers(a, b) && g[a] != 0 implies g[a]
            != g[b] by {
        lemma_pattern_peers(base, rows, cols, a, b);
    }
    lemma_full_consistent_is_solved(g);
}

/// The place of the base row that a cell of the pattern takes its digit
/// from.
spec fn source(rows: Seq<int>, cols: Seq<int>, x: int) -> int {
    (cols[x % 9] + offset(rows[x / 9])) % 9
}

/// A cell of the pattern holds a digit of the base row.
proof fn lemma_pattern_cell(base: Seq<u8>, rows: Seq<int>, cols: Seq<int>, x: int)
    requires
        is_base(base),
        banded(rows),
        banded(cols),
        0 <= x < 81,
    ensures
        0 <= source(rows, cols, x) < 9,
        pattern(base, rows, cols)[x] == base[source(rows, cols, x)],
        1 <= pattern(base, rows, cols)[x] <= 9,
{
    let r = rows[x / 9];
    let c = cols[x % 9];
    assert(0 <= r < 9);
    assert(0 <= c < 9);
    assert(0 <= offset(r) <= 20);
    let i = source(rows, cols, x);
    assert(0 <= i < 9);
    assert(1 <= base[i] <= 9);
}

/// Two cells of the pattern that share a row, a column or a block hold
/// different digits.
proof fn lemma_pattern_peers(base: Seq<u8>, rows: Seq<int>, cols: Seq<int>, a: int, b: int)
    requires
        is_base(base),
        banded(rows),
        banded(cols),
        0 <= a < 81,
        0 <= b < 81,
        a != b,
        peers(a, b),
    ensures
        pattern(base, rows, cols)[a] != pattern(base, rows, cols)[b],
{
    lemma_pattern_cell(base, rows, cols, a);
    lemma_pattern_cell(base, rows, cols, b);
    let ya = a / 9;
    let yb = b / 9;
    let xa = a % 9;
    let xb = b % 9;
    let ra = rows[ya];
    let rb = rows[yb];
    let ca = cols[xa];
    let cb = cols[xb];
    assert(0 <= ra < 9 && ra / 3 == ya / 3);
    assert(0 <= rb < 9 && rb / 3 == yb / 3);
    assert(0 <= ca < 9 && ca / 3 == xa / 3);
    assert(0 <= cb < 9 && cb / 3 == xb / 3);
    lemma_banded_apart(rows, ya, yb);
    lemma_banded_apart(cols, xa, xb);
    assert(ya == yb || xa == xb || (ya / 3 == yb / 3 && xa / 3 == xb / 3)) by {
        assert(a / 27 == ya / 3 && b / 27 == yb / 3);
    }
    lemma_turned_apart(ra, ca, rb, cb);
    let i = source(rows, cols, a);
    let j = source(rows, cols, b);
    if i < j {
        assert(base[i] != base[j]);
    } else {
        assert(base[j] != base[i]);
    }
}

/// A reordering sends different numbers to different numbers.
proof fn lemma_banded_apart(m: Seq<int>, i: int, j: int)
    requires
        banded(m),
        0 <= i < 9,
        0 <= j < 9,
    ensures
        i != j ==> m[i] != m[j],
{
    if i < j {
        assert(m[i] != m[j]);
    } else if j < i {
        assert(m[j] != m[i]);
    }
}

/// Two places of the turned rows that share a row, a column or a block
/// take their digits from different places of the base row.
proof fn lemma_turned_apart(ra: int, ca: int, rb: int, cb: int)
    requires
        0 <= ra < 9,
        0 <= ca < 9,
        0 <= rb < 9,
        0 <= cb < 9,
        ra != rb || ca != cb,
        ra == rb || ca == cb || (ra / 3 == rb / 3 && ca / 3 == cb / 3),
    ensures
        (ca + offset(ra)) % 9 != (cb + offset(rb)) % 9,
        0 <= (ca + offset(ra)) % 9 < 9,
        0 <= (cb + offset(rb)) % 9 < 9,
{
    let x = ca + offset(ra);
    let y = cb + offset(rb);
    lemma_apart(ra / 3, ra % 3, ca / 3, ca % 3, rb / 3, rb % 3, cb / 3, cb % 3);
    assert(x == 7 * (ra / 3) + 3 * (ra % 3) + 3 * (ca / 3) + ca % 3);
    assert(y == 7 * (rb / 3) + 3 * (rb % 3) + 3 * (cb / 3) + cb % 3);
    lemma_same_rest(x, y);
}

/// Two numbers up to 28 with the same rest on division by 9 differ by a
/// multiple of 9.
proof fn lemma_same_rest(x: int, y: int)
    requires
        0 <= x <= 28,
        0 <= y <= 28,
    ensures
        x % 9 == y % 9 ==> x - y == -27 || x - y == -18 || x - y == -9 || x - y == 0 || x - y == 9
            || x - y == 18 || x - y == 27,
        0 <= x % 9 < 9,
        0 <= y % 9 < 9,
{
}

/// The places of the base row that two cells take their digits from, cell
/// by band, row in the band, stack and column in the stack: they differ by
/// no multiple of 9 if the cells share a row, a column or a block.
proof fn lemma_apart(ba: int, ia: int, sa: int, ja: int, bb: int, ib: int, sb: int, jb: int)
    requires
        0 <= ba < 3 && 0 <= ia < 3 && 0 <= sa < 3 && 0 <= ja < 3,
        0 <= bb < 3 && 0 <= ib < 3 && 0 <= sb < 3 && 0 <= jb < 3,
        ba != bb || ia != ib || sa != sb || ja != jb,
        (ba == bb && ia == ib) || (sa == sb && ja == jb) || (ba == bb && sa == sb),
    ensures
        ({
            let d = (7 * ba + 3 * ia + 3 * sa + ja) - (7 * bb + 3 * ib + 3 * sb + jb);
            d != -27 && d != -18 && d != -9 && d != 0 && d != 9 && d != 18 && d != 27
        }),
{
}

/// A pattern whose rows of one band changed places is the pattern of the
/// rows regrouped.
proof fn lemma_rows_regrouped(
    base: Seq<u8>,
    rows: Seq<int>,
    cols: Seq<int>,
    band: int,
    p: Seq<usize>,
    before: Seq<u8>,
    after: Seq<u8>,
)
    requires
        0 <= band < 3,
        is_order(p),
        before == pattern(base, rows, cols),
        after.len() == 81,
        forall|x: int|
            0 <= x < 81 ==> #[trigger] after[x] == if x / 27 == band {
                before[band * 27 + place_of(p, (x / 9) % 3) * 9 + x % 9]
            } else {
                before[x]
            },
    ensures
        after == pattern(base, regroup(rows, band, p), cols),
{
    let target = pattern(base, regroup(rows, band, p), cols);
    assert forall|x: int| 0 <= x < 81 implies after[x] == target[x] by {
        if x / 27 == band {
            lemma_place_of(p, (x / 9) % 3);
            let k = place_of(p, (x / 9) % 3);
            let y = band * 27 + k * 9 + x % 9;
            assert(y / 9 == band * 3 + k && y % 9 == x % 9);
            assert((x / 9) / 3 == band);
        } else {
            assert((x / 9) / 3 != band);
        }
    }
    assert(after =~= target);
}

/// A pattern whose columns of one stack changed places is the pattern of
/// the columns regrouped.
proof fn lemma_columns_regrouped(
    base: Seq<u8>,
    rows: Seq<int>,
    cols: Seq<int>,
    stack: int,
    p: Seq<usize>,
    before: Seq<u8>,
    after: Seq<u8>,
)
    requires
        0 <= stack < 3,
        is_order(p),
        before == pattern(base, rows, cols),
        after.len() == 81,
        forall|x: int|
            0 <= x < 81 ==> #[trigger] after[x] == if (x % 9) / 3 == stack {
                before[(x / 9) * 9 + stack * 3 + place_of(p, (x % 9) % 3)]
            } else {
                before[x]
            },
    ensures
        after == pattern(base, rows, regroup(cols, stack, p)),
{
    let target = pattern(base, rows, regroup(cols, stack, p));
    assert forall|x: int| 0 <= x < 81 implies after[x] == target[x] by {
        if (x % 9) / 3 == stack {
            lemma_place_of(p, (x % 9) % 3);
            let k = place_of(p, (x % 9) % 3);
            let y = (x / 9) * 9 + stack * 3 + k;
            assert(y / 9 == x / 9 && y % 9 == stack * 3 + k);
        }
    }
    assert(after =~= target);
}

/// The rows of band `block` change places: the row at place `i` of the
/// band goes to place `indices[i]`.
fn shuffle_rows(squares: &mut [u8; 81], block: usize, indices: &[usize; 3])
    requires
        block < 3,
        is_order(indices@),
    ensures
        forall|x: int|
            0 <= x < 81 ==> #[trigger] final(squares)@[x] == if x / 27 == block {
                old(squares)@[block * 27 + place_of(indices@, (x / 9) % 3) * 9 + x % 9]
            } else {
                old(squares)@[x]
            },
{
    let ghost before = squares@;
    let mut buffer = [0u8;27];

    let mut row: usize = 0;
    while row < 3
        invariant
            row <= 3,
            block < 3,
            is_order(indices@),
            squares@ == before,
            forall|i: int, col: int|
                0 <= i < row && 0 <= col < 9 ==> #[trigger] buffer@[indices@[i] * 9 + col]
                    == before[block * 27 + i * 9 + col],
        decreases 3 - row,
    {
        let src_row_start = block * 27 + row * 9;
        let dest_row = indices[row];
        let dest_row_start = dest_row * 9;
        let mut col: usize = 0;
        while col < 9
            invariant
                col <= 9,
                row < 3,
                block < 3,
                is_order(indices@),
                squares@ == before,
                src_row_start == block * 27 + row * 9,
                dest_row == indices@[row as int],
                dest_row_start == dest_row * 9,
                forall|i: int, c: int|
                    0 <= i < row && 0 <= c < 9 ==> #[trigger] buffer@[indices@[i] * 9 + c]
                        == before[block * 27 + i * 9 + c],
                forall|c: int|
                    0 <= c < col ==> #[trigger] buffer@[dest_row_start + c] == before[src_row_start
                        + c],
            decreases 9 - col,
        {
            buffer[dest_row_start + col] = squares[src_row_start + col];
            col += 1;
        }
        row += 1;
    }

    let block_start = block * 27;
    let mut k: usize = 0;
    while k < 27
        invariant
            k <= 27,
            block < 3,
            block_start == block * 27,
            forall|x: int|
                0 <= x < 81 ==> #[trigger] squares@[x] == if block_start <= x < block_start + k {
                    buffer@[x - block_start]
                } else {
                    before[x]
                },
        decreases 27 - k,
    {
        squares[block_start + k] = buffer[k];
        k += 1;
    }
    proof {
        assert forall|x: int| 0 <= x < 81 implies #[trigger] squares@[x] == if x / 27 == block {
            before[block * 27 + place_of(indices@, (x / 9) % 3) * 9 + x % 9]
        } else {
            before[x]
        } by {
            if x / 27 == block {
                let d = (x / 9) % 3;
                lemma_place_of(indices@, d);
                let i = place_of(indices@, d);
                assert(x - block_start == indices@[i] * 9 + x % 9);
                assert(buffer@[indices@[i] * 9 + x % 9] == before[block * 27 + i * 9 + x % 9]);
            }
        }
    }
}

/// The columns of stack `block` change places: the column at place `i` of
/// the stack goes to place `indices[i]`.
fn shuffle_columns(squares: &mut [u8; 81], block: usize, indices: &[usize; 3])
    requires
        block < 3,
        is_order(indices@),
    ensures
        forall|x: int|
            0 <= x < 81 ==> #[trigger] final(squares)@[x] == if (x % 9) / 3 == block {
                old(squares)@[(x / 9) * 9 + block * 3 + place_of(indices@, (x % 9) % 3)]
            } else {
                old(squares)@[x]
            },
{
    let ghost before = squares@;
    let mut buffer = [0u8;27];

    let mut col: usize = 0;
    while col < 3
        invariant
            col <= 3,
            block < 3,
            is_order(indices@),
            squares@ == before,
            forall|i: int, r: int|
                0 <= i < col && 0 <= r < 9 ==> #[trigger] buffer@[indices@[i] * 9 + r] == before[r
                    * 9 + block * 3 + i],
        decreases 3 - col,
    {
        let src_col_start = block * 3 + col;
        let dest_col = indices[col];

        let mut row: usize = 0;
        while row < 9
            invariant
                row <= 9,
                col < 3,
                block < 3,
                is_order(indices@),
                squares@ == before,
                src_col_start == block * 3 + col,
                dest_col == indices@[col as int],
                forall|i: int, r: int|
                    0 <= i < col && 0 <= r < 9 ==> #[trigger] buffer@[indices@[i] * 9 + r]
                        == before[r * 9 + block * 3 + i],
                forall|r: int|
                    0 <= r < row ==> #[trigger] buffer@[dest_col * 9 + r] == before[r * 9
                        + src_col_start],
            decreases 9 - row,
        {
            buffer[dest_col * 9 + row] = squares[row * 9 + src_col_start];
            row += 1;
        }
        col += 1;
    }

    let mut dest_col: usize = 0;
    while dest_col < 3
        invariant
            dest_col <= 3,
            block < 3,
            forall|x: int|
                0 <= x < 81 ==> #[trigger] squares@[x] == if (x % 9) / 3 == block && (x % 9) % 3
                    < dest_col {
                    buffer@[(x % 9) % 3 * 9 + x / 9]
                } else {
                    before[x]
                },
        decreases 3 - dest_col,
    {
        let dest_col_start = block * 3 + dest_col;

        let mut row: usize = 0;
        while row < 9
            invariant
                row <= 9,
                dest_col < 3,
                block < 3,
                dest_col_start == block * 3 + dest_col,
                forall|x: int|
                    0 <= x < 81 ==> #[trigger] squares@[x] == if (x % 9) / 3 == block && ((x % 9)
                        % 3 < dest_col || ((x % 9) % 3 == dest_col && x / 9 < row)) {
                        buffer@[(x % 9) % 3 * 9 + x / 9]
                    } else {
                        before[x]
                    },
            decreases 9 - row,
        {
            squares[row * 9 + dest_col_start] = buffer[dest_col * 9 + row];
            row += 1;
        }
        dest_col += 1;
    }
    proof {
        assert forall|x: int| 0 <= x < 81 implies #[trigger] squares@[x] == if (x % 9) / 3
            == block {
            before[(x / 9) * 9 + block * 3 + place_of(indices@, (x % 9) % 3)]
        } else {
            before[x]
        } by {
            if (x % 9) / 3 == block {
                let d = (x % 9) % 3;
                lemma_place_of(indices@, d);
                let i = place_of(indices@, d);
                assert(buffer@[indices@[i] * 9 + x / 9] == before[(x / 9) * 9 + block * 3 + i]);
            }
        }
    }
}

/// Three orders of three, one for each band or stack, as mathematics.
pub open spec fn orders_of(orders: [[usize; 3]; 3]) -> Seq<Seq<usize>> {
    Seq::new(3, |b: int| orders@[b]@)
}

/// The reordering of the numbers 0 to 8 after the members of the first `n`
/// groups of three changed places as the orders say.
pub open spec fn regrouped_upto(orders: Seq<Seq<usize>>, n: int) -> Seq<int>
    decreases n,
{
    if n <= 0 {
        in_order()
    } else {
        regroup(regrouped_upto(orders, n - 1), n - 1, orders[n - 1])
    }
}

/// The reordering of the numbers 0 to 8 after the members of each of the
/// three groups changed places as its order says.
pub open spec fn regrouped(orders: Seq<Seq<usize>>) -> Seq<int> {
    regrouped_upto(orders, 3)
}

/// Changing places within groups, group after group, keeps a reordering
/// within its groups.
pub proof fn lemma_regrouped(orders: Seq<Seq<usize>>, n: int)
    requires
        0 <= n <= 3,
        forall|b: int| 0 <= b < 3 ==> is_order(#[trigger] orders[b]),
    ensures
        banded(regrouped_upto(orders, n)),
    decreases n,
{
    if n > 0 {
        lemma_regrouped(orders, n - 1);
        lemma_regroup(regrouped_upto(orders, n - 1), n - 1, orders[n - 1]);
    }
}

/// The grid for given draws: the first row is laid out over the grid,
/// turned by three places from row to row and by one more from band to
/// band; then the rows of each band change places as its order says, the
/// row at place `i` going to place `order[i]`, and then the columns of each
/// stack likewise. For a first row of the nine digits the grid is a
/// finished game.
pub fn lay_out(first: &[u8; 9], row_orders: &[[usize; 3]; 3], column_orders: &[[usize; 3]; 3]) -> (squares:
    [u8; 81])
    requires
        forall|b: int| 0 <= b < 3 ==> is_order(#[trigger] orders_of(*row_orders)[b]),
        forall|b: int| 0 <= b < 3 ==> is_order(#[trigger] orders_of(*column_orders)[b]),
    ensures
        squares@ == pattern(
            first@,
            regrouped(orders_of(*row_orders)),
            regrouped(orders_of(*column_orders)),
        ),
        banded(regrouped(orders_of(*row_orders))),
        banded(regrouped(orders_of(*column_orders))),
        is_base(first@) ==> solved(squares@),
{
    let ghost base = first@;
    let ghost by_row = orders_of(*row_orders);
    let ghost by_column = orders_of(*column_orders);
    let mut squares = [0u8;81];

    let mut col: usize = 0;
    while col < 9
        invariant
            col <= 9,
            first@ == base,
            forall|c: int| 0 <= c < col ==> #[trigger] squares@[c] == base[c],
        decreases 9 - col,
    {
        squares[col] = first[col];
        col += 1;
    }

    let mut i: usize = 1;
    let mut row: usize = 1;
    while row < 9
        invariant
            1 <= row <= 9,
            i == row % 3,
            base.len() == 9,
            forall|x: int|
                0 <= x < row * 9 ==> #[trigger] squares@[x] == base[(x % 9 + offset(x / 9)) % 9],
        decreases 9 - row,
    {
        let row_start = row * 9;
        let prev_row_start = (row - 1) * 9;
        let shift: usize = if i == 0 {
            1
        } else {
            3
        };
        let mut col: usize = 0;
        while col < 9
            invariant
                col <= 9,
                1 <= row < 9,
                i == row % 3,
                shift == if i == 0 {
                    1int
                } else {
                    3int
                },
                row_start == row * 9,
                prev_row_start == (row - 1) * 9,
                base.len() == 9,
                forall|x: int|
                    0 <= x < row * 9 + col ==> #[trigger] squares@[x] == base[(x % 9 + offset(
                        x / 9,
                    )) % 9],
            decreases 9 - col,
        {
            proof {
                let y = prev_row_start + (col + shift) % 9;
                assert(y / 9 == row - 1 && y % 9 == (col + shift) % 9);
                assert(offset(row as int) == offset(row - 1) + shift);
                assert(((col + shift) % 9 + offset(row - 1)) % 9 == (col + offset(row as int)) % 9);
                assert((row_start + col) / 9 == row && (row_start + col) % 9 == col);
            }
            squares[row_start + col] = squares[prev_row_start + (col + shift) % 9];
            col += 1;
        }

        i += 1;
        if i == 3 {
            i = 0;
        }
        row += 1;
    }

    proof {
        assert(squares@ =~= pattern(base, in_order(), in_order()));
    }

    // The rows of each band change places.
    let mut block: usize = 0;
    while block < 3
        invariant
            block <= 3,
            by_row == orders_of(*row_orders),
            forall|b: int| 0 <= b < 3 ==> is_order(#[trigger] by_row[b]),
            squares@ == pattern(base, regrouped_upto(by_row, block as int), in_order()),
        decreases 3 - block,
    {
        let ghost before = squares@;
        let ghost rows = regrouped_upto(by_row, block as int);
        proof {
            assert(is_order(by_row[block as int]));
        }
        shuffle_rows(&mut squares, block, &row_orders[block]);
        proof {
            lemma_rows_regrouped(
                base,
                rows,
                in_order(),
                block as int,
                by_row[block as int],
                before,
                squares@,
            );
        }
        block += 1;
    }

    // The columns of each stack change places.
    let ghost rows = regrouped(by_row);
    let mut block: usize = 0;
    while block < 3
        invariant
            block <= 3,
            by_column == orders_of(*column_orders),
            forall|b: int| 0 <= b < 3 ==> is_order(#[trigger] by_column[b]),
            squares@ == pattern(base, rows, regrouped_upto(by_column, block as int)),
        decreases 3 - block,
    {
        let ghost before = squares@;
        let ghost cols = regrouped_upto(by_column, block as int);
        proof {
            assert(is_order(by_column[block as int]));
        }
        shuffle_columns(&mut squares, block, &column_orders[block]);
        proof {
            lemma_columns_regrouped(
                base,
                rows,
                cols,
                block as int,
                by_column[block as int],
                before,
                squares@,
            );
        }
        block += 1;
    }

    proof {
        lemma_regrouped(by_row, 3);
        lemma_regrouped(by_column, 3);
        if is_base(base) {
            lemma_pattern_solved(base, rows, regrouped(by_column));
        }
    }
    squares
}

/// A random finished game: a shuffled row of the digits and six shuffled
/// orders of three are drawn, three for the rows of the bands and three
/// for the columns of the stacks, and the grid is laid out for them.
pub fn generate_solved_board() -> (squares: [u8; 81])
    ensures
        solved(squares@),
        exists|base: Seq<u8>, rows: Seq<int>, cols: Seq<int>|
            is_base(base) && banded(rows) && banded(cols) && squares@ == #[trigger] pattern(
                base,
                rows,
                cols,
            ),
{
    let mut first: [u8; 9] = [1, 2, 3, 4, 5, 6, 7, 8, 9];
    let ghost digits = first@;
    fastrand::shuffle(&mut first);
    proof {
        lemma_shuffled_base(digits, first@);
    }

    let mut indices: [usize; 3] = [0, 1, 2];
    let mut row_orders: [[usize; 3]; 3] = [indices;3];
    let mut column_orders: [[usize; 3]; 3] = [indices;3];

    let mut block: usize = 0;
    while block < 3
        invariant
            block <= 3,
            is_order(indices@),
            forall|b: int| 0 <= b < 3 ==> is_order(#[trigger] orders_of(row_orders)[b]),
        decreases 3 - block,
    {
        let ghost order = indices@;
        let ghost drawn = orders_of(row_orders);
        fastrand::shuffle(&mut indices);
        proof {
            lemma_shuffled_order(order, indices@);
        }
        row_orders[block] = indices;
        proof {
            assert forall|b: int| 0 <= b < 3 implies is_order(
                #[trigger] orders_of(row_orders)[b],
            ) by {
                if b != block {
                    assert(orders_of(row_orders)[b] == drawn[b]);
                }
            }
        }
        block += 1;
    }

    let mut block: usize = 0;
    while block < 3
        invariant
            block <= 3,
            is_order(indices@),
            forall|b: int| 0 <= b < 3 ==> is_order(#[trigger] orders_of(column_orders)[b]),
        decreases 3 - block,
    {
        let ghost order = indices@;
        let ghost drawn = orders_of(column_orders);
        fastrand::shuffle(&mut indices);
        proof {
            lemma_shuffled_order(order, indices@);
        }
        column_orders[block] = indices;
        proof {
            assert forall|b: int| 0 <= b < 3 implies is_order(
                #[trigger] orders_of(column_orders)[b],
            ) by {
                if b != block {
                    assert(orders_of(column_orders)[b] == drawn[b]);
                }
            }
        }
        block += 1;
    }

    lay_out(&first, &row_orders, &column_orders)
}

} // verus!
