//! Grids as mathematics: 81 values, 0 for an empty cell; what it is for a
//! grid to have no clash, to be full, to be a finished game; and the words
//! of the values that a unit holds and that a cell sees.

use crate::bits::{
    bit, digit_count, holds, lemma_count_full, lemma_count_set, lemma_holds_or, lemma_holds_set,
    lemma_holds_zero, lemma_popcount_zero, lemma_set_keeps_low, PADDING,
};
use crate::units::{
    block_of, block_unit, col_unit, in_unit, lemma_unit_cell, lemma_unit_pos, lemma_units_of,
    peers, row_unit, unit_cell, unit_pos,
};
use vstd::prelude::*;

verus! {

/// A grid has 81 cells, each 0 (empty) or a digit 1 to 9.
pub open spec fn well_formed(g: Seq<u8>) -> bool {
    g.len() == 81 && forall|c: int| 0 <= c < 81 ==> #[trigger] g[c] <= 9
}

/// Whether some peer of cell `c` (or `c` itself) holds the value `d`.
pub open spec fn seen(g: Seq<u8>, c: int, d: int) -> bool {
    exists|x: int| 0 <= x < 81 && #[trigger] peers(c, x) && g[x] == d
}

/// Whether some cell of unit `u` holds the value `d`.
pub open spec fn unit_holds(g: Seq<u8>, u: int, d: int) -> bool {
    exists|c: int| 0 <= c < 81 && #[trigger] in_unit(c, u) && g[c] == d
}

/// No digit stands twice in a row, a column or a block.
pub open spec fn consistent(g: Seq<u8>) -> bool {
    forall|a: int, b: int|
        0 <= a < 81 && 0 <= b < 81 && a != b && #[trigger] peers(a, b) && g[a] != 0 ==> g[a]
            != g[b]
}

/// No cell is empty.
pub open spec fn complete(g: Seq<u8>) -> bool {
    forall|c: int| 0 <= c < 81 ==> #[trigger] g[c] != 0
}

/// Unit `u` holds the digit `d` in exactly one cell.
pub open spec fn once_in_unit(g: Seq<u8>, u: int, d: int) -> bool {
    exists|c: int|
        0 <= c < 81 && #[trigger] in_unit(c, u) && g[c] == d && forall|x: int|
            0 <= x < 81 && #[trigger] in_unit(x, u) && x != c ==> g[x] != d
}

/// A finished game: each of the nine rows, nine columns and nine blocks
/// holds each digit 1 to 9 exactly once.
pub open spec fn solved(g: Seq<u8>) -> bool {
    well_formed(g) && forall|u: int, d: int|
        0 <= u < 27 && 1 <= d <= 9 ==> #[trigger] once_in_unit(g, u, d)
}

/// Every cell sees every digit 1 to 9 in its row, its column or its block.
pub open spec fn covered(g: Seq<u8>) -> bool {
    forall|c: int, d: int| 0 <= c < 81 && 1 <= d <= 9 ==> #[trigger] seen(g, c, d)
}

/// `h` keeps every filled cell of `g`.
pub open spec fn extends(h: Seq<u8>, g: Seq<u8>) -> bool {
    forall|c: int| 0 <= c < 81 && #[trigger] g[c] != 0 ==> h[c] == g[c]
}

/// The number of empty cells.
pub open spec fn count_empty(g: Seq<u8>) -> int
    decreases g.len(),
{
    if g.len() == 0 {
        0
    } else {
        count_empty(g.drop_last()) + if g.last() == 0 {
            1int
        } else {
            0int
        }
    }
}

/// A cell sees a value exactly when one of its three units holds it.
pub proof fn lemma_seen_by_units(g: Seq<u8>, c: int, d: int)
    requires
        0 <= c < 81,
    ensures
        seen(g, c, d) <==> unit_holds(g, row_unit(c), d) || unit_holds(g, col_unit(c), d)
            || unit_holds(g, block_unit(c), d),
{
    lemma_units_of(c);
    if seen(g, c, d) {
        let x = choose|x: int| 0 <= x < 81 && #[trigger] peers(c, x) && g[x] == d;
        assert(in_unit(x, row_unit(c)) || in_unit(x, col_unit(c)) || in_unit(x, block_unit(c)));
    }
    if unit_holds(g, row_unit(c), d) {
        let x = choose|x: int| 0 <= x < 81 && #[trigger] in_unit(x, row_unit(c)) && g[x] == d;
        assert(peers(c, x));
    }
    if unit_holds(g, col_unit(c), d) {
        let x = choose|x: int| 0 <= x < 81 && #[trigger] in_unit(x, col_unit(c)) && g[x] == d;
        assert(peers(c, x));
    }
    if unit_holds(g, block_unit(c), d) {
        let x = choose|x: int| 0 <= x < 81 && #[trigger] in_unit(x, block_unit(c)) && g[x] == d;
        assert(peers(c, x));
    }
}

/// A unit holds a value exactly when one of its nine places does.
pub proof fn lemma_unit_holds_by_place(g: Seq<u8>, u: int, d: int)
    requires
        0 <= u < 27,
    ensures
        unit_holds(g, u, d) <==> exists|k: int| 0 <= k < 9 && #[trigger] g[unit_cell(u, k)] == d,
{
    if unit_holds(g, u, d) {
        let c = choose|c: int| 0 <= c < 81 && #[trigger] in_unit(c, u) && g[c] == d;
        lemma_unit_pos(c, u);
        assert(g[unit_cell(u, unit_pos(c, u))] == d);
    }
    if exists|k: int| 0 <= k < 9 && #[trigger] g[unit_cell(u, k)] == d {
        let k = choose|k: int| 0 <= k < 9 && #[trigger] g[unit_cell(u, k)] == d;
        lemma_unit_cell(u, k);
        assert(in_unit(unit_cell(u, k), u));
    }
}

/// The count of empty cells lies between 0 and the number of cells, and is
/// 0 exactly when no cell is empty.
pub proof fn lemma_count_empty_bounds(g: Seq<u8>)
    ensures
        0 <= count_empty(g) <= g.len(),
        count_empty(g) == 0 <==> (forall|c: int| 0 <= c < g.len() ==> #[trigger] g[c] != 0),
    decreases g.len(),
{
    if g.len() > 0 {
        lemma_count_empty_bounds(g.drop_last());
        if count_empty(g) == 0 {
            assert forall|c: int| 0 <= c < g.len() implies #[trigger] g[c] != 0 by {
                if c < g.len() - 1 {
                    assert(g.drop_last()[c] == g[c]);
                }
            }
        } else if g.last() != 0 {
            let c = choose|c: int| 0 <= c < g.len() - 1 && #[trigger] g.drop_last()[c] == 0;
            assert(g[c] == 0);
        }
    }
}

/// Writing one cell changes the count of empty cells by what that cell
/// counted before and counts after.
pub proof fn lemma_count_empty_update(g: Seq<u8>, c: int, v: u8)
    requires
        0 <= c < g.len(),
    ensures
        count_empty(g.update(c, v)) == count_empty(g) - (if g[c] == 0 {
            1int
        } else {
            0int
        }) + (if v == 0 {
            1int
        } else {
            0int
        }),
    decreases g.len(),
{
    let h = g.update(c, v);
    if c == g.len() - 1 {
        assert(h.drop_last() =~= g.drop_last());
    } else {
        assert(h.drop_last() =~= g.drop_last().update(c, v));
        lemma_count_empty_update(g.drop_last(), c, v);
    }
}

/// The values of the nine cells of a unit, in the order of its places.
pub open spec fn unit_values(g: Seq<u8>, u: int) -> Seq<u8> {
    Seq::new(9, |k: int| g[unit_cell(u, k)])
}

/// The word that holds bit `v` for each value `v` of `s`.
pub open spec fn word_of(s: Seq<u8>) -> u16
    decreases s.len(),
{
    if s.len() == 0 {
        0
    } else {
        word_of(s.drop_last()) | bit(s.last() as int)
    }
}

/// The values present in a unit, as a word: bit 0 where a cell is empty,
/// bit `d` where a cell holds the digit `d`.
pub open spec fn unit_word(g: Seq<u8>, u: int) -> u16 {
    word_of(unit_values(g, u))
}

/// The values that a cell sees in its row, its column and its block.
pub open spec fn constraints(g: Seq<u8>, c: int) -> u16 {
    unit_word(g, row_unit(c)) | unit_word(g, col_unit(c)) | unit_word(g, block_unit(c))
}

/// The word of some values holds exactly the bits of those values, and
/// nothing above bit 9.
pub proof fn lemma_word_of(s: Seq<u8>, d: int)
    requires
        forall|k: int| 0 <= k < s.len() ==> #[trigger] s[k] <= 9,
        0 <= d < 16,
    ensures
        holds(word_of(s), d) <==> exists|k: int| 0 <= k < s.len() && #[trigger] s[k] == d,
        word_of(s) & PADDING == 0,
    decreases s.len(),
{
    if s.len() == 0 {
        lemma_holds_zero(d);
        assert(0u16 & 0xFC00u16 == 0) by (bit_vector);
    } else {
        let t = s.drop_last();
        lemma_word_of(t, d);
        lemma_holds_set(word_of(t), s.last() as int, d);
        lemma_set_keeps_low(word_of(t), s.last() as u16);
        if holds(word_of(s), d) {
            if s.last() == d {
                assert(s[s.len() - 1] == d);
            } else {
                let k = choose|k: int| 0 <= k < t.len() && #[trigger] t[k] == d;
                assert(s[k] == d);
            }
        }
        if exists|k: int| 0 <= k < s.len() && #[trigger] s[k] == d {
            let k = choose|k: int| 0 <= k < s.len() && #[trigger] s[k] == d;
            if k < s.len() - 1 {
                assert(t[k] == d);
            }
        }
    }
}

/// The word of a unit holds bit `d` exactly when the unit holds `d`.
pub proof fn lemma_unit_word(g: Seq<u8>, u: int, d: int)
    requires
        well_formed(g),
        0 <= u < 27,
        0 <= d < 16,
    ensures
        holds(unit_word(g, u), d) <==> unit_holds(g, u, d),
        unit_word(g, u) & PADDING == 0,
{
    let s = unit_values(g, u);
    assert forall|k: int| 0 <= k < s.len() implies #[trigger] s[k] <= 9 by {
        lemma_unit_cell(u, k);
    }
    lemma_word_of(s, d);
    lemma_unit_holds_by_place(g, u, d);
    if exists|k: int| 0 <= k < s.len() && #[trigger] s[k] == d {
        let k = choose|k: int| 0 <= k < s.len() && #[trigger] s[k] == d;
        assert(g[unit_cell(u, k)] == d);
    }
    if exists|k: int| 0 <= k < 9 && #[trigger] g[unit_cell(u, k)] == d {
        let k = choose|k: int| 0 <= k < 9 && #[trigger] g[unit_cell(u, k)] == d;
        assert(s[k] == d);
    }
}

/// The constraints of a cell hold bit `d` exactly when the cell sees `d`;
/// they hold nothing above bit 9, and bit 0 where the cell itself is empty.
pub proof fn lemma_constraints(g: Seq<u8>, c: int, d: int)
    requires
        well_formed(g),
        0 <= c < 81,
        0 <= d < 16,
    ensures
        holds(constraints(g, c), d) <==> seen(g, c, d),
        constraints(g, c) & PADDING == 0,
        g[c] == 0 ==> constraints(g, c) & 1 != 0,
{
    lemma_units_of(c);
    let r = unit_word(g, row_unit(c));
    let q = unit_word(g, col_unit(c));
    let b = unit_word(g, block_unit(c));
    lemma_unit_word(g, row_unit(c), d);
    lemma_unit_word(g, col_unit(c), d);
    lemma_unit_word(g, block_unit(c), d);
    lemma_seen_by_units(g, c, d);
    lemma_holds_or(r | q, b, d);
    lemma_holds_or(r, q, d);
    assert((r | q | b) & 0xFC00u16 == 0) by (bit_vector)
        requires
            r & 0xFC00u16 == 0,
            q & 0xFC00u16 == 0,
            b & 0xFC00u16 == 0,
    ;
    if g[c] == 0 {
        lemma_unit_word(g, row_unit(c), 0);
        assert(in_unit(c, row_unit(c)));
        assert(unit_holds(g, row_unit(c), 0));
        assert((r | q | b) & 1 != 0) by (bit_vector)
            requires
                r & (1u16 << 0u16) != 0,
        ;
    }
}

/// The word of distinct digits holds as many digits as there are.
pub proof fn lemma_word_of_distinct(s: Seq<u8>)
    requires
        forall|k: int| 0 <= k < s.len() ==> 1 <= #[trigger] s[k] <= 9,
        forall|j: int, k: int| 0 <= j < k < s.len() ==> s[j] != s[k],
    ensures
        digit_count(word_of(s)) == s.len(),
    decreases s.len(),
{
    if s.len() == 0 {
        lemma_popcount_zero();
    } else {
        let t = s.drop_last();
        lemma_word_of_distinct(t);
        lemma_word_of(t, s.last() as int);
        if holds(word_of(t), s.last() as int) {
            let k = choose|k: int| 0 <= k < t.len() && #[trigger] t[k] == s.last();
            assert(s[k] == s[s.len() - 1]);
        }
        lemma_count_set(word_of(t), s.last() as int, 1, 10);
    }
}

/// A full grid without clashes is a finished game: a unit of nine cells
/// with nine distinct digits holds every digit, and holds it once.
pub proof fn lemma_full_consistent_is_solved(g: Seq<u8>)
    requires
        well_formed(g),
        complete(g),
        consistent(g),
    ensures
        solved(g),
{
    assert forall|u: int, d: int| 0 <= u < 27 && 1 <= d <= 9 implies #[trigger] once_in_unit(
        g,
        u,
        d,
    ) by {
        let s = unit_values(g, u);
        assert forall|k: int| 0 <= k < s.len() implies 1 <= #[trigger] s[k] <= 9 by {
            lemma_unit_cell(u, k);
            assert(g[unit_cell(u, k)] != 0);
        }
        assert forall|j: int, k: int| 0 <= j < k < s.len() implies s[j] != s[k] by {
            lemma_unit_cell(u, j);
            lemma_unit_cell(u, k);
            let a = unit_cell(u, j);
            let b = unit_cell(u, k);
            lemma_units_of(a);
            assert(peers(a, b));
        }
        lemma_word_of_distinct(s);
        lemma_count_full(word_of(s), 1, 10);
        lemma_unit_word(g, u, d);
        assert(unit_holds(g, u, d));
        let c = choose|c: int| 0 <= c < 81 && #[trigger] in_unit(c, u) && g[c] == d;
        assert forall|x: int| 0 <= x < 81 && #[trigger] in_unit(x, u) && x != c implies g[x]
            != d by {
            lemma_units_of(c);
            assert(peers(c, x));
        }
    }
}

/// A finished game is full, has no clash, and every cell of it sees every
/// digit.
pub proof fn lemma_solved_is_full_consistent(g: Seq<u8>)
    requires
        solved(g),
    ensures
        complete(g),
        consistent(g),
        covered(g),
{
    assert forall|c: int, d: int| 0 <= c < 81 && 1 <= d <= 9 implies #[trigger] seen(g, c, d) by {
        lemma_units_of(c);
        assert(once_in_unit(g, c / 9, d));
        let x = choose|x: int| 0 <= x < 81 && #[trigger] in_unit(x, c / 9) && g[x] == d;
        assert(peers(c, x));
    }
    assert forall|c: int| 0 <= c < 81 implies #[trigger] g[c] != 0 by {
        let u = c / 9;
        lemma_units_of(c);
        lemma_unit_pos(c, u);
        lemma_nine_in_eight(g, u, unit_pos(c, u));
    }
    assert forall|a: int, b: int|
        0 <= a < 81 && 0 <= b < 81 && a != b && #[trigger] peers(a, b) && g[a] != 0 implies g[a]
            != g[b] by {
        lemma_units_of(a);
        let d = g[a] as int;
        let u = if a / 9 == b / 9 {
            a / 9
        } else if a % 9 == b % 9 {
            9 + a % 9
        } else {
            18 + block_of(a)
        };
        assert(in_unit(a, u) && in_unit(b, u));
        assert(once_in_unit(g, u, d));
        let c = choose|c: int|
            0 <= c < 81 && #[trigger] in_unit(c, u) && g[c] == d && forall|x: int|
                0 <= x < 81 && #[trigger] in_unit(x, u) && x != c ==> g[x] != d;
        if a != c {
            assert(in_unit(a, u));
        } else {
            assert(in_unit(b, u));
        }
    }
}

/// A unit that holds every digit 1 to 9 has no empty place.
proof fn lemma_nine_in_eight(g: Seq<u8>, u: int, p: int)
    requires
        well_formed(g),
        0 <= u < 27,
        0 <= p < 9,
        forall|d: int| 1 <= d <= 9 ==> #[trigger] once_in_unit(g, u, d),
    ensures
        g[unit_cell(u, p)] != 0,
{
    if g[unit_cell(u, p)] == 0 {
        // The place of each digit: none is `p`.
        let place = |d: int| unit_pos(choose|c: int| 0 <= c < 81 && #[trigger] in_unit(c, u) && g[c] == d, u);
        assert forall|d: int| 1 <= d <= 9 implies 0 <= #[trigger] place(d) < 9 && place(d) != p && g[unit_cell(
            u,
            place(d),
        )] == d by {
            assert(once_in_unit(g, u, d));
            let c = choose|c: int| 0 <= c < 81 && #[trigger] in_unit(c, u) && g[c] == d;
            lemma_unit_pos(c, u);
        }
        // Nine digits at eight places: two digits share a place.
        let s = Seq::new(9, |i: int| place(i + 1));
        lemma_pigeons(s, p);
        let (i, j) = choose|i: int, j: int| 0 <= i < j < 9 && s[i] == s[j];
        assert(place(i + 1) == place(j + 1));
    }
}

/// Nine places out of nine that avoid one place repeat a place.
proof fn lemma_pigeons(s: Seq<int>, p: int)
    requires
        s.len() == 9,
        0 <= p < 9,
        forall|i: int| 0 <= i < 9 ==> 0 <= #[trigger] s[i] < 9 && s[i] != p,
    ensures
        exists|i: int, j: int| 0 <= i < j < 9 && s[i] == s[j],
{
    if forall|i: int, j: int| 0 <= i < j < 9 ==> s[i] != s[j] {
        let t = Seq::new(9, |i: int| (s[i] + 1) as u8);
        assert forall|k: int| 0 <= k < t.len() implies 1 <= #[trigger] t[k] <= 9 by {
            assert(0 <= s[k] < 9);
        }
        assert forall|j: int, k: int| 0 <= j < k < t.len() implies t[j] != t[k] by {
            assert(0 <= s[j] < 9 && 0 <= s[k] < 9);
        }
        lemma_word_of_distinct(t);
        lemma_count_full(word_of(t), 1, 10);
        assert(holds(word_of(t), p + 1));
        lemma_word_of(t, p + 1);
        let k = choose|k: int| 0 <= k < t.len() && #[trigger] t[k] == p + 1;
        assert(s[k] == p);
    }
}

/// A grid that keeps the filled cells of a second grid, which keeps those
/// of a third, keeps those of the third.
pub proof fn lemma_extends_trans(h: Seq<u8>, g: Seq<u8>, f: Seq<u8>)
    requires
        extends(h, g),
        extends(g, f),
    ensures
        extends(h, f),
{
    assert forall|c: int| 0 <= c < 81 && #[trigger] f[c] != 0 implies h[c] == f[c] by {
        assert(g[c] == f[c]);
    }
}

} // verus!
