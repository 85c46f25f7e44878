//! Digit sets packed into 16-bit words.
//!
//! Bit `d` of a word stands for the digit `d`. Bits 1 to 9 are the digits of
//! the game, bit 0 stands for "empty", and the six bits above 9 are padding.

use vstd::prelude::*;

verus! {

/// The digit bits of a word: bits 1 to 9.
pub const DIGIT_MASK: u16 = 0x03FE;

/// The six bits above the digits.
pub const PADDING: u16 = 0xFC00;

/// The padding together with bit 0.
pub const FRAME: u16 = 0xFC01;

/// The word in which only bit `d` is set.
pub open spec fn bit(d: int) -> u16 {
    1u16 << (d as u16)
}

/// Whether bit `d` of `w` is set.
pub open spec fn holds(w: u16, d: int) -> bool {
    w & bit(d) != 0
}

/// The number of set bits of `w` among the bits `lo..hi`.
pub open spec fn count_in(w: u16, lo: int, hi: int) -> int
    decreases hi - lo,
{
    if hi <= lo {
        0
    } else {
        count_in(w, lo, hi - 1) + if holds(w, hi - 1) {
            1int
        } else {
            0int
        }
    }
}

/// The number of set bits of `w`.
pub open spec fn popcount(w: u16) -> int {
    count_in(w, 0, 16)
}

/// The number of digits 1 to 9 that `w` holds.
pub open spec fn digit_count(w: u16) -> int {
    count_in(w, 1, 10)
}

/// The smallest digit from `d` to 9 that `w` holds, or 0 if there is none.
pub open spec fn lowest_from(w: u16, d: int) -> int
    decreases 10 - d,
{
    if d >= 10 {
        0
    } else if holds(w, d) {
        d
    } else {
        lowest_from(w, d + 1)
    }
}

/// The smallest digit 1 to 9 that `w` holds, or 0 if it holds none.
pub open spec fn lowest_digit(w: u16) -> int {
    lowest_from(w, 1)
}

/// An empty cell's word carries the whole padding and not bit 0.
pub open spec fn framed(w: u16) -> bool {
    w & FRAME == PADDING
}

/// Setting bit `d`, bit by bit, on the machine words.
proof fn lemma_bit_set(w: u16, d: u16, e: u16)
    by (bit_vector)
    requires
        d < 16,
        e < 16,
    ensures
        ((w | (1u16 << d)) & (1u16 << e) != 0) == ((w & (1u16 << e) != 0) || d == e),
{
}

/// Clearing bit `d`, bit by bit, on the machine words.
proof fn lemma_bit_clear(w: u16, d: u16, e: u16)
    by (bit_vector)
    requires
        d < 16,
        e < 16,
    ensures
        ((w & !(1u16 << d)) & (1u16 << e) != 0) == ((w & (1u16 << e) != 0) && d != e),
{
}

/// The union of two words, bit by bit, on the machine words.
proof fn lemma_bit_or(a: u16, b: u16, e: u16)
    by (bit_vector)
    requires
        e < 16,
    ensures
        ((a | b) & (1u16 << e) != 0) == ((a & (1u16 << e) != 0) || (b & (1u16 << e) != 0)),
{
}

/// The complement of a word, bit by bit, on the machine words.
proof fn lemma_bit_not(a: u16, e: u16)
    by (bit_vector)
    requires
        e < 16,
    ensures
        ((!a) & (1u16 << e) != 0) == (a & (1u16 << e) == 0),
{
}

/// The empty word holds no bit, and a single bit is no empty word.
proof fn lemma_bit_zero(e: u16)
    by (bit_vector)
    requires
        e < 16,
    ensures
        0u16 & (1u16 << e) == 0,
        (1u16 << e) != 0,
{
}

/// Clearing a digit keeps the frame of a word.
pub proof fn lemma_clear_keeps_frame(w: u16, d: u16)
    by (bit_vector)
    requires
        1 <= d <= 9,
        w & 0xFC01 == 0xFC00,
    ensures
        (w & !(1u16 << d)) & 0xFC01 == 0xFC00,
{
}

/// The complement of a word below 1024 that holds bit 0 is framed.
pub proof fn lemma_complement_framed(c: u16)
    by (bit_vector)
    requires
        c & 0xFC00 == 0,
        c & 1 != 0,
    ensures
        (!c) & 0xFC01 == 0xFC00,
{
}

/// What the frame says bit by bit.
pub proof fn lemma_frame_bits(w: u16)
    by (bit_vector)
    requires
        w & 0xFC01 == 0xFC00,
    ensures
        w & (1u16 << 0u16) == 0,
        w & (1u16 << 10u16) != 0,
        w & (1u16 << 11u16) != 0,
        w & (1u16 << 12u16) != 0,
        w & (1u16 << 13u16) != 0,
        w & (1u16 << 14u16) != 0,
        w & (1u16 << 15u16) != 0,
{
}

/// Setting a bit up to 9 keeps a word below 1024.
pub proof fn lemma_set_keeps_low(w: u16, d: u16)
    by (bit_vector)
    requires
        d <= 9,
        w & 0xFC00 == 0,
    ensures
        (w | (1u16 << d)) & 0xFC00 == 0,
{
}

/// Two words that agree on the digits agree on each digit.
pub proof fn lemma_same_digits(a: u16, b: u16, d: u16)
    by (bit_vector)
    requires
        1 <= d <= 9,
        a & 0x03FE == b & 0x03FE,
    ensures
        (a & (1u16 << d) != 0) == (b & (1u16 << d) != 0),
{
}

/// Setting bit `d` of `w`, seen bit by bit.
pub proof fn lemma_holds_set(w: u16, d: int, e: int)
    requires
        0 <= d < 16,
        0 <= e < 16,
    ensures
        holds(w | bit(d), e) == (holds(w, e) || d == e),
{
    lemma_bit_set(w, d as u16, e as u16);
}

/// Clearing bit `d` of `w`, seen bit by bit.
pub proof fn lemma_holds_clear(w: u16, d: int, e: int)
    requires
        0 <= d < 16,
        0 <= e < 16,
    ensures
        holds(w & !bit(d), e) == (holds(w, e) && d != e),
{
    lemma_bit_clear(w, d as u16, e as u16);
}

/// The union of two words, seen bit by bit.
pub proof fn lemma_holds_or(a: u16, b: u16, e: int)
    requires
        0 <= e < 16,
    ensures
        holds(a | b, e) == (holds(a, e) || holds(b, e)),
{
    lemma_bit_or(a, b, e as u16);
}

/// The complement of a word, seen bit by bit.
pub proof fn lemma_holds_not(a: u16, e: int)
    requires
        0 <= e < 16,
    ensures
        holds(!a, e) == !holds(a, e),
{
    lemma_bit_not(a, e as u16);
}

/// The empty word holds no bit.
pub proof fn lemma_holds_zero(e: int)
    requires
        0 <= e < 16,
    ensures
        !holds(0u16, e),
{
    lemma_bit_zero(e as u16);
}

/// A framed word has six bits more than it has digits.
pub proof fn lemma_popcount_framed(w: u16)
    requires
        framed(w),
    ensures
        popcount(w) == 6 + digit_count(w),
        !holds(w, 0),
{
    lemma_frame_bits(w);
    reveal_with_fuel(count_in, 17);
    assert(count_in(w, 0, 16) == count_in(w, 0, 10) + 6);
    assert(count_in(w, 0, 1) == 0);
    lemma_count_split(w, 0, 1, 10);
}

/// Counting over `lo..hi` is counting over `lo..mid` and over `mid..hi`.
pub proof fn lemma_count_split(w: u16, lo: int, mid: int, hi: int)
    requires
        lo <= mid <= hi,
    ensures
        count_in(w, lo, hi) == count_in(w, lo, mid) + count_in(w, mid, hi),
    decreases hi - mid,
{
    if hi > mid {
        lemma_count_split(w, lo, mid, hi - 1);
    }
}

/// A count over a range lies between 0 and the length of the range.
pub proof fn lemma_count_bounds(w: u16, lo: int, hi: int)
    requires
        lo <= hi,
    ensures
        0 <= count_in(w, lo, hi) <= hi - lo,
    decreases hi - lo,
{
    if hi > lo {
        lemma_count_bounds(w, lo, hi - 1);
    }
}

/// A range without a set bit counts 0, and the converse.
pub proof fn lemma_count_zero(w: u16, lo: int, hi: int)
    requires
        lo <= hi,
    ensures
        count_in(w, lo, hi) == 0 <==> (forall|e: int| lo <= e < hi ==> !holds(w, e)),
    decreases hi - lo,
{
    if hi > lo {
        lemma_count_zero(w, lo, hi - 1);
        lemma_count_bounds(w, lo, hi - 1);
    }
}

/// The empty word holds no bits at all.
pub proof fn lemma_popcount_zero()
    ensures
        popcount(0u16) == 0,
        digit_count(0u16) == 0,
        lowest_digit(0u16) == 0,
{
    assert forall|e: int| 0 <= e < 16 implies !holds(0u16, e) by {
        lemma_holds_zero(e);
    }
    lemma_count_zero(0u16, 0, 16);
    lemma_count_zero(0u16, 1, 10);
    lemma_lowest_from(0u16, 1);
}

/// `lowest_from(w, d)` is the first digit from `d` on that `w` holds.
pub proof fn lemma_lowest_from(w: u16, d: int)
    requires
        1 <= d <= 10,
    ensures
        lowest_from(w, d) == 0 || d <= lowest_from(w, d) <= 9,
        lowest_from(w, d) != 0 ==> holds(w, lowest_from(w, d)),
        forall|e: int| d <= e <= 9 && (lowest_from(w, d) == 0 || e < lowest_from(w, d)) ==> !holds(w, e),
    decreases 10 - d,
{
    if d < 10 && !holds(w, d) {
        lemma_lowest_from(w, d + 1);
    }
}

/// The lowest digit of a word is a digit of it, and none below it is; it is
/// 0 exactly when the word holds no digit.
pub proof fn lemma_lowest_digit(w: u16)
    ensures
        0 <= lowest_digit(w) <= 9,
        lowest_digit(w) != 0 ==> holds(w, lowest_digit(w)),
        forall|e: int| 1 <= e < lowest_digit(w) ==> !holds(w, e),
        lowest_digit(w) == 0 <==> digit_count(w) == 0,
{
    lemma_lowest_from(w, 1);
    lemma_count_zero(w, 1, 10);
}

/// A word with one digit holds its lowest digit and no other.
pub proof fn lemma_single_digit(w: u16)
    requires
        digit_count(w) == 1,
    ensures
        1 <= lowest_digit(w) <= 9,
        forall|e: int| 1 <= e <= 9 ==> (holds(w, e) <==> e == lowest_digit(w)),
{
    lemma_lowest_digit(w);
    let d = lowest_digit(w);
    lemma_count_split(w, 1, d, 10);
    lemma_count_split(w, d, d + 1, 10);
    lemma_count_zero(w, 1, d);
    lemma_count_zero(w, d + 1, 10);
    lemma_count_bounds(w, d + 1, 10);
    assert(count_in(w, d, d + 1) == 1) by {
        reveal_with_fuel(count_in, 2);
    }
}

/// Clearing a digit that a word holds leaves it one digit and one bit less.
pub proof fn lemma_clear_counts(w: u16, d: int)
    requires
        1 <= d <= 9,
        holds(w, d),
    ensures
        digit_count(w & !bit(d)) == digit_count(w) - 1,
        popcount(w & !bit(d)) == popcount(w) - 1,
{
    lemma_count_clear(w, d, 0, 16);
    lemma_count_clear(w, d, 1, 10);
}

/// Clearing bit `d` lowers the count over a range that holds `d` by what
/// the bit counted, and leaves the count over any other range.
pub proof fn lemma_count_clear(w: u16, d: int, lo: int, hi: int)
    requires
        0 <= lo <= hi <= 16,
        0 <= d < 16,
    ensures
        count_in(w & !bit(d), lo, hi) == count_in(w, lo, hi) - if lo <= d < hi && holds(w, d) {
            1int
        } else {
            0int
        },
    decreases hi - lo,
{
    if hi > lo {
        lemma_count_clear(w, d, lo, hi - 1);
        lemma_holds_clear(w, d, hi - 1);
    }
}

/// Setting bit `d` raises the count over a range that holds `d` by one if
/// the bit was not set, and leaves the count over any other range.
pub proof fn lemma_count_set(w: u16, d: int, lo: int, hi: int)
    requires
        0 <= lo <= hi <= 16,
        0 <= d < 16,
    ensures
        count_in(w | bit(d), lo, hi) == count_in(w, lo, hi) + if lo <= d < hi && !holds(w, d) {
            1int
        } else {
            0int
        },
    decreases hi - lo,
{
    if hi > lo {
        lemma_count_set(w, d, lo, hi - 1);
        lemma_holds_set(w, d, hi - 1);
    }
}

/// A range that counts as many bits as it is long holds every bit of it.
pub proof fn lemma_count_full(w: u16, lo: int, hi: int)
    requires
        lo <= hi,
        count_in(w, lo, hi) == hi - lo,
    ensures
        forall|e: int| lo <= e < hi ==> holds(w, e),
    decreases hi - lo,
{
    if hi > lo {
        lemma_count_bounds(w, lo, hi - 1);
        lemma_count_full(w, lo, hi - 1);
    }
}

/// The number of set bits of a word.
pub fn count_ones(w: u16) -> (n: u32)
    ensures
        n == popcount(w),
{
    let mut n: u32 = 0;
    let mut i: u8 = 0;
    while i < 16
        invariant
            i <= 16,
            n == count_in(w, 0, i as int),
            n <= i,
        decreases 16 - i,
    {
        if w & (1u16 << i) != 0 {
            n += 1;
        }
        i += 1;
    }
    n
}

/// The smallest digit 1 to 9 of a word, or 0 where it holds none.
pub fn first_digit(w: u16) -> (d: u8)
    ensures
        d == lowest_digit(w),
{
    let mut i: u8 = 1;
    while i < 10
        invariant
            1 <= i <= 10,
            lowest_digit(w) == lowest_from(w, i as int),
        decreases 10 - i,
    {
        if w & (1u16 << i) != 0 {
            return i;
        }
        i += 1;
    }
    0
}

} // verus!
