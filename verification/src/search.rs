//! The backtracking search over an explicit stack of speculative states.
//!
//! Where deduction stalls, the search guesses: it takes the cell with the
//! fewest candidates, tries its lowest candidate on a copy of the state,
//! and strikes that candidate from the state it guessed on, so that a
//! return to that state tries the next one. A state without any candidate
//! left is dropped.


use crate::bits::{
    count_ones, digit_count, first_digit, lemma_clear_counts, lemma_count_bounds,
    lemma_lowest_digit, lemma_popcount_framed, lemma_popcount_zero, lowest_digit, popcount,
};
use crate::board::{Board, Square};
use crate::cancel::is_raised;
use crate::frontier::{cleared, lemma_consume, lemma_place, Frontier, SpeculationState};
use crate::grid::lemma_count_empty_bounds;
use crate::propagate::{advances, lemma_propagate, propagate};
use vstd::prelude::*;

verus! {

/// The number of set bits of the candidate word of cell `x`: 0 for a
/// filled cell, and for an empty cell 6 more than it has candidates.
pub open spec fn options(candidates: Seq<u16>, x: int) -> int {
    popcount(candidates[x])
}

/// Whether `c` is, among the first `n` cells, the first of those with the
/// fewest set bits in their word, counting only cells with more than 6.
pub open spec fn first_fewest(candidates: Seq<u16>, c: int, n: int) -> bool {
    &&& 0 <= c < n
    &&& options(candidates, c) > 6
    &&& forall|x: int|
        0 <= x < n && #[trigger] options(candidates, x) > 6 ==> options(candidates, c) <= options(
            candidates,
            x,
        ) && (x < c ==> options(candidates, c) < options(candidates, x))
}

/// Whether some cell has more than 6 bits set in its word, that is, has a
/// candidate left.
pub open spec fn has_branch(candidates: Seq<u16>) -> bool {
    exists|x: int| 0 <= x < 81 && #[trigger] options(candidates, x) > 6
}

/// The cell to guess on: the first of the cells with the fewest candidates
/// among those that have one.
pub open spec fn branch_cell(candidates: Seq<u16>) -> int {
    choose|c: int| #[trigger] first_fewest(candidates, c, 81)
}

/// The sum of the set bits of the first `n` candidate words.
pub open spec fn total_options(candidates: Seq<u16>, n: int) -> int
    decreases n,
{
    if n <= 0 {
        0
    } else {
        total_options(candidates, n - 1) + options(candidates, n - 1)
    }
}

/// At most one cell is the first with the fewest candidates.
pub proof fn lemma_first_fewest_unique(candidates: Seq<u16>, a: int, b: int, n: int)
    requires
        first_fewest(candidates, a, n),
        first_fewest(candidates, b, n),
    ensures
        a == b,
{
}

/// Where a cell has a candidate, one is the first with the fewest.
pub proof fn lemma_first_fewest_exists(candidates: Seq<u16>, n: int)
    requires
        0 <= n,
        exists|x: int| 0 <= x < n && #[trigger] options(candidates, x) > 6,
    ensures
        exists|c: int| #[trigger] first_fewest(candidates, c, n),
    decreases n,
{
    if exists|x: int| 0 <= x < n - 1 && #[trigger] options(candidates, x) > 6 {
        lemma_first_fewest_exists(candidates, n - 1);
        let c = choose|c: int| #[trigger] first_fewest(candidates, c, n - 1);
        if options(candidates, n - 1) > 6 && options(candidates, n - 1) < options(candidates, c) {
            assert(first_fewest(candidates, n - 1, n));
        } else {
            assert(first_fewest(candidates, c, n));
        }
    } else {
        assert(first_fewest(candidates, n - 1, n));
    }
}

/// The cell to guess on is the first with the fewest candidates.
pub proof fn lemma_branch_cell(candidates: Seq<u16>)
    requires
        has_branch(candidates),
    ensures
        first_fewest(candidates, branch_cell(candidates), 81),
{
    lemma_first_fewest_exists(candidates, 81);
}

/// In a frontier that agrees with its grid, a word has more than 6 bits
/// set exactly when its cell is empty and has a candidate; its count of
/// set bits is then 6 more than its count of candidates.
pub proof fn lemma_options(f: Frontier, x: int)
    requires
        f.wf(),
        0 <= x < 81,
    ensures
        0 <= options(f.candidates, x) <= 16,
        options(f.candidates, x) > 6 <==> digit_count(f.candidates[x]) >= 1,
        options(f.candidates, x) > 6 ==> f.grid[x] == 0 && options(f.candidates, x) == 6
            + digit_count(f.candidates[x]) && f.allows(x, lowest_digit(f.candidates[x])),
{
    let w = f.candidates[x];
    lemma_count_bounds(w, 0, 16);
    lemma_count_bounds(w, 1, 10);
    lemma_lowest_digit(w);
    if f.grid[x] == 0 {
        lemma_popcount_framed(w);
    } else {
        lemma_popcount_zero();
    }
}

/// The sum of set bits is not negative.
pub proof fn lemma_total_bounds(candidates: Seq<u16>, n: int)
    ensures
        0 <= total_options(candidates, n),
    decreases n,
{
    if n > 0 {
        lemma_total_bounds(candidates, n - 1);
        lemma_count_bounds(candidates[n - 1], 0, 16);
    }
}

/// Changing one word changes the sum by the difference of the two words.
pub proof fn lemma_total_update(candidates: Seq<u16>, c: int, w: u16, n: int)
    requires
        0 <= c < candidates.len(),
        0 <= n <= candidates.len(),
    ensures
        total_options(candidates.update(c, w), n) == total_options(candidates, n) + if c < n {
            popcount(w) - popcount(candidates[c])
        } else {
            0
        },
    decreases n,
{
    if n > 0 {
        lemma_total_update(candidates, c, w, n - 1);
    }
}

/// What a guess does: the guessed digit may be entered, the state with the
/// guess entered and the state with the guess struck agree with their
/// grids, the first has fewer empty cells after deduction, and the second
/// has as many empty cells and fewer candidates.
pub proof fn lemma_guess(f: Frontier)
    requires
        f.wf(),
        has_branch(f.candidates),
    ensures
        ({
            let c = branch_cell(f.candidates);
            let d = lowest_digit(f.candidates[c]);
            let child = propagate(f.place(c, d));
            let rest = f.consume(c, d);
            &&& first_fewest(f.candidates, c, 81)
            &&& f.allows(c, d)
            &&& child.wf()
            &&& advances(f.place(c, d), child)
            &&& 0 <= child.remaining < f.remaining
            &&& rest.wf()
            &&& rest.remaining == f.remaining
            &&& 0 <= total_options(rest.candidates, 81) < total_options(f.candidates, 81)
        }),
{
    let c = branch_cell(f.candidates);
    let d = lowest_digit(f.candidates[c]);
    lemma_branch_cell(f.candidates);
    lemma_options(f, c);
    lemma_place(f, c, d);
    lemma_propagate(f.place(c, d));
    lemma_consume(f, c, d);
    lemma_clear_counts(f.candidates[c], d);
    lemma_total_update(f.candidates, c, cleared(f.candidates[c], d), 81);
    lemma_total_bounds(f.consume(c, d).candidates, 81);
    lemma_count_empty_bounds(propagate(f.place(c, d)).grid);
}

/// What the search finds below a state on which deduction has stalled: it
/// guesses the lowest candidate of the cell to guess on, deduces, and takes
/// the grid if that is full; else it searches below the new state; and
/// where that finds nothing, it goes on with the state without the guess.
/// A state without a candidate yields nothing.
pub open spec fn search(f: Frontier) -> Option<Seq<u8>>
    decreases f.remaining, total_options(f.candidates, 81),
    when f.wf()
{
    if !has_branch(f.candidates) {
        None
    } else {
        let c = branch_cell(f.candidates);
        let d = lowest_digit(f.candidates[c]);
        let child = propagate(f.place(c, d));
        proof {
            lemma_guess(f);
        }
        if child.solved() {
            Some(child.grid)
        } else {
            match search(child) {
                Some(g) => Some(g),
                None => search(f.consume(c, d)),
            }
        }
    }
}

/// The number of states that the search below a state looks at when it
/// finds nothing before the last.
pub open spec fn tree_size(f: Frontier) -> int
    decreases f.remaining, total_options(f.candidates, 81),
    when f.wf()
{
    if !has_branch(f.candidates) {
        1
    } else {
        let c = branch_cell(f.candidates);
        let d = lowest_digit(f.candidates[c]);
        let child = propagate(f.place(c, d));
        proof {
            lemma_guess(f);
        }
        1 + (if child.solved() {
            0
        } else {
            tree_size(child)
        }) + tree_size(f.consume(c, d))
    }
}

/// What one worker finds from a state: it deduces, takes the grid if that
/// is full, and else searches.
pub open spec fn solve_from(f: Frontier) -> Option<Seq<u8>> {
    let r = propagate(f);
    if r.solved() {
        Some(r.grid)
    } else {
        search(r)
    }
}

/// What the search finds on a stack of states: what it finds below the
/// topmost state, else what it finds on the stack without that state.
pub open spec fn search_stack(stack: Seq<Frontier>) -> Option<Seq<u8>>
    decreases stack.len(),
{
    if stack.len() == 0 {
        None
    } else {
        match search(stack.last()) {
            Some(g) => Some(g),
            None => search_stack(stack.drop_last()),
        }
    }
}

/// The number of states that the search on a stack looks at at most.
pub open spec fn stack_size(stack: Seq<Frontier>) -> int
    decreases stack.len(),
{
    if stack.len() == 0 {
        0
    } else {
        stack_size(stack.drop_last()) + tree_size(stack.last())
    }
}

/// Every state on the stack agrees with its grid.
pub open spec fn stack_wf(stack: Seq<Frontier>) -> bool {
    forall|i: int| 0 <= i < stack.len() ==> (#[trigger] stack[i]).wf()
}

/// The search below a state looks at one state at least.
pub proof fn lemma_tree_size(f: Frontier)
    requires
        f.wf(),
    ensures
        tree_size(f) >= 1,
    decreases f.remaining, total_options(f.candidates, 81),
{
    if has_branch(f.candidates) {
        lemma_guess(f);
        let c = branch_cell(f.candidates);
        let d = lowest_digit(f.candidates[c]);
        let child = propagate(f.place(c, d));
        if !child.solved() {
            lemma_tree_size(child);
        }
        lemma_tree_size(f.consume(c, d));
    }
}

/// The search on a stack looks at each of its states at least.
pub proof fn lemma_stack_size(stack: Seq<Frontier>)
    requires
        stack_wf(stack),
    ensures
        stack_size(stack) >= stack.len(),
    decreases stack.len(),
{
    if stack.len() > 0 {
        assert(stack.last() == stack[stack.len() - 1]);
        assert forall|i: int| 0 <= i < stack.drop_last().len() implies (
        #[trigger] stack.drop_last()[i]).wf() by {
            assert(stack[i].wf());
        }
        lemma_stack_size(stack.drop_last());
        lemma_tree_size(stack.last());
    }
}

/// The place on the stack of the topmost state that has a candidate left,
/// or -1 if no state has one.
pub open spec fn live_top(stack: Seq<Frontier>) -> int
    decreases stack.len(),
{
    if stack.len() == 0 {
        -1
    } else if has_branch(stack.last().candidates) {
        stack.len() - 1
    } else {
        live_top(stack.drop_last())
    }
}

/// The stack after one cycle of the search, where a state has a candidate
/// left: the states above the topmost such state are gone, that state has
/// lost its guess, and on top of it stands the state with the guess
/// entered and deduction run.
pub open spec fn after_cycle(stack: Seq<Frontier>) -> Seq<Frontier> {
    let j = live_top(stack);
    let top = stack[j];
    let c = branch_cell(top.candidates);
    let d = lowest_digit(top.candidates[c]);
    stack.take(j).push(top.consume(c, d)).push(propagate(top.place(c, d)))
}

/// Putting a state on the stack: the search looks below it first.
pub proof fn lemma_stack_push(stack: Seq<Frontier>, f: Frontier)
    ensures
        search_stack(stack.push(f)) == match search(f) {
            Some(g) => Some(g),
            None => search_stack(stack),
        },
        stack_size(stack.push(f)) == stack_size(stack) + tree_size(f),
        stack_wf(stack) && f.wf() ==> stack_wf(stack.push(f)),
{
    assert(stack.push(f).drop_last() =~= stack);
}

/// Taking the topmost state off the stack.
pub proof fn lemma_stack_pop(stack: Seq<Frontier>)
    requires
        stack.len() > 0,
    ensures
        stack == stack.drop_last().push(stack.last()),
        stack_wf(stack) ==> stack_wf(stack.drop_last()) && stack.last().wf(),
{
    assert(stack =~= stack.drop_last().push(stack.last()));
    if stack_wf(stack) {
        assert(stack[stack.len() - 1].wf());
        assert forall|i: int| 0 <= i < stack.drop_last().len() implies (
        #[trigger] stack.drop_last()[i]).wf() by {
            assert(stack[i].wf());
        }
    }
}

/// The grid of a board that may be there.
pub open spec fn grid_of(r: Option<Board>) -> Option<Seq<u8>> {
    match r {
        Some(b) => Some(b@),
        None => None,
    }
}

/// How one cycle of the search ended.
#[derive(Clone, Copy)]
pub enum Step {
    /// The guess led to a full grid.
    Solved(Board),
    /// A guess was entered and the new state is on top of the stack.
    Descended,
    /// No state on the stack had a candidate left; the stack is empty.
    Exhausted,
}

/// One worker of the search: a stack of states, each a guess deeper than
/// the one below it.
pub struct Solver {
    speculation_stack: Vec<SpeculationState>,
}

impl View for Solver {
    type V = Seq<Frontier>;

    /// The states on the stack, the lowest first.
    closed spec fn view(&self) -> Seq<Frontier> {
        self.speculation_stack@.map_values(|s: SpeculationState| s@)
    }
}

impl Default for Solver {
    /// A worker with an empty stack.
    fn default() -> (s: Solver)
        ensures
            s@.len() == 0,
    {
        Solver { speculation_stack: Vec::new() }
    }
}

impl Solver {
    /// Every state on the stack agrees with its grid.
    pub open spec fn wf(&self) -> bool {
        stack_wf(self@)
    }

    /// The number of states on the stack.
    pub fn depth(&self) -> (n: usize)
        ensures
            n == self@.len(),
    {
        self.speculation_stack.len()
    }

    /// Puts a state on the stack.
    pub fn push(&mut self, state: SpeculationState)
        requires
            old(self).wf(),
            state@.wf(),
        ensures
            final(self)@ == old(self)@.push(state@),
            final(self).wf(),
    {
        proof {
            lemma_stack_push(self@, state@);
        }
        self.speculation_stack.push(state);
        proof {
            assert(self@ =~= old(self)@.push(state@));
        }
    }

    /// Searches for one worker, from a state: deduces, and if the grid is
    /// not full yet, puts the state on the stack and takes turn after turn
    /// until one ends the search. Before each turn it reads the flag; what
    /// a turn does with what was read is said at `turn`. A grid is owed
    /// where deduction alone fills it; a grid that comes back after turns
    /// is the one that the search finds.
    pub fn solve(&mut self, initial: SpeculationState, solved: &std::sync::atomic::AtomicBool) -> (res:
        Option<Board>)
        requires
            old(self).wf(),
            initial@.wf(),
        ensures
            final(self).wf(),
            propagate(initial@).solved() ==> grid_of(res) == Some(propagate(initial@).grid),
            res.is_some() ==> grid_of(res) == if propagate(initial@).solved() {
                Some(propagate(initial@).grid)
            } else {
                search_stack(old(self)@.push(propagate(initial@)))
            },
    {
        let ghost root = propagate(initial@);
        let mut state = initial;
        Solver::place_obvious(&mut state);

        if state.is_solved() {
            return Some(state.board());
        }
        self.push(state);

        loop
            invariant
                self.wf(),
                self@.len() > 0,
                root == propagate(initial@),
                !root.solved(),
                search_stack(self@) == search_stack(old(self)@.push(root)),
            decreases stack_size(self@),
        {
            let raised = is_raised(solved);
            proof {
                lemma_stack_size(self@);
            }
            match self.turn(raised) {
                None => {
                    return None;
                },
                Some(Step::Solved(board)) => {
                    return Some(board);
                },
                Some(Step::Exhausted) => {
                    return None;
                },
                Some(Step::Descended) => {
                    proof {
                        lemma_stack_size(self@);
                    }
                },
            }
        }
    }

    /// Searches from the states on the stack to the end: turn after turn,
    /// none of them cancelled, until one finds a full grid or the stack is
    /// empty.
    pub fn search(&mut self) -> (res: Option<Board>)
        requires
            old(self).wf(),
        ensures
            final(self).wf(),
            grid_of(res) == search_stack(old(self)@),
            res.is_none() ==> final(self)@.len() == 0,
    {
        if self.speculation_stack.len() == 0 {
            return None;
        }
        loop
            invariant
                self.wf(),
                self@.len() > 0,
                search_stack(self@) == search_stack(old(self)@),
            decreases stack_size(self@),
        {
            proof {
                lemma_stack_size(self@);
            }
            match self.turn(false) {
                Some(Step::Solved(board)) => {
                    return Some(board);
                },
                Some(Step::Descended) => {
                    proof {
                        lemma_stack_size(self@);
                    }
                },
                Some(Step::Exhausted) | None => {
                    return None;
                },
            }
        }
    }

    /// One turn of a worker, for what it read of the flag. Where the flag
    /// was read raised the worker abandons the search: it makes no guess,
    /// leaves the stack as it is and returns `None`. Where it was read
    /// lowered the worker runs one cycle and returns how that ended.
    pub fn turn(&mut self, raised: bool) -> (r: Option<Step>)
        requires
            old(self).wf(),
            old(self)@.len() > 0,
        ensures
            final(self).wf(),
            raised ==> r.is_none() && final(self)@ == old(self)@,
            !raised ==> r.is_some(),
            !raised && live_top(old(self)@) < 0 ==> r == Some(Step::Exhausted) && final(self)@.len()
                == 0,
            !raised && live_top(old(self)@) >= 0 ==> final(self)@ == after_cycle(old(self)@)
                && match r {
                Some(Step::Solved(b)) => {
                    &&& final(self)@.last().solved()
                    &&& b@ == final(self)@.last().grid
                },
                Some(Step::Descended) => !final(self)@.last().solved(),
                _ => false,
            },
            match r {
                Some(Step::Solved(b)) => search_stack(old(self)@) == Some(b@),
                Some(Step::Exhausted) => search_stack(old(self)@).is_none(),
                Some(Step::Descended) => {
                    &&& search_stack(final(self)@) == search_stack(old(self)@)
                    &&& final(self)@.len() > 0
                    &&& stack_size(final(self)@) < stack_size(old(self)@)
                },
                None => raised,
            },
    {
        if raised {
            return None;
        }
        Some(self.cycle())
    }

    /// One cycle of the search. States without a candidate are taken off
    /// the stack until the topmost has one. That state's guess is entered
    /// on a copy, the copy is put on the stack, and deduction is run on it.
    pub fn cycle(&mut self) -> (r: Step)
        requires
            old(self).wf(),
            old(self)@.len() > 0,
        ensures
            final(self).wf(),
            live_top(old(self)@) < 0 ==> r is Exhausted && final(self)@.len() == 0,
            live_top(old(self)@) >= 0 ==> final(self)@ == after_cycle(old(self)@) && match r {
                Step::Solved(b) => final(self)@.last().solved() && b@ == final(self)@.last().grid,
                Step::Descended => !final(self)@.last().solved(),
                Step::Exhausted => false,
            },
            match r {
                Step::Solved(b) => search_stack(old(self)@) == Some(b@),
                Step::Exhausted => search_stack(old(self)@).is_none(),
                Step::Descended => {
                    &&& search_stack(final(self)@) == search_stack(old(self)@)
                    &&& final(self)@.len() > 0
                    &&& stack_size(final(self)@) < stack_size(old(self)@)
                },
            },
    {
        loop
            invariant
                self.wf(),
                0 < self@.len() <= old(self)@.len(),
                self@ == old(self)@.take(self@.len() as int),
                live_top(self@) == live_top(old(self)@),
                search_stack(self@) == search_stack(old(self)@),
                stack_size(self@) <= stack_size(old(self)@),
            decreases self@.len(),
        {
            let ghost stack = self@;
            let n = self.speculation_stack.len();
            proof {
                lemma_stack_pop(stack);
                lemma_tree_size(stack.last());
            }
            let ghost top = stack.last();
            match Self::get_speculation(&mut self.speculation_stack[n - 1]) {
                Some(new) => {
                    let ghost rest = top.consume(
                        branch_cell(top.candidates),
                        lowest_digit(top.candidates[branch_cell(top.candidates)]),
                    );
                    let ghost below = stack.drop_last().push(rest);
                    proof {
                        lemma_guess(top);
                        assert(self@ =~= below);
                        lemma_stack_push(stack.drop_last(), top);
                        lemma_stack_push(stack.drop_last(), rest);
                    }
                    self.speculation_stack.push(new);
                    Solver::place_obvious(&mut self.speculation_stack[n]);
                    let state = &self.speculation_stack[n];
                    proof {
                        assert(self@ =~= below.push(state@));
                        lemma_stack_push(below, state@);
                        assert(stack.drop_last() =~= old(self)@.take(n - 1));
                        assert(old(self)@[n - 1] == top);
                    }
                    if state.is_solved() {
                        return Step::Solved(state.board());
                    }
                    return Step::Descended;
                },
                None => {
                    self.speculation_stack.pop();
                    proof {
                        assert(self@ =~= stack.drop_last());
                        assert(self@ =~= old(self)@.take(n - 1));
                        assert(live_top(stack) == live_top(stack.drop_last()));
                        lemma_stack_push(stack.drop_last(), top);
                    }
                    if self.speculation_stack.is_empty() {
                        return Step::Exhausted;
                    }
                },
            }
        }
    }

    /// The next guess on a state, if it has a candidate left: the state
    /// with the guess entered is returned, and the guess is struck from the
    /// candidates of the state itself. The guess is the lowest candidate of
    /// the first cell among those with the fewest candidates; the cells
    /// are told by the set bits of their words, of which an empty cell has
    /// six more than candidates.
    pub fn get_speculation(prev: &mut SpeculationState) -> (res: Option<SpeculationState>)
        requires
            old(prev)@.wf(),
        ensures
            final(prev)@.wf(),
            match res {
                None => !has_branch(old(prev)@.candidates) && final(prev)@ == old(prev)@,
                Some(s) => {
                    let c = branch_cell(old(prev)@.candidates);
                    let d = lowest_digit(old(prev)@.candidates[c]);
                    &&& has_branch(old(prev)@.candidates)
                    &&& first_fewest(old(prev)@.candidates, c, 81)
                    &&& old(prev)@.allows(c, d)
                    &&& s@ == old(prev)@.place(c, d)
                    &&& s@.wf()
                    &&& final(prev)@ == old(prev)@.consume(c, d)
                },
            },
    {
        let ghost f = prev@;
        let mut best: Option<(usize, u32)> = None;
        let mut s: usize = 0;
        while s < 81
            invariant
                s <= 81,
                prev@ == f,
                match best {
                    None => forall|x: int| 0 <= x < s ==> #[trigger] options(f.candidates, x) <= 6,
                    Some((c, m)) => first_fewest(f.candidates, c as int, s as int) && m == options(
                        f.candidates,
                        c as int,
                    ),
                },
            decreases 81 - s,
        {
            let moves = prev.candidates(Square::at(s));
            let n = count_ones(moves);
            if n > 6 {
                let better = match best {
                    None => true,
                    Some((_, m)) => n < m,
                };
                if better {
                    best = Some((s, n));
                }
            }
            s += 1;
        }

        if let Some((square, _)) = best {
            proof {
                assert(options(f.candidates, square as int) > 6);
                lemma_branch_cell(f.candidates);
                lemma_first_fewest_unique(
                    f.candidates,
                    square as int,
                    branch_cell(f.candidates),
                    81,
                );
                lemma_options(f, square as int);
            }
            let moves = prev.candidates(Square::at(square));
            let i = first_digit(moves);
            if i != 0 {
                let mut state = *prev;
                state.make_move(Square::at(square), i);
                // Either the puzzle is solved below this guess, or the guess
                // is wrong: it is not to be tried again from this state.
                prev.remove_candidate(Square::at(square), i);
                return Some(state);
            }
        }
        None
    }
}

} // verus!
