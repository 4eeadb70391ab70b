//! What holds of every puzzle and its solutions, proved from the
//! definitions that the solver's contracts are stated in.
use crate::candidates::{
    admits, ascending, choice, is_candidate_grid, is_choice_for, is_filling, lemma_candidate_grid,
    lists_free_digits,
};
use crate::solver::{is_first_filling, tried_first_at};
use crate::candidates::{Candidates, Moves};
use crate::grid::{
    at, before, given, in_grid, is_digit, is_least_solution, is_solution, is_valid,
    lemma_same_cells, peers, precedes, smaller_at, solvable,
};
use crate::grid::{Grid, Puzzle};
use vstd::prelude::*;

verus! {

/// Of two grids at most one comes before the other.
pub proof fn lemma_precedes_one_way(g: Grid, h: Grid)
    requires
        precedes(g, h),
    ensures
        !precedes(h, g),
{
    if precedes(h, g) {
        let (r1, c1): (int, int) = choose|r: int, c: int| smaller_at(g, h, r, c);
        let (r2, c2): (int, int) = choose|r: int, c: int| smaller_at(h, g, r, c);
        assert(before(r1, c1, r2, c2) || before(r2, c2, r1, c1) || (r1 == r2 && c1 == c2));
    }
}

/// A puzzle has at most one first solution: the solver's result is fixed by
/// the puzzle alone, and solving the same puzzle again gives the same grid.
pub proof fn lemma_least_solution_unique(p: Puzzle, g: Grid, h: Grid)
    requires
        is_least_solution(p, g),
        is_least_solution(p, h),
    ensures
        g == h,
{
    if g != h {
        lemma_precedes_one_way(g, h);
    }
}

/// A candidate grid has at most one first filling: what the search returns
/// is fixed by the candidate grid alone.
pub proof fn lemma_first_filling_unique(m: Moves, g: Grid, h: Grid)
    requires
        is_first_filling(m, g),
        is_first_filling(m, h),
    ensures
        g == h,
{
    assert(is_filling(m, h));
    if g != h {
        let (r1, c1): (int, int) = choose|r: int, c: int| tried_first_at(m, g, h, r, c);
        let (r2, c2): (int, int) = choose|r: int, c: int| tried_first_at(m, h, g, r, c);
        let s1: Seq<int> = choice(m, r1, c1)->Open_0;
        let s2: Seq<int> = choice(m, r2, c2)->Open_0;
        let i1: int = choose|i: int|
            0 <= i < s1.len() && #[trigger] s1[i] == at(g, r1, c1) && forall|j: int|
                0 <= j <= i ==> #[trigger] s1[j] != at(h, r1, c1);
        let i2: int = choose|i: int|
            0 <= i < s2.len() && #[trigger] s2[i] == at(h, r2, c2) && forall|j: int|
                0 <= j <= i ==> #[trigger] s2[j] != at(g, r2, c2);
        assert(r1 == r2 && c1 == c2);
        assert(i1 <= i2 || i2 <= i1);
    }
}

/// Where a puzzle has exactly one solution, that solution is what the solver
/// returns.
pub proof fn lemma_only_solution_is_least(p: Puzzle, g: Grid)
    requires
        is_solution(p, g),
        forall|h: Grid| #[trigger] is_solution(p, h) ==> h == g,
    ensures
        is_least_solution(p, g),
{
}

/// Solving a solved puzzle changes nothing: where every cell is given and
/// the givens form a finished Sudoku, that grid is the only solution, and so
/// the one that the solver returns.
pub proof fn lemma_solved_puzzle_solves_itself(p: Puzzle, g: Grid)
    requires
        is_valid(g),
        forall|r: int, c: int| in_grid(r, c) ==> #[trigger] given(p, r, c) == Some(at(g, r, c)),
    ensures
        is_least_solution(p, g),
        forall|h: Grid| #[trigger] is_solution(p, h) ==> h == g,
        forall|h: Grid| #[trigger] is_least_solution(p, h) ==> h == g,
{
    assert forall|h: Grid| #[trigger] is_solution(p, h) implies h == g by {
        assert forall|r: int, c: int| in_grid(r, c) implies at(h, r, c) == at(g, r, c) by {
            assert(given(p, r, c) == Some(at(g, r, c)));
        }
        lemma_same_cells(h, g);
    }
}

/// A puzzle that gives the same digit in two cells of one row, one column or
/// one block has no solution.
pub proof fn lemma_repeated_given_unsolvable(p: Puzzle, r1: int, c1: int, r2: int, c2: int)
    requires
        in_grid(r1, c1),
        in_grid(r2, c2),
        peers(r1, c1, r2, c2),
        given(p, r1, c1) is Some,
        given(p, r1, c1) == given(p, r2, c2),
    ensures
        !solvable(p),
{
    assert forall|g: Grid| !is_solution(p, g) by {
        if is_solution(p, g) {
            assert(at(g, r1, c1) == at(g, r2, c2));
        }
    }
}

/// A puzzle that gives something other than a digit has no solution.
pub proof fn lemma_bad_given_unsolvable(p: Puzzle, r: int, c: int)
    requires
        in_grid(r, c),
        given(p, r, c) matches Some(d) && !is_digit(d),
    ensures
        !solvable(p),
{
    assert forall|g: Grid| !is_solution(p, g) by {
        if is_solution(p, g) {
            assert(is_digit(at(g, r, c)));
        }
    }
}

/// An open cell without candidates is a dead end for the whole puzzle: where
/// the candidate grid has one, the puzzle has no solution.
pub proof fn lemma_dead_cell_unsolvable(p: Puzzle, m: Moves, r: int, c: int)
    requires
        is_candidate_grid(p, m),
        in_grid(r, c),
        choice(m, r, c) matches Candidates::Open(s) && s.len() == 0,
    ensures
        !solvable(p),
{
    lemma_candidate_grid(p, m);
    assert forall|g: Grid| !is_solution(p, g) by {
        if is_solution(p, g) {
            assert(admits(choice(m, r, c), at(g, r, c)));
        }
    }
}

/// Two ascending lists of the same values agree up to any place that both
/// have.
proof fn lemma_ascending_agree(s: Seq<int>, t: Seq<int>, i: int)
    requires
        ascending(s),
        ascending(t),
        forall|d: int| s.contains(d) <==> t.contains(d),
        0 <= i < s.len(),
        i < t.len(),
    ensures
        s[i] == t[i],
    decreases i,
{
    assert forall|j: int| 0 <= j < i implies s[j] == t[j] by {
        lemma_ascending_agree(s, t, j);
    }
    assert(s.contains(s[i]));
    assert(t.contains(t[i]));
    let k: int = choose|k: int| 0 <= k < t.len() && t[k] == s[i];
    let l: int = choose|l: int| 0 <= l < s.len() && s[l] == t[i];
    if k < i {
        assert(s[k] == t[k]);
    }
    if l < i {
        assert(s[l] == t[l]);
    }
}

/// Of two ascending lists of the same values the first is no longer than
/// the second.
proof fn lemma_ascending_same_len(s: Seq<int>, t: Seq<int>)
    requires
        ascending(s),
        ascending(t),
        forall|d: int| s.contains(d) <==> t.contains(d),
    ensures
        s.len() <= t.len(),
{
    if s.len() > t.len() {
        let n: int = t.len() as int;
        assert(s.contains(s[n]));
        let k: int = choose|k: int| 0 <= k < t.len() && t[k] == s[n];
        lemma_ascending_agree(s, t, k);
    }
}

/// There is one way only to list given values in ascending order.
pub proof fn lemma_ascending_unique(s: Seq<int>, t: Seq<int>)
    requires
        ascending(s),
        ascending(t),
        forall|d: int| s.contains(d) <==> t.contains(d),
    ensures
        s == t,
{
    lemma_ascending_same_len(s, t);
    lemma_ascending_same_len(t, s);
    assert forall|i: int| 0 <= i < s.len() implies s[i] == t[i] by {
        lemma_ascending_agree(s, t, i);
    }
    assert(s =~= t);
}

/// A puzzle has one candidate grid only: what the builder returns is fixed
/// by the puzzle.
pub proof fn lemma_candidate_grid_unique(p: Puzzle, m1: Moves, m2: Moves)
    requires
        is_candidate_grid(p, m1),
        is_candidate_grid(p, m2),
    ensures
        m1 == m2,
{
    assert forall|r: int, c: int| in_grid(r, c) implies choice(m1, r, c) == choice(m2, r, c) by {
        assert(is_choice_for(p, r, c, choice(m1, r, c)));
        assert(is_choice_for(p, r, c, choice(m2, r, c)));
        if given(p, r, c) is None {
            let s1: Seq<int> = free_list(choice(m1, r, c));
            let s2: Seq<int> = free_list(choice(m2, r, c));
            assert(lists_free_digits(p, r, c, s1));
            assert(lists_free_digits(p, r, c, s2));
            lemma_ascending_unique(s1, s2);
            if choice(m1, r, c) is Settled || choice(m2, r, c) is Settled {
                assert(s1.len() == 1 && s1[0] == s2[0]);
            }
        }
    }
    assert forall|r: int| 0 <= r < 9 implies m1[r] =~= m2[r] by {
        assert forall|c: int| 0 <= c < 9 implies m1[r][c] == m2[r][c] by {
            assert(choice(m1, r, c) == choice(m2, r, c));
        }
    }
    assert(m1 =~= m2);
}

/// The free digits that the candidates of an empty cell stand for.
spec fn free_list(ch: Candidates) -> Seq<int> {
    match ch {
        Candidates::Settled(d) => seq![d],
        Candidates::Open(s) => s,
    }
}

/// The puzzle that gives nothing.
pub open spec fn empty_puzzle() -> Puzzle {
    Seq::new(9, |r: int| Seq::new(9, |c: int| None::<int>))
}

/// A finished Sudoku: its first row counts from 1 to 9, and every further
/// row is the first one shifted, by three cells within a band of three rows
/// and by one more cell from band to band.
pub open spec fn shifted_rows() -> Grid {
    Seq::new(9, |r: int| Seq::new(9, |c: int| (3 * (r % 3) + r / 3 + c) % 9 + 1))
}

/// `shifted_rows` is a finished Sudoku.
pub proof fn lemma_shifted_rows_valid()
    ensures
        is_valid(shifted_rows()),
{
    let g: Grid = shifted_rows();
    assert forall|r: int, c: int| in_grid(r, c) implies #[trigger] at(g, r, c) == (3 * (r % 3) + r
        / 3 + c) % 9 + 1 by {}
    assert forall|r1: int, c1: int, r2: int, c2: int|
        in_grid(r1, c1) && in_grid(r2, c2) && peers(r1, c1, r2, c2) implies #[trigger] at(g, r1, c1)
        != #[trigger] at(g, r2, c2) by {
        let a: int = 3 * (r1 % 3) + r1 / 3 + c1;
        let b: int = 3 * (r2 % 3) + r2 / 3 + c2;
        assert(a % 9 != b % 9);
    }
}

/// The puzzle without givens has a solution, so the solver returns one for
/// it.
pub proof fn lemma_empty_puzzle_solvable()
    ensures
        solvable(empty_puzzle()),
{
    lemma_shifted_rows_valid();
    assert(is_solution(empty_puzzle(), shifted_rows()));
}

} // verus!
