//! Rows, columns and blocks as units of nine cells, and what a finished
//! Sudoku means for them.
use crate::grid::Grid;
use crate::grid::{at, in_grid, is_digit, is_grid, is_valid, peers};
use vstd::prelude::*;

verus! {

/// A row, a column or a block, by its number from 0 to 8. Blocks are counted
/// row by row.
pub enum Unit {
    Row(int),
    Column(int),
    Block(int),
}

/// The number of a unit.
pub open spec fn unit_number(u: Unit) -> int {
    match u {
        Unit::Row(r) => r,
        Unit::Column(c) => c,
        Unit::Block(b) => b,
    }
}

/// `u` is one of the 27 units of the grid.
pub open spec fn is_unit(u: Unit) -> bool {
    0 <= unit_number(u) < 9
}

/// The `k`-th cell of a unit, for `k` from 0 to 8.
pub open spec fn unit_cell(u: Unit, k: int) -> (int, int) {
    match u {
        Unit::Row(r) => (r, k),
        Unit::Column(c) => (k, c),
        Unit::Block(b) => (3 * (b / 3) + k / 3, 3 * (b % 3) + k % 3),
    }
}

/// The value that `g` holds in the `k`-th cell of a unit.
pub open spec fn value_in(g: Grid, u: Unit, k: int) -> int {
    at(g, unit_cell(u, k).0, unit_cell(u, k).1)
}

/// Exactly one cell of the unit holds `d`.
pub open spec fn holds_once(g: Grid, u: Unit, d: int) -> bool {
    exists|k: int|
        0 <= k < 9 && #[trigger] value_in(g, u, k) == d && forall|k2: int|
            0 <= k2 < 9 && k2 != k ==> #[trigger] value_in(g, u, k2) != d
}

/// Every row, every column and every block of `g` holds each digit from 1
/// to 9 exactly once.
pub open spec fn units_complete(g: Grid) -> bool {
    forall|u: Unit, d: int| is_unit(u) && is_digit(d) ==> #[trigger] holds_once(g, u, d)
}

/// `f` takes the numbers from 0 up to `n`, `n` left out, to values from 1 to
/// `m`, and no two of them to the same value.
spec fn distinct_within(f: spec_fn(int) -> int, n: int, m: int) -> bool {
    &&& forall|k: int| 0 <= k < n ==> 1 <= #[trigger] f(k) <= m
    &&& forall|j: int, k: int| 0 <= j < k < n ==> #[trigger] f(j) != #[trigger] f(k)
}

/// There are no more different values from 1 to `m` than `m`.
proof fn lemma_pigeonhole(f: spec_fn(int) -> int, n: int, m: int)
    requires
        0 <= n,
        0 <= m,
        distinct_within(f, n, m),
    ensures
        n <= m,
    decreases m,
{
    if n > 0 {
        if m == 0 {
            assert(1 <= f(0) <= m);
        } else if exists|k: int| 0 <= k < n && #[trigger] f(k) == m {
            let k: int = choose|k: int| 0 <= k < n && #[trigger] f(k) == m;
            let rest = |i: int|
                if i == k {
                    f(n - 1)
                } else {
                    f(i)
                };
            assert forall|i: int| 0 <= i < n - 1 implies 1 <= #[trigger] rest(i) <= m - 1 by {
                if i == k {
                    assert(f(n - 1) != f(k));
                } else {
                    assert(f(i) != f(k));
                }
            }
            assert forall|i: int, j: int| 0 <= i < j < n - 1 implies #[trigger] rest(i)
                != #[trigger] rest(j) by {
                assert(f(i) != f(j) && f(i) != f(n - 1) && f(j) != f(n - 1));
            }
            lemma_pigeonhole(rest, n - 1, m - 1);
        } else {
            assert forall|i: int| 0 <= i < n implies 1 <= #[trigger] f(i) <= m - 1 by {}
            lemma_pigeonhole(f, n, m - 1);
        }
    }
}

/// Nine different digits are all the digits: each digit is among them.
proof fn lemma_nine_digits(f: spec_fn(int) -> int, d: int)
    requires
        is_digit(d),
        distinct_within(f, 9, 9),
    ensures
        exists|k: int| 0 <= k < 9 && #[trigger] f(k) == d,
{
    if !exists|k: int| 0 <= k < 9 && #[trigger] f(k) == d {
        let closed_up = |k: int|
            if f(k) > d {
                f(k) - 1
            } else {
                f(k)
            };
        assert forall|k: int| 0 <= k < 9 implies 1 <= #[trigger] closed_up(k) <= 8 by {
            assert(f(k) != d);
        }
        assert forall|j: int, k: int| 0 <= j < k < 9 implies #[trigger] closed_up(j)
            != #[trigger] closed_up(k) by {
            assert(f(j) != f(k) && f(j) != d && f(k) != d);
        }
        lemma_pigeonhole(closed_up, 9, 8);
    }
}

/// In a finished Sudoku every unit holds each digit exactly once.
pub proof fn lemma_valid_units_complete(g: Grid)
    requires
        is_valid(g),
    ensures
        units_complete(g),
{
    assert forall|u: Unit, d: int| is_unit(u) && is_digit(d) implies #[trigger] holds_once(
        g,
        u,
        d,
    ) by {
        let f = |k: int| value_in(g, u, k);
        assert forall|k: int| 0 <= k < 9 implies in_grid(unit_cell(u, k).0, unit_cell(u, k).1) by {}
        assert forall|j: int, k: int| 0 <= j < k < 9 implies peers(
            unit_cell(u, j).0,
            unit_cell(u, j).1,
            unit_cell(u, k).0,
            unit_cell(u, k).1,
        ) by {}
        assert forall|k: int| 0 <= k < 9 implies 1 <= #[trigger] f(k) <= 9 by {
            assert(in_grid(unit_cell(u, k).0, unit_cell(u, k).1));
        }
        assert forall|j: int, k: int| 0 <= j < k < 9 implies #[trigger] f(j) != #[trigger] f(k) by {
            assert(peers(
                unit_cell(u, j).0,
                unit_cell(u, j).1,
                unit_cell(u, k).0,
                unit_cell(u, k).1,
            ));
        }
        lemma_nine_digits(f, d);
        let k: int = choose|k: int| 0 <= k < 9 && #[trigger] f(k) == d;
        assert forall|k2: int| 0 <= k2 < 9 && k2 != k implies #[trigger] value_in(g, u, k2) != d by {
            assert(f(k2) != f(k));
        }
    }
}

/// The place of the digit `d` in a unit that holds it exactly once.
spec fn place_of(g: Grid, u: Unit, d: int) -> int {
    choose|k: int|
        0 <= k < 9 && #[trigger] value_in(g, u, k) == d && forall|k2: int|
            0 <= k2 < 9 && k2 != k ==> #[trigger] value_in(g, u, k2) != d
}

/// A unit that holds each digit exactly once holds nothing but digits.
proof fn lemma_unit_holds_digits(g: Grid, u: Unit, k: int)
    requires
        forall|d: int| is_digit(d) ==> #[trigger] holds_once(g, u, d),
        0 <= k < 9,
    ensures
        is_digit(value_in(g, u, k)),
{
    let f = |i: int| 1 + place_of(g, u, i + 1);
    assert forall|i: int| 0 <= i < 9 implies 1 <= #[trigger] f(i) <= 9 && value_in(
        g,
        u,
        f(i) - 1,
    ) == i + 1 by {
        assert(holds_once(g, u, i + 1));
    }
    assert forall|i: int, j: int| 0 <= i < j < 9 implies #[trigger] f(i) != #[trigger] f(j) by {
        assert(value_in(g, u, f(i) - 1) == i + 1);
        assert(value_in(g, u, f(j) - 1) == j + 1);
    }
    lemma_nine_digits(f, k + 1);
    let i: int = choose|i: int| 0 <= i < 9 && #[trigger] f(i) == k + 1;
    assert(value_in(g, u, f(i) - 1) == i + 1);
}

/// A unit that two peers share, and their places in it.
spec fn shared_unit(r1: int, c1: int, r2: int, c2: int) -> (Unit, int, int) {
    if r1 == r2 {
        (Unit::Row(r1), c1, c2)
    } else if c1 == c2 {
        (Unit::Column(c1), r1, r2)
    } else {
        (Unit::Block(3 * (r1 / 3) + c1 / 3), 3 * (r1 % 3) + c1 % 3, 3 * (r2 % 3) + c2 % 3)
    }
}

/// Two peers lie in one unit, at different places.
proof fn lemma_shared_unit(r1: int, c1: int, r2: int, c2: int)
    requires
        in_grid(r1, c1),
        in_grid(r2, c2),
        peers(r1, c1, r2, c2),
    ensures
        ({
            let (u, k1, k2) = shared_unit(r1, c1, r2, c2);
            &&& is_unit(u)
            &&& 0 <= k1 < 9
            &&& 0 <= k2 < 9
            &&& k1 != k2
            &&& unit_cell(u, k1) == (r1, c1)
            &&& unit_cell(u, k2) == (r2, c2)
        }),
{
    if r1 != r2 && c1 != c2 {
        let b: int = 3 * (r1 / 3) + c1 / 3;
        assert(b / 3 == r1 / 3 && b % 3 == c1 / 3);
        assert(r2 / 3 == r1 / 3 && c2 / 3 == c1 / 3);
        let k1: int = 3 * (r1 % 3) + c1 % 3;
        let k2: int = 3 * (r2 % 3) + c2 % 3;
        assert(k1 / 3 == r1 % 3 && k1 % 3 == c1 % 3);
        assert(k2 / 3 == r2 % 3 && k2 % 3 == c2 % 3);
    }
}

/// A grid in which every unit holds each digit exactly once is a finished
/// Sudoku. With `lemma_valid_units_complete` this makes the two ways of
/// saying what a finished Sudoku is the same.
pub proof fn lemma_units_complete_valid(g: Grid)
    requires
        is_grid(g),
        units_complete(g),
    ensures
        is_valid(g),
{
    assert forall|r: int, c: int| in_grid(r, c) implies is_digit(#[trigger] at(g, r, c)) by {
        assert forall|d: int| is_digit(d) implies #[trigger] holds_once(g, Unit::Row(r), d) by {
            assert(is_unit(Unit::Row(r)));
        }
        lemma_unit_holds_digits(g, Unit::Row(r), c);
        assert(value_in(g, Unit::Row(r), c) == at(g, r, c));
    }
    assert forall|r1: int, c1: int, r2: int, c2: int|
        in_grid(r1, c1) && in_grid(r2, c2) && peers(r1, c1, r2, c2) implies #[trigger] at(g, r1, c1)
        != #[trigger] at(g, r2, c2) by {
        let (u, k1, k2) = shared_unit(r1, c1, r2, c2);
        lemma_shared_unit(r1, c1, r2, c2);
        assert(holds_once(g, u, at(g, r1, c1)));
        assert(value_in(g, u, k1) == at(g, r1, c1));
        assert(value_in(g, u, k2) == at(g, r2, c2));
    }
}

} // verus!
