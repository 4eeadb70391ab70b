//! The puzzle and its mathematical model.
//!
//! Executable code passes puzzles around as fixed 9x9 arrays. Contracts speak
//! of their models instead: a `Puzzle` is nine rows of nine optional digits, a
//! `Grid` nine rows of nine numbers. Everything that makes a grid a solution
//! of a puzzle is defined here, over those models.
use vstd::prelude::*;

verus! {

/// A puzzle as the caller states it: nine rows of nine cells, each holding a
/// given digit or nothing.
pub type Board = [[Option<i32>; 9]; 9];

/// A puzzle with every cell filled in.
pub type SolvedBoard = [[i32; 9]; 9];

/// Model of a `Board`.
pub type Puzzle = Seq<Seq<Option<int>>>;

/// Model of a `SolvedBoard`.
pub type Grid = Seq<Seq<int>>;

/// The model of a board: the same cells, as mathematical integers.
pub open spec fn board_view(board: Board) -> Puzzle {
    Seq::new(
        9,
        |r: int|
            Seq::new(
                9,
                |c: int|
                    match board[r][c] {
                        Some(d) => Some(d as int),
                        None => None,
                    },
            ),
    )
}

/// The model of a filled board.
pub open spec fn grid_view(board: SolvedBoard) -> Grid {
    Seq::new(9, |r: int| Seq::new(9, |c: int| board[r][c] as int))
}

/// `(r, c)` names a cell.
pub open spec fn in_grid(r: int, c: int) -> bool {
    0 <= r < 9 && 0 <= c < 9
}

/// The digits a cell may hold.
pub open spec fn is_digit(v: int) -> bool {
    1 <= v <= 9
}

/// The value of cell `(r, c)` of a grid.
pub open spec fn at(g: Grid, r: int, c: int) -> int {
    g[r][c]
}

/// What the puzzle gives for cell `(r, c)`.
pub open spec fn given(p: Puzzle, r: int, c: int) -> Option<int> {
    p[r][c]
}

/// `g` has nine rows of nine cells.
pub open spec fn is_grid(g: Grid) -> bool {
    &&& g.len() == 9
    &&& forall|r: int| 0 <= r < 9 ==> (#[trigger] g[r]).len() == 9
}

/// `p` has nine rows of nine cells.
pub open spec fn is_puzzle(p: Puzzle) -> bool {
    &&& p.len() == 9
    &&& forall|r: int| 0 <= r < 9 ==> (#[trigger] p[r]).len() == 9
}

/// The two cells lie in the same 3x3 block.
pub open spec fn same_block(r1: int, c1: int, r2: int, c2: int) -> bool {
    r1 / 3 == r2 / 3 && c1 / 3 == c2 / 3
}

/// Two different cells that share a row, a column or a block, and so may
/// not hold the same digit.
pub open spec fn peers(r1: int, c1: int, r2: int, c2: int) -> bool {
    &&& !(r1 == r2 && c1 == c2)
    &&& (r1 == r2 || c1 == c2 || same_block(r1, c1, r2, c2))
}

/// Every cell of `g` holds a digit.
pub open spec fn all_digits(g: Grid) -> bool {
    forall|r: int, c: int| in_grid(r, c) ==> is_digit(#[trigger] at(g, r, c))
}

/// No two peers of `g` hold the same value.
pub open spec fn peers_differ(g: Grid) -> bool {
    forall|r1: int, c1: int, r2: int, c2: int|
        in_grid(r1, c1) && in_grid(r2, c2) && peers(r1, c1, r2, c2) ==> #[trigger] at(g, r1, c1)
            != #[trigger] at(g, r2, c2)
}

/// `g` is a finished Sudoku: digits everywhere, none repeated within a row,
/// a column or a block.
pub open spec fn is_valid(g: Grid) -> bool {
    &&& is_grid(g)
    &&& all_digits(g)
    &&& peers_differ(g)
}

/// `g` keeps every digit that the puzzle gives.
pub open spec fn extends(p: Puzzle, g: Grid) -> bool {
    forall|r: int, c: int|
        in_grid(r, c) ==> (#[trigger] given(p, r, c) matches Some(d) ==> at(g, r, c) == d)
}

/// `g` solves `p`.
pub open spec fn is_solution(p: Puzzle, g: Grid) -> bool {
    is_valid(g) && extends(p, g)
}

/// Some grid solves `p`.
pub open spec fn solvable(p: Puzzle) -> bool {
    exists|g: Grid| is_solution(p, g)
}

/// Cell `(r1, c1)` is scanned before `(r2, c2)` when the grid is read row by
/// row, each row from left to right.
pub open spec fn before(r1: int, c1: int, r2: int, c2: int) -> bool {
    r1 < r2 || (r1 == r2 && c1 < c2)
}

/// `g` and `h` hold the same values in all cells scanned before `(r, c)`.
pub open spec fn agree_before(g: Grid, h: Grid, r: int, c: int) -> bool {
    forall|r2: int, c2: int|
        #![trigger at(g, r2, c2)]
        #![trigger at(h, r2, c2)]
        in_grid(r2, c2) && before(r2, c2, r, c) ==> at(g, r2, c2) == at(h, r2, c2)
}

/// `(r, c)` is the first cell in scanning order where `g` and `h` differ, and
/// `g` holds the smaller value there.
pub open spec fn smaller_at(g: Grid, h: Grid, r: int, c: int) -> bool {
    &&& in_grid(r, c)
    &&& at(g, r, c) < at(h, r, c)
    &&& agree_before(g, h, r, c)
}

/// `g` comes strictly before `h` in the lexicographic order of grids read
/// row by row.
pub open spec fn precedes(g: Grid, h: Grid) -> bool {
    exists|r: int, c: int| smaller_at(g, h, r, c)
}

/// `g` is the solution of `p` that comes first: every other solution follows
/// it in lexicographic order. A puzzle has at most one such grid, and where
/// the puzzle has exactly one solution this is it.
pub open spec fn is_least_solution(p: Puzzle, g: Grid) -> bool {
    &&& is_solution(p, g)
    &&& forall|h: Grid| #[trigger] is_solution(p, h) ==> h == g || precedes(g, h)
}

/// Two grids with the same cells are the same grid.
pub proof fn lemma_same_cells(g: Grid, h: Grid)
    requires
        is_grid(g),
        is_grid(h),
        forall|r: int, c: int| in_grid(r, c) ==> at(g, r, c) == at(h, r, c),
    ensures
        g == h,
{
    assert forall|r: int| 0 <= r < 9 implies g[r] =~= h[r] by {
        assert forall|c: int| 0 <= c < 9 implies g[r][c] == h[r][c] by {
            assert(in_grid(r, c));
        }
    }
}

/// Two puzzles with the same cells are the same puzzle.
pub proof fn lemma_same_givens(p: Puzzle, q: Puzzle)
    requires
        is_puzzle(p),
        is_puzzle(q),
        forall|r: int, c: int| in_grid(r, c) ==> given(p, r, c) == given(q, r, c),
    ensures
        p == q,
{
    assert forall|r: int| 0 <= r < 9 implies p[r] =~= q[r] by {
        assert forall|c: int| 0 <= c < 9 implies p[r][c] == q[r][c] by {
            assert(in_grid(r, c));
        }
    }
}

/// The cells of a board's model are the cells of the board.
pub proof fn lemma_grid_view(board: SolvedBoard)
    ensures
        is_grid(grid_view(board)),
        forall|r: int, c: int|
            in_grid(r, c) ==> #[trigger] at(grid_view(board), r, c) == board[r][c] as int,
{
}

/// The cells of a puzzle's model are the cells of the puzzle.
pub proof fn lemma_board_view(board: Board)
    ensures
        is_puzzle(board_view(board)),
        forall|r: int, c: int|
            in_grid(r, c) ==> #[trigger] given(board_view(board), r, c) == match board[r][c] {
                Some(d) => Some(d as int),
                None => None,
            },
{
}

} // verus!
