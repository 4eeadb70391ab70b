//! The solver behind a flat interface: a puzzle goes in as a list of 81
//! numbers, row after row, with 0 for an empty cell, and comes back the same
//! way.
use crate::grid::{
    at, board_view, given, grid_view, in_grid, is_least_solution, lemma_board_view,
    lemma_grid_view, lemma_same_cells, lemma_same_givens, solvable,
};
use crate::grid::{Board, Grid, Puzzle, SolvedBoard};
use crate::solver::{Solver, SolverErrors};
use vstd::prelude::*;

verus! {

/// Why the flat interface returned no solution.
#[derive(Debug, Clone, Copy, PartialEq, Eq)]
pub enum RollError {
    /// The list does not have 81 entries.
    InvalidBoardLength,
    /// The puzzle has no solution.
    UnsolvableBoard,
}

impl RollError {
    /// The code under which the error is reported to the outside.
    pub fn code(&self) -> (code: &'static str)
        ensures
            code@ == match *self {
                RollError::InvalidBoardLength => "INVALID_BOARD_LENGTH"@,
                RollError::UnsolvableBoard => "UNSOLVABLE_BOARD"@,
            },
    {
        match self {
            RollError::InvalidBoardLength => "INVALID_BOARD_LENGTH",
            RollError::UnsolvableBoard => "UNSOLVABLE_BOARD",
        }
    }
}

/// The puzzle that a list of 81 numbers stands for: entry `9 * r + c` is cell
/// `(r, c)`, and 0 means that the cell is empty.
pub open spec fn puzzle_of(cells: Seq<i32>) -> Puzzle {
    Seq::new(
        9,
        |r: int|
            Seq::new(
                9,
                |c: int|
                    if cells[9 * r + c] == 0 {
                        None
                    } else {
                        Some(cells[9 * r + c] as int)
                    },
            ),
    )
}

/// The grid that a list of 81 numbers stands for: entry `9 * r + c` is cell
/// `(r, c)`.
pub open spec fn grid_of(cells: Seq<i32>) -> Grid {
    Seq::new(9, |r: int| Seq::new(9, |c: int| cells[9 * r + c] as int))
}

/// What cell `(r, c)` of the puzzle holds once the first `n` entries of the
/// list are read.
spec fn read_before(cells: Seq<i32>, n: int, r: int, c: int) -> Option<int> {
    if 9 * r + c < n {
        given(puzzle_of(cells), r, c)
    } else {
        None
    }
}

/// Solves a puzzle given as a flat list. A list that does not have exactly
/// 81 entries is refused at once, whatever it holds. Otherwise the result is
/// the first solution of the puzzle, as a list of its 81 digits, or
/// `UnsolvableBoard` where the puzzle has none: an entry that is neither 0
/// nor a digit makes a puzzle without solution.
pub fn solve(board: Vec<i32>) -> (res: Result<Vec<i32>, RollError>)
    ensures
        board@.len() != 81 ==> res == Err::<Vec<i32>, RollError>(RollError::InvalidBoardLength),
        board@.len() == 81 ==> (res is Ok <==> solvable(puzzle_of(board@))),
        board@.len() == 81 ==> (res matches Ok(cells) ==> cells@.len() == 81 && is_least_solution(
            puzzle_of(board@),
            grid_of(cells@),
        )),
        board@.len() == 81 ==> (res matches Err(e) ==> e == RollError::UnsolvableBoard),
{
    if board.len() != 81 {
        return Err(RollError::InvalidBoardLength);
    }
    let mut solver_board: Board = [[None;9];9];
    proof {
        lemma_board_view(solver_board);
    }
    for pos in 0..81usize
        invariant
            board@.len() == 81,
            forall|r: int, c: int|
                in_grid(r, c) ==> #[trigger] given(board_view(solver_board), r, c) == read_before(
                    board@,
                    pos as int,
                    r,
                    c,
                ),
    {
        let ghost earlier: Board = solver_board;
        let item: i32 = board[pos];
        if item != 0 {
            solver_board[pos / 9][pos % 9] = Some(item);
        }
        proof {
            lemma_board_view(earlier);
            lemma_board_view(solver_board);
            assert forall|r: int, c: int| in_grid(r, c) implies #[trigger] given(
                board_view(solver_board),
                r,
                c,
            ) == read_before(board@, pos + 1, r, c) by {
                assert(given(board_view(earlier), r, c) == read_before(board@, pos as int, r, c));
            }
        }
    }
    proof {
        lemma_board_view(solver_board);
        lemma_same_givens(board_view(solver_board), puzzle_of(board@));
    }
    let solver = Solver { board: solver_board };
    let solver_result: SolvedBoard = match solver.solve() {
        Ok(val) => val,
        Err(e) => match e {
            SolverErrors::UnsolvableBoardError => {
                return Err(RollError::UnsolvableBoard);
            },
        },
    };
    let mut result: Vec<i32> = Vec::<i32>::new();
    for row in 0..9usize
        invariant
            result@.len() == 9 * row,
            forall|r: int, c: int|
                in_grid(r, c) && r < row ==> #[trigger] result@[9 * r + c] == solver_result[r][c],
    {
        for col in 0..9usize
            invariant
                row < 9,
                result@.len() == 9 * row + col,
                forall|r: int, c: int|
                    in_grid(r, c) && 9 * r + c < 9 * row + col ==> #[trigger] result@[9 * r + c]
                        == solver_result[r][c],
        {
            result.push(solver_result[row][col]);
        }
    }
    proof {
        lemma_grid_view(solver_result);
        assert forall|r: int, c: int| in_grid(r, c) implies at(grid_of(result@), r, c) == at(
            grid_view(solver_result),
            r,
            c,
        ) by {}
        lemma_same_cells(grid_of(result@), grid_view(solver_result));
    }
    Ok(result)
}

} // verus!
