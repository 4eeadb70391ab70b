//! The search engine: a depth-first search over the open cells of a
//! candidate grid, and the solver built on it.
use crate::candidates::{
    admits, choice, digits_of, is_filling, lemma_candidate_grid, moves_ordered, moves_view,
};
use crate::candidates::{Candidates, Moves, PossibleMoves, PossibleMovesBuilder, PossibleMovesCell};
use crate::grid::{
    agree_before, at, before, board_view, extends, given, grid_view, in_grid, is_digit, is_grid,
    is_least_solution, is_solution, is_valid, lemma_board_view, lemma_grid_view, lemma_same_cells,
    lemma_same_givens, peers, precedes, same_block, smaller_at, solvable,
};
use crate::grid::{Board, Grid, Puzzle, SolvedBoard};
use crate::units::{lemma_valid_units_complete, units_complete};
use crate::validate::is_board_solved;
use vstd::prelude::*;

verus! {

/// `val` can stand in cell `(r, c)` of the partly filled grid `w`: it is a
/// digit, and no peer of the cell holds it.
pub open spec fn fits(w: Puzzle, r: int, c: int, val: int) -> bool {
    &&& is_digit(val)
    &&& forall|r2: int, c2: int|
        in_grid(r2, c2) && peers(r2, c2, r, c) ==> #[trigger] given(w, r2, c2) != Some(val)
}

/// Tells whether `val` may be placed in cell `(row_index, col_index)` of the
/// working grid: whether it is a digit that none of the filled cells in the
/// same row, column or block holds. Empty cells never stand in the way.
fn is_move_valid(work: &Board, row_index: usize, col_index: usize, val: i32) -> (ok: bool)
    requires
        row_index < 9,
        col_index < 9,
    ensures
        ok <==> fits(board_view(*work), row_index as int, col_index as int, val as int),
{
    let ghost w: Puzzle = board_view(*work);
    let ghost r: int = row_index as int;
    let ghost c: int = col_index as int;
    proof {
        lemma_board_view(*work);
    }
    if val < 1 || val > 9 {
        return false;
    }
    for i in 0..9usize
        invariant
            row_index < 9,
            col_index < 9,
            r == row_index,
            c == col_index,
            w == board_view(*work),
            forall|r2: int, c2: int|
                in_grid(r2, c2) ==> #[trigger] given(w, r2, c2) == match work[r2][c2] {
                    Some(d) => Some(d as int),
                    None => None,
                },
            forall|c2: int| 0 <= c2 < i && c2 != c ==> #[trigger] given(w, r, c2) != Some(val as int),
            forall|r2: int| 0 <= r2 < i && r2 != r ==> #[trigger] given(w, r2, c) != Some(val as int),
    {
        if i != col_index {
            match work[row_index][i] {
                Some(d) => {
                    if d == val {
                        assert(given(w, r, i as int) == Some(val as int));
                        return false;
                    }
                },
                None => {},
            }
        }
        if i != row_index {
            match work[i][col_index] {
                Some(d) => {
                    if d == val {
                        assert(given(w, i as int, c) == Some(val as int));
                        return false;
                    }
                },
                None => {},
            }
        }
    }
    let top: usize = 3 * (row_index / 3);
    let left: usize = 3 * (col_index / 3);
    for i in 0..3usize
        invariant
            row_index < 9,
            col_index < 9,
            r == row_index,
            c == col_index,
            top == 3 * (r / 3),
            left == 3 * (c / 3),
            w == board_view(*work),
            forall|r2: int, c2: int|
                in_grid(r2, c2) ==> #[trigger] given(w, r2, c2) == match work[r2][c2] {
                    Some(d) => Some(d as int),
                    None => None,
                },
            forall|c2: int| 0 <= c2 < 9 && c2 != c ==> #[trigger] given(w, r, c2) != Some(val as int),
            forall|r2: int| 0 <= r2 < 9 && r2 != r ==> #[trigger] given(w, r2, c) != Some(val as int),
            forall|r2: int, c2: int|
                top <= r2 < top + i && left <= c2 < left + 3 && !(r2 == r && c2 == c)
                    ==> #[trigger] given(w, r2, c2) != Some(val as int),
    {
        for j in 0..3usize
            invariant
                i < 3,
                row_index < 9,
                col_index < 9,
                r == row_index,
                c == col_index,
                top == 3 * (r / 3),
                left == 3 * (c / 3),
                w == board_view(*work),
                forall|r2: int, c2: int|
                    in_grid(r2, c2) ==> #[trigger] given(w, r2, c2) == match work[r2][c2] {
                        Some(d) => Some(d as int),
                        None => None,
                    },
                forall|c2: int|
                    0 <= c2 < 9 && c2 != c ==> #[trigger] given(w, r, c2) != Some(val as int),
                forall|r2: int|
                    0 <= r2 < 9 && r2 != r ==> #[trigger] given(w, r2, c) != Some(val as int),
                forall|r2: int, c2: int|
                    top <= r2 < top + i && left <= c2 < left + 3 && !(r2 == r && c2 == c)
                        ==> #[trigger] given(w, r2, c2) != Some(val as int),
                forall|c2: int|
                    left <= c2 < left + j && !(top + i == r && c2 == c) ==> #[trigger] given(
                        w,
                        top + i,
                        c2,
                    ) != Some(val as int),
        {
            if top + i != row_index || left + j != col_index {
                match work[top + i][left + j] {
                    Some(d) => {
                        if d == val {
                            assert(given(w, top + i, left + j) == Some(val as int));
                            return false;
                        }
                    },
                    None => {},
                }
            }
        }
    }
    proof {
        assert forall|r2: int, c2: int| in_grid(r2, c2) && peers(r2, c2, r, c) implies #[trigger] given(
            w,
            r2,
            c2,
        ) != Some(val as int) by {
            assert(r2 == r || c2 == c || (top <= r2 < top + 3 && left <= c2 < left + 3));
        }
    }
    true
}

/// The state of the working grid while the search stands at cell `(r, c)`:
/// the settled cells and the open cells scanned before `(r, c)` are filled,
/// each with a digit that its candidates allow, and the other cells are
/// empty.
pub open spec fn in_progress(m: Moves, w: Puzzle, r: int, c: int) -> bool {
    forall|r2: int, c2: int|
        in_grid(r2, c2) ==> match #[trigger] given(w, r2, c2) {
            Some(d) => {
                &&& is_digit(d)
                &&& admits(choice(m, r2, c2), d)
                &&& (choice(m, r2, c2) is Settled || before(r2, c2, r, c))
            },
            None => choice(m, r2, c2) is Open && !before(r2, c2, r, c),
        }
}

/// In the list `s`, the value `a` stands before every `b`.
pub open spec fn stands_earlier(s: Seq<int>, a: int, b: int) -> bool {
    exists|i: int|
        0 <= i < s.len() && #[trigger] s[i] == a && forall|j: int|
            0 <= j <= i ==> #[trigger] s[j] != b
}

/// `(r, c)` is the first cell in scanning order where `g` and `h` differ; it
/// is an open cell, and what `g` holds there has its turn before what `h`
/// holds there.
pub open spec fn tried_first_at(m: Moves, g: Grid, h: Grid, r: int, c: int) -> bool {
    &&& in_grid(r, c)
    &&& agree_before(g, h, r, c)
    &&& choice(m, r, c) matches Candidates::Open(s) && stands_earlier(s, at(g, r, c), at(h, r, c))
}

/// A search that scans the cells row by row and tries the candidates of each
/// open cell in the order of their list comes to `g` before it comes to `h`.
pub open spec fn tried_first(m: Moves, g: Grid, h: Grid) -> bool {
    exists|r: int, c: int| tried_first_at(m, g, h, r, c)
}

/// Among the fillings of `m` that keep what the working grid `w` holds, `g`
/// is the one that the search comes to first.
pub open spec fn is_first_extension(m: Moves, w: Puzzle, g: Grid) -> bool {
    &&& is_filling(m, g)
    &&& extends(w, g)
    &&& forall|h: Grid|
        #[trigger] is_filling(m, h) && extends(w, h) ==> h == g || tried_first(m, g, h)
}

/// Among all fillings of `m`, `g` is the one that the search comes to first.
pub open spec fn is_first_filling(m: Moves, g: Grid) -> bool {
    &&& is_filling(m, g)
    &&& forall|h: Grid| #[trigger] is_filling(m, h) ==> h == g || tried_first(m, g, h)
}

/// Among all fillings of `m`, `g` is the first in lexicographic order.
pub open spec fn is_least_filling(m: Moves, g: Grid) -> bool {
    &&& is_filling(m, g)
    &&& forall|h: Grid| #[trigger] is_filling(m, h) ==> h == g || precedes(g, h)
}

/// Where the candidates of every open cell are listed in ascending order,
/// the filling that the search comes to first is the first in lexicographic
/// order.
pub proof fn lemma_first_filling_is_least(m: Moves, g: Grid)
    requires
        moves_ordered(m),
        is_first_filling(m, g),
    ensures
        is_least_filling(m, g),
{
    assert forall|h: Grid| #[trigger] is_filling(m, h) implies h == g || precedes(g, h) by {
        if h != g {
            let (r, c): (int, int) = choose|r: int, c: int| tried_first_at(m, g, h, r, c);
            let s: Seq<int> = choice(m, r, c)->Open_0;
            let i: int = choose|i: int|
                0 <= i < s.len() && #[trigger] s[i] == at(g, r, c) && forall|j: int|
                    0 <= j <= i ==> #[trigger] s[j] != at(h, r, c);
            let j: int = choose|j: int| 0 <= j < s.len() && s[j] == at(h, r, c);
            assert(s[i] < s[j]);
            assert(smaller_at(g, h, r, c));
        }
    }
}

/// Some finished Sudoku fills `m`.
pub open spec fn fillable(m: Moves) -> bool {
    exists|h: Grid| is_filling(m, h)
}

/// How a branch of the search failed.
enum InProgressErrors {
    /// Nothing is to be found below this branch: the caller goes on with its
    /// next candidate.
    Proceed,
    /// No filling exists at all: the search stops.
    UnsolvableBoardError,
}

/// Why the solver returned no grid.
#[derive(Debug, PartialEq, Eq)]
pub enum SolverErrors {
    /// The puzzle has no solution.
    UnsolvableBoardError,
}

impl SolverErrors {
    /// The error in words.
    pub fn to_string(&self) -> (text: String)
        ensures
            text@ == match *self {
                SolverErrors::UnsolvableBoardError => "The board has no solution."@,
            },
    {
        match self {
            SolverErrors::UnsolvableBoardError => "The board has no solution.".to_owned(),
        }
    }
}

/// A puzzle to solve.
pub struct Solver {
    pub board: Board,
}

impl View for Solver {
    type V = Puzzle;

    open spec fn view(&self) -> Puzzle {
        board_view(self.board)
    }
}

/// Copies a working grid without empty cells into a filled board.
fn filled_board(work: &Board) -> (solved: SolvedBoard)
    requires
        forall|r: int, c: int| in_grid(r, c) ==> (#[trigger] given(board_view(*work), r, c)) is Some,
    ensures
        forall|r: int, c: int|
            in_grid(r, c) ==> #[trigger] given(board_view(*work), r, c) == Some(
                at(grid_view(solved), r, c),
            ),
{
    let mut solved: SolvedBoard = [[0;9];9];
    proof {
        lemma_board_view(*work);
    }
    for row_index in 0..9usize
        invariant
            forall|r: int, c: int|
                in_grid(r, c) ==> (#[trigger] given(board_view(*work), r, c)) is Some,
            forall|r: int, c: int|
                in_grid(r, c) ==> #[trigger] given(board_view(*work), r, c) == match work[r][c] {
                    Some(d) => Some(d as int),
                    None => None,
                },
            forall|r: int, c: int|
                in_grid(r, c) && r < row_index ==> work[r][c] == Some(#[trigger] solved[r][c]),
    {
        for col_index in 0..9usize
            invariant
                row_index < 9,
                forall|r: int, c: int|
                    in_grid(r, c) ==> (#[trigger] given(board_view(*work), r, c)) is Some,
                forall|r: int, c: int|
                    in_grid(r, c) ==> #[trigger] given(board_view(*work), r, c) == match work[r][c] {
                        Some(d) => Some(d as int),
                        None => None,
                    },
                forall|r: int, c: int|
                    in_grid(r, c) && before(r, c, row_index as int, col_index as int) ==> work[r][c]
                        == Some(#[trigger] solved[r][c]),
        {
            assert(given(board_view(*work), row_index as int, col_index as int) is Some);
            solved[row_index][col_index] = work[row_index][col_index].unwrap();
        }
    }
    proof {
        lemma_grid_view(solved);
    }
    solved
}

/// Starts a working grid: every settled cell gets its value, every open cell
/// stays empty. Returns `None` where a settled value is no digit or stands
/// twice in a row, a column or a block: then no filling exists.
fn place_settled(possible_moves: &PossibleMoves) -> (res: Option<Board>)
    ensures
        match res {
            Some(work) => in_progress(moves_view(*possible_moves), board_view(work), 0, 0),
            None => forall|h: Grid| !#[trigger] is_filling(moves_view(*possible_moves), h),
        },
{
    let ghost m: Moves = moves_view(*possible_moves);
    let mut work: Board = [[None;9];9];
    proof {
        lemma_board_view(work);
    }
    for row_index in 0..9usize
        invariant
            m == moves_view(*possible_moves),
            settled_before(m, board_view(work), row_index as int, 0),
    {
        for col_index in 0..9usize
            invariant
                row_index < 9,
                m == moves_view(*possible_moves),
                settled_before(m, board_view(work), row_index as int, col_index as int),
        {
            let ghost w: Puzzle = board_view(work);
            let ghost r: int = row_index as int;
            let ghost c: int = col_index as int;
            proof {
                lemma_board_view(work);
            }
            match &possible_moves[row_index][col_index] {
                PossibleMovesCell::Solved(val) => {
                    if !is_move_valid(&work, row_index, col_index, *val) {
                        proof {
                            assert forall|h: Grid| !#[trigger] is_filling(m, h) by {
                                if is_filling(m, h) {
                                    assert(at(h, r, c) == *val);
                                    if is_digit(*val as int) {
                                        let (r2, c2): (int, int) = choose|r2: int, c2: int|
                                            in_grid(r2, c2) && peers(r2, c2, r, c) && #[trigger] given(
                                                w,
                                                r2,
                                                c2,
                                            ) == Some(*val as int);
                                        assert(at(h, r2, c2) == *val);
                                    }
                                }
                            }
                        }
                        return None;
                    }
                    work[row_index][col_index] = Some(*val);
                    proof {
                        lemma_board_view(work);
                        assert(placed(w, board_view(work), r, c, *val as int));
                    }
                },
                PossibleMovesCell::Unknown(_) => {},
            }
        }
    }
    Some(work)
}

/// While the working grid is set up, at cell `(r, c)`: the settled cells
/// scanned so far hold their digits, and every other cell is empty.
spec fn settled_before(m: Moves, w: Puzzle, r: int, c: int) -> bool {
    forall|r2: int, c2: int|
        in_grid(r2, c2) ==> match #[trigger] given(w, r2, c2) {
            Some(d) => {
                &&& is_digit(d)
                &&& choice(m, r2, c2) == Candidates::Settled(d)
                &&& before(r2, c2, r, c)
            },
            None => choice(m, r2, c2) is Open || !before(r2, c2, r, c),
        }
}

/// The depth-first search. It stands at cell `(row_index, col_index)` of a
/// scan that reads the grid row by row; the working grid holds the settled
/// cells and what was placed in the open cells passed so far.
///
/// A settled cell is passed over, since its value is in place. In an open
/// cell the candidates are tried in the order of their list: one that fits is
/// placed and the search goes on behind it; when that finds nothing the cell
/// is emptied again and the next candidate has its turn. Behind the last cell
/// the filled grid is tested once more as a whole before it is returned.
///
/// `Ok` carries the first filling that keeps the working grid. `Proceed` says
/// that there is none and hands the working grid back as it came.
/// `UnsolvableBoardError` says that an open cell has no candidate, so that
/// nothing fills the candidate grid at all.
fn search(
    possible_moves: &PossibleMoves,
    work: &mut Board,
    row_index: usize,
    col_index: usize,
) -> (res: Result<SolvedBoard, InProgressErrors>)
    requires
        row_index <= 9,
        col_index <= 9,
        in_progress(
            moves_view(*possible_moves),
            board_view(*old(work)),
            row_index as int,
            col_index as int,
        ),
    ensures
        match res {
            Ok(solved) => is_first_extension(
                moves_view(*possible_moves),
                board_view(*old(work)),
                grid_view(solved),
            ),
            Err(InProgressErrors::Proceed) => {
                &&& board_view(*final(work)) == board_view(*old(work))
                &&& forall|h: Grid|
                    !(#[trigger] is_filling(moves_view(*possible_moves), h) && extends(
                        board_view(*old(work)),
                        h,
                    ))
            },
            Err(InProgressErrors::UnsolvableBoardError) => forall|h: Grid|
                !#[trigger] is_filling(moves_view(*possible_moves), h),
        },
    decreases 9 - row_index, 9 - col_index,
{
    let ghost m: Moves = moves_view(*possible_moves);
    let ghost w0: Puzzle = board_view(*work);
    let ghost r: int = row_index as int;
    let ghost c: int = col_index as int;
    if row_index >= 9 {
        let solved: SolvedBoard = filled_board(work);
        let ghost g: Grid = grid_view(solved);
        proof {
            lemma_grid_view(solved);
            assert forall|h: Grid| is_grid(h) && extends(w0, h) implies h == g by {
                assert forall|r2: int, c2: int| in_grid(r2, c2) implies at(h, r2, c2) == at(
                    g,
                    r2,
                    c2,
                ) by {
                    assert(given(w0, r2, c2) == Some(at(g, r2, c2)));
                }
                lemma_same_cells(h, g);
            }
        }
        match is_board_solved(&solved) {
            Ok(_) => {
                proof {
                    assert forall|r2: int, c2: int| in_grid(r2, c2) implies is_digit(
                        #[trigger] at(g, r2, c2),
                    ) && admits(choice(m, r2, c2), at(g, r2, c2)) by {
                        assert(given(w0, r2, c2) == Some(at(g, r2, c2)));
                    }
                }
                return Ok(solved);
            },
            Err(_) => {
                return Err(InProgressErrors::Proceed);
            },
        }
    }
    if col_index >= 9 {
        return search(possible_moves, work, row_index + 1, 0);
    }
    let cell_moves: &Vec<i32> = match &possible_moves[row_index][col_index] {
        PossibleMovesCell::Unknown(cell_moves) => cell_moves,
        PossibleMovesCell::Solved(_) => {
            return search(possible_moves, work, row_index, col_index + 1);
        },
    };
    let ghost s: Seq<int> = digits_of(cell_moves@);
    if cell_moves.len() == 0 {
        proof {
            assert forall|h: Grid| !#[trigger] is_filling(m, h) by {
                if is_filling(m, h) {
                    assert(admits(choice(m, r, c), at(h, r, c)));
                }
            }
        }
        return Err(InProgressErrors::UnsolvableBoardError);
    }
    let mut i: usize = 0;
    while i < cell_moves.len()
        invariant
            i <= cell_moves.len(),
            row_index < 9,
            col_index < 9,
            r == row_index,
            c == col_index,
            m == moves_view(*possible_moves),
            s == digits_of(cell_moves@),
            choice(m, r, c) == Candidates::Open(s),
            board_view(*work) == w0,
            w0 == board_view(*old(work)),
            in_progress(m, w0, r, c),
            forall|h: Grid, j: int|
                0 <= j < i && #[trigger] is_filling(m, h) && extends(w0, h) ==> at(h, r, c)
                    != #[trigger] s[j],
        decreases cell_moves.len() - i,
    {
        let cell_move: i32 = cell_moves[i];
        assert(s[i as int] == cell_move);
        if is_move_valid(work, row_index, col_index, cell_move) {
            work[row_index][col_index] = Some(cell_move);
            let ghost w1: Puzzle = board_view(*work);
            proof {
                lemma_step(m, w0, w1, r, c, cell_move as int);
            }
            match search(possible_moves, work, row_index, col_index + 1) {
                Ok(solved) => {
                    proof {
                        lemma_first_success(m, w0, w1, r, c, s, i as int, grid_view(solved));
                    }
                    return Ok(solved);
                },
                Err(InProgressErrors::UnsolvableBoardError) => {
                    return Err(InProgressErrors::UnsolvableBoardError);
                },
                Err(InProgressErrors::Proceed) => {},
            }
            let ghost back: Board = *work;
            work[row_index][col_index] = None;
            proof {
                lemma_board_view(back);
                lemma_board_view(*work);
                assert forall|r2: int, c2: int| in_grid(r2, c2) implies given(
                    board_view(*work),
                    r2,
                    c2,
                ) == given(w0, r2, c2) by {
                    assert(given(w1, r2, c2) == placed_cell(w0, r, c, cell_move as int, r2, c2));
                }
                lemma_same_givens(board_view(*work), w0);
                assert forall|h: Grid|
                    #[trigger] is_filling(m, h) && extends(w0, h) implies at(h, r, c) != s[i as int] by {
                    if at(h, r, c) == s[i as int] {
                        lemma_keeps_step(w0, w1, r, c, cell_move as int, h);
                    }
                }
            }
        } else {
            proof {
                assert forall|h: Grid|
                    #[trigger] is_filling(m, h) && extends(w0, h) implies at(h, r, c) != s[i as int] by {
                    if at(h, r, c) == s[i as int] {
                        let (r2, c2): (int, int) = choose|r2: int, c2: int|
                            in_grid(r2, c2) && peers(r2, c2, r, c) && #[trigger] given(w0, r2, c2)
                                == Some(cell_move as int);
                        assert(at(h, r2, c2) == at(h, r, c));
                    }
                }
            }
        }
        i += 1;
    }
    proof {
        assert forall|h: Grid| !(#[trigger] is_filling(m, h) && extends(w0, h)) by {
            if is_filling(m, h) && extends(w0, h) {
                let j: int = choose|j: int| 0 <= j < s.len() && s[j] == at(h, r, c);
                assert(at(h, r, c) != s[j]);
            }
        }
    }
    Err(InProgressErrors::Proceed)
}

/// What cell `(r2, c2)` holds once `val` is placed in cell `(r, c)` of `w`.
spec fn placed_cell(w: Puzzle, r: int, c: int, val: int, r2: int, c2: int) -> Option<int> {
    if r2 == r && c2 == c {
        Some(val)
    } else {
        given(w, r2, c2)
    }
}

/// `w1` is `w0` with `val` placed in cell `(r, c)`.
spec fn placed(w0: Puzzle, w1: Puzzle, r: int, c: int, val: int) -> bool {
    forall|r2: int, c2: int|
        in_grid(r2, c2) ==> #[trigger] given(w1, r2, c2) == placed_cell(w0, r, c, val, r2, c2)
}

/// Placing `val` in the empty cell `(r, c)` moves the search one cell on.
proof fn lemma_step(m: Moves, w0: Puzzle, w1: Puzzle, r: int, c: int, val: int)
    requires
        in_grid(r, c),
        in_progress(m, w0, r, c),
        is_digit(val),
        admits(choice(m, r, c), val),
        choice(m, r, c) is Open,
        placed(w0, w1, r, c, val),
    ensures
        in_progress(m, w1, r, c + 1),
{
}

/// A grid that keeps `w0` and holds `val` in cell `(r, c)` keeps `w1`, which
/// is `w0` with `val` placed there.
proof fn lemma_keeps_step(w0: Puzzle, w1: Puzzle, r: int, c: int, val: int, h: Grid)
    requires
        in_grid(r, c),
        extends(w0, h),
        at(h, r, c) == val,
        placed(w0, w1, r, c, val),
    ensures
        extends(w1, h),
{
}

/// What the search finds behind the first candidate that leads anywhere is
/// the first filling of all: every candidate before it led nowhere, and
/// every later one is larger.
proof fn lemma_first_success(
    m: Moves,
    w0: Puzzle,
    w1: Puzzle,
    r: int,
    c: int,
    s: Seq<int>,
    i: int,
    g: Grid,
)
    requires
        in_grid(r, c),
        0 <= i < s.len(),
        choice(m, r, c) == Candidates::Open(s),
        in_progress(m, w0, r, c),
        placed(w0, w1, r, c, s[i]),
        is_first_extension(m, w1, g),
        forall|h: Grid, j: int|
            0 <= j < i && #[trigger] is_filling(m, h) && extends(w0, h) ==> at(h, r, c)
                != #[trigger] s[j],
    ensures
        is_first_extension(m, w0, g),
{
    assert(given(w1, r, c) == Some(s[i]));
    assert forall|r2: int, c2: int| in_grid(r2, c2) implies (#[trigger] given(w0, r2, c2) matches Some(
        d,
    ) ==> at(g, r2, c2) == d) by {
        assert(given(w1, r2, c2) == placed_cell(w0, r, c, s[i], r2, c2));
    }
    assert forall|h: Grid|
        #[trigger] is_filling(m, h) && extends(w0, h) implies h == g || tried_first(m, g, h) by {
        if at(h, r, c) == s[i] {
            lemma_keeps_step(w0, w1, r, c, s[i], h);
            if h != g {
                let (r2, c2): (int, int) = choose|r2: int, c2: int| tried_first_at(m, g, h, r2, c2);
                assert(tried_first_at(m, g, h, r2, c2));
            }
        } else {
            assert forall|r2: int, c2: int| in_grid(r2, c2) && before(r2, c2, r, c) implies at(
                g,
                r2,
                c2,
            ) == at(h, r2, c2) by {
                assert(given(w0, r2, c2) is Some);
            }
            assert forall|j: int| 0 <= j <= i implies #[trigger] s[j] != at(h, r, c) by {}
            assert(tried_first_at(m, g, h, r, c));
        }
    }
}

impl Solver {
    /// Searches the candidate grid for a finished Sudoku that fills it: one
    /// that holds, in every settled cell, the value of that cell and, in every
    /// open cell, one of its candidates. Where there is none the result is
    /// `None`. Otherwise it is the filling that a scan of the cells row by row
    /// comes to first when it tries the candidates of each open cell in the
    /// order of their list; with ascending lists, as the builder makes them,
    /// that is the first filling in lexicographic order.
    ///
    /// The search reads the candidate grid only; the puzzle of the solver
    /// plays no part in it.
    pub fn _solve(&self, possible_moves: &PossibleMoves) -> (res: Option<SolvedBoard>)
        ensures
            res is Some <==> fillable(moves_view(*possible_moves)),
            res matches Some(solved) ==> is_first_filling(
                moves_view(*possible_moves),
                grid_view(solved),
            ),
    {
        let ghost m: Moves = moves_view(*possible_moves);
        let mut work: Board = match place_settled(possible_moves) {
            Some(work) => work,
            None => {
                return None;
            },
        };
        let ghost w: Puzzle = board_view(work);
        proof {
            assert forall|h: Grid| #[trigger] is_filling(m, h) implies extends(w, h) by {
                assert forall|r: int, c: int| in_grid(r, c) implies (#[trigger] given(
                    w,
                    r,
                    c,
                ) matches Some(d) ==> at(h, r, c) == d) by {
                    assert(admits(choice(m, r, c), at(h, r, c)));
                }
            }
        }
        match search(possible_moves, &mut work, 0, 0) {
            Ok(val) => Some(val),
            Err(_) => None,
        }
    }

    /// Solves the puzzle. Where it has a solution the result is `Ok` with
    /// one: a grid of digits that keeps every given digit and holds each digit
    /// exactly once in every row, column and block. Among all solutions it is
    /// the first in lexicographic order, so for a puzzle with a single
    /// solution it is that solution. Where the puzzle has no solution (as when
    /// a given is no digit or stands twice in a row, column or block) the
    /// result is `Err`.
    pub fn solve(&self) -> (res: Result<SolvedBoard, SolverErrors>)
        ensures
            res is Ok <==> solvable(self@),
            res matches Ok(solved) ==> {
                &&& is_valid(grid_view(solved))
                &&& units_complete(grid_view(solved))
                &&& extends(self@, grid_view(solved))
                &&& is_least_solution(self@, grid_view(solved))
            },
            res matches Err(e) ==> e == SolverErrors::UnsolvableBoardError,
    {
        let possible_moves: PossibleMoves = PossibleMovesBuilder::from_board(&self.board).build();
        proof {
            lemma_candidate_grid(self@, moves_view(possible_moves));
        }
        match self._solve(&possible_moves) {
            Some(result) => {
                proof {
                    lemma_first_filling_is_least(moves_view(possible_moves), grid_view(result));
                    lemma_valid_units_complete(grid_view(result));
                }
                Ok(result)
            },
            None => Err(SolverErrors::UnsolvableBoardError),
        }
    }
}

} // verus!
