//! The candidate builder: for every cell of a puzzle, the digits that the
//! givens in its row, its column and its block leave open.
use crate::grid::{
    at, before, board_view, given, in_grid, is_digit, is_solution, is_valid, lemma_board_view,
    peers, same_block,
};
use crate::grid::{Board, Grid, Puzzle};
use std::collections::HashSet;
use vstd::prelude::*;

verus! {

broadcast use vstd::std_specs::hash::group_hash_axioms;

/// What is known of one cell before the search starts.
#[derive(Debug, PartialEq, Eq)]
pub enum PossibleMovesCell {
    /// The cell's value is fixed: it was given, or only one digit was left
    /// for it.
    Solved(i32),
    /// The cell is open: these digits, in ascending order, are left for it.
    Unknown(Vec<i32>),
}

/// The candidates of all 81 cells.
pub type PossibleMoves = [[PossibleMovesCell; 9]; 9];

/// Model of a `PossibleMovesCell`.
pub enum Candidates {
    Settled(int),
    Open(Seq<int>),
}

/// Model of a `PossibleMoves`.
pub type Moves = Seq<Seq<Candidates>>;

/// A list of machine integers as a list of numbers.
pub open spec fn digits_of(s: Seq<i32>) -> Seq<int> {
    s.map_values(|d: i32| d as int)
}

impl View for PossibleMovesCell {
    type V = Candidates;

    open spec fn view(&self) -> Candidates {
        match *self {
            PossibleMovesCell::Solved(d) => Candidates::Settled(d as int),
            PossibleMovesCell::Unknown(v) => Candidates::Open(digits_of(v@)),
        }
    }
}

/// The model of a candidate grid.
pub open spec fn moves_view(moves: PossibleMoves) -> Moves {
    Seq::new(9, |r: int| Seq::new(9, |c: int| moves[r][c]@))
}

/// The candidates of cell `(r, c)`.
pub open spec fn choice(m: Moves, r: int, c: int) -> Candidates {
    m[r][c]
}

/// `m` has nine rows of nine cells.
pub open spec fn is_moves(m: Moves) -> bool {
    &&& m.len() == 9
    &&& forall|r: int| 0 <= r < 9 ==> (#[trigger] m[r]).len() == 9
}

/// Each value of `s` is smaller than the next.
pub open spec fn ascending(s: Seq<int>) -> bool {
    forall|i: int, j: int| 0 <= i < j < s.len() ==> s[i] < s[j]
}

/// The candidates of every open cell are listed in ascending order. The
/// search tries them in the order of the list, so this is what makes it find
/// the smallest solution first.
pub open spec fn moves_ordered(m: Moves) -> bool {
    &&& is_moves(m)
    &&& forall|r: int, c: int|
        in_grid(r, c) ==> (#[trigger] choice(m, r, c) matches Candidates::Open(s) ==> ascending(s))
}

/// The candidates of a cell allow the value `v` there.
pub open spec fn admits(ch: Candidates, v: int) -> bool {
    match ch {
        Candidates::Settled(d) => v == d,
        Candidates::Open(s) => s.contains(v),
    }
}

/// Every cell of `g` holds a value that its candidates allow.
pub open spec fn fills(m: Moves, g: Grid) -> bool {
    forall|r: int, c: int| in_grid(r, c) ==> admits(choice(m, r, c), #[trigger] at(g, r, c))
}

/// `g` is a finished Sudoku in which every cell holds a value that its
/// candidates allow.
pub open spec fn is_filling(m: Moves, g: Grid) -> bool {
    is_valid(g) && fills(m, g)
}

/// The number of the block that holds cell `(r, c)`: blocks are counted row
/// by row, from 0.
pub open spec fn block_of(r: int, c: int) -> int {
    3 * (r / 3) + c / 3
}

/// The puzzle gives `d` somewhere in row `r`.
pub open spec fn used_in_row(p: Puzzle, r: int, d: int) -> bool {
    exists|c: int| 0 <= c < 9 && #[trigger] given(p, r, c) == Some(d)
}

/// The puzzle gives `d` somewhere in column `c`.
pub open spec fn used_in_col(p: Puzzle, c: int, d: int) -> bool {
    exists|r: int| 0 <= r < 9 && #[trigger] given(p, r, c) == Some(d)
}

/// The puzzle gives `d` somewhere in block `b`.
pub open spec fn used_in_block(p: Puzzle, b: int, d: int) -> bool {
    exists|r: int, c: int| in_grid(r, c) && block_of(r, c) == b && #[trigger] given(p, r, c) == Some(d)
}

/// `d` is a digit that no given in the row, the column or the block of cell
/// `(r, c)` has taken.
pub open spec fn is_free(p: Puzzle, r: int, c: int, d: int) -> bool {
    &&& is_digit(d)
    &&& !used_in_row(p, r, d)
    &&& !used_in_col(p, c, d)
    &&& !used_in_block(p, block_of(r, c), d)
}

/// `s` lists, in ascending order, exactly the digits that are free for cell
/// `(r, c)`.
pub open spec fn lists_free_digits(p: Puzzle, r: int, c: int, s: Seq<int>) -> bool {
    &&& ascending(s)
    &&& forall|d: int| s.contains(d) <==> is_free(p, r, c, d)
}

/// `ch` is what the builder says of cell `(r, c)`: a given cell is settled
/// with its digit; an empty cell with exactly one free digit is settled with
/// that digit; any other empty cell is open with its free digits, of which
/// there may be none.
pub open spec fn is_choice_for(p: Puzzle, r: int, c: int, ch: Candidates) -> bool {
    match given(p, r, c) {
        Some(d) => ch == Candidates::Settled(d),
        None => match ch {
            Candidates::Settled(d) => lists_free_digits(p, r, c, seq![d]),
            Candidates::Open(s) => s.len() != 1 && lists_free_digits(p, r, c, s),
        },
    }
}

/// `m` is the candidate grid of `p`.
pub open spec fn is_candidate_grid(p: Puzzle, m: Moves) -> bool {
    &&& is_moves(m)
    &&& forall|r: int, c: int| in_grid(r, c) ==> is_choice_for(p, r, c, #[trigger] choice(m, r, c))
}

/// The candidate grid of a puzzle loses no solution and admits nothing else:
/// the finished Sudokus that fill it are exactly the solutions of the puzzle.
/// Its open cells list their digits in ascending order.
pub proof fn lemma_candidate_grid(p: Puzzle, m: Moves)
    requires
        is_candidate_grid(p, m),
    ensures
        moves_ordered(m),
        forall|g: Grid|
            #![trigger is_filling(m, g)]
            #![trigger is_solution(p, g)]
            is_filling(m, g) <==> is_solution(p, g),
{
    assert forall|g: Grid|
        #![trigger is_filling(m, g)]
        #![trigger is_solution(p, g)]
        is_filling(m, g) <==> is_solution(p, g) by {
        if is_filling(m, g) {
            assert forall|r: int, c: int| in_grid(r, c) implies (#[trigger] given(p, r, c) matches Some(
                d,
            ) ==> at(g, r, c) == d) by {
                assert(admits(choice(m, r, c), at(g, r, c)));
            }
        }
        if is_solution(p, g) {
            assert forall|r: int, c: int| in_grid(r, c) implies admits(
                choice(m, r, c),
                #[trigger] at(g, r, c),
            ) by {
                if given(p, r, c) is None {
                    lemma_solution_value_is_free(p, g, r, c);
                    match choice(m, r, c) {
                        Candidates::Settled(d) => {
                            assert(seq![d].contains(at(g, r, c)));
                        },
                        Candidates::Open(s) => {},
                    }
                }
            }
        }
    }
}

/// What a solution holds in a cell that the puzzle leaves empty is free for
/// that cell.
proof fn lemma_solution_value_is_free(p: Puzzle, g: Grid, r: int, c: int)
    requires
        is_solution(p, g),
        in_grid(r, c),
        given(p, r, c) is None,
    ensures
        is_free(p, r, c, at(g, r, c)),
{
    let v: int = at(g, r, c);
    if used_in_row(p, r, v) {
        let c2: int = choose|c2: int| 0 <= c2 < 9 && #[trigger] given(p, r, c2) == Some(v);
        assert(peers(r, c2, r, c));
    }
    if used_in_col(p, c, v) {
        let r2: int = choose|r2: int| 0 <= r2 < 9 && #[trigger] given(p, r2, c) == Some(v);
        assert(peers(r2, c, r, c));
    }
    if used_in_block(p, block_of(r, c), v) {
        let (r2, c2): (int, int) = choose|r2: int, c2: int|
            in_grid(r2, c2) && block_of(r2, c2) == block_of(r, c) && #[trigger] given(p, r2, c2)
                == Some(v);
        assert(peers(r2, c2, r, c));
    }
}

/// The digits that the givens have taken, by row, by column and by block,
/// together with the puzzle they were collected from.
pub struct PossibleMovesBuilder<'a> {
    board: &'a Board,
    row_taken: [HashSet<i32>; 9],
    col_taken: [HashSet<i32>; 9],
    block_taken: [HashSet<i32>; 9],
}

impl<'a> PossibleMovesBuilder<'a> {
    /// The puzzle that the builder was made from.
    pub closed spec fn puzzle(&self) -> Puzzle {
        board_view(*self.board)
    }

    /// The values that the builder has recorded for row `i`.
    pub closed spec fn taken_in_row(&self, i: int) -> Set<i32> {
        self.row_taken[i]@
    }

    /// The values that the builder has recorded for column `i`.
    pub closed spec fn taken_in_col(&self, i: int) -> Set<i32> {
        self.col_taken[i]@
    }

    /// The values that the builder has recorded for block `i`.
    pub closed spec fn taken_in_block(&self, i: int) -> Set<i32> {
        self.block_taken[i]@
    }

    /// The three collections hold exactly what the puzzle gives.
    #[verifier::type_invariant]
    spec fn wf(&self) -> bool {
        &&& forall|i: int, d: i32|
            0 <= i < 9 ==> (#[trigger] self.row_taken[i]@.contains(d) <==> used_in_row(
                self.puzzle(),
                i,
                d as int,
            ))
        &&& forall|i: int, d: i32|
            0 <= i < 9 ==> (#[trigger] self.col_taken[i]@.contains(d) <==> used_in_col(
                self.puzzle(),
                i,
                d as int,
            ))
        &&& forall|i: int, d: i32|
            0 <= i < 9 ==> (#[trigger] self.block_taken[i]@.contains(d) <==> used_in_block(
                self.puzzle(),
                i,
                d as int,
            ))
    }

    /// Scans the puzzle once and records, for each row, each column and each
    /// block, the values that it gives there. Block `3 * (r / 3) + c / 3` is
    /// the block of cell `(r, c)`.
    pub fn from_board(board: &'a Board) -> (builder: Self)
        ensures
            builder.puzzle() == board_view(*board),
            forall|i: int, d: i32|
                0 <= i < 9 ==> (#[trigger] builder.taken_in_row(i).contains(d) <==> used_in_row(
                    board_view(*board),
                    i,
                    d as int,
                )),
            forall|i: int, d: i32|
                0 <= i < 9 ==> (#[trigger] builder.taken_in_col(i).contains(d) <==> used_in_col(
                    board_view(*board),
                    i,
                    d as int,
                )),
            forall|i: int, d: i32|
                0 <= i < 9 ==> (#[trigger] builder.taken_in_block(i).contains(d) <==> used_in_block(
                    board_view(*board),
                    i,
                    d as int,
                )),
    {
        let mut row_taken: [HashSet<i32>; 9] = [
            HashSet::new(),
            HashSet::new(),
            HashSet::new(),
            HashSet::new(),
            HashSet::new(),
            HashSet::new(),
            HashSet::new(),
            HashSet::new(),
            HashSet::new(),
        ];
        let mut col_taken: [HashSet<i32>; 9] = [
            HashSet::new(),
            HashSet::new(),
            HashSet::new(),
            HashSet::new(),
            HashSet::new(),
            HashSet::new(),
            HashSet::new(),
            HashSet::new(),
            HashSet::new(),
        ];
        let mut block_taken: [HashSet<i32>; 9] = [
            HashSet::new(),
            HashSet::new(),
            HashSet::new(),
            HashSet::new(),
            HashSet::new(),
            HashSet::new(),
            HashSet::new(),
            HashSet::new(),
            HashSet::new(),
        ];
        let ghost p: Puzzle = board_view(*board);
        proof {
            lemma_board_view(*board);
        }
        for row_index in 0..9usize
            invariant
                p == board_view(*board),
                holds_scanned(row_taken, col_taken, block_taken, p, row_index as int, 0),
        {
            for col_index in 0..9usize
                invariant
                    row_index < 9,
                    p == board_view(*board),
                    holds_scanned(
                        row_taken,
                        col_taken,
                        block_taken,
                        p,
                        row_index as int,
                        col_index as int,
                    ),
            {
                match board[row_index][col_index] {
                    Some(val) => {
                        row_taken[row_index].insert(val);
                        col_taken[col_index].insert(val);
                        block_taken[(3 * (row_index / 3)) + (col_index / 3)].insert(val);
                    },
                    None => {},
                }
                proof {
                    let r: int = row_index as int;
                    let c: int = col_index as int;
                    assert forall|i: int, d: i32| 0 <= i < 9 implies (
                    #[trigger] row_taken[i]@.contains(d) <==> row_used_before(
                        p,
                        i,
                        d as int,
                        r,
                        c + 1,
                    )) by {
                        lemma_one_more_cell(p, d as int, r, c);
                        if row_used_before(p, i, d as int, r, c) {
                            let c2: int = choose|c2: int| #[trigger]
                                given_before(p, i, c2, d as int, r, c);
                            assert(given_before(p, i, c2, d as int, r, c + 1));
                        }
                        if i == r && given(p, r, c) == Some(d as int) {
                            assert(given_before(p, i, c, d as int, r, c + 1));
                        }
                    }
                    assert forall|i: int, d: i32| 0 <= i < 9 implies (
                    #[trigger] col_taken[i]@.contains(d) <==> col_used_before(
                        p,
                        i,
                        d as int,
                        r,
                        c + 1,
                    )) by {
                        lemma_one_more_cell(p, d as int, r, c);
                        if col_used_before(p, i, d as int, r, c) {
                            let r2: int = choose|r2: int| #[trigger]
                                given_before(p, r2, i, d as int, r, c);
                            assert(given_before(p, r2, i, d as int, r, c + 1));
                        }
                        if i == c && given(p, r, c) == Some(d as int) {
                            assert(given_before(p, r, i, d as int, r, c + 1));
                        }
                    }
                    assert forall|i: int, d: i32| 0 <= i < 9 implies (
                    #[trigger] block_taken[i]@.contains(d) <==> block_used_before(
                        p,
                        i,
                        d as int,
                        r,
                        c + 1,
                    )) by {
                        lemma_one_more_cell(p, d as int, r, c);
                        if block_used_before(p, i, d as int, r, c) {
                            let (r2, c2): (int, int) = choose|r2: int, c2: int|
                                block_of(r2, c2) == i && #[trigger] given_before(
                                    p,
                                    r2,
                                    c2,
                                    d as int,
                                    r,
                                    c,
                                );
                            assert(given_before(p, r2, c2, d as int, r, c + 1));
                        }
                        if i == block_of(r, c) && given(p, r, c) == Some(d as int) {
                            assert(given_before(p, r, c, d as int, r, c + 1));
                        }
                    }
                }
            }
            proof {
                assert(holds_scanned(row_taken, col_taken, block_taken, p, row_index + 1, 0)) by {
                    assert forall|i: int, d: i32| 0 <= i < 9 implies (
                    #[trigger] row_taken[i]@.contains(d) <==> row_used_before(
                        p,
                        i,
                        d as int,
                        row_index + 1,
                        0,
                    )) by {
                        lemma_row_scanned(p, i, d as int, row_index as int);
                    }
                    assert forall|i: int, d: i32| 0 <= i < 9 implies (
                    #[trigger] col_taken[i]@.contains(d) <==> col_used_before(
                        p,
                        i,
                        d as int,
                        row_index + 1,
                        0,
                    )) by {
                        lemma_row_scanned(p, i, d as int, row_index as int);
                    }
                    assert forall|i: int, d: i32| 0 <= i < 9 implies (
                    #[trigger] block_taken[i]@.contains(d) <==> block_used_before(
                        p,
                        i,
                        d as int,
                        row_index + 1,
                        0,
                    )) by {
                        lemma_row_scanned(p, i, d as int, row_index as int);
                    }
                }
            }
        }
        proof {
            assert forall|i: int, d: i32| 0 <= i < 9 implies (#[trigger] row_taken[i]@.contains(d)
                <==> used_in_row(p, i, d as int)) by {
                lemma_all_scanned(p, i, d as int);
            }
            assert forall|i: int, d: i32| 0 <= i < 9 implies (#[trigger] col_taken[i]@.contains(d)
                <==> used_in_col(p, i, d as int)) by {
                lemma_all_scanned(p, i, d as int);
            }
            assert forall|i: int, d: i32| 0 <= i < 9 implies (
            #[trigger] block_taken[i]@.contains(d) <==> used_in_block(p, i, d as int)) by {
                lemma_all_scanned(p, i, d as int);
            }
        }
        PossibleMovesBuilder { board, row_taken, col_taken, block_taken }
    }

    /// The candidates of one cell: its digit if it was given; else the
    /// digits from 1 to 9 that none of the three collections for its row,
    /// its column and its block holds.
    fn cell_moves(&self, row_index: usize, col_index: usize) -> (cell: PossibleMovesCell)
        requires
            row_index < 9,
            col_index < 9,
        ensures
            is_choice_for(self.puzzle(), row_index as int, col_index as int, cell@),
    {
        proof {
            use_type_invariant(self);
            lemma_board_view(*self.board);
        }
        let ghost p: Puzzle = self.puzzle();
        let ghost r: int = row_index as int;
        let ghost c: int = col_index as int;
        match self.board[row_index][col_index] {
            Some(val) => PossibleMovesCell::Solved(val),
            None => {
                let mut valid_moves: Vec<i32> = Vec::new();
                let mut digit: i32 = 1;
                while digit <= 9
                    invariant
                        1 <= digit <= 10,
                        row_index < 9,
                        col_index < 9,
                        r == row_index,
                        c == col_index,
                        p == self.puzzle(),
                        self.wf(),
                        ascending(digits_of(valid_moves@)),
                        forall|d: int|
                            digits_of(valid_moves@).contains(d) <==> (d < digit && is_free(
                                p,
                                r,
                                c,
                                d,
                            )),
                    decreases 10 - digit,
                {
                    let ghost before_push: Seq<int> = digits_of(valid_moves@);
                    let taken: bool = self.row_taken[row_index].contains(&digit)
                        || self.col_taken[col_index].contains(&digit)
                        || self.block_taken[(3 * (row_index / 3)) + (col_index / 3)].contains(
                        &digit,
                    );
                    if !taken {
                        valid_moves.push(digit);
                        proof {
                            assert(digits_of(valid_moves@) =~= before_push.push(digit as int));
                            assert forall|d: int|
                                digits_of(valid_moves@).contains(d) <==> (d < digit + 1 && is_free(
                                    p,
                                    r,
                                    c,
                                    d,
                                )) by {
                                lemma_push_contains(before_push, digit as int, d);
                            }
                            assert forall|i: int, j: int|
                                0 <= i < j < digits_of(valid_moves@).len() implies digits_of(
                                valid_moves@,
                            )[i] < digits_of(valid_moves@)[j] by {
                                if j == before_push.len() {
                                    assert(before_push.contains(before_push[i]));
                                }
                            }
                        }
                    }
                    digit += 1;
                }
                if valid_moves.len() == 1 {
                    proof {
                        assert(digits_of(valid_moves@) =~= seq![valid_moves[0] as int]);
                    }
                    return PossibleMovesCell::Solved(valid_moves[0]);
                }
                PossibleMovesCell::Unknown(valid_moves)
            },
        }
    }

    /// The candidates of the nine cells of one row.
    fn row_moves(&self, row_index: usize) -> (row: [PossibleMovesCell; 9])
        requires
            row_index < 9,
        ensures
            forall|c: int|
                0 <= c < 9 ==> is_choice_for(self.puzzle(), row_index as int, c, #[trigger] row[c]@),
    {
        [
            self.cell_moves(row_index, 0),
            self.cell_moves(row_index, 1),
            self.cell_moves(row_index, 2),
            self.cell_moves(row_index, 3),
            self.cell_moves(row_index, 4),
            self.cell_moves(row_index, 5),
            self.cell_moves(row_index, 6),
            self.cell_moves(row_index, 7),
            self.cell_moves(row_index, 8),
        ]
    }

    /// Builds the candidate grid of the puzzle. A given cell is settled with
    /// its digit. An empty cell gets the digits that no given of its row,
    /// column or block has taken: if exactly one is left the cell is settled
    /// with it, otherwise it stays open with those digits in ascending order.
    /// An open cell without any digit means that the puzzle has no solution.
    ///
    /// Nothing is propagated: a cell settled here does not narrow the
    /// candidates of its neighbours.
    pub fn build(&self) -> (moves: PossibleMoves)
        ensures
            is_candidate_grid(self.puzzle(), moves_view(moves)),
    {
        let moves: PossibleMoves = [
            self.row_moves(0),
            self.row_moves(1),
            self.row_moves(2),
            self.row_moves(3),
            self.row_moves(4),
            self.row_moves(5),
            self.row_moves(6),
            self.row_moves(7),
            self.row_moves(8),
        ];
        proof {
            assert forall|r: int, c: int| in_grid(r, c) implies is_choice_for(
                self.puzzle(),
                r,
                c,
                #[trigger] choice(moves_view(moves), r, c),
            ) by {}
        }
        moves
    }
}

/// A list with one more value at its end holds that value and what it held
/// before.
proof fn lemma_push_contains(s: Seq<int>, last: int, d: int)
    ensures
        s.push(last).contains(d) <==> (s.contains(d) || d == last),
{
    if s.push(last).contains(d) && d != last {
        let i: int = choose|i: int| 0 <= i < s.push(last).len() && s.push(last)[i] == d;
        assert(s[i] == d);
    }
    if s.contains(d) {
        let i: int = choose|i: int| 0 <= i < s.len() && s[i] == d;
        assert(s.push(last)[i] == d);
    }
    if d == last {
        assert(s.push(last)[s.len() as int] == d);
    }
}

/// The three collections hold what the puzzle gives in the cells scanned
/// before `(r, c)`.
spec fn holds_scanned(
    rows: [HashSet<i32>; 9],
    cols: [HashSet<i32>; 9],
    blocks: [HashSet<i32>; 9],
    p: Puzzle,
    r: int,
    c: int,
) -> bool {
    &&& forall|i: int, d: i32|
        0 <= i < 9 ==> (#[trigger] rows[i]@.contains(d) <==> row_used_before(p, i, d as int, r, c))
    &&& forall|i: int, d: i32|
        0 <= i < 9 ==> (#[trigger] cols[i]@.contains(d) <==> col_used_before(p, i, d as int, r, c))
    &&& forall|i: int, d: i32|
        0 <= i < 9 ==> (#[trigger] blocks[i]@.contains(d) <==> block_used_before(
            p,
            i,
            d as int,
            r,
            c,
        ))
}

/// The puzzle gives `d` in cell `(r2, c2)`, which is scanned before `(r, c)`.
spec fn given_before(p: Puzzle, r2: int, c2: int, d: int, r: int, c: int) -> bool {
    in_grid(r2, c2) && before(r2, c2, r, c) && given(p, r2, c2) == Some(d)
}

/// The puzzle gives `d` in row `i`, in a cell scanned before `(r, c)`.
spec fn row_used_before(p: Puzzle, i: int, d: int, r: int, c: int) -> bool {
    exists|c2: int| #[trigger] given_before(p, i, c2, d, r, c)
}

/// The puzzle gives `d` in column `i`, in a cell scanned before `(r, c)`.
spec fn col_used_before(p: Puzzle, i: int, d: int, r: int, c: int) -> bool {
    exists|r2: int| #[trigger] given_before(p, r2, i, d, r, c)
}

/// The puzzle gives `d` in block `i`, in a cell scanned before `(r, c)`.
spec fn block_used_before(p: Puzzle, i: int, d: int, r: int, c: int) -> bool {
    exists|r2: int, c2: int| block_of(r2, c2) == i && #[trigger] given_before(p, r2, c2, d, r, c)
}

/// The cells scanned before `(r, c + 1)` are those scanned before `(r, c)`,
/// and `(r, c)` itself.
proof fn lemma_one_more_cell(p: Puzzle, d: int, r: int, c: int)
    requires
        in_grid(r, c),
    ensures
        forall|r2: int, c2: int| #[trigger]
            given_before(p, r2, c2, d, r, c + 1) <==> (given_before(p, r2, c2, d, r, c) || (r2 == r
                && c2 == c && given(p, r, c) == Some(d))),
{
}

/// Past the end of row `r` the scan stands at the start of row `r + 1`.
proof fn lemma_row_scanned(p: Puzzle, i: int, d: int, r: int)
    ensures
        row_used_before(p, i, d, r, 9) == row_used_before(p, i, d, r + 1, 0),
        col_used_before(p, i, d, r, 9) == col_used_before(p, i, d, r + 1, 0),
        block_used_before(p, i, d, r, 9) == block_used_before(p, i, d, r + 1, 0),
{
    assert forall|r2: int, c2: int| #[trigger]
        given_before(p, r2, c2, d, r, 9) == given_before(p, r2, c2, d, r + 1, 0) by {}
    if row_used_before(p, i, d, r + 1, 0) {
        let c2: int = choose|c2: int| #[trigger] given_before(p, i, c2, d, r + 1, 0);
        assert(given_before(p, i, c2, d, r, 9));
    }
    if col_used_before(p, i, d, r + 1, 0) {
        let r2: int = choose|r2: int| #[trigger] given_before(p, r2, i, d, r + 1, 0);
        assert(given_before(p, r2, i, d, r, 9));
    }
    if block_used_before(p, i, d, r + 1, 0) {
        let (r2, c2): (int, int) = choose|r2: int, c2: int|
            block_of(r2, c2) == i && #[trigger] given_before(p, r2, c2, d, r + 1, 0);
        assert(given_before(p, r2, c2, d, r, 9));
    }
}

/// Once the scan is past the last row it has seen every given.
proof fn lemma_all_scanned(p: Puzzle, i: int, d: int)
    requires
        0 <= i < 9,
    ensures
        row_used_before(p, i, d, 9, 0) == used_in_row(p, i, d),
        col_used_before(p, i, d, 9, 0) == used_in_col(p, i, d),
        block_used_before(p, i, d, 9, 0) == used_in_block(p, i, d),
{
    if used_in_row(p, i, d) {
        let c2: int = choose|c2: int| 0 <= c2 < 9 && #[trigger] given(p, i, c2) == Some(d);
        assert(given_before(p, i, c2, d, 9, 0));
    }
    if used_in_col(p, i, d) {
        let r2: int = choose|r2: int| 0 <= r2 < 9 && #[trigger] given(p, r2, i) == Some(d);
        assert(given_before(p, r2, i, d, 9, 0));
    }
    if used_in_block(p, i, d) {
        let (r2, c2): (int, int) = choose|r2: int, c2: int|
            in_grid(r2, c2) && block_of(r2, c2) == i && #[trigger] given(p, r2, c2) == Some(d);
        assert(given_before(p, r2, c2, d, 9, 0));
    }
}

} // verus!
