//! Puzzles and solutions as text.
//!
//! A puzzle is written as 81 fields, row after row, separated by commas or
//! line breaks. A field holds one digit from 1 to 9, or it is blank: empty, or
//! a single 0.
use crate::grid::{
    at, board_view, given, grid_view, in_grid, is_digit, lemma_board_view, lemma_grid_view,
    lemma_same_givens,
};
use crate::grid::{Board, Grid, Puzzle, SolvedBoard};
use crate::solver::Solver;
use vstd::prelude::*;

verus! {

/// The comma, which separates the fields of a row.
pub const COMMA: u8 = 44;

/// The line break, which separates the rows.
pub const NEWLINE: u8 = 10;

/// The character `0`. A digit `d` is written as the byte `ZERO + d`.
pub const ZERO: u8 = 48;

/// Why a text is not a puzzle.
#[derive(Debug, Clone, Copy, PartialEq, Eq)]
pub enum ParseErrors {
    /// A field holds something other than one digit or a blank.
    InvalidToken,
    /// Every field is as it should be, but there are not 81 of them.
    InvalidTokenCount,
}

/// `b` separates two fields.
pub open spec fn is_separator(b: u8) -> bool {
    b == COMMA || b == NEWLINE
}

/// The fields of a text, in their order: what stands before the first
/// separator, between two separators, and behind the last one. A text with
/// `n` separators has `n + 1` fields, and the empty text has one empty field.
pub open spec fn fields(s: Seq<u8>) -> Seq<Seq<u8>>
    decreases s.len(),
{
    if s.len() == 0 {
        seq![Seq::<u8>::empty()]
    } else {
        let earlier = fields(s.drop_last());
        if is_separator(s.last()) {
            earlier.push(Seq::<u8>::empty())
        } else {
            earlier.drop_last().push(earlier.last().push(s.last()))
        }
    }
}

/// What a field says of its cell: `Some(Some(d))` for the digit `d`,
/// `Some(None)` for a blank, `None` where the field is neither.
pub open spec fn read_field(f: Seq<u8>) -> Option<Option<int>> {
    if f.len() == 0 {
        Some(None)
    } else if f.len() == 1 && f[0] == ZERO {
        Some(None)
    } else if f.len() == 1 && ZERO < f[0] <= ZERO + 9 {
        Some(Some(f[0] - ZERO))
    } else {
        None
    }
}

/// Every field is a digit or a blank.
pub open spec fn all_fields_valid(f: Seq<Seq<u8>>) -> bool {
    forall|k: int| 0 <= k < f.len() ==> (#[trigger] read_field(f[k])) is Some
}

/// The field of cell `(r, c)`.
pub open spec fn field_of(f: Seq<Seq<u8>>, r: int, c: int) -> Seq<u8> {
    f[9 * r + c]
}

/// The puzzle that 81 valid fields stand for.
pub open spec fn puzzle_of_fields(f: Seq<Seq<u8>>) -> Puzzle {
    Seq::new(
        9,
        |r: int|
            Seq::new(
                9,
                |c: int|
                    match read_field(field_of(f, r, c)) {
                        Some(cell) => cell,
                        None => None,
                    },
            ),
    )
}

/// What reading a text gives: the first complaint is about a field that is
/// neither a digit nor a blank, wherever it stands; the second about the
/// number of fields.
pub open spec fn parse(s: Seq<u8>) -> Result<Puzzle, ParseErrors> {
    if !all_fields_valid(fields(s)) {
        Err(ParseErrors::InvalidToken)
    } else if fields(s).len() != 81 {
        Err(ParseErrors::InvalidTokenCount)
    } else {
        Ok(puzzle_of_fields(fields(s)))
    }
}

/// A text has at least one field.
pub proof fn lemma_fields_len(s: Seq<u8>)
    ensures
        fields(s).len() >= 1,
    decreases s.len(),
{
    if s.len() > 0 {
        lemma_fields_len(s.drop_last());
    }
}

/// One more byte either starts a new field or lengthens the last one.
proof fn lemma_fields_step(s: Seq<u8>, i: int)
    requires
        0 <= i < s.len(),
    ensures
        fields(s.take(i)).len() >= 1,
        fields(s.take(i + 1)) == if is_separator(s[i]) {
            fields(s.take(i)).push(Seq::<u8>::empty())
        } else {
            fields(s.take(i)).drop_last().push(fields(s.take(i)).last().push(s[i]))
        },
{
    lemma_fields_len(s.take(i));
    assert(s.take(i + 1).drop_last() =~= s.take(i));
}

/// Reads one field from its length and its first byte.
fn read_token(len: usize, first: u8) -> (cell: Option<Option<i32>>)
    ensures
        forall|f: Seq<u8>|
            f.len() == len && (len > 0 ==> f[0] == first) ==> #[trigger] read_field(f) == as_field(
                cell,
            ),
{
    if len == 0 {
        Some(None)
    } else if len == 1 && first == ZERO {
        Some(None)
    } else if len == 1 && ZERO < first && first <= ZERO + 9 {
        Some(Some((first - ZERO) as i32))
    } else {
        None
    }
}

impl Solver {
    /// Reads a puzzle from text. The text is split at every comma and every
    /// line break. Each of the fields so obtained must hold a digit from 1 to
    /// 9 or be blank (empty, or `0`), else the result is `InvalidToken`; and
    /// there must be 81 of them, else it is `InvalidTokenCount`. White space
    /// is not skipped, and a line break at the end starts one more field.
    pub fn from_csv(input: &[u8]) -> (res: Result<Solver, ParseErrors>)
        ensures
            match res {
                Ok(solver) => parse(input@) == Ok::<Puzzle, ParseErrors>(solver@),
                Err(e) => parse(input@) == Err::<Puzzle, ParseErrors>(e),
            },
    {
        let mut board: Board = [[None;9];9];
        let mut separators: usize = 0;
        let mut len: usize = 0;
        let mut first: u8 = 0;
        let mut valid: bool = true;
        for i in 0..input.len()
            invariant
                separators <= i,
                len <= i,
                fields(input@.take(i as int)).len() == separators + 1,
                fields(input@.take(i as int)).last().len() == len,
                len > 0 ==> fields(input@.take(i as int)).last()[0] == first,
                valid == valid_before(fields(input@.take(i as int)), separators as int),
                valid ==> stored(board_view(board), fields(input@.take(i as int)), separators as int),
        {
            let ghost f: Seq<Seq<u8>> = fields(input@.take(i as int));
            let ghost f2: Seq<Seq<u8>> = fields(input@.take(i + 1));
            let ghost earlier: Board = board;
            proof {
                lemma_fields_step(input@, i as int);
                assert forall|k: int| 0 <= k < separators implies f2[k] == f[k] by {}
            }
            let b: u8 = input[i];
            if b == COMMA || b == NEWLINE {
                let cell: Option<Option<i32>> = read_token(len, first);
                match cell {
                    Some(cell) => {
                        if separators < 81 {
                            board[separators / 9][separators % 9] = cell;
                        }
                    },
                    None => {
                        valid = false;
                    },
                }
                proof {
                    lemma_valid_before(f, f2, separators as int);
                    lemma_board_view(earlier);
                    lemma_board_view(board);
                    if valid {
                        assert forall|r: int, c: int|
                            in_grid(r, c) && 9 * r + c < separators + 1 implies read_field(
                            #[trigger] field_of(f2, r, c),
                        ) == Some(given(board_view(board), r, c)) by {
                            if 9 * r + c < separators {
                                assert(field_of(f2, r, c) == field_of(f, r, c));
                            } else {
                                assert(field_of(f2, r, c) == f.last());
                            }
                        }
                    }
                }
                separators += 1;
                len = 0;
            } else {
                if len == 0 {
                    first = b;
                }
                len += 1;
                proof {
                    lemma_valid_before(f, f2, separators as int);
                    if valid {
                        assert forall|r: int, c: int|
                            in_grid(r, c) && 9 * r + c < separators implies read_field(
                            #[trigger] field_of(f2, r, c),
                        ) == Some(given(board_view(board), r, c)) by {
                            assert(field_of(f2, r, c) == field_of(f, r, c));
                        }
                    }
                }
            }
        }
        proof {
            assert(input@.take(input@.len() as int) =~= input@);
        }
        let ghost f: Seq<Seq<u8>> = fields(input@);
        let ghost earlier: Board = board;
        let cell: Option<Option<i32>> = read_token(len, first);
        assert(read_field(f.last()) == as_field(cell));
        match cell {
            Some(cell) => {
                if !valid {
                    return Err(ParseErrors::InvalidToken);
                }
                if separators != 80 {
                    return Err(ParseErrors::InvalidTokenCount);
                }
                board[8][8] = cell;
                proof {
                    lemma_board_view(earlier);
                    lemma_board_view(board);
                    let q: Puzzle = board_view(board);
                    assert forall|r: int, c: int| in_grid(r, c) implies given(q, r, c) == given(
                        puzzle_of_fields(f),
                        r,
                        c,
                    ) by {
                        if 9 * r + c == 80 {
                            assert(field_of(f, r, c) == f.last());
                        }
                    }
                    lemma_same_givens(q, puzzle_of_fields(f));
                }
                Ok(Solver { board })
            },
            None => Err(ParseErrors::InvalidToken),
        }
    }
}

/// The first `n` fields are digits or blanks.
spec fn valid_before(f: Seq<Seq<u8>>, n: int) -> bool {
    forall|k: int| 0 <= k < n ==> (#[trigger] read_field(f[k])) is Some
}

/// Whether the first `n` fields are valid depends on those fields alone, and
/// on the `n`-th for one field more.
proof fn lemma_valid_before(f: Seq<Seq<u8>>, f2: Seq<Seq<u8>>, n: int)
    requires
        0 <= n < f.len() <= f2.len(),
        forall|k: int| 0 <= k < n ==> f2[k] == f[k],
    ensures
        valid_before(f2, n) == valid_before(f, n),
        valid_before(f2, n + 1) == (valid_before(f, n) && read_field(f2[n]) is Some),
{
    if valid_before(f, n) {
        assert forall|k: int| 0 <= k < n implies (#[trigger] read_field(f2[k])) is Some by {
            assert(read_field(f[k]) is Some);
        }
    }
    if valid_before(f2, n) {
        assert forall|k: int| 0 <= k < n implies (#[trigger] read_field(f[k])) is Some by {
            assert(read_field(f2[k]) is Some);
        }
    }
    if valid_before(f2, n + 1) {
        assert forall|k: int| 0 <= k < n implies (#[trigger] read_field(f2[k])) is Some by {}
    }
}

/// What `read_token` returns, as `read_field` states it.
spec fn as_field(cell: Option<Option<i32>>) -> Option<Option<int>> {
    match cell {
        Some(Some(d)) => Some(Some(d as int)),
        Some(None) => Some(None),
        None => None,
    }
}

/// The first `n` fields that belong to a cell stand in the board.
spec fn stored(p: Puzzle, f: Seq<Seq<u8>>, n: int) -> bool {
    forall|r: int, c: int|
        in_grid(r, c) && 9 * r + c < n ==> read_field(#[trigger] field_of(f, r, c)) == Some(
            given(p, r, c),
        )
}

/// How the value of a cell is written: a digit as its character, anything
/// else as a blank.
pub open spec fn digit_text(v: int) -> Seq<u8> {
    if is_digit(v) {
        seq![(ZERO + v) as u8]
    } else {
        Seq::<u8>::empty()
    }
}

/// What separates cell number `k`, counted row by row from 0, from the cell
/// before it: nothing for the first cell, a line break at the start of a
/// further row, a comma elsewhere.
pub open spec fn separator_before(k: int) -> Seq<u8> {
    if k == 0 {
        Seq::<u8>::empty()
    } else if k % 9 == 0 {
        seq![NEWLINE]
    } else {
        seq![COMMA]
    }
}

/// The first `n` cells of a grid as text: nine fields to a line, with commas
/// between them.
pub open spec fn csv_of(g: Grid, n: int) -> Seq<u8>
    decreases n,
{
    if n <= 0 {
        Seq::<u8>::empty()
    } else {
        csv_of(g, n - 1) + separator_before(n - 1) + digit_text(at(g, (n - 1) / 9, (n - 1) % 9))
    }
}

/// The opening bracket of a list.
pub const LIST_START: u8 = 91;

/// The closing bracket of a list.
pub const LIST_END: u8 = 93;

/// How the value of a cell is written in a list of numbers: a digit as its
/// character, anything else as 0.
pub open spec fn digit_number(v: int) -> Seq<u8> {
    if is_digit(v) {
        seq![(ZERO + v) as u8]
    } else {
        seq![ZERO]
    }
}

/// The opening bracket and the first `n` cells of a grid, with commas
/// between them.
pub open spec fn json_of(g: Grid, n: int) -> Seq<u8>
    decreases n,
{
    if n <= 0 {
        seq![LIST_START]
    } else if n == 1 {
        json_of(g, 0) + digit_number(at(g, 0, 0))
    } else {
        json_of(g, n - 1) + seq![COMMA] + digit_number(at(g, (n - 1) / 9, (n - 1) % 9))
    }
}

/// Writes a filled board as text: nine lines of nine digits, the digits of a
/// line separated by commas, the lines by line breaks, with no line break at
/// the end. A cell that holds no digit is left blank.
pub fn to_csv(board: &SolvedBoard) -> (text: Vec<u8>)
    ensures
        text@ == csv_of(grid_view(*board), 81),
{
    let ghost g: Grid = grid_view(*board);
    let mut text: Vec<u8> = Vec::new();
    proof {
        lemma_grid_view(*board);
    }
    for row in 0..9usize
        invariant
            g == grid_view(*board),
            forall|r: int, c: int| in_grid(r, c) ==> #[trigger] at(g, r, c) == board[r][c] as int,
            text@ == csv_of(g, 9 * row),
    {
        for col in 0..9usize
            invariant
                row < 9,
                g == grid_view(*board),
                forall|r: int, c: int|
                    in_grid(r, c) ==> #[trigger] at(g, r, c) == board[r][c] as int,
                text@ == csv_of(g, 9 * row + col),
        {
            if col > 0 {
                text.push(COMMA);
            } else if row > 0 {
                text.push(NEWLINE);
            }
            let val: i32 = board[row][col];
            if 1 <= val && val <= 9 {
                text.push(ZERO + val as u8);
            }
        }
    }
    text
}

/// Writes a filled board as a list of its 81 cells, row after row: an
/// opening bracket, the digits separated by commas, a closing bracket. A cell
/// that holds no digit is written as 0.
pub fn to_json(board: &SolvedBoard) -> (text: Vec<u8>)
    ensures
        text@ == json_of(grid_view(*board), 81).push(LIST_END),
{
    let ghost g: Grid = grid_view(*board);
    let mut text: Vec<u8> = Vec::new();
    text.push(LIST_START);
    proof {
        lemma_grid_view(*board);
    }
    for row in 0..9usize
        invariant
            g == grid_view(*board),
            forall|r: int, c: int| in_grid(r, c) ==> #[trigger] at(g, r, c) == board[r][c] as int,
            text@ == json_of(g, 9 * row),
    {
        for col in 0..9usize
            invariant
                row < 9,
                g == grid_view(*board),
                forall|r: int, c: int|
                    in_grid(r, c) ==> #[trigger] at(g, r, c) == board[r][c] as int,
                text@ == json_of(g, 9 * row + col),
        {
            if col > 0 || row > 0 {
                text.push(COMMA);
            }
            let val: i32 = board[row][col];
            if 1 <= val && val <= 9 {
                text.push(ZERO + val as u8);
            } else {
                text.push(ZERO);
            }
        }
    }
    text.push(LIST_END);
    text
}

/// What a grid shows when it is written as text: its digits, and a blank
/// wherever it holds something else.
pub open spec fn shown(g: Grid) -> Puzzle {
    Seq::new(
        9,
        |r: int|
            Seq::new(
                9,
                |c: int|
                    if is_digit(at(g, r, c)) {
                        Some(at(g, r, c))
                    } else {
                        None
                    },
            ),
    )
}

/// One byte more at the end of a text starts a new field if it is a
/// separator, and else lengthens the last field.
pub proof fn lemma_fields_push(s: Seq<u8>, b: u8)
    ensures
        fields(s).len() >= 1,
        fields(s.push(b)) == if is_separator(b) {
            fields(s).push(Seq::<u8>::empty())
        } else {
            fields(s).drop_last().push(fields(s).last().push(b))
        },
{
    lemma_fields_len(s);
    assert(s.push(b).drop_last() =~= s);
}

/// The text of the first `n` cells has `n` fields, one for each cell.
proof fn lemma_csv_fields(g: Grid, n: int)
    requires
        1 <= n <= 81,
    ensures
        fields(csv_of(g, n)).len() == n,
        forall|k: int|
            0 <= k < n ==> #[trigger] fields(csv_of(g, n))[k] == digit_text(at(g, k / 9, k % 9)),
    decreases n,
{
    let v: int = at(g, (n - 1) / 9, (n - 1) % 9);
    let b: u8 = (ZERO + v) as u8;
    if n == 1 {
        assert(csv_of(g, 0) =~= Seq::<u8>::empty());
        assert(fields(Seq::<u8>::empty()) =~= seq![Seq::<u8>::empty()]);
        if is_digit(v) {
            lemma_fields_push(Seq::<u8>::empty(), b);
            assert(csv_of(g, 1) =~= Seq::<u8>::empty().push(b));
            assert(fields(csv_of(g, 1)) =~= seq![seq![b]]);
        } else {
            assert(csv_of(g, 1) =~= Seq::<u8>::empty());
        }
    } else {
        lemma_csv_fields(g, n - 1);
        let t: Seq<u8> = csv_of(g, n - 1);
        let sep: u8 = if (n - 1) % 9 == 0 {
            NEWLINE
        } else {
            COMMA
        };
        let u: Seq<u8> = t.push(sep);
        lemma_fields_push(t, sep);
        assert(fields(u) =~= fields(t).push(Seq::<u8>::empty()));
        if is_digit(v) {
            lemma_fields_push(u, b);
            assert(csv_of(g, n) =~= u.push(b));
            assert(fields(csv_of(g, n)) =~= fields(t).push(seq![b]));
        } else {
            assert(csv_of(g, n) =~= u);
        }
    }
}

/// Reading what `to_csv` wrote gives back what was written: every digit in
/// its cell, and a blank where the board held no digit.
pub proof fn lemma_csv_round_trip(g: Grid)
    ensures
        parse(csv_of(g, 81)) == Ok::<Puzzle, ParseErrors>(shown(g)),
{
    let f: Seq<Seq<u8>> = fields(csv_of(g, 81));
    lemma_csv_fields(g, 81);
    assert forall|k: int| 0 <= k < f.len() implies (#[trigger] read_field(f[k])) is Some by {
        assert(f[k] == digit_text(at(g, k / 9, k % 9)));
    }
    assert forall|r: int, c: int| in_grid(r, c) implies given(puzzle_of_fields(f), r, c) == given(
        shown(g),
        r,
        c,
    ) by {
        assert(field_of(f, r, c) == digit_text(at(g, r, c)));
    }
    lemma_same_givens(puzzle_of_fields(f), shown(g));
}

impl ParseErrors {
    /// The complaint in words.
    pub fn to_string(&self) -> (text: String)
        ensures
            text@ == match *self {
                ParseErrors::InvalidToken => "A cell must hold a digit from 1 to 9 or be blank."@,
                ParseErrors::InvalidTokenCount => "A board must have 81 cells."@,
            },
    {
        match self {
            ParseErrors::InvalidToken => "A cell must hold a digit from 1 to 9 or be blank.".to_owned(),
            ParseErrors::InvalidTokenCount => "A board must have 81 cells.".to_owned(),
        }
    }
}

} // verus!
