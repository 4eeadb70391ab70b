use sudoko_solver::{Board, SolvedBoard, Solver, SolverErrors};

fn puzzle() -> Board {
    [
        [Some(3), None, None, Some(8), None, None, None, None, None],
        [Some(4), None, Some(6), Some(9), Some(3), Some(1), None, None, None],
        [None, None, Some(5), None, Some(4), None, Some(9), None, None],
        [None, None, None, None, None, None, Some(4), None, None],
        [Some(1), Some(7), Some(8), None, None, Some(2), None, Some(9), None],
        [Some(5), None, Some(2), None, None, None, None, None, Some(1)],
        [None, None, Some(4), None, Some(2), None, None, None, None],
        [None, None, Some(7), Some(5), None, None, Some(6), Some(3), Some(2)],
        [None, None, Some(3), None, Some(9), None, Some(5), Some(4), None],
    ]
}

fn solution() -> SolvedBoard {
    [
        [3, 9, 1, 8, 7, 5, 2, 6, 4],
        [4, 2, 6, 9, 3, 1, 8, 5, 7],
        [7, 8, 5, 2, 4, 6, 9, 1, 3],
        [6, 3, 9, 7, 1, 8, 4, 2, 5],
        [1, 7, 8, 4, 5, 2, 3, 9, 6],
        [5, 4, 2, 3, 6, 9, 7, 8, 1],
        [8, 5, 4, 6, 2, 3, 1, 7, 9],
        [9, 1, 7, 5, 8, 4, 6, 3, 2],
        [2, 6, 3, 1, 9, 7, 5, 4, 8],
    ]
}

fn first_grid() -> SolvedBoard {
    [
        [1, 2, 3, 4, 5, 6, 7, 8, 9],
        [4, 5, 6, 7, 8, 9, 1, 2, 3],
        [7, 8, 9, 1, 2, 3, 4, 5, 6],
        [2, 1, 4, 3, 6, 5, 8, 9, 7],
        [3, 6, 5, 8, 9, 7, 2, 1, 4],
        [8, 9, 7, 2, 1, 4, 3, 6, 5],
        [5, 3, 1, 6, 4, 2, 9, 7, 8],
        [6, 4, 2, 9, 7, 8, 5, 3, 1],
        [9, 7, 8, 5, 3, 1, 6, 4, 2],
    ]
}

fn empty() -> Board {
    [[None; 9]; 9]
}

fn as_board(grid: &SolvedBoard) -> Board {
    let mut board: Board = [[None; 9]; 9];
    for r in 0..9 {
        for c in 0..9 {
            board[r][c] = Some(grid[r][c]);
        }
    }
    board
}

fn has_each_digit_once(cells: [i32; 9]) -> bool {
    (1..=9).all(|d| cells.iter().filter(|v| **v == d).count() == 1)
}

fn units_complete(grid: &SolvedBoard) -> bool {
    for i in 0..9 {
        let mut col = [0; 9];
        let mut block = [0; 9];
        for k in 0..9 {
            col[k] = grid[k][i];
            block[k] = grid[3 * (i / 3) + k / 3][3 * (i % 3) + k % 3];
        }
        if !has_each_digit_once(grid[i]) || !has_each_digit_once(col) || !has_each_digit_once(block) {
            return false;
        }
    }
    true
}

#[test]
fn solves_puzzle_with_thirty_givens() {
    let board = puzzle();
    assert_eq!(board.iter().flatten().filter(|cell| cell.is_some()).count(), 30);
    let solver = Solver { board };
    assert_eq!(solver.solve(), Ok(solution()));
}

#[test]
fn solution_holds_each_digit_once_in_every_unit() {
    let solved = Solver { board: puzzle() }.solve().unwrap();
    assert!(units_complete(&solved));
}

#[test]
fn solution_keeps_the_givens() {
    let board = puzzle();
    let solved = Solver { board }.solve().unwrap();
    for r in 0..9 {
        for c in 0..9 {
            if let Some(d) = board[r][c] {
                assert_eq!(solved[r][c], d);
            }
        }
    }
}

#[test]
fn solving_a_solved_board_returns_it() {
    let solver = Solver { board: as_board(&solution()) };
    assert_eq!(solver.solve(), Ok(solution()));
}

#[test]
fn solving_twice_gives_the_same_grid() {
    let solver = Solver { board: puzzle() };
    assert_eq!(solver.solve(), solver.solve());
}

#[test]
fn empty_board_gets_the_first_grid() {
    let solved = Solver { board: empty() }.solve().unwrap();
    assert!(units_complete(&solved));
    assert_eq!(solved, first_grid());
}

#[test]
fn of_two_solutions_the_first_is_returned() {
    let board: Board = [
        [Some(3), None, None, Some(8), None, None, None, None, None],
        [Some(4), None, Some(6), Some(9), None, Some(1), None, None, None],
        [None, None, Some(5), None, Some(4), None, Some(9), None, None],
        [None, None, None, None, None, None, Some(4), None, None],
        [Some(1), Some(7), Some(8), None, None, Some(2), None, None, None],
        [Some(5), None, Some(2), None, None, None, None, None, Some(1)],
        [None, None, Some(4), None, Some(2), None, None, None, None],
        [None, None, None, Some(5), None, None, Some(6), Some(3), Some(2)],
        [None, None, Some(3), None, Some(9), None, Some(5), Some(4), None],
    ];
    let first: SolvedBoard = [
        [3, 9, 1, 8, 6, 5, 2, 7, 4],
        [4, 2, 6, 9, 7, 1, 8, 5, 3],
        [7, 8, 5, 2, 4, 3, 9, 1, 6],
        [6, 3, 9, 7, 1, 8, 4, 2, 5],
        [1, 7, 8, 4, 5, 2, 3, 6, 9],
        [5, 4, 2, 6, 3, 9, 7, 8, 1],
        [8, 5, 4, 3, 2, 6, 1, 9, 7],
        [9, 1, 7, 5, 8, 4, 6, 3, 2],
        [2, 6, 3, 1, 9, 7, 5, 4, 8],
    ];
    let second: SolvedBoard = [
        [3, 9, 1, 8, 7, 5, 2, 6, 4],
        [4, 2, 6, 9, 3, 1, 8, 5, 7],
        [7, 8, 5, 2, 4, 6, 9, 1, 3],
        [6, 3, 9, 7, 1, 8, 4, 2, 5],
        [1, 7, 8, 4, 5, 2, 3, 9, 6],
        [5, 4, 2, 3, 6, 9, 7, 8, 1],
        [8, 5, 4, 6, 2, 3, 1, 7, 9],
        [9, 1, 7, 5, 8, 4, 6, 3, 2],
        [2, 6, 3, 1, 9, 7, 5, 4, 8],
    ];
    assert!(first < second);
    let solved = Solver { board }.solve().unwrap();
    assert_eq!(solved, first);
}

#[test]
fn full_board_with_repeat_in_row_is_unsolvable() {
    let mut board = as_board(&solution());
    assert_eq!(board[0][5], Some(5));
    board[0][0] = Some(5);
    assert_eq!(Solver { board }.solve(), Err(SolverErrors::UnsolvableBoardError));
}

#[test]
fn repeated_given_in_row_is_unsolvable() {
    let mut board = empty();
    board[8][7] = Some(5);
    board[8][8] = Some(5);
    assert_eq!(Solver { board }.solve(), Err(SolverErrors::UnsolvableBoardError));
}

#[test]
fn repeated_given_in_column_is_unsolvable() {
    let mut board = puzzle();
    assert_eq!(board[0][0], Some(3));
    assert_eq!(board[8][0], None);
    board[8][0] = Some(3);
    assert_eq!(Solver { board }.solve(), Err(SolverErrors::UnsolvableBoardError));
}

#[test]
fn repeated_given_in_block_is_unsolvable() {
    let mut board = empty();
    board[3][3] = Some(7);
    board[5][4] = Some(7);
    assert_eq!(Solver { board }.solve(), Err(SolverErrors::UnsolvableBoardError));
}

#[test]
fn given_that_is_no_digit_is_unsolvable() {
    let mut board = empty();
    board[4][4] = Some(10);
    assert_eq!(Solver { board }.solve(), Err(SolverErrors::UnsolvableBoardError));
    board[4][4] = Some(0);
    assert_eq!(Solver { board }.solve(), Err(SolverErrors::UnsolvableBoardError));
    board[4][4] = Some(-3);
    assert_eq!(Solver { board }.solve(), Err(SolverErrors::UnsolvableBoardError));
}

#[test]
fn cell_without_candidates_is_unsolvable() {
    let mut board = empty();
    for c in 0..8 {
        board[0][c] = Some(c as i32 + 1);
    }
    board[5][8] = Some(9);
    assert_eq!(Solver { board }.solve(), Err(SolverErrors::UnsolvableBoardError));
}

#[test]
fn two_cells_settled_with_one_digit_are_unsolvable() {
    let mut board = empty();
    for c in 0..7 {
        board[0][c] = Some(c as i32 + 1);
    }
    board[3][7] = Some(8);
    board[4][8] = Some(8);
    assert_eq!(Solver { board }.solve(), Err(SolverErrors::UnsolvableBoardError));
}

#[test]
fn three_cells_for_two_digits_are_unsolvable() {
    let mut board = empty();
    for c in 0..6 {
        board[0][c] = Some(c as i32 + 1);
    }
    board[1][6] = Some(7);
    assert_eq!(Solver { board }.solve(), Err(SolverErrors::UnsolvableBoardError));
}
