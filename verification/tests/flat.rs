use sudoko_solver::flat::solve;
use sudoko_solver::RollError;

fn puzzle() -> Vec<i32> {
    vec![
        3, 0, 0, 8, 0, 0, 0, 0, 0,
        4, 0, 6, 9, 3, 1, 0, 0, 0,
        0, 0, 5, 0, 4, 0, 9, 0, 0,
        0, 0, 0, 0, 0, 0, 4, 0, 0,
        1, 7, 8, 0, 0, 2, 0, 9, 0,
        5, 0, 2, 0, 0, 0, 0, 0, 1,
        0, 0, 4, 0, 2, 0, 0, 0, 0,
        0, 0, 7, 5, 0, 0, 6, 3, 2,
        0, 0, 3, 0, 9, 0, 5, 4, 0,
    ]
}

fn solution() -> Vec<i32> {
    vec![
        3, 9, 1, 8, 7, 5, 2, 6, 4,
        4, 2, 6, 9, 3, 1, 8, 5, 7,
        7, 8, 5, 2, 4, 6, 9, 1, 3,
        6, 3, 9, 7, 1, 8, 4, 2, 5,
        1, 7, 8, 4, 5, 2, 3, 9, 6,
        5, 4, 2, 3, 6, 9, 7, 8, 1,
        8, 5, 4, 6, 2, 3, 1, 7, 9,
        9, 1, 7, 5, 8, 4, 6, 3, 2,
        2, 6, 3, 1, 9, 7, 5, 4, 8,
    ]
}

#[test]
fn flat_puzzle_is_solved() {
    assert_eq!(solve(puzzle()), Ok(solution()));
}

#[test]
fn flat_solution_has_81_digits() {
    let solved = solve(puzzle()).unwrap();
    assert_eq!(solved.len(), 81);
    assert!(solved.iter().all(|d| (1..=9).contains(d)));
}

#[test]
fn zero_means_empty() {
    let solved = solve(vec![0; 81]).unwrap();
    assert_eq!(solved, vec![
        1, 2, 3, 4, 5, 6, 7, 8, 9,
        4, 5, 6, 7, 8, 9, 1, 2, 3,
        7, 8, 9, 1, 2, 3, 4, 5, 6,
        2, 1, 4, 3, 6, 5, 8, 9, 7,
        3, 6, 5, 8, 9, 7, 2, 1, 4,
        8, 9, 7, 2, 1, 4, 3, 6, 5,
        5, 3, 1, 6, 4, 2, 9, 7, 8,
        6, 4, 2, 9, 7, 8, 5, 3, 1,
        9, 7, 8, 5, 3, 1, 6, 4, 2,
    ]);
}

#[test]
fn entries_are_read_row_by_row() {
    let mut board = vec![0; 81];
    board[9 * 2 + 7] = 6;
    let solved = solve(board).unwrap();
    assert_eq!(solved[9 * 2 + 7], 6);
    let mut board = vec![0; 81];
    board[9 * 7 + 2] = 6;
    board[9 * 7 + 8] = 6;
    assert_eq!(solve(board), Err(RollError::UnsolvableBoard));
}

#[test]
fn list_of_80_entries_is_refused() {
    let mut board = puzzle();
    board.pop();
    assert_eq!(board.len(), 80);
    assert_eq!(solve(board), Err(RollError::InvalidBoardLength));
}

#[test]
fn list_of_82_entries_is_refused() {
    let mut board = puzzle();
    board.push(0);
    assert_eq!(board.len(), 82);
    assert_eq!(solve(board), Err(RollError::InvalidBoardLength));
}

#[test]
fn empty_list_is_refused() {
    assert_eq!(solve(Vec::new()), Err(RollError::InvalidBoardLength));
}

#[test]
fn length_is_tested_before_anything_else() {
    assert_eq!(solve(vec![5; 80]), Err(RollError::InvalidBoardLength));
    assert_eq!(solve(vec![5; 81]), Err(RollError::UnsolvableBoard));
    assert_eq!(solve(vec![5; 82]), Err(RollError::InvalidBoardLength));
}

#[test]
fn flat_puzzle_with_repeated_given_is_unsolvable() {
    let mut board = solution();
    assert_eq!(board[5], 5);
    board[0] = 5;
    assert_eq!(solve(board), Err(RollError::UnsolvableBoard));
}

#[test]
fn entry_that_is_no_digit_is_unsolvable() {
    let mut board = puzzle();
    assert_eq!(board[1], 0);
    board[1] = 10;
    assert_eq!(solve(board), Err(RollError::UnsolvableBoard));
    let mut board = puzzle();
    board[1] = -1;
    assert_eq!(solve(board), Err(RollError::UnsolvableBoard));
}

#[test]
fn error_codes() {
    assert_eq!(RollError::InvalidBoardLength.code(), "INVALID_BOARD_LENGTH");
    assert_eq!(RollError::UnsolvableBoard.code(), "UNSOLVABLE_BOARD");
}
