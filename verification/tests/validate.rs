use sudoko_solver::{is_board_solved, SolvedBoard};

fn solution() -> SolvedBoard {
    [
        [3, 9, 1, 8, 7, 5, 2, 6, 4],
        [4, 2, 6, 9, 3, 1, 8, 5, 7],
        [7, 8, 5, 2, 4, 6, 9, 1, 3],
        [6, 3, 9, 7, 1, 8, 4, 2, 5],
        [1, 7, 8, 4, 5, 2, 3, 9, 6],
        [5, 4, 2, 3, 6, 9, 7, 8, 1],
        [8, 5, 4, 6, 2, 3, 1, 7, 9],
        [9, 1, 7, 5, 8, 4, 6, 3, 2],
        [2, 6, 3, 1, 9, 7, 5, 4, 8],
    ]
}

#[test]
fn finished_grid_has_no_repeat() {
    assert_eq!(is_board_solved(&solution()), Ok(()));
}

#[test]
fn repeat_in_row_is_found_at_the_second_cell() {
    let mut grid = solution();
    grid[0][1] = grid[0][0];
    assert_eq!(is_board_solved(&grid), Err((0, 1)));
}

#[test]
fn of_two_row_repeats_the_upper_is_reported() {
    let mut grid = solution();
    grid[4][8] = grid[4][2];
    grid[7][3] = grid[7][0];
    assert_eq!(is_board_solved(&grid), Err((4, 8)));
}

#[test]
fn repeat_in_column_is_found_when_rows_are_clean() {
    let mut grid = solution();
    grid[0].swap(2, 6);
    assert_eq!(is_board_solved(&grid), Err((5, 2)));
}

#[test]
fn repeat_in_block_is_found_when_rows_and_columns_are_clean() {
    let mut grid = solution();
    grid.swap(2, 3);
    assert_eq!(is_board_solved(&grid), Err((2, 0)));
}

#[test]
fn columns_swapped_across_blocks_give_a_block_repeat() {
    let mut grid = solution();
    for r in 0..9 {
        grid[r].swap(5, 6);
    }
    assert_eq!(is_board_solved(&grid), Err((1, 5)));
}

#[test]
fn rows_swapped_within_a_band_leave_the_grid_clean() {
    let mut grid = solution();
    grid.swap(6, 8);
    assert_eq!(is_board_solved(&grid), Ok(()));
}

#[test]
fn grid_of_zeros_repeats_at_once() {
    let grid: SolvedBoard = [[0; 9]; 9];
    assert_eq!(is_board_solved(&grid), Err((0, 1)));
}

#[test]
fn only_repetition_is_tested_not_the_range() {
    let mut grid = solution();
    for r in 0..9 {
        for c in 0..9 {
            grid[r][c] += 10;
        }
    }
    assert_eq!(is_board_solved(&grid), Ok(()));
}
