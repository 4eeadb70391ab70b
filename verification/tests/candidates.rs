use sudoko_solver::candidates::PossibleMovesCell::{Solved, Unknown};
use sudoko_solver::candidates::{PossibleMoves, PossibleMovesBuilder};
use sudoko_solver::{Board, SolvedBoard, Solver};

fn puzzle() -> Board {
    [
        [Some(3), None, None, Some(8), None, None, None, None, None],
        [Some(4), None, Some(6), Some(9), Some(3), Some(1), None, None, None],
        [None, None, Some(5), None, Some(4), None, Some(9), None, None],
        [None, None, None, None, None, None, Some(4), None, None],
        [Some(1), Some(7), Some(8), None, None, Some(2), None, Some(9), None],
        [Some(5), None, Some(2), None, None, None, None, None, Some(1)],
        [None, None, Some(4), None, Some(2), None, None, None, None],
        [None, None, Some(7), Some(5), None, None, Some(6), Some(3), Some(2)],
        [None, None, Some(3), None, Some(9), None, Some(5), Some(4), None],
    ]
}

fn solution() -> SolvedBoard {
    [
        [3, 9, 1, 8, 7, 5, 2, 6, 4],
        [4, 2, 6, 9, 3, 1, 8, 5, 7],
        [7, 8, 5, 2, 4, 6, 9, 1, 3],
        [6, 3, 9, 7, 1, 8, 4, 2, 5],
        [1, 7, 8, 4, 5, 2, 3, 9, 6],
        [5, 4, 2, 3, 6, 9, 7, 8, 1],
        [8, 5, 4, 6, 2, 3, 1, 7, 9],
        [9, 1, 7, 5, 8, 4, 6, 3, 2],
        [2, 6, 3, 1, 9, 7, 5, 4, 8],
    ]
}

fn first_grid() -> SolvedBoard {
    [
        [1, 2, 3, 4, 5, 6, 7, 8, 9],
        [4, 5, 6, 7, 8, 9, 1, 2, 3],
        [7, 8, 9, 1, 2, 3, 4, 5, 6],
        [2, 1, 4, 3, 6, 5, 8, 9, 7],
        [3, 6, 5, 8, 9, 7, 2, 1, 4],
        [8, 9, 7, 2, 1, 4, 3, 6, 5],
        [5, 3, 1, 6, 4, 2, 9, 7, 8],
        [6, 4, 2, 9, 7, 8, 5, 3, 1],
        [9, 7, 8, 5, 3, 1, 6, 4, 2],
    ]
}

fn empty() -> Board {
    [[None; 9]; 9]
}

fn all_digits() -> Vec<i32> {
    vec![1, 2, 3, 4, 5, 6, 7, 8, 9]
}

fn all_open() -> PossibleMoves {
    core::array::from_fn(|_| core::array::from_fn(|_| Unknown(all_digits())))
}

#[test]
fn candidate_grid_of_a_puzzle() {
    let board = puzzle();
    let moves = PossibleMovesBuilder::from_board(&board).build();
    let expected: PossibleMoves = [
        [
            Solved(3),
            Unknown(vec![1, 2, 9]),
            Unknown(vec![1, 9]),
            Solved(8),
            Unknown(vec![5, 6, 7]),
            Unknown(vec![5, 6, 7]),
            Unknown(vec![1, 2, 7]),
            Unknown(vec![1, 2, 5, 6, 7]),
            Unknown(vec![4, 5, 6, 7]),
        ],
        [
            Solved(4),
            Unknown(vec![2, 8]),
            Solved(6),
            Solved(9),
            Solved(3),
            Solved(1),
            Unknown(vec![2, 7, 8]),
            Unknown(vec![2, 5, 7, 8]),
            Unknown(vec![5, 7, 8]),
        ],
        [
            Unknown(vec![2, 7, 8]),
            Unknown(vec![1, 2, 8]),
            Solved(5),
            Unknown(vec![2, 6, 7]),
            Solved(4),
            Unknown(vec![6, 7]),
            Solved(9),
            Unknown(vec![1, 2, 6, 7, 8]),
            Unknown(vec![3, 6, 7, 8]),
        ],
        [
            Unknown(vec![6, 9]),
            Unknown(vec![3, 6, 9]),
            Solved(9),
            Unknown(vec![1, 3, 6, 7]),
            Unknown(vec![1, 5, 6, 7, 8]),
            Unknown(vec![3, 5, 6, 7, 8, 9]),
            Solved(4),
            Unknown(vec![2, 5, 6, 7, 8]),
            Unknown(vec![3, 5, 6, 7, 8]),
        ],
        [
            Solved(1),
            Solved(7),
            Solved(8),
            Unknown(vec![3, 4, 6]),
            Unknown(vec![5, 6]),
            Solved(2),
            Solved(3),
            Solved(9),
            Unknown(vec![3, 5, 6]),
        ],
        [
            Solved(5),
            Unknown(vec![3, 4, 6, 9]),
            Solved(2),
            Unknown(vec![3, 4, 6, 7]),
            Unknown(vec![6, 7, 8]),
            Unknown(vec![3, 4, 6, 7, 8, 9]),
            Unknown(vec![3, 7, 8]),
            Unknown(vec![6, 7, 8]),
            Solved(1),
        ],
        [
            Unknown(vec![6, 8, 9]),
            Unknown(vec![1, 5, 6, 8, 9]),
            Solved(4),
            Unknown(vec![1, 3, 6, 7]),
            Solved(2),
            Unknown(vec![3, 6, 7, 8]),
            Unknown(vec![1, 7, 8]),
            Unknown(vec![1, 7, 8]),
            Unknown(vec![7, 8, 9]),
        ],
        [
            Unknown(vec![8, 9]),
            Unknown(vec![1, 8, 9]),
            Solved(7),
            Solved(5),
            Unknown(vec![1, 8]),
            Unknown(vec![4, 8]),
            Solved(6),
            Solved(3),
            Solved(2),
        ],
        [
            Unknown(vec![2, 6, 8]),
            Unknown(vec![1, 2, 6, 8]),
            Solved(3),
            Unknown(vec![1, 6, 7]),
            Solved(9),
            Unknown(vec![6, 7, 8]),
            Solved(5),
            Solved(4),
            Unknown(vec![7, 8]),
        ],
    ];
    assert_eq!(moves, expected);
}

#[test]
fn given_cell_is_settled_with_its_digit() {
    let board = puzzle();
    let moves = PossibleMovesBuilder::from_board(&board).build();
    for r in 0..9 {
        for c in 0..9 {
            if let Some(d) = board[r][c] {
                assert_eq!(moves[r][c], Solved(d));
            }
        }
    }
}

#[test]
fn empty_board_leaves_every_digit_everywhere() {
    let board = empty();
    let moves = PossibleMovesBuilder::from_board(&board).build();
    assert_eq!(moves, all_open());
}

#[test]
fn a_given_is_taken_from_its_row_column_and_block_only() {
    let mut board = empty();
    board[4][4] = Some(5);
    let moves = PossibleMovesBuilder::from_board(&board).build();
    let without_five = Unknown(vec![1, 2, 3, 4, 6, 7, 8, 9]);
    for r in 0..9 {
        for c in 0..9 {
            if r == 4 && c == 4 {
                assert_eq!(moves[r][c], Solved(5));
            } else if r == 4 || c == 4 || (r / 3 == 1 && c / 3 == 1) {
                assert_eq!(moves[r][c], without_five);
            } else {
                assert_eq!(moves[r][c], Unknown(all_digits()));
            }
        }
    }
}

#[test]
fn single_candidate_settles_the_cell() {
    let mut board = empty();
    for c in 0..8 {
        board[0][c] = Some(c as i32 + 1);
    }
    let moves = PossibleMovesBuilder::from_board(&board).build();
    assert_eq!(moves[0][8], Solved(9));
}

#[test]
fn settled_cell_does_not_narrow_its_neighbours() {
    let mut board = empty();
    for c in 0..8 {
        board[0][c] = Some(c as i32 + 1);
    }
    let moves = PossibleMovesBuilder::from_board(&board).build();
    assert_eq!(moves[0][8], Solved(9));
    assert_eq!(moves[1][8], Unknown(vec![1, 2, 3, 4, 5, 6, 9]));
    assert_eq!(moves[3][8], Unknown(all_digits()));
    let board = puzzle();
    let moves = PossibleMovesBuilder::from_board(&board).build();
    assert_eq!(board[3][2], None);
    assert_eq!(moves[3][2], Solved(9));
    assert_eq!(moves[3][0], Unknown(vec![6, 9]));
}

#[test]
fn cell_without_candidates_stays_open_and_empty() {
    let mut board = empty();
    for c in 0..8 {
        board[0][c] = Some(c as i32 + 1);
    }
    board[5][8] = Some(9);
    let moves = PossibleMovesBuilder::from_board(&board).build();
    assert_eq!(moves[0][8], Unknown(vec![]));
}

#[test]
fn repeated_given_leaves_candidates_elsewhere() {
    let mut board = empty();
    board[2][2] = Some(4);
    board[2][3] = Some(4);
    let moves = PossibleMovesBuilder::from_board(&board).build();
    assert_eq!(moves[2][2], Solved(4));
    assert_eq!(moves[2][3], Solved(4));
    assert_eq!(moves[2][4], Unknown(vec![1, 2, 3, 5, 6, 7, 8, 9]));
    for row in moves.iter() {
        for cell in row.iter() {
            assert_ne!(*cell, Unknown(vec![]));
        }
    }
}

#[test]
fn given_that_is_no_digit_is_settled_as_it_stands() {
    let mut board = empty();
    board[0][0] = Some(10);
    let moves = PossibleMovesBuilder::from_board(&board).build();
    assert_eq!(moves[0][0], Solved(10));
    assert_eq!(moves[0][1], Unknown(all_digits()));
}

#[test]
fn search_finds_the_solution_of_the_candidate_grid() {
    let board = puzzle();
    let moves = PossibleMovesBuilder::from_board(&board).build();
    let solver = Solver { board };
    assert_eq!(solver._solve(&moves), Some(solution()));
}

#[test]
fn search_over_all_digits_finds_the_first_grid() {
    let solver = Solver { board: empty() };
    assert_eq!(solver._solve(&all_open()), Some(first_grid()));
}

#[test]
fn search_tries_candidates_in_the_order_of_their_list() {
    let mut moves = all_open();
    moves[0][0] = Unknown(vec![2, 3]);
    let solver = Solver { board: empty() };
    let solved = solver._solve(&moves).unwrap();
    assert_eq!(solved[0], [2, 1, 3, 4, 5, 6, 7, 8, 9]);
}

#[test]
fn search_keeps_settled_cells() {
    let grid = solution();
    let moves: PossibleMoves = core::array::from_fn(|r| core::array::from_fn(|c| Solved(grid[r][c])));
    let solver = Solver { board: empty() };
    assert_eq!(solver._solve(&moves), Some(grid));
}

#[test]
fn search_stops_at_an_open_cell_without_candidates() {
    let mut moves = all_open();
    moves[8][8] = Unknown(vec![]);
    let solver = Solver { board: empty() };
    assert_eq!(solver._solve(&moves), None);
}

#[test]
fn search_refuses_settled_cells_that_collide() {
    let mut moves = all_open();
    moves[0][0] = Solved(1);
    moves[8][0] = Solved(1);
    let solver = Solver { board: empty() };
    assert_eq!(solver._solve(&moves), None);
    let mut moves = all_open();
    moves[4][4] = Solved(0);
    assert_eq!(solver._solve(&moves), None);
}

#[test]
fn search_backs_out_of_a_settled_cell_that_a_placement_hits() {
    let mut moves = all_open();
    moves[0][8] = Solved(1);
    let solver = Solver { board: empty() };
    let solved = solver._solve(&moves).unwrap();
    assert_eq!(solved[0], [2, 3, 4, 5, 6, 7, 8, 9, 1]);
}

#[test]
fn search_follows_a_list_that_is_not_ascending() {
    let mut moves = all_open();
    moves[0][0] = Unknown(vec![3, 2]);
    moves[0][1] = Unknown(vec![9, 9, 1]);
    let solver = Solver { board: empty() };
    let solved = solver._solve(&moves).unwrap();
    assert_eq!(solved[0], [3, 9, 1, 2, 4, 5, 6, 7, 8]);
    assert_eq!(solved[1], [2, 4, 5, 6, 7, 8, 1, 3, 9]);
}

#[test]
fn search_with_descending_lists_finds_the_last_grid() {
    let moves: PossibleMoves =
        core::array::from_fn(|_| core::array::from_fn(|_| Unknown(vec![9, 8, 7, 6, 5, 4, 3, 2, 1])));
    let solver = Solver { board: empty() };
    let solved = solver._solve(&moves).unwrap();
    let mirrored = first_grid().map(|row| row.map(|d| 10 - d));
    assert_eq!(solved, mirrored);
}

#[test]
fn search_passes_over_candidates_that_are_no_digits() {
    let mut moves = all_open();
    moves[0][0] = Unknown(vec![0, 10, -1]);
    let solver = Solver { board: empty() };
    assert_eq!(solver._solve(&moves), None);
    moves[0][0] = Unknown(vec![0, 10, 4, -1]);
    let solved = solver._solve(&moves).unwrap();
    assert_eq!(solved[0][0], 4);
}

#[test]
fn search_does_not_look_at_the_board_of_the_solver() {
    let moves = PossibleMovesBuilder::from_board(&puzzle()).build();
    let solver = Solver { board: [[Some(1); 9]; 9] };
    assert_eq!(solver._solve(&moves), Some(solution()));
}
