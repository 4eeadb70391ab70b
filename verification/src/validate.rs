//! The final test of a filled board: does any value occur twice in a row, a
//! column or a block?
use crate::grid::{
    at, before, grid_view, in_grid, lemma_grid_view, peers, peers_differ, same_block,
};
use crate::grid::{Grid, SolvedBoard};
use std::collections::HashSet;
use vstd::prelude::*;

verus! {

broadcast use vstd::std_specs::hash::group_hash_axioms;

/// Cell `(r, c)` repeats a value that stands further left in its row.
pub open spec fn repeats_in_row(g: Grid, r: int, c: int) -> bool {
    exists|c2: int| 0 <= c2 < c && #[trigger] at(g, r, c2) == at(g, r, c)
}

/// Cell `(r, c)` repeats a value that stands further up in its column.
pub open spec fn repeats_in_col(g: Grid, r: int, c: int) -> bool {
    exists|r2: int| 0 <= r2 < r && #[trigger] at(g, r2, c) == at(g, r, c)
}

/// Cell `(r, c)` repeats a value that stands earlier in its block.
pub open spec fn repeats_in_block(g: Grid, r: int, c: int) -> bool {
    exists|r2: int, c2: int|
        in_grid(r2, c2) && same_block(r2, c2, r, c) && before(r2, c2, r, c) && #[trigger] at(
            g,
            r2,
            c2,
        ) == at(g, r, c)
}

/// No row of `g` holds a value twice.
pub open spec fn rows_clean(g: Grid) -> bool {
    forall|r: int, c: int| in_grid(r, c) ==> !#[trigger] repeats_in_row(g, r, c)
}

/// No column of `g` holds a value twice.
pub open spec fn cols_clean(g: Grid) -> bool {
    forall|r: int, c: int| in_grid(r, c) ==> !#[trigger] repeats_in_col(g, r, c)
}

/// No block of `g` holds a value twice.
pub open spec fn blocks_clean(g: Grid) -> bool {
    forall|r: int, c: int| in_grid(r, c) ==> !#[trigger] repeats_in_block(g, r, c)
}

/// Cell `(r1, c1)` is scanned before `(r2, c2)` when the grid is read column
/// by column, each column from top to bottom.
pub open spec fn before_by_cols(r1: int, c1: int, r2: int, c2: int) -> bool {
    before(c1, r1, c2, r2)
}

/// Cell `(r1, c1)` is scanned before `(r2, c2)` when the grid is read block
/// by block (the blocks row by row), each block row by row.
pub open spec fn before_by_blocks(r1: int, c1: int, r2: int, c2: int) -> bool {
    ||| r1 / 3 < r2 / 3
    ||| (r1 / 3 == r2 / 3 && c1 / 3 < c2 / 3)
    ||| (same_block(r1, c1, r2, c2) && before(r1, c1, r2, c2))
}

/// `(r, c)` is the first repeat met when the rows are scanned.
pub open spec fn first_row_repeat(g: Grid, r: int, c: int) -> bool {
    &&& repeats_in_row(g, r, c)
    &&& forall|r2: int, c2: int|
        in_grid(r2, c2) && before(r2, c2, r, c) ==> !#[trigger] repeats_in_row(g, r2, c2)
}

/// `(r, c)` is the first repeat met when the columns are scanned.
pub open spec fn first_col_repeat(g: Grid, r: int, c: int) -> bool {
    &&& repeats_in_col(g, r, c)
    &&& forall|r2: int, c2: int|
        in_grid(r2, c2) && before_by_cols(r2, c2, r, c) ==> !#[trigger] repeats_in_col(g, r2, c2)
}

/// `(r, c)` is the first repeat met when the blocks are scanned.
pub open spec fn first_block_repeat(g: Grid, r: int, c: int) -> bool {
    &&& repeats_in_block(g, r, c)
    &&& forall|r2: int, c2: int|
        in_grid(r2, c2) && before_by_blocks(r2, c2, r, c) ==> !#[trigger] repeats_in_block(
            g,
            r2,
            c2,
        )
}

/// `(r, c)` is the repeat that a scan of all rows, then all columns, then
/// all blocks meets first.
pub open spec fn first_repeat(g: Grid, r: int, c: int) -> bool {
    &&& in_grid(r, c)
    &&& {
        ||| first_row_repeat(g, r, c)
        ||| (rows_clean(g) && first_col_repeat(g, r, c))
        ||| (rows_clean(g) && cols_clean(g) && first_block_repeat(g, r, c))
    }
}

/// A grid is free of repeats exactly when its peers differ pairwise.
pub proof fn lemma_clean_iff_peers_differ(g: Grid)
    ensures
        (rows_clean(g) && cols_clean(g) && blocks_clean(g)) <==> peers_differ(g),
{
    if rows_clean(g) && cols_clean(g) && blocks_clean(g) {
        assert forall|r1: int, c1: int, r2: int, c2: int|
            in_grid(r1, c1) && in_grid(r2, c2) && peers(r1, c1, r2, c2) implies #[trigger] at(
            g,
            r1,
            c1,
        ) != #[trigger] at(g, r2, c2) by {
            if at(g, r1, c1) == at(g, r2, c2) {
                if before(r1, c1, r2, c2) {
                    assert(repeats_in_row(g, r2, c2) || repeats_in_col(g, r2, c2)
                        || repeats_in_block(g, r2, c2));
                } else {
                    assert(repeats_in_row(g, r1, c1) || repeats_in_col(g, r1, c1)
                        || repeats_in_block(g, r1, c1));
                }
            }
        }
    }
    if peers_differ(g) {
        assert forall|r: int, c: int| in_grid(r, c) implies !#[trigger] repeats_in_row(
            g,
            r,
            c,
        ) by {
            if repeats_in_row(g, r, c) {
                let c2: int = choose|c2: int| 0 <= c2 < c && #[trigger] at(g, r, c2) == at(g, r, c);
                assert(peers(r, c2, r, c));
            }
        }
        assert forall|r: int, c: int| in_grid(r, c) implies !#[trigger] repeats_in_col(
            g,
            r,
            c,
        ) by {
            if repeats_in_col(g, r, c) {
                let r2: int = choose|r2: int| 0 <= r2 < r && #[trigger] at(g, r2, c) == at(g, r, c);
                assert(peers(r2, c, r, c));
            }
        }
        assert forall|r: int, c: int| in_grid(r, c) implies !#[trigger] repeats_in_block(
            g,
            r,
            c,
        ) by {
            if repeats_in_block(g, r, c) {
                let (r2, c2): (int, int) = choose|r2: int, c2: int|
                    in_grid(r2, c2) && same_block(r2, c2, r, c) && before(r2, c2, r, c)
                        && #[trigger] at(g, r2, c2) == at(g, r, c);
                assert(peers(r2, c2, r, c));
            }
        }
    }
}

/// Scans the rows, then the columns, then the blocks of a filled board for a
/// value that occurs twice in one of them. `Ok` means there is none; `Err`
/// carries the row and column of the first repeat that the scan meets.
///
/// Only repetition is tested here: whether the values are digits is not.
pub fn is_board_solved(solved_board: &SolvedBoard) -> (res: Result<(), (usize, usize)>)
    ensures
        res is Ok <==> peers_differ(grid_view(*solved_board)),
        res matches Err((r, c)) ==> first_repeat(grid_view(*solved_board), r as int, c as int),
{
    let ghost g: Grid = grid_view(*solved_board);
    proof {
        lemma_grid_view(*solved_board);
    }
    proof {
        lemma_clean_iff_peers_differ(g);
    }
    let mut seen: HashSet<i32> = HashSet::new();

    for row_index in 0..9usize
        invariant
            g == grid_view(*solved_board),
            forall|r: int, c: int|
                in_grid(r, c) ==> #[trigger] at(g, r, c) == solved_board[r][c] as int,
            forall|r2: int, c2: int|
                in_grid(r2, c2) && r2 < row_index ==> !#[trigger] repeats_in_row(g, r2, c2),
    {
        seen.clear();
        for col_index in 0..9usize
            invariant
                row_index < 9,
                g == grid_view(*solved_board),
                forall|r: int, c: int|
                    in_grid(r, c) ==> #[trigger] at(g, r, c) == solved_board[r][c] as int,
                forall|r2: int, c2: int|
                    in_grid(r2, c2) && before(r2, c2, row_index as int, col_index as int)
                        ==> !#[trigger] repeats_in_row(g, r2, c2),
                forall|v: i32|
                    seen@.contains(v) <==> exists|c2: int|
                        0 <= c2 < col_index && #[trigger] at(g, row_index as int, c2) == v,
        {
            let val: i32 = solved_board[row_index][col_index];
            assert(at(g, row_index as int, col_index as int) == val);
            if seen.contains(&val) {
                return Err((row_index, col_index));
            }
            seen.insert(val);
        }
    }

    for col_index in 0..9usize
        invariant
            g == grid_view(*solved_board),
            forall|r: int, c: int|
                in_grid(r, c) ==> #[trigger] at(g, r, c) == solved_board[r][c] as int,
            rows_clean(g),
            forall|r2: int, c2: int|
                in_grid(r2, c2) && c2 < col_index ==> !#[trigger] repeats_in_col(g, r2, c2),
    {
        seen.clear();
        for row_index in 0..9usize
            invariant
                col_index < 9,
                g == grid_view(*solved_board),
                forall|r: int, c: int|
                    in_grid(r, c) ==> #[trigger] at(g, r, c) == solved_board[r][c] as int,
                rows_clean(g),
                forall|r2: int, c2: int|
                    in_grid(r2, c2) && before_by_cols(r2, c2, row_index as int, col_index as int)
                        ==> !#[trigger] repeats_in_col(g, r2, c2),
                forall|v: i32|
                    seen@.contains(v) <==> exists|r2: int|
                        0 <= r2 < row_index && #[trigger] at(g, r2, col_index as int) == v,
        {
            let val: i32 = solved_board[row_index][col_index];
            assert(at(g, row_index as int, col_index as int) == val);
            if seen.contains(&val) {
                return Err((row_index, col_index));
            }
            seen.insert(val);
        }
    }

    for block_row_index in 0..3usize
        invariant
            g == grid_view(*solved_board),
            forall|r: int, c: int|
                in_grid(r, c) ==> #[trigger] at(g, r, c) == solved_board[r][c] as int,
            rows_clean(g),
            cols_clean(g),
            forall|r2: int, c2: int|
                in_grid(r2, c2) && r2 / 3 < block_row_index ==> !#[trigger] repeats_in_block(
                    g,
                    r2,
                    c2,
                ),
    {
        for block_col_index in 0..3usize
            invariant
                block_row_index < 3,
                g == grid_view(*solved_board),
                forall|r: int, c: int|
                    in_grid(r, c) ==> #[trigger] at(g, r, c) == solved_board[r][c] as int,
                rows_clean(g),
                cols_clean(g),
                forall|r2: int, c2: int|
                    in_grid(r2, c2) && (r2 / 3 < block_row_index || (r2 / 3 == block_row_index
                        && c2 / 3 < block_col_index)) ==> !#[trigger] repeats_in_block(g, r2, c2),
        {
            seen.clear();
            for cell_row_index in 0..3usize
                invariant
                    block_row_index < 3,
                    block_col_index < 3,
                    g == grid_view(*solved_board),
                    forall|r: int, c: int|
                        in_grid(r, c) ==> #[trigger] at(g, r, c) == solved_board[r][c] as int,
                    rows_clean(g),
                    cols_clean(g),
                    forall|r2: int, c2: int|
                        in_grid(r2, c2) && scanned_by_blocks(
                            r2,
                            c2,
                            block_row_index as int,
                            block_col_index as int,
                            cell_row_index as int,
                            0,
                        ) ==> !#[trigger] repeats_in_block(g, r2, c2),
                    forall|v: i32|
                        seen@.contains(v) <==> exists|r2: int, c2: int|
                            in_block_so_far(
                                r2,
                                c2,
                                block_row_index as int,
                                block_col_index as int,
                                cell_row_index as int,
                                0,
                            ) && #[trigger] at(g, r2, c2) == v,
            {
                for cell_col_index in 0..3usize
                    invariant
                        block_row_index < 3,
                        block_col_index < 3,
                        cell_row_index < 3,
                        g == grid_view(*solved_board),
                        forall|r: int, c: int|
                            in_grid(r, c) ==> #[trigger] at(g, r, c) == solved_board[r][c] as int,
                        rows_clean(g),
                        cols_clean(g),
                        forall|r2: int, c2: int|
                            in_grid(r2, c2) && scanned_by_blocks(
                                r2,
                                c2,
                                block_row_index as int,
                                block_col_index as int,
                                cell_row_index as int,
                                cell_col_index as int,
                            ) ==> !#[trigger] repeats_in_block(g, r2, c2),
                        forall|v: i32|
                            seen@.contains(v) <==> exists|r2: int, c2: int|
                                in_block_so_far(
                                    r2,
                                    c2,
                                    block_row_index as int,
                                    block_col_index as int,
                                    cell_row_index as int,
                                    cell_col_index as int,
                                ) && #[trigger] at(g, r2, c2) == v,
                {
                    let row_index: usize = block_row_index * 3 + cell_row_index;
                    let col_index: usize = block_col_index * 3 + cell_col_index;
                    let val: i32 = solved_board[row_index][col_index];
                    assert(at(g, row_index as int, col_index as int) == val);
                    if seen.contains(&val) {
                        return Err((row_index, col_index));
                    }
                    seen.insert(val);
                }
            }
        }
    }

    return Ok(());
}

/// Within block `(br, bc)`, cell `(r, c)` stands before the cell at row `cr`
/// and column `cc` of the block.
pub open spec fn in_block_so_far(r: int, c: int, br: int, bc: int, cr: int, cc: int) -> bool {
    &&& in_grid(r, c)
    &&& r / 3 == br
    &&& c / 3 == bc
    &&& before(r, c, 3 * br + cr, 3 * bc + cc)
}

/// Cell `(r, c)` lies in a block before `(br, bc)`, or in that block before
/// the cell at row `cr` and column `cc` of the block.
pub open spec fn scanned_by_blocks(r: int, c: int, br: int, bc: int, cr: int, cc: int) -> bool {
    ||| r / 3 < br
    ||| (r / 3 == br && c / 3 < bc)
    ||| (r / 3 == br && c / 3 == bc && before(r, c, 3 * br + cr, 3 * bc + cc))
}

} // verus!
