//! The row, column and box rules: which values a unit holds, whether a
//! digit may be placed in a cell, and whether a grid as a whole keeps the
//! rules.

use crate::grid::{
    board, in_grid, lemma_board_cells, well_formed, Board, Grid, BOX, N, UNASSIGNED,
};
use vstd::prelude::*;

verus! {

/// The first row (or column) of the box that row (or column) `x` runs
/// through.
pub open spec fn box_start(x: int) -> int {
    x - x % 3
}

/// Cells `(r1, c1)` and `(r2, c2)` lie in one row, one column or one box.
pub open spec fn same_unit(r1: int, c1: int, r2: int, c2: int) -> bool {
    r1 == r2 || c1 == c2 || (r1 / 3 == r2 / 3 && c1 / 3 == c2 / 3)
}

/// Two different cells that lie in one row, one column or one box.
pub open spec fn peers(r1: int, c1: int, r2: int, c2: int) -> bool {
    (r1 != r2 || c1 != c2) && same_unit(r1, c1, r2, c2)
}

/// Some cell of row `r` holds `v`.
pub open spec fn in_row(b: Board, r: int, v: nat) -> bool {
    exists|c: int| 0 <= c < N && #[trigger] b[r][c] == v
}

/// Some cell of column `c` holds `v`.
pub open spec fn in_col(b: Board, c: int, v: nat) -> bool {
    exists|r: int| 0 <= r < N && #[trigger] b[r][c] == v
}

/// Some cell of the three-by-three block whose top left cell is `(r0, c0)`
/// holds `v`.
pub open spec fn in_box(b: Board, r0: int, c0: int, v: nat) -> bool {
    exists|r: int, c: int| r0 <= r < r0 + BOX && c0 <= c < c0 + BOX && #[trigger] b[r][c] == v
}

/// `v` may be placed at `(r, c)`: neither the row of the cell, nor its
/// column, nor its box holds `v` already, and the cell is unassigned.
pub open spec fn is_legal(b: Board, r: int, c: int, v: nat) -> bool {
    &&& !in_row(b, r, v)
    &&& !in_col(b, c, v)
    &&& !in_box(b, box_start(r), box_start(c), v)
    &&& b[r][c] == 0
}

/// No peer of `(r, c)` holds `v`.
pub open spec fn no_peer_holds(b: Board, r: int, c: int, v: nat) -> bool {
    forall|i: int, j: int| in_grid(i, j) && peers(r, c, i, j) ==> #[trigger] b[i][j] != v
}

/// The cell `(r, c)` holds a digit from 1 to 9 that none of its peers
/// holds.
pub open spec fn well_placed(b: Board, r: int, c: int) -> bool {
    1 <= b[r][c] <= 9 && no_peer_holds(b, r, c, b[r][c])
}

/// Every value of the board is 0 or a digit from 1 to 9.
pub open spec fn in_digits(b: Board) -> bool {
    forall|r: int, c: int| in_grid(r, c) ==> #[trigger] b[r][c] <= 9
}

/// No two peers hold the same digit.
pub open spec fn conflict_free(b: Board) -> bool {
    forall|r: int, c: int|
        in_grid(r, c) && #[trigger] b[r][c] != 0 ==> no_peer_holds(b, r, c, b[r][c])
}

/// A partial assignment that keeps the rules: nine rows of nine values
/// from 0 to 9, and no digit twice in a row, a column or a box.
pub open spec fn consistent(b: Board) -> bool {
    well_formed(b) && in_digits(b) && conflict_free(b)
}

/// Why a grid is turned away before any search.
#[derive(Clone, Copy, Debug, PartialEq, Eq)]
pub enum GridError {
    /// Some cell holds a value above 9.
    OutOfRange,
    /// Every value is in range, and two cells of one row, column or box
    /// hold the same digit.
    Conflict,
}

/// The error that a board is turned away with, if any.
pub open spec fn grid_error(b: Board) -> Option<GridError> {
    if !in_digits(b) {
        Some(GridError::OutOfRange)
    } else if !conflict_free(b) {
        Some(GridError::Conflict)
    } else {
        None
    }
}

/// At an unassigned cell a value other than 0 is legal exactly when no
/// peer holds it; 0 is legal nowhere, and nothing is legal at an assigned
/// cell.
pub proof fn lemma_legal_by_peers(b: Board, r: int, c: int, v: nat)
    requires
        in_grid(r, c),
    ensures
        is_legal(b, r, c, v) <==> v != 0 && b[r][c] == 0 && no_peer_holds(b, r, c, v),
{
    if is_legal(b, r, c, v) {
        if v == 0 {
            assert(b[r][c] == v);
            assert(in_row(b, r, v));
        }
        assert forall|i: int, j: int| in_grid(i, j) && peers(r, c, i, j) implies #[trigger] b[i][j]
            != v by {
            if b[i][j] == v {
                if i == r {
                    assert(in_row(b, r, v));
                } else if j == c {
                    assert(in_col(b, c, v));
                } else {
                    assert(in_box(b, box_start(r), box_start(c), v));
                }
            }
        }
    }
    if v != 0 && b[r][c] == 0 && no_peer_holds(b, r, c, v) {
        if in_row(b, r, v) {
            let j = choose|j: int| 0 <= j < N && #[trigger] b[r][j] == v;
            assert(in_grid(r, j) && peers(r, c, r, j));
        }
        if in_col(b, c, v) {
            let i = choose|i: int| 0 <= i < N && #[trigger] b[i][c] == v;
            assert(in_grid(i, c) && peers(r, c, i, c));
        }
        if in_box(b, box_start(r), box_start(c), v) {
            let (i, j) = choose|i: int, j: int|
                box_start(r) <= i < box_start(r) + BOX && box_start(c) <= j < box_start(c) + BOX
                    && #[trigger] b[i][j] == v;
            assert(in_grid(i, j) && peers(r, c, i, j));
        }
    }
}

/// Whether some cell of row `rowindex` holds `num`.
pub fn used_in_row(grid: Grid, rowindex: usize, num: usize) -> (used: bool)
    requires
        rowindex < N,
    ensures
        used <==> in_row(board(grid), rowindex as int, num as nat),
{
    for col in 0..N
        invariant
            rowindex < N,
            forall|c: int| 0 <= c < col ==> #[trigger] board(grid)[rowindex as int][c] != num,
    {
        if grid[rowindex][col] == num {
            assert(board(grid)[rowindex as int][col as int] == num);
            return true;
        }
        assert(board(grid)[rowindex as int][col as int] != num);
    }
    false
}

/// Whether some cell of column `colindex` holds `num`.
pub fn used_in_col(grid: Grid, colindex: usize, num: usize) -> (used: bool)
    requires
        colindex < N,
    ensures
        used <==> in_col(board(grid), colindex as int, num as nat),
{
    for row in 0..N
        invariant
            colindex < N,
            forall|r: int| 0 <= r < row ==> #[trigger] board(grid)[r][colindex as int] != num,
    {
        if grid[row][colindex] == num {
            assert(board(grid)[row as int][colindex as int] == num);
            return true;
        }
        assert(board(grid)[row as int][colindex as int] != num);
    }
    false
}

/// Whether some cell of the three-by-three block whose top left cell is
/// `(box_start_row, box_start_col)` holds `num`. The block must lie inside
/// the grid.
pub fn used_in_box(grid: Grid, box_start_row: usize, box_start_col: usize, num: usize) -> (used:
    bool)
    requires
        box_start_row + BOX <= N,
        box_start_col + BOX <= N,
    ensures
        used <==> in_box(board(grid), box_start_row as int, box_start_col as int, num as nat),
{
    for row in 0..BOX
        invariant
            box_start_row + BOX <= N,
            box_start_col + BOX <= N,
            forall|r: int, c: int|
                box_start_row <= r < box_start_row + row && box_start_col <= c < box_start_col + BOX
                    ==> #[trigger] board(grid)[r][c] != num,
    {
        for col in 0..BOX
            invariant
                row < BOX,
                box_start_row + BOX <= N,
                box_start_col + BOX <= N,
                forall|r: int, c: int|
                    box_start_row <= r < box_start_row + row && box_start_col <= c < box_start_col
                        + BOX ==> #[trigger] board(grid)[r][c] != num,
                forall|c: int|
                    box_start_col <= c < box_start_col + col ==> #[trigger] board(
                        grid,
                    )[box_start_row + row][c] != num,
        {
            if grid[row + box_start_row][col + box_start_col] == num {
                assert(board(grid)[row + box_start_row][col + box_start_col] == num);
                return true;
            }
            assert(board(grid)[box_start_row + row][box_start_col + col] != num);
        }
    }
    false
}

/// Whether `num` may be placed at `(row, col)`: `num` occurs neither in the
/// row of the cell, nor in its column, nor in its box, and the cell is
/// unassigned.
pub fn is_safe(grid: Grid, row: usize, col: usize, num: usize) -> (safe: bool)
    requires
        row < N,
        col < N,
    ensures
        safe <==> is_legal(board(grid), row as int, col as int, num as nat),
{
    assert(board(grid)[row as int][col as int] == grid[row as int][col as int]);
    !used_in_row(grid, row, num) && !used_in_col(grid, col, num) && !used_in_box(
        grid,
        row - row % BOX,
        col - col % BOX,
        num,
    ) && grid[row][col] == UNASSIGNED
}

/// With a cell cleared, the digit that it held is legal there exactly when
/// no peer holds it.
proof fn lemma_legal_where_cleared(grid: Grid, others: Grid, r: int, c: int)
    requires
        in_grid(r, c),
        grid[r][c] != 0,
        others[r][c] == 0,
        forall|i: int, j: int|
            in_grid(i, j) && !(i == r && j == c) ==> #[trigger] others[i][j] == grid[i][j],
    ensures
        is_legal(board(others), r, c, grid[r][c] as nat) <==> no_peer_holds(
            board(grid),
            r,
            c,
            board(grid)[r][c],
        ),
{
    let v = grid[r][c] as nat;
    lemma_board_cells(grid);
    lemma_board_cells(others);
    lemma_legal_by_peers(board(others), r, c, v);
    if no_peer_holds(board(others), r, c, v) {
        assert forall|i: int, j: int| in_grid(i, j) && peers(r, c, i, j) implies #[trigger] board(
            grid,
        )[i][j] != v by {
            assert(board(others)[i][j] != v);
            assert(others[i][j] == grid[i][j]);
        }
    }
    if no_peer_holds(board(grid), r, c, v) {
        assert forall|i: int, j: int| in_grid(i, j) && peers(r, c, i, j) implies #[trigger] board(
            others,
        )[i][j] != v by {
            assert(board(grid)[i][j] != v);
            assert(others[i][j] == grid[i][j]);
        }
    }
}

/// Checks a grid before a search. A value above 9 anywhere gives
/// `OutOfRange`; otherwise a digit that stands twice in a row, a column or
/// a box gives `Conflict`; otherwise the grid is consistent.
pub fn check_grid(grid: Grid) -> (r: Result<(), GridError>)
    ensures
        r is Ok <==> consistent(board(grid)),
        r == match grid_error(board(grid)) {
            Some(e) => Err::<(), GridError>(e),
            None => Ok(()),
        },
{
    proof {
        lemma_board_cells(grid);
    }
    for i in 0..N
        invariant
            forall|r: int, c: int| 0 <= r < i && 0 <= c < N ==> #[trigger] board(grid)[r][c] <= 9,
    {
        for j in 0..N
            invariant
                i < N,
                forall|r: int, c: int|
                    0 <= r < i && 0 <= c < N ==> #[trigger] board(grid)[r][c] <= 9,
                forall|c: int| 0 <= c < j ==> #[trigger] board(grid)[i as int][c] <= 9,
        {
            if grid[i][j] > 9 {
                assert(board(grid)[i as int][j as int] > 9);
                return Err(GridError::OutOfRange);
            }
            assert(board(grid)[i as int][j as int] <= 9);
        }
    }
    assert(in_digits(board(grid)));
    for i in 0..N
        invariant
            in_digits(board(grid)),
            forall|r: int, c: int|
                0 <= r < i && 0 <= c < N && #[trigger] board(grid)[r][c] != 0 ==> no_peer_holds(
                    board(grid),
                    r,
                    c,
                    board(grid)[r][c],
                ),
    {
        for j in 0..N
            invariant
                i < N,
                in_digits(board(grid)),
                forall|r: int, c: int|
                    0 <= r < i && 0 <= c < N && #[trigger] board(grid)[r][c] != 0
                        ==> no_peer_holds(board(grid), r, c, board(grid)[r][c]),
                forall|c: int|
                    0 <= c < j && #[trigger] board(grid)[i as int][c] != 0 ==> no_peer_holds(
                        board(grid),
                        i as int,
                        c,
                        board(grid)[i as int][c],
                    ),
        {
            let num: usize = grid[i][j];
            if num != UNASSIGNED {
                // The digit conflicts with a peer exactly when it could not
                // be placed again with its cell cleared.
                let mut others: Grid = grid;
                others[i][j] = UNASSIGNED;
                let free: bool = is_safe(others, i, j, num);
                proof {
                    lemma_board_cells(grid);
                    lemma_legal_where_cleared(grid, others, i as int, j as int);
                }
                if !free {
                    assert(board(grid)[i as int][j as int] != 0);
                    return Err(GridError::Conflict);
                }
            }
        }
    }
    Ok(())
}

} // verus!
