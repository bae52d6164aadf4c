//! The grid, its mathematical model, and the row-major scan for the next
//! unassigned cell.

use vstd::prelude::*;

verus! {

/// Side length of the grid.
pub const N: usize = 9;

/// Side length of a box.
pub const BOX: usize = 3;

/// What a cell without a digit holds.
pub const UNASSIGNED: usize = 0;

/// The grid as executable code holds it: nine rows of nine cells, each 0
/// (unassigned) or a digit from 1 to 9.
pub type Grid = [[usize; N]; N];

/// The mathematical content of a grid: `b[r][c]` is the value in row `r`,
/// column `c`.
pub type Board = Seq<Seq<nat>>;

/// The board that a grid stands for.
pub open spec fn board(grid: Grid) -> Board {
    Seq::new(N as nat, |r: int| Seq::new(N as nat, |c: int| grid[r][c] as nat))
}

/// A board of nine rows of nine cells.
pub open spec fn well_formed(b: Board) -> bool {
    &&& b.len() == N
    &&& forall|r: int| 0 <= r < N ==> (#[trigger] b[r]).len() == N
}

/// `(r, c)` names a cell of the grid.
pub open spec fn in_grid(r: int, c: int) -> bool {
    0 <= r < N && 0 <= c < N
}

/// Cell `(r1, c1)` comes before cell `(r2, c2)` in row-major order.
pub open spec fn precedes(r1: int, c1: int, r2: int, c2: int) -> bool {
    r1 < r2 || (r1 == r2 && c1 < c2)
}

/// No cell of the board is unassigned.
pub open spec fn full(b: Board) -> bool {
    forall|r: int, c: int| in_grid(r, c) ==> #[trigger] b[r][c] != 0
}

/// `(r, c)` is unassigned, and every cell before it in row-major order is
/// assigned.
pub open spec fn first_unassigned(b: Board, r: int, c: int) -> bool {
    &&& in_grid(r, c)
    &&& b[r][c] == 0
    &&& forall|i: int, j: int| in_grid(i, j) && precedes(i, j, r, c) ==> #[trigger] b[i][j] != 0
}

/// The board `b` with cell `(r, c)` set to `v`.
pub open spec fn assign(b: Board, r: int, c: int, v: nat) -> Board {
    b.update(r, b[r].update(c, v))
}

/// The number of unassigned cells among those at row-major position `k`
/// and after.
pub open spec fn unassigned_from(b: Board, k: int) -> nat
    decreases N * N - k,
{
    if 0 <= k < N * N {
        (if b[k / (N as int)][k % (N as int)] == 0 {
            1nat
        } else {
            0nat
        }) + unassigned_from(b, k + 1)
    } else {
        0
    }
}

/// The number of unassigned cells of the board.
pub open spec fn unassigned(b: Board) -> nat {
    unassigned_from(b, 0)
}

/// The board of a grid is well formed, and its cells are the grid's.
pub proof fn lemma_board_cells(grid: Grid)
    ensures
        well_formed(board(grid)),
        forall|r: int, c: int| in_grid(r, c) ==> #[trigger] board(grid)[r][c] == grid[r][c],
{
}

/// Well-formed boards with the same cells are the same board.
pub proof fn lemma_boards_equal(a: Board, b: Board)
    requires
        well_formed(a),
        well_formed(b),
        forall|r: int, c: int| in_grid(r, c) ==> #[trigger] a[r][c] == b[r][c],
    ensures
        a == b,
{
    assert forall|r: int| 0 <= r < N implies a[r] == b[r] by {
        assert forall|c: int| 0 <= c < N implies a[r][c] == b[r][c] by {
            assert(in_grid(r, c));
        }
        assert(a[r] =~= b[r]);
    }
    assert(a =~= b);
}

/// Grids with the same board are the same grid.
pub proof fn lemma_board_injective(a: Grid, b: Grid)
    requires
        board(a) == board(b),
    ensures
        a == b,
{
    assert forall|r: int| 0 <= r < N implies a[r] == b[r] by {
        assert forall|c: int| 0 <= c < N implies a[r][c] == b[r][c] by {
            assert(board(a)[r][c] == a[r][c]);
            assert(board(b)[r][c] == b[r][c]);
        }
        assert(a[r] =~= b[r]);
    }
    assert(a =~= b);
}

/// Assigning a cell changes that cell and no other.
pub proof fn lemma_assign_cells(b: Board, r: int, c: int, v: nat)
    requires
        well_formed(b),
        in_grid(r, c),
    ensures
        well_formed(assign(b, r, c, v)),
        assign(b, r, c, v)[r][c] == v,
        forall|i: int, j: int|
            in_grid(i, j) && !(i == r && j == c) ==> #[trigger] assign(b, r, c, v)[i][j] == b[i][j],
{
    let b2 = assign(b, r, c, v);
    assert forall|i: int| 0 <= i < N implies (#[trigger] b2[i]).len() == N by {
        assert(b[i].len() == N);
    }
}

/// A grid that differs from another in one cell at most has the other's
/// board with that cell assigned.
pub proof fn lemma_board_of_write(before: Grid, after: Grid, r: int, c: int)
    requires
        in_grid(r, c),
        forall|i: int, j: int|
            in_grid(i, j) && !(i == r && j == c) ==> #[trigger] after[i][j] == before[i][j],
    ensures
        board(after) == assign(board(before), r, c, after[r][c] as nat),
{
    let written = assign(board(before), r, c, after[r][c] as nat);
    lemma_board_cells(before);
    lemma_board_cells(after);
    lemma_assign_cells(board(before), r, c, after[r][c] as nat);
    assert forall|i: int, j: int| in_grid(i, j) implies #[trigger] board(after)[i][j]
        == written[i][j] by {
        if !(i == r && j == c) {
            assert(after[i][j] == before[i][j]);
            assert(written[i][j] == board(before)[i][j]);
        }
    }
    lemma_boards_equal(board(after), written);
}

proof fn lemma_unassigned_from_assign(b: Board, r: int, c: int, v: nat, k: int)
    requires
        well_formed(b),
        in_grid(r, c),
        b[r][c] == 0,
        v != 0,
        0 <= k <= N * N,
    ensures
        unassigned_from(b, k) == unassigned_from(assign(b, r, c, v), k) + (if k <= N * r + c {
            1nat
        } else {
            0nat
        }),
    decreases N * N - k,
{
    if k < N * N {
        lemma_assign_cells(b, r, c, v);
        lemma_unassigned_from_assign(b, r, c, v, k + 1);
        let i: int = k / (N as int);
        let j: int = k % (N as int);
        assert(in_grid(i, j));
        if k == N * r + c {
            assert(i == r && j == c);
        } else {
            assert(!(i == r && j == c));
            assert(assign(b, r, c, v)[i][j] == b[i][j]);
        }
    }
}

/// Assigning a digit to an unassigned cell leaves one unassigned cell
/// fewer.
pub proof fn lemma_assign_fills_one(b: Board, r: int, c: int, v: nat)
    requires
        well_formed(b),
        in_grid(r, c),
        b[r][c] == 0,
        v != 0,
    ensures
        unassigned(assign(b, r, c, v)) + 1 == unassigned(b),
{
    lemma_unassigned_from_assign(b, r, c, v, 0);
}

proof fn lemma_unassigned_from_bound(b: Board, k: int)
    requires
        0 <= k <= N * N,
    ensures
        unassigned_from(b, k) <= N * N - k,
    decreases N * N - k,
{
    if k < N * N {
        lemma_unassigned_from_bound(b, k + 1);
    }
}

/// A board has at most 81 unassigned cells: a search that fills one cell
/// with each call that it nests is never more than 81 calls deep.
pub proof fn lemma_unassigned_bound(b: Board)
    ensures
        unassigned(b) <= N * N,
{
    lemma_unassigned_from_bound(b, 0);
}

/// A board has at most one first unassigned cell.
pub proof fn lemma_first_unassigned_unique(b: Board, r1: int, c1: int, r2: int, c2: int)
    requires
        first_unassigned(b, r1, c1),
        first_unassigned(b, r2, c2),
    ensures
        r1 == r2 && c1 == c2,
{
    if precedes(r1, c1, r2, c2) {
        assert(b[r1][c1] != 0);
    } else if precedes(r2, c2, r1, c1) {
        assert(b[r2][c2] != 0);
    }
}

/// Scans the cells in row-major order, each row from its first column to
/// its last, for the first unassigned one. When there is one, writes its
/// row and column to `rowindex` and `colindex` and returns `true`; when the
/// grid is full, returns `false` and leaves both as they were.
pub fn find_unassigned_location(grid: Grid, rowindex: &mut usize, colindex: &mut usize) -> (found:
    bool)
    ensures
        found <==> !full(board(grid)),
        found ==> first_unassigned(board(grid), *final(rowindex) as int, *final(colindex) as int),
        !found ==> *final(rowindex) == *old(rowindex) && *final(colindex) == *old(colindex),
{
    for i in 0..N
        invariant
            *rowindex == *old(rowindex),
            *colindex == *old(colindex),
            forall|r: int, c: int| 0 <= r < i && 0 <= c < N ==> #[trigger] board(grid)[r][c] != 0,
    {
        for j in 0..N
            invariant
                i < N,
                *rowindex == *old(rowindex),
                *colindex == *old(colindex),
                forall|r: int, c: int|
                    0 <= r < i && 0 <= c < N ==> #[trigger] board(grid)[r][c] != 0,
                forall|c: int| 0 <= c < j ==> #[trigger] board(grid)[i as int][c] != 0,
        {
            if grid[i][j] == UNASSIGNED {
                *rowindex = i;
                *colindex = j;
                assert(board(grid)[i as int][j as int] == 0);
                return true;
            }
            assert(board(grid)[i as int][j as int] != 0);
        }
    }
    false
}

} // verus!
