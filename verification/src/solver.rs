//! The backtracking search, and what it finds: the completion of the grid
//! that comes first in row-major order.

use crate::grid::{
    assign, board, find_unassigned_location, first_unassigned, full, in_grid,
    lemma_assign_cells, lemma_assign_fills_one, lemma_board_cells, lemma_board_injective,
    lemma_board_of_write, lemma_boards_equal, precedes, unassigned, well_formed, Board, Grid, N,
    UNASSIGNED,
};
use crate::rules::{
    check_grid, consistent, grid_error, is_legal, is_safe, lemma_legal_by_peers, peers,
    well_placed, GridError,
};
use vstd::prelude::*;

verus! {

/// `h` is well formed and keeps every digit that `g` holds.
pub open spec fn extends(g: Board, h: Board) -> bool {
    &&& well_formed(h)
    &&& forall|r: int, c: int| in_grid(r, c) && g[r][c] != 0 ==> #[trigger] h[r][c] == g[r][c]
}

/// `h` is `g` with some of its unassigned cells filled in, and each digit
/// filled in is well placed in `h`: it is a digit from 1 to 9 that no peer
/// holds.
pub open spec fn legal_extension(g: Board, h: Board) -> bool {
    &&& extends(g, h)
    &&& forall|r: int, c: int|
        in_grid(r, c) && g[r][c] == 0 && #[trigger] h[r][c] != 0 ==> well_placed(h, r, c)
}

/// `h` is a full legal extension of `g`.
pub open spec fn completes(g: Board, h: Board) -> bool {
    legal_extension(g, h) && full(h)
}

/// Some full legal extension of `g` exists.
pub open spec fn solvable(g: Board) -> bool {
    exists|h: Board| completes(g, h)
}

/// `a` is `b`, or holds the smaller value at the first cell, in row-major
/// order, where the two differ.
pub open spec fn lex_le(a: Board, b: Board) -> bool {
    a == b || exists|r: int, c: int|
        in_grid(r, c) && #[trigger] a[r][c] < b[r][c] && forall|i: int, j: int|
            in_grid(i, j) && precedes(i, j, r, c) ==> #[trigger] a[i][j] == b[i][j]
}

/// `h` completes `g`, and comes first among the completions of `g` when
/// boards are compared cell by cell in row-major order.
pub open spec fn is_first_completion(g: Board, h: Board) -> bool {
    completes(g, h) && forall|other: Board| #[trigger] completes(g, other) ==> lex_le(h, other)
}

/// A full board that keeps the rules: every cell holds a digit from 1 to
/// 9, and no two peers hold the same digit.
pub open spec fn solved(h: Board) -> bool {
    consistent(h) && full(h)
}

/// `h` solves the puzzle `g`: it keeps the digits of `g` and is solved.
pub open spec fn solution_of(g: Board, h: Board) -> bool {
    extends(g, h) && solved(h)
}

/// `h` solves `g`, and comes first among the solutions of `g` when boards
/// are compared cell by cell in row-major order.
pub open spec fn is_first_solution(g: Board, h: Board) -> bool {
    solution_of(g, h) && forall|other: Board| #[trigger] solution_of(g, other) ==> lex_le(h, other)
}

/// How a search on a consistent grid ended.
#[derive(Clone, Copy, Debug, PartialEq, Eq)]
pub enum Outcome {
    /// The grid has a solution; this is the first one.
    Solved(Grid),
    /// The grid has no solution.
    NoSolution,
}

/// Every well-formed board is a legal extension of itself.
pub proof fn lemma_legal_extension_reflexive(g: Board)
    requires
        well_formed(g),
    ensures
        legal_extension(g, g),
{
}

/// A legal extension of a legal extension of `a` is a legal extension of
/// `a`: digits placed legally stay well placed however many more are
/// placed legally after them.
pub proof fn lemma_legal_extension_transitive(a: Board, b: Board, c: Board)
    requires
        legal_extension(a, b),
        legal_extension(b, c),
    ensures
        legal_extension(a, c),
{
    assert forall|r: int, k: int| in_grid(r, k) && a[r][k] != 0 implies #[trigger] c[r][k]
        == a[r][k] by {
        assert(b[r][k] == a[r][k]);
    }
    assert forall|r: int, k: int|
        in_grid(r, k) && a[r][k] == 0 && #[trigger] c[r][k] != 0 implies well_placed(c, r, k) by {
        if b[r][k] != 0 {
            assert(well_placed(b, r, k));
            assert(c[r][k] == b[r][k]);
            assert forall|i: int, j: int| in_grid(i, j) && peers(r, k, i, j) implies #[trigger] c[i][j]
                != c[r][k] by {
                if b[i][j] != 0 {
                    assert(c[i][j] == b[i][j]);
                } else if c[i][j] != 0 {
                    assert(well_placed(c, i, j));
                    assert(peers(i, j, r, k));
                }
            }
        }
    }
}

/// Placing a legal digit from 1 to 9 gives a legal extension.
pub proof fn lemma_legal_step(g: Board, r: int, c: int, v: nat)
    requires
        well_formed(g),
        in_grid(r, c),
        is_legal(g, r, c, v),
        v <= 9,
    ensures
        legal_extension(g, assign(g, r, c, v)),
{
    lemma_assign_cells(g, r, c, v);
    lemma_legal_by_peers(g, r, c, v);
    let h = assign(g, r, c, v);
    assert forall|i: int, j: int|
        in_grid(i, j) && g[i][j] == 0 && #[trigger] h[i][j] != 0 implies well_placed(h, i, j) by {
        assert(i == r && j == c);
        assert forall|p: int, q: int| in_grid(p, q) && peers(r, c, p, q) implies #[trigger] h[p][q]
            != v by {
            assert(h[p][q] == g[p][q]);
        }
    }
}

/// Taking back a digit that was placed leaves a legal extension: the
/// digits that stay are as well placed as they were.
pub proof fn lemma_take_back_keeps_legal(g: Board, h: Board, r: int, c: int)
    requires
        legal_extension(g, h),
        in_grid(r, c),
        g[r][c] == 0,
    ensures
        legal_extension(g, assign(h, r, c, 0)),
{
    let taken = assign(h, r, c, 0);
    lemma_assign_cells(h, r, c, 0);
    assert forall|i: int, j: int| in_grid(i, j) && g[i][j] != 0 implies #[trigger] taken[i][j]
        == g[i][j] by {
        assert(taken[i][j] == h[i][j]);
    }
    assert forall|i: int, j: int|
        in_grid(i, j) && g[i][j] == 0 && #[trigger] taken[i][j] != 0 implies well_placed(taken, i, j) by {
        assert(taken[i][j] == h[i][j]);
        assert(well_placed(h, i, j));
        assert forall|p: int, q: int| in_grid(p, q) && peers(i, j, p, q) implies #[trigger] taken[p][q]
            != taken[i][j] by {
            if !(p == r && q == c) {
                assert(taken[p][q] == h[p][q]);
            }
        }
    }
}

/// A legal extension of a consistent board is consistent: while digits
/// are placed legally, no two peers ever hold the same digit.
pub proof fn lemma_legal_extension_keeps_consistent(g: Board, h: Board)
    requires
        consistent(g),
        legal_extension(g, h),
    ensures
        consistent(h),
{
    assert forall|r: int, c: int| in_grid(r, c) implies #[trigger] h[r][c] <= 9 by {
        if g[r][c] != 0 {
            assert(h[r][c] == g[r][c]);
        } else if h[r][c] != 0 {
            assert(well_placed(h, r, c));
        }
    }
    assert forall|r: int, c: int| in_grid(r, c) && #[trigger] h[r][c] != 0 implies forall|
        i: int,
        j: int,
    |
        in_grid(i, j) && peers(r, c, i, j) ==> #[trigger] h[i][j] != h[r][c] by {
        assert forall|i: int, j: int| in_grid(i, j) && peers(r, c, i, j) implies #[trigger] h[i][j]
            != h[r][c] by {
            if g[r][c] == 0 {
                assert(well_placed(h, r, c));
            } else if g[i][j] != 0 {
                assert(h[r][c] == g[r][c]);
                assert(h[i][j] == g[i][j]);
            } else if h[i][j] != 0 {
                assert(well_placed(h, i, j));
                assert(peers(i, j, r, c));
            }
        }
    }
}

/// On a consistent board, the completions are the solutions.
pub proof fn lemma_completions_are_solutions(g: Board, h: Board)
    requires
        consistent(g),
    ensures
        completes(g, h) <==> solution_of(g, h),
{
    if completes(g, h) {
        lemma_legal_extension_keeps_consistent(g, h);
    }
    if solution_of(g, h) {
        assert forall|r: int, c: int|
            in_grid(r, c) && g[r][c] == 0 && #[trigger] h[r][c] != 0 implies well_placed(h, r, c) by {
            assert(h[r][c] <= 9);
        }
    }
}

/// A completion of `g` with a legal digit placed at `(r, c)` is a
/// completion of `g` that holds that digit there.
pub proof fn lemma_completes_after_step(g: Board, r: int, c: int, v: nat, h: Board)
    requires
        well_formed(g),
        in_grid(r, c),
        is_legal(g, r, c, v),
        v <= 9,
        completes(assign(g, r, c, v), h),
    ensures
        completes(g, h),
        h[r][c] == v,
{
    lemma_legal_step(g, r, c, v);
    lemma_legal_extension_transitive(g, assign(g, r, c, v), h);
    lemma_assign_cells(g, r, c, v);
    lemma_legal_by_peers(g, r, c, v);
}

/// A completion of `g` holds, at a cell that `g` leaves unassigned, a
/// digit from 1 to 9 that is legal there in `g`, and it completes `g` with
/// that digit placed.
pub proof fn lemma_completes_through_step(g: Board, r: int, c: int, h: Board)
    requires
        well_formed(g),
        in_grid(r, c),
        g[r][c] == 0,
        completes(g, h),
    ensures
        1 <= h[r][c] <= 9,
        is_legal(g, r, c, h[r][c]),
        completes(assign(g, r, c, h[r][c]), h),
{
    let v = h[r][c];
    assert(v != 0);
    assert(well_placed(h, r, c));
    lemma_assign_cells(g, r, c, v);
    assert forall|i: int, j: int| in_grid(i, j) && peers(r, c, i, j) implies #[trigger] g[i][j]
        != v by {
        if g[i][j] == v {
            assert(h[i][j] == g[i][j]);
        }
    }
    lemma_legal_by_peers(g, r, c, v);
    let g1 = assign(g, r, c, v);
    assert forall|i: int, j: int| in_grid(i, j) && g1[i][j] != 0 implies #[trigger] h[i][j]
        == g1[i][j] by {
        if !(i == r && j == c) {
            assert(g1[i][j] == g[i][j]);
        }
    }
    assert forall|i: int, j: int|
        in_grid(i, j) && g1[i][j] == 0 && #[trigger] h[i][j] != 0 implies well_placed(h, i, j) by {
        assert(g1[i][j] == g[i][j]);
    }
}

/// A board with an unassigned cell is solvable exactly when some digit
/// from 1 to 9 is legal at that cell and leaves a solvable board: the
/// search loses no completion by trying these digits and no others, and
/// finds none that is not one.
pub proof fn lemma_solvable_by_step(g: Board, r: int, c: int)
    requires
        well_formed(g),
        in_grid(r, c),
        g[r][c] == 0,
    ensures
        solvable(g) <==> exists|v: nat|
            1 <= v <= 9 && is_legal(g, r, c, v) && solvable(#[trigger] assign(g, r, c, v)),
{
    if solvable(g) {
        let h = choose|h: Board| completes(g, h);
        lemma_completes_through_step(g, r, c, h);
        assert(solvable(assign(g, r, c, h[r][c])));
    }
    if exists|v: nat| 1 <= v <= 9 && is_legal(g, r, c, v) && solvable(#[trigger] assign(g, r, c, v)) {
        let v = choose|v: nat|
            1 <= v <= 9 && is_legal(g, r, c, v) && solvable(#[trigger] assign(g, r, c, v));
        let h = choose|h: Board| completes(assign(g, r, c, v), h);
        lemma_completes_after_step(g, r, c, v, h);
    }
}

/// A full board has one completion: itself.
pub proof fn lemma_full_board_is_its_completion(g: Board)
    requires
        well_formed(g),
        full(g),
    ensures
        is_first_completion(g, g),
        forall|h: Board| completes(g, h) ==> h == g,
{
    assert forall|h: Board| completes(g, h) implies h == g by {
        assert forall|r: int, c: int| in_grid(r, c) implies #[trigger] h[r][c] == g[r][c] by {
            assert(g[r][c] != 0);
        }
        lemma_boards_equal(h, g);
    }
}

/// Of two different boards at most one comes first: `lex_le` both ways
/// means equal.
pub proof fn lemma_lex_le_antisymmetric(a: Board, b: Board)
    requires
        lex_le(a, b),
        lex_le(b, a),
    ensures
        a == b,
{
    if a != b {
        let (r1, c1) = choose|r: int, c: int|
            in_grid(r, c) && #[trigger] a[r][c] < b[r][c] && forall|i: int, j: int|
                in_grid(i, j) && precedes(i, j, r, c) ==> #[trigger] a[i][j] == b[i][j];
        let (r2, c2) = choose|r: int, c: int|
            in_grid(r, c) && #[trigger] b[r][c] < a[r][c] && forall|i: int, j: int|
                in_grid(i, j) && precedes(i, j, r, c) ==> #[trigger] b[i][j] == a[i][j];
        if precedes(r1, c1, r2, c2) {
            assert(b[r1][c1] == a[r1][c1]);
        } else if precedes(r2, c2, r1, c1) {
            assert(a[r2][c2] == b[r2][c2]);
        }
    }
}

/// A board has at most one first completion.
pub proof fn lemma_first_completion_unique(g: Board, h1: Board, h2: Board)
    requires
        is_first_completion(g, h1),
        is_first_completion(g, h2),
    ensures
        h1 == h2,
{
    lemma_lex_le_antisymmetric(h1, h2);
}

/// What a search returns and leaves behind is a function of the grid that
/// it starts from: two runs that end as `solve_sudoku` ensures, from one
/// board, agree on whether it is solvable and on the board they end with.
pub proof fn lemma_search_deterministic(
    g: Board,
    solved1: bool,
    end1: Board,
    solved2: bool,
    end2: Board,
)
    requires
        solved1 <==> solvable(g),
        solved1 ==> is_first_completion(g, end1),
        !solved1 ==> end1 == g,
        solved2 <==> solvable(g),
        solved2 ==> is_first_completion(g, end2),
        !solved2 ==> end2 == g,
    ensures
        solved1 == solved2,
        end1 == end2,
{
    if solved1 {
        lemma_first_completion_unique(g, end1, end2);
    }
}

/// Depth-first search with chronological backtracking. Takes the first
/// unassigned cell in row-major order and tries the digits 1 to 9 there in
/// ascending order: a digit that is legal is placed and the search goes on
/// from the grid with that digit; when that search fails, the digit is
/// taken back and the next one tried.
///
/// Returns whether the grid has a completion. If it has, the grid ends as
/// its first completion; if it has none, the grid ends as it began. A
/// full grid is its own completion. Whatever the grid holds when the
/// search begins is kept, and every digit that the search places differs
/// from all its peers.
pub fn solve_sudoku(grid: &mut Grid) -> (solved: bool)
    ensures
        solved <==> solvable(board(*old(grid))),
        solved ==> is_first_completion(board(*old(grid)), board(*final(grid))),
        !solved ==> *final(grid) == *old(grid),
        full(board(*old(grid))) ==> solved && *final(grid) == *old(grid),
        legal_extension(board(*old(grid)), board(*final(grid))),
    decreases unassigned(board(*old(grid))),
{
    let mut col: usize = 0;
    let mut row: usize = 0;
    let ghost entry = board(*grid);
    proof {
        lemma_board_cells(*grid);
        lemma_legal_extension_reflexive(entry);
    }
    if !find_unassigned_location(*grid, &mut row, &mut col) {
        proof {
            lemma_full_board_is_its_completion(entry);
        }
        return true;
    }
    for num in 1..(N + 1)
        invariant
            *grid == *old(grid),
            entry == board(*old(grid)),
            well_formed(entry),
            first_unassigned(entry, row as int, col as int),
            forall|h: Board| #[trigger] completes(entry, h) ==> h[row as int][col as int] >= num,
    {
        if is_safe(*grid, row, col, num) {
            grid[row][col] = num;
            let ghost placed = assign(entry, row as int, col as int, num as nat);
            proof {
                lemma_board_of_write(*old(grid), *grid, row as int, col as int);
                lemma_legal_step(entry, row as int, col as int, num as nat);
                lemma_assign_fills_one(entry, row as int, col as int, num as nat);
            }
            assert(board(*grid) == placed && legal_extension(entry, placed));
            if solve_sudoku(grid) {
                proof {
                    let found = board(*grid);
                    lemma_completes_after_step(entry, row as int, col as int, num as nat, found);
                    assert forall|other: Board| #[trigger] completes(entry, other) implies lex_le(
                        found,
                        other,
                    ) by {
                        lemma_completes_through_step(entry, row as int, col as int, other);
                        if other[row as int][col as int] == num {
                            assert(completes(placed, other));
                        } else {
                            assert(found[row as int][col as int] < other[row as int][col as int]);
                            assert forall|i: int, j: int|
                                in_grid(i, j) && precedes(
                                    i,
                                    j,
                                    row as int,
                                    col as int,
                                ) implies #[trigger] found[i][j] == other[i][j] by {
                                assert(entry[i][j] != 0);
                            }
                        }
                    }
                }
                return true;
            }
            grid[row][col] = UNASSIGNED;
            proof {
                lemma_board_cells(*grid);
                lemma_assign_cells(entry, row as int, col as int, num as nat);
                lemma_boards_equal(board(*grid), entry);
                lemma_board_injective(*grid, *old(grid));
                assert forall|h: Board| #[trigger] completes(entry, h) implies h[row as int][col as int]
                    != num by {
                    lemma_completes_through_step(entry, row as int, col as int, h);
                }
            }
        } else {
            proof {
                assert forall|h: Board| #[trigger] completes(entry, h) implies h[row as int][col as int]
                    != num by {
                    lemma_completes_through_step(entry, row as int, col as int, h);
                }
            }
        }
    }
    proof {
        assert forall|h: Board| !completes(entry, h) by {
            if completes(entry, h) {
                lemma_completes_through_step(entry, row as int, col as int, h);
            }
        }
    }
    false
}

/// Checks the grid, then searches. A grid that breaks the rules before
/// any search is turned away with the error that says how. A consistent
/// grid ends as `Solved` with its first solution, or as `NoSolution` when
/// it has none; a solved grid ends as `Solved` with itself.
pub fn solve(grid: Grid) -> (r: Result<Outcome, GridError>)
    ensures
        r is Err <==> !consistent(board(grid)),
        match r {
            Err(e) => grid_error(board(grid)) == Some(e),
            Ok(Outcome::Solved(h)) => is_first_solution(board(grid), board(h)),
            Ok(Outcome::NoSolution) => forall|h: Board| !solution_of(board(grid), h),
        },
        solved(board(grid)) ==> r == Ok::<Outcome, GridError>(Outcome::Solved(grid)),
{
    match check_grid(grid) {
        Err(e) => Err(e),
        Ok(()) => {
            let mut work: Grid = grid;
            let found: bool = solve_sudoku(&mut work);
            proof {
                let g = board(grid);
                assert forall|h: Board| #[trigger] completes(g, h) <==> solution_of(g, h) by {
                    lemma_completions_are_solutions(g, h);
                }
                assert forall|h: Board| completes(g, h) <==> #[trigger] solution_of(g, h) by {
                    lemma_completions_are_solutions(g, h);
                }
            }
            if found {
                Ok(Outcome::Solved(work))
            } else {
                Ok(Outcome::NoSolution)
            }
        },
    }
}

} // verus!
