use sudoku_solver::{find_unassigned_location, Grid, N, UNASSIGNED};

fn solved_grid() -> Grid {
    [
        [5, 3, 4, 6, 7, 8, 9, 1, 2],
        [6, 7, 2, 1, 9, 5, 3, 4, 8],
        [1, 9, 8, 3, 4, 2, 5, 6, 7],
        [8, 5, 9, 7, 6, 1, 4, 2, 3],
        [4, 2, 6, 8, 5, 3, 7, 9, 1],
        [7, 1, 3, 9, 2, 4, 8, 5, 6],
        [9, 6, 1, 5, 3, 7, 2, 8, 4],
        [2, 8, 7, 4, 1, 9, 6, 3, 5],
        [3, 4, 5, 2, 8, 6, 1, 7, 9],
    ]
}

#[test]
fn constants_describe_a_nine_by_nine_grid() {
    assert_eq!(N, 9);
    assert_eq!(UNASSIGNED, 0);
    assert_eq!(sudoku_solver::BOX, 3);
}

#[test]
fn scan_of_empty_grid_finds_top_left() {
    let grid: Grid = [[0; 9]; 9];
    let mut row = 7;
    let mut col = 7;
    assert!(find_unassigned_location(grid, &mut row, &mut col));
    assert_eq!((row, col), (0, 0));
}

#[test]
fn scan_of_full_grid_finds_nothing_and_keeps_the_indices() {
    let mut row = 4;
    let mut col = 6;
    assert!(!find_unassigned_location(solved_grid(), &mut row, &mut col));
    assert_eq!((row, col), (4, 6));
}

#[test]
fn scan_finds_the_last_cell() {
    let mut grid = solved_grid();
    grid[8][8] = 0;
    let mut row = 0;
    let mut col = 0;
    assert!(find_unassigned_location(grid, &mut row, &mut col));
    assert_eq!((row, col), (8, 8));
}

#[test]
fn scan_moves_to_the_next_row_when_a_row_is_full() {
    let mut grid: Grid = [[0; 9]; 9];
    grid[0] = [1, 2, 3, 4, 5, 6, 7, 8, 9];
    let mut row = 5;
    let mut col = 5;
    assert!(find_unassigned_location(grid, &mut row, &mut col));
    assert_eq!((row, col), (1, 0));
}

#[test]
fn scan_is_row_major() {
    // (2, 1) has the smaller column, (1, 7) the smaller row: the row decides.
    let mut grid = solved_grid();
    grid[2][1] = 0;
    grid[1][7] = 0;
    let mut row = 0;
    let mut col = 0;
    assert!(find_unassigned_location(grid, &mut row, &mut col));
    assert_eq!((row, col), (1, 7));
}

#[test]
fn scan_takes_the_smaller_column_within_a_row() {
    let mut grid = solved_grid();
    grid[3][6] = 0;
    grid[3][2] = 0;
    let mut row = 0;
    let mut col = 0;
    assert!(find_unassigned_location(grid, &mut row, &mut col));
    assert_eq!((row, col), (3, 2));
}

#[test]
fn scan_treats_values_above_nine_as_assigned() {
    let mut grid: Grid = [[0; 9]; 9];
    grid[0][0] = 17;
    let mut row = 0;
    let mut col = 0;
    assert!(find_unassigned_location(grid, &mut row, &mut col));
    assert_eq!((row, col), (0, 1));
}
