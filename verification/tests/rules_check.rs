use sudoku_solver::{check_grid, is_safe, used_in_box, used_in_col, used_in_row, Grid, GridError};

fn sample_puzzle() -> Grid {
    [
        [8, 0, 0, 0, 0, 0, 0, 0, 0],
        [0, 0, 3, 6, 0, 0, 0, 0, 0],
        [0, 7, 0, 0, 9, 0, 2, 0, 0],
        [0, 5, 0, 0, 0, 7, 0, 0, 0],
        [0, 0, 0, 0, 4, 5, 7, 0, 0],
        [0, 0, 0, 1, 0, 0, 0, 3, 0],
        [0, 0, 1, 0, 0, 0, 0, 6, 8],
        [0, 0, 8, 5, 0, 0, 0, 1, 0],
        [0, 9, 0, 0, 0, 0, 4, 0, 0],
    ]
}

fn full_grid() -> Grid {
    [
        [5, 3, 4, 6, 7, 8, 9, 1, 2],
        [6, 7, 2, 1, 9, 5, 3, 4, 8],
        [1, 9, 8, 3, 4, 2, 5, 6, 7],
        [8, 5, 9, 7, 6, 1, 4, 2, 3],
        [4, 2, 6, 8, 5, 3, 7, 9, 1],
        [7, 1, 3, 9, 2, 4, 8, 5, 6],
        [9, 6, 1, 5, 3, 7, 2, 8, 4],
        [2, 8, 7, 4, 1, 9, 6, 3, 5],
        [3, 4, 5, 2, 8, 6, 1, 7, 9],
    ]
}

#[test]
fn row_holds_its_digits_and_no_others() {
    let grid = sample_puzzle();
    assert!(used_in_row(grid, 2, 7));
    assert!(used_in_row(grid, 2, 9));
    assert!(used_in_row(grid, 2, 2));
    assert!(!used_in_row(grid, 2, 1));
    assert!(!used_in_row(grid, 2, 8));
    // 3 stands in row 1, not in row 2.
    assert!(!used_in_row(grid, 2, 3));
    assert!(used_in_row(grid, 1, 3));
}

#[test]
fn row_scan_reaches_both_ends() {
    let grid = sample_puzzle();
    assert!(used_in_row(grid, 0, 8));
    assert!(used_in_row(grid, 6, 8));
}

#[test]
fn row_of_a_puzzle_holds_the_unassigned_value() {
    let grid = sample_puzzle();
    assert!(used_in_row(grid, 0, 0));
    assert!(!used_in_row(full_grid(), 0, 0));
}

#[test]
fn column_holds_its_digits_and_no_others() {
    let grid = sample_puzzle();
    assert!(used_in_col(grid, 1, 7));
    assert!(used_in_col(grid, 1, 5));
    assert!(used_in_col(grid, 1, 9));
    assert!(!used_in_col(grid, 1, 8));
    // 8 stands in column 0 and column 2, not in column 1.
    assert!(used_in_col(grid, 0, 8));
    assert!(used_in_col(grid, 2, 8));
}

#[test]
fn column_scan_reaches_both_ends() {
    let grid = sample_puzzle();
    assert!(used_in_col(grid, 0, 8));
    assert!(used_in_col(grid, 8, 8));
    assert!(used_in_col(grid, 6, 4));
}

#[test]
fn box_holds_its_digits_and_no_others() {
    let grid = sample_puzzle();
    // Top left box: 8, 3, 7.
    assert!(used_in_box(grid, 0, 0, 8));
    assert!(used_in_box(grid, 0, 0, 3));
    assert!(used_in_box(grid, 0, 0, 7));
    assert!(!used_in_box(grid, 0, 0, 5));
    assert!(!used_in_box(grid, 0, 0, 6));
    // Centre box: 7, 4, 5, 1.
    assert!(used_in_box(grid, 3, 3, 7));
    assert!(used_in_box(grid, 3, 3, 1));
    assert!(!used_in_box(grid, 3, 3, 6));
    // Bottom right box: 6, 8, 1, 4.
    assert!(used_in_box(grid, 6, 6, 4));
    assert!(used_in_box(grid, 6, 6, 8));
    assert!(!used_in_box(grid, 6, 6, 7));
}

#[test]
fn box_scan_covers_three_rows_and_three_columns_from_its_start() {
    let mut grid: Grid = [[0; 9]; 9];
    grid[5][8] = 4;
    assert!(used_in_box(grid, 3, 6, 4));
    assert!(!used_in_box(grid, 3, 3, 4));
    assert!(!used_in_box(grid, 6, 6, 4));
    assert!(!used_in_box(grid, 0, 6, 4));
    // A block need not be one of the nine boxes.
    assert!(used_in_box(grid, 4, 6, 4));
    assert!(used_in_box(grid, 5, 6, 4));
    assert!(!used_in_box(grid, 6, 6, 4));
    assert!(!used_in_box(grid, 2, 6, 4));
    assert!(!used_in_box(grid, 3, 5, 4));
}

#[test]
fn digit_is_safe_where_row_column_and_box_lack_it() {
    let grid = sample_puzzle();
    assert!(is_safe(grid, 0, 1, 1));
    assert!(is_safe(grid, 0, 1, 2));
    assert!(is_safe(grid, 4, 3, 2));
}

#[test]
fn digit_in_the_row_is_not_safe() {
    let grid = sample_puzzle();
    // 8 stands at (0, 0): the row of (0, 4), another column and another box.
    assert!(!is_safe(grid, 0, 4, 8));
}

#[test]
fn digit_in_the_column_is_not_safe() {
    let grid = sample_puzzle();
    // 7 stands at (2, 1): the column of (5, 1), another row and another box.
    assert!(!is_safe(grid, 5, 1, 7));
}

#[test]
fn digit_in_the_box_is_not_safe() {
    let grid = sample_puzzle();
    // 3 stands at (1, 2): the box of (0, 1), another row and another column.
    assert!(!is_safe(grid, 0, 1, 3));
    // 4 stands at (8, 6): the box of (7, 8) starts at row 7 - 7 % 3 = 6, column 8 - 8 % 3 = 6.
    assert!(!is_safe(grid, 7, 8, 4));
}

#[test]
fn assigned_cell_is_never_safe() {
    let grid = sample_puzzle();
    for num in 0..=9 {
        assert!(!is_safe(grid, 0, 0, num));
    }
    let mut lone: Grid = [[0; 9]; 9];
    lone[4][4] = 6;
    assert!(!is_safe(lone, 4, 4, 1));
    assert!(is_safe(lone, 4, 5, 1));
}

#[test]
fn unassigned_value_is_never_safe() {
    let grid: Grid = [[0; 9]; 9];
    assert!(!is_safe(grid, 3, 3, 0));
    assert!(!is_safe(sample_puzzle(), 0, 1, 0));
}

#[test]
fn every_digit_is_safe_on_an_empty_grid() {
    let grid: Grid = [[0; 9]; 9];
    for row in 0..9 {
        for col in 0..9 {
            for num in 1..=9 {
                assert!(is_safe(grid, row, col, num));
            }
        }
    }
}

#[test]
fn safety_looks_at_the_value_only() {
    // Nothing but the three scans and the cell decides: a value above 9
    // that the units lack passes, one that they hold does not.
    let mut grid: Grid = [[0; 9]; 9];
    assert!(is_safe(grid, 0, 0, 10));
    grid[0][5] = 10;
    assert!(!is_safe(grid, 0, 0, 10));
}

#[test]
fn check_accepts_consistent_grids() {
    assert_eq!(check_grid([[0; 9]; 9]), Ok(()));
    assert_eq!(check_grid(sample_puzzle()), Ok(()));
    assert_eq!(check_grid(full_grid()), Ok(()));
}

#[test]
fn check_rejects_a_value_above_nine() {
    let mut grid = sample_puzzle();
    grid[8][8] = 10;
    assert_eq!(check_grid(grid), Err(GridError::OutOfRange));
    let mut grid: Grid = [[0; 9]; 9];
    grid[0][0] = usize::MAX;
    assert_eq!(check_grid(grid), Err(GridError::OutOfRange));
}

#[test]
fn check_accepts_nine() {
    let mut grid: Grid = [[0; 9]; 9];
    grid[8][8] = 9;
    assert_eq!(check_grid(grid), Ok(()));
}

#[test]
fn check_rejects_a_digit_twice_in_a_row() {
    let mut grid: Grid = [[0; 9]; 9];
    grid[4][0] = 7;
    grid[4][8] = 7;
    assert_eq!(check_grid(grid), Err(GridError::Conflict));
}

#[test]
fn check_rejects_a_digit_twice_in_a_column() {
    let mut grid: Grid = [[0; 9]; 9];
    grid[0][4] = 7;
    grid[8][4] = 7;
    assert_eq!(check_grid(grid), Err(GridError::Conflict));
}

#[test]
fn check_rejects_a_digit_twice_in_a_box() {
    let mut grid: Grid = [[0; 9]; 9];
    grid[3][3] = 7;
    grid[5][5] = 7;
    assert_eq!(check_grid(grid), Err(GridError::Conflict));
}

#[test]
fn check_accepts_a_digit_twice_in_different_units() {
    let mut grid: Grid = [[0; 9]; 9];
    grid[2][2] = 7;
    grid[3][3] = 7;
    grid[8][4] = 7;
    assert_eq!(check_grid(grid), Ok(()));
}

#[test]
fn check_reports_the_range_before_a_conflict() {
    let mut grid: Grid = [[0; 9]; 9];
    grid[0][0] = 5;
    grid[0][1] = 5;
    grid[8][8] = 12;
    assert_eq!(check_grid(grid), Err(GridError::OutOfRange));
    let mut grid: Grid = [[0; 9]; 9];
    grid[0][0] = 12;
    grid[0][1] = 12;
    assert_eq!(check_grid(grid), Err(GridError::OutOfRange));
}

#[test]
fn check_rejects_a_full_grid_with_one_wrong_digit() {
    let mut grid = full_grid();
    grid[4][4] = 6;
    assert_eq!(check_grid(grid), Err(GridError::Conflict));
}
