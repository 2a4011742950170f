use sudoku_solver::grid::Grid;
use sudoku_solver::rules::{count_collisions, duplicates_in};

fn solved_rows() -> Vec<Vec<u8>> {
    vec![
        vec![5, 3, 4, 6, 7, 8, 9, 1, 2],
        vec![6, 7, 2, 1, 9, 5, 3, 4, 8],
        vec![1, 9, 8, 3, 4, 2, 5, 6, 7],
        vec![8, 5, 9, 7, 6, 1, 4, 2, 3],
        vec![4, 2, 6, 8, 5, 3, 7, 9, 1],
        vec![7, 1, 3, 9, 2, 4, 8, 5, 6],
        vec![9, 6, 1, 5, 3, 7, 2, 8, 4],
        vec![2, 8, 7, 4, 1, 9, 6, 3, 5],
        vec![3, 4, 5, 2, 8, 6, 1, 7, 9],
    ]
}

fn empty_rows() -> Vec<Vec<u8>> {
    vec![vec![0; 9]; 9]
}

fn board(rows: &Vec<Vec<u8>>) -> Grid {
    Grid::from_rows(rows).expect("nine rows of nine cells")
}

#[test]
fn solved_grid_has_no_collisions() {
    let grid = board(&solved_rows());
    assert_eq!(count_collisions(&grid, true), 0);
    assert_eq!(count_collisions(&grid, false), 0);
}

#[test]
fn empty_grid_has_no_collisions() {
    let grid = board(&empty_rows());
    assert_eq!(count_collisions(&grid, true), 0);
    assert_eq!(count_collisions(&grid, false), 0);
}

#[test]
fn repeated_digit_in_a_column_is_counted() {
    let mut rows = empty_rows();
    rows[0][0] = 5;
    rows[1][0] = 5;
    let grid = board(&rows);
    assert!(count_collisions(&grid, false) >= 1);
    // one collision in column 0 and one in the top left block
    assert_eq!(count_collisions(&grid, false), 2);
    assert_eq!(count_collisions(&grid, true), 2);
}

#[test]
fn repeated_digit_in_a_column_across_blocks_counts_once() {
    let mut rows = empty_rows();
    rows[0][4] = 7;
    rows[8][4] = 7;
    let grid = board(&rows);
    assert_eq!(count_collisions(&grid, false), 1);
    assert_eq!(count_collisions(&grid, true), 1);
}

#[test]
fn repeated_digit_in_a_row_is_counted_only_on_request() {
    let mut rows = empty_rows();
    rows[0][0] = 5;
    rows[0][8] = 5;
    let grid = board(&rows);
    assert_eq!(count_collisions(&grid, false), 0);
    assert_eq!(count_collisions(&grid, true), 1);
}

#[test]
fn repeated_digit_in_a_block_is_counted() {
    let mut rows = empty_rows();
    rows[3][3] = 2;
    rows[4][4] = 2;
    let grid = board(&rows);
    assert_eq!(count_collisions(&grid, false), 1);
    assert_eq!(count_collisions(&grid, true), 1);
}

#[test]
fn every_extra_occurrence_counts() {
    let mut rows = empty_rows();
    rows[0][1] = 9;
    rows[3][1] = 9;
    rows[6][1] = 9;
    let grid = board(&rows);
    // three nines in column 1, each in a block of its own
    assert_eq!(count_collisions(&grid, false), 2);
    let mut rows = empty_rows();
    for c in 0..9 {
        rows[2][c] = 4;
    }
    let grid = board(&rows);
    // a row of fours: eight extra in the row, two extra in each of three blocks
    assert_eq!(count_collisions(&grid, false), 6);
    assert_eq!(count_collisions(&grid, true), 14);
}

#[test]
fn full_grid_of_one_digit() {
    let grid = board(&vec![vec![1; 9]; 9]);
    assert_eq!(count_collisions(&grid, false), 144);
    assert_eq!(count_collisions(&grid, true), 216);
}

#[test]
fn counting_twice_gives_the_same_count() {
    let mut rows = solved_rows();
    rows[4][4] = 9;
    rows[0][0] = 3;
    let grid = board(&rows);
    let first = count_collisions(&grid, true);
    let second = count_collisions(&grid, true);
    assert_eq!(first, second);
    assert_eq!(count_collisions(&grid, false), count_collisions(&grid, false));
    assert_eq!(grid.to_rows(), rows);
}

#[test]
fn rows_add_to_the_column_and_block_count() {
    let mut rows = solved_rows();
    rows[4][4] = 9;
    let grid = board(&rows);
    // the second nine collides in row 4, in column 4 and in the middle block
    assert_eq!(count_collisions(&grid, false), 2);
    assert_eq!(count_collisions(&grid, true), 3);
}

#[test]
fn digits_beyond_nine_collide_like_any_other() {
    let mut rows = empty_rows();
    rows[0][0] = 12;
    rows[5][0] = 12;
    let grid = board(&rows);
    assert_eq!(count_collisions(&grid, false), 1);
}

#[test]
fn group_score_is_placed_less_distinct() {
    assert_eq!(duplicates_in(&vec![]), 0);
    assert_eq!(duplicates_in(&vec![0, 0, 0]), 0);
    assert_eq!(duplicates_in(&vec![1, 2, 3, 4, 5, 6, 7, 8, 9]), 0);
    assert_eq!(duplicates_in(&vec![1, 0, 1, 0, 1]), 2);
    assert_eq!(duplicates_in(&vec![5, 5, 6, 6, 0, 7]), 2);
}
