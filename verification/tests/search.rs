use std::sync::atomic::{AtomicBool, Ordering};
use sudoku_solver::gameboard::Gameboard;
use sudoku_solver::grid::Grid;
use sudoku_solver::row::{fill_row, missing_digits, row_slots};
use sudoku_solver::rules::count_collisions;
use sudoku_solver::search::{
    advance, attempt, place_row, search, try_candidate, RowOutcome,
};
use sudoku_solver::signal::{is_poll_due, is_raised, raise, POLL_INTERVAL};

fn solution() -> Vec<Vec<u8>> {
    vec![
        vec![5, 3, 4, 6, 7, 8, 9, 1, 2],
        vec![6, 7, 2, 1, 9, 5, 3, 4, 8],
        vec![1, 9, 8, 3, 4, 2, 5, 6, 7],
        vec![8, 5, 9, 7, 6, 1, 4, 2, 3],
        vec![4, 2, 6, 8, 5, 3, 7, 9, 1],
        vec![7, 1, 3, 9, 2, 4, 8, 5, 6],
        vec![9, 6, 1, 5, 3, 7, 2, 8, 4],
        vec![2, 8, 7, 4, 1, 9, 6, 3, 5],
        vec![3, 4, 5, 2, 8, 6, 1, 7, 9],
    ]
}

/// The solution with two or three cells of every row left open. The clues
/// that remain leave no other way to fill it.
fn puzzle() -> Vec<Vec<u8>> {
    vec![
        vec![5, 3, 0, 6, 7, 8, 9, 0, 2],
        vec![6, 0, 2, 1, 9, 0, 3, 4, 8],
        vec![0, 9, 8, 3, 0, 2, 5, 6, 0],
        vec![8, 5, 9, 0, 6, 1, 4, 2, 0],
        vec![4, 2, 0, 8, 0, 3, 7, 9, 1],
        vec![0, 1, 3, 9, 2, 0, 8, 5, 6],
        vec![9, 6, 1, 5, 3, 7, 0, 8, 0],
        vec![2, 0, 7, 4, 1, 9, 6, 0, 5],
        vec![3, 4, 5, 0, 8, 6, 0, 7, 9],
    ]
}

fn board(rows: &Vec<Vec<u8>>) -> Grid {
    Grid::from_rows(rows).expect("nine rows of nine cells")
}

#[test]
fn filled_valid_grid_is_returned_after_nine_attempts() {
    let grid = board(&solution());
    assert_eq!(count_collisions(&grid, true), 0);
    let flag = AtomicBool::new(false);
    let (found, attempts) = search(grid, &flag, 0).expect("nothing raised the flag");
    assert_eq!(attempts, 9);
    assert_eq!(found.to_rows(), solution());
    assert!(flag.load(Ordering::Relaxed));
}

#[test]
fn search_completes_a_puzzle() {
    let flag = AtomicBool::new(false);
    let (found, attempts) = search(board(&puzzle()), &flag, 3).expect("nothing raised the flag");
    assert!(attempts >= 9);
    assert_eq!(count_collisions(&found, true), 0);
    assert_eq!(count_collisions(&found, false), 0);
    let start = puzzle();
    let rows = found.to_rows();
    for r in 0..9 {
        for c in 0..9 {
            assert!(1 <= rows[r][c] && rows[r][c] <= 9);
            if start[r][c] != 0 {
                assert_eq!(rows[r][c], start[r][c]);
            }
        }
    }
    assert_eq!(rows, solution());
}

#[test]
fn solved_board_is_committed() {
    let mut game = Gameboard::new();
    game.as_array = board(&puzzle());
    game.validate();
    assert!(game.is_valid);
    game.solving = true;
    let flag = AtomicBool::new(false);
    let report = search(game.as_array.clone(), &flag, 0);
    assert!(report.is_some());
    let attempts = game.accept(report);
    assert!(attempts.is_some());
    assert!(game.solved);
    assert!(!game.solving);
    assert_eq!(count_collisions(&game.as_array, true), 0);
    assert_eq!(game.as_array.to_rows(), solution());
}

#[test]
fn raised_flag_stops_a_worker_before_its_first_attempt() {
    let flag = AtomicBool::new(true);
    assert!(search(board(&puzzle()), &flag, 1).is_none());
    assert!(search(board(&solution()), &flag, 2).is_none());
    assert!(flag.load(Ordering::Relaxed));
}

#[test]
fn only_the_first_of_two_workers_reports_a_solution() {
    let flag = AtomicBool::new(false);
    let first = search(board(&puzzle()), &flag, 0);
    assert!(flag.load(Ordering::Relaxed));
    let second = search(board(&puzzle()), &flag, 1);
    assert!(first.is_some());
    assert!(second.is_none());
    let mut game = Gameboard::new();
    game.as_array = board(&puzzle());
    game.solving = true;
    game.accept(second);
    assert!(!game.solved);
    game.accept(first);
    assert!(game.solved);
    assert_eq!(game.as_array.to_rows(), solution());
    assert!(flag.load(Ordering::Relaxed));
}

#[test]
fn row_duplicate_among_the_clues_survives_the_search() {
    let mut rows = vec![vec![0u8; 9]; 9];
    rows[0][0] = 5;
    rows[0][8] = 5;
    let grid = board(&rows);
    assert_eq!(count_collisions(&grid, false), 0);
    assert_eq!(count_collisions(&grid, true), 1);
    let (open, present) = row_slots(&grid, 0);
    assert_eq!(open, vec![1, 2, 3, 4, 5, 6, 7]);
    assert_eq!(present, vec![5, 5]);
    assert_eq!(missing_digits(&present), vec![1, 2, 3, 4, 6, 7, 8, 9]);
}

#[test]
fn shuffled_candidates_reach_both_solutions() {
    // Rows 3 and 4 can swap their 1 and 3 in columns 5 and 8.
    let mut rows = solution();
    rows[3][5] = 0;
    rows[3][8] = 0;
    rows[4][5] = 0;
    rows[4][8] = 0;
    let mut as_given = false;
    let mut swapped = false;
    for _ in 0..200 {
        let flag = AtomicBool::new(false);
        let (found, attempts) = search(board(&rows), &flag, 0).expect("nothing raised the flag");
        assert!(attempts >= 9);
        assert_eq!(count_collisions(&found, true), 0);
        let done = found.to_rows();
        if done[3][5] == 1 {
            assert_eq!(done, solution());
            as_given = true;
        } else {
            assert_eq!((done[3][5], done[3][8], done[4][5], done[4][8]), (3, 1, 1, 3));
            swapped = true;
        }
        if as_given && swapped {
            break;
        }
    }
    assert!(as_given && swapped);
}

#[test]
fn row_slots_split_a_row() {
    let grid = board(&puzzle());
    let (open, present) = row_slots(&grid, 0);
    assert_eq!(open, vec![2, 7]);
    assert_eq!(present, vec![5, 3, 6, 7, 8, 9, 2]);
    let (open, present) = row_slots(&grid, 2);
    assert_eq!(open, vec![0, 4, 8]);
    assert_eq!(present, vec![9, 8, 3, 2, 5, 6]);
    let full = board(&solution());
    let (open, present) = row_slots(&full, 8);
    assert!(open.is_empty());
    assert_eq!(present, vec![3, 4, 5, 2, 8, 6, 1, 7, 9]);
    let (open, present) = row_slots(&Grid::blank(), 4);
    assert_eq!(open, vec![0, 1, 2, 3, 4, 5, 6, 7, 8]);
    assert!(present.is_empty());
}

#[test]
fn missing_digits_are_ascending() {
    assert_eq!(missing_digits(&vec![]), vec![1, 2, 3, 4, 5, 6, 7, 8, 9]);
    assert_eq!(missing_digits(&vec![5, 3, 6, 7, 8, 9, 2]), vec![1, 4]);
    assert_eq!(missing_digits(&vec![9, 8, 7, 6, 5, 4, 3, 2, 1]), Vec::<u8>::new());
    assert_eq!(missing_digits(&vec![5, 5]), vec![1, 2, 3, 4, 6, 7, 8, 9]);
    assert_eq!(missing_digits(&vec![0, 10, 200]), vec![1, 2, 3, 4, 5, 6, 7, 8, 9]);
}

#[test]
fn fill_row_writes_open_cells_in_order() {
    let mut grid = board(&puzzle());
    fill_row(&mut grid, 2, &vec![0, 4, 8], &vec![7, 1, 4]);
    let rows = grid.to_rows();
    assert_eq!(rows[2], vec![7, 9, 8, 3, 1, 2, 5, 6, 4]);
    for r in 0..9 {
        if r != 2 {
            assert_eq!(rows[r], puzzle()[r]);
        }
    }
}

#[test]
fn fill_row_stops_with_the_shorter_list() {
    let mut grid = Grid::blank();
    fill_row(&mut grid, 0, &vec![1, 3, 5], &vec![9, 8]);
    assert_eq!(grid.to_rows()[0], vec![0, 9, 0, 8, 0, 0, 0, 0, 0]);
    fill_row(&mut grid, 0, &vec![0], &vec![1, 2, 3]);
    assert_eq!(grid.to_rows()[0], vec![1, 9, 0, 8, 0, 0, 0, 0, 0]);
    fill_row(&mut grid, 0, &vec![], &vec![4]);
    assert_eq!(grid.to_rows()[0], vec![1, 9, 0, 8, 0, 0, 0, 0, 0]);
}

#[test]
fn try_candidate_scores_columns_and_blocks() {
    let mut grid = board(&puzzle());
    assert!(try_candidate(&mut grid, 0, &vec![2, 7], &vec![4, 1]));
    assert_eq!(grid.to_rows()[0], solution()[0]);
    assert!(!try_candidate(&mut grid, 0, &vec![2, 7], &vec![1, 4]));
    assert_eq!(grid.to_rows()[0], vec![5, 3, 1, 6, 7, 8, 9, 4, 2]);
}

#[test]
fn place_row_takes_the_first_candidate_that_fits() {
    let mut grid = board(&puzzle());
    let flag = AtomicBool::new(false);
    let mut attempts = 1;
    let candidates = vec![vec![1, 4], vec![4, 1]];
    let outcome = place_row(&mut grid, 0, &vec![2, 7], &candidates, &flag, &mut attempts);
    assert!(matches!(outcome, RowOutcome::Placed));
    assert_eq!(attempts, 3);
    assert_eq!(grid.to_rows()[0], solution()[0]);
    assert!(!flag.load(Ordering::Relaxed));

    let mut grid = board(&puzzle());
    let mut attempts = 1;
    let candidates = vec![vec![4, 1], vec![1, 4]];
    let outcome = place_row(&mut grid, 0, &vec![2, 7], &candidates, &flag, &mut attempts);
    assert!(matches!(outcome, RowOutcome::Placed));
    assert_eq!(attempts, 2);
}

#[test]
fn place_row_is_stuck_when_nothing_fits() {
    let mut grid = board(&puzzle());
    let flag = AtomicBool::new(false);
    let mut attempts = 10;
    let candidates = vec![vec![1, 4], vec![1, 4], vec![1, 4]];
    let outcome = place_row(&mut grid, 0, &vec![2, 7], &candidates, &flag, &mut attempts);
    assert!(matches!(outcome, RowOutcome::Stuck));
    assert_eq!(attempts, 13);
    let mut attempts = 10;
    let outcome = place_row(&mut grid, 0, &vec![2, 7], &vec![], &flag, &mut attempts);
    assert!(matches!(outcome, RowOutcome::Stuck));
    assert_eq!(attempts, 10);
}

#[test]
fn place_row_looks_at_the_flag_every_500_attempts() {
    let flag = AtomicBool::new(true);
    let candidates = vec![vec![1, 4], vec![1, 4], vec![4, 1]];

    let mut grid = board(&puzzle());
    let mut attempts = 0;
    let outcome = place_row(&mut grid, 0, &vec![2, 7], &candidates, &flag, &mut attempts);
    assert!(matches!(outcome, RowOutcome::Stopped));
    assert_eq!(attempts, 0);
    assert_eq!(grid.to_rows(), puzzle());

    let mut grid = board(&puzzle());
    let mut attempts = 499;
    let outcome = place_row(&mut grid, 0, &vec![2, 7], &candidates, &flag, &mut attempts);
    assert!(matches!(outcome, RowOutcome::Stopped));
    assert_eq!(attempts, 500);
    assert_eq!(grid.to_rows()[0], vec![5, 3, 1, 6, 7, 8, 9, 4, 2]);

    let mut grid = board(&puzzle());
    let mut attempts = 501;
    let outcome = place_row(&mut grid, 0, &vec![2, 7], &candidates, &flag, &mut attempts);
    assert!(matches!(outcome, RowOutcome::Placed));
    assert_eq!(attempts, 504);
}

#[test]
fn place_row_stops_when_the_counter_is_exhausted() {
    let flag = AtomicBool::new(false);
    let mut grid = board(&puzzle());
    let mut attempts = usize::MAX;
    let outcome = place_row(&mut grid, 0, &vec![2, 7], &vec![vec![4, 1]], &flag, &mut attempts);
    assert!(matches!(outcome, RowOutcome::Stopped));
    assert_eq!(attempts, usize::MAX);
    assert_eq!(grid.to_rows(), puzzle());
}

#[test]
fn polls_fall_on_multiples_of_the_interval() {
    assert_eq!(POLL_INTERVAL, 500);
    assert!(is_poll_due(0));
    assert!(!is_poll_due(1));
    assert!(!is_poll_due(499));
    assert!(is_poll_due(500));
    assert!(!is_poll_due(501));
    assert!(is_poll_due(1000));
}

#[test]
fn raising_the_signal_sets_it() {
    let flag = AtomicBool::new(false);
    assert!(!is_raised(&flag));
    raise(&flag);
    assert!(is_raised(&flag));
    raise(&flag);
    assert!(is_raised(&flag));
}

#[test]
fn attempt_writes_the_candidate_and_scores_the_board() {
    let mut grid = board(&puzzle());
    let mut attempts = 7;
    let score = attempt(&mut grid, 0, &vec![2, 7], &vec![4, 1], &mut attempts, false);
    assert_eq!(score, Some(0));
    assert_eq!(attempts, 8);
    assert_eq!(grid.to_rows()[0], solution()[0]);

    // 1 in column 2 meets the 1 of row 6, 4 in column 7 meets the 4 of row 1,
    // and each of them meets its twin in its block
    let score = attempt(&mut grid, 0, &vec![2, 7], &vec![1, 4], &mut attempts, false);
    assert_eq!(score, Some(count_collisions(&grid, false)));
    assert!(score.unwrap() > 0);
    assert_eq!(attempts, 9);
    assert_eq!(grid.to_rows()[0], vec![5, 3, 1, 6, 7, 8, 9, 4, 2]);
}

#[test]
fn attempt_touches_nothing_when_told_to_stop() {
    let mut grid = board(&puzzle());
    let mut attempts = 500;
    let score = attempt(&mut grid, 0, &vec![2, 7], &vec![4, 1], &mut attempts, true);
    assert_eq!(score, None);
    assert_eq!(attempts, 500);
    assert_eq!(grid.to_rows(), puzzle());
}

#[test]
fn attempt_touches_nothing_when_the_counter_is_exhausted() {
    let mut grid = board(&puzzle());
    let mut attempts = usize::MAX;
    let score = attempt(&mut grid, 0, &vec![2, 7], &vec![4, 1], &mut attempts, false);
    assert_eq!(score, None);
    assert_eq!(attempts, usize::MAX);
    assert_eq!(grid.to_rows(), puzzle());
}

#[test]
fn advance_follows_the_outcome() {
    let given = board(&puzzle());
    let mut work = board(&solution());
    assert_eq!(advance(&mut work, &given, 3, RowOutcome::Placed), Some(4));
    assert_eq!(work.to_rows(), solution());
    assert_eq!(advance(&mut work, &given, 8, RowOutcome::Placed), Some(9));
    assert_eq!(work.to_rows(), solution());
    assert_eq!(advance(&mut work, &given, 3, RowOutcome::Stopped), None);
    assert_eq!(work.to_rows(), solution());
    assert_eq!(advance(&mut work, &given, 3, RowOutcome::Stuck), Some(0));
    assert_eq!(work.to_rows(), puzzle());
    assert_eq!(given.to_rows(), puzzle());
}

#[test]
fn two_open_cells_in_the_first_row_take_nine_or_ten_attempts() {
    let mut full = vec![vec![0u8; 9]; 9];
    for r in 0..9 {
        for c in 0..9 {
            full[r][c] = ((3 * (r % 3) + r / 3 + c) % 9 + 1) as u8;
        }
    }
    assert_eq!(count_collisions(&board(&full), true), 0);
    let mut rows = full.clone();
    rows[0][0] = 0;
    rows[0][1] = 0;
    for _ in 0..50 {
        let flag = AtomicBool::new(false);
        let (found, attempts) = search(board(&rows), &flag, 0).expect("nothing raised the flag");
        assert_eq!(found.to_rows(), full);
        assert!(attempts == 9 || attempts == 10);
    }
}
