//! A Sudoku solver built around a randomized, row-by-row search whose
//! scoring, placement and acceptance rules are machine-checked.

pub mod arrange;
pub mod controller;
pub mod gameboard;
pub mod grid;
pub mod row;
pub mod rules;
pub mod search;
pub mod signal;
