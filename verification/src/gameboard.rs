//! The game board: the grid a player edits, and the flags that say whether
//! it is valid, being solved, or solved.

use crate::grid::{uniform, with_cell, Grid};
use crate::rules::{collisions, count_collisions, is_board};
use vstd::prelude::*;

verus! {

/// How many workers race for a solution.
pub const WORKERS: u8 = 7;

/// The game board.
#[derive(Clone)]
pub struct Gameboard {
    /// The cells of the board; `0` marks an empty cell.
    pub as_array: Grid,
    /// Whether the board has no collision in any row, column or block.
    pub is_valid: bool,
    /// Whether workers are looking for a solution.
    pub solving: bool,
    /// Whether the board shows a solution that a worker found.
    pub solved: bool,
}

/// What a game board holds, with the grid as plain sequences.
pub struct BoardState {
    pub cells: Seq<Seq<u8>>,
    pub is_valid: bool,
    pub solving: bool,
    pub solved: bool,
}

impl View for Gameboard {
    type V = BoardState;

    open spec fn view(&self) -> BoardState {
        BoardState {
            cells: self.as_array@,
            is_valid: self.is_valid,
            solving: self.solving,
            solved: self.solved,
        }
    }
}

/// The character that shows a cell: its digit, or nothing for an empty cell
/// and for anything that is not a digit.
pub open spec fn digit_char(d: u8) -> Option<char> {
    if d == 1 {
        Some('1')
    } else if d == 2 {
        Some('2')
    } else if d == 3 {
        Some('3')
    } else if d == 4 {
        Some('4')
    } else if d == 5 {
        Some('5')
    } else if d == 6 {
        Some('6')
    } else if d == 7 {
        Some('7')
    } else if d == 8 {
        Some('8')
    } else if d == 9 {
        Some('9')
    } else {
        None
    }
}

/// A fresh game: an empty board, valid, neither being solved nor solved.
pub open spec fn fresh() -> BoardState {
    BoardState { cells: uniform(9, 9, 0), is_valid: true, solving: false, solved: false }
}

/// The state after an edit of the cell in column `ind[0]` and row `ind[1]`:
/// the cell holds `val`, unless the board is being solved or is solved, in
/// which case nothing changes.
pub open spec fn edited(s: BoardState, ind: [usize; 2], val: u8) -> BoardState {
    if !s.solving && !s.solved {
        BoardState { cells: with_cell(s.cells, ind[1] as int, ind[0] as int, val), ..s }
    } else {
        s
    }
}

/// The state after validation: the board is valid exactly when it has no
/// collision in any row, column or block.
pub open spec fn validated(s: BoardState) -> BoardState {
    BoardState { is_valid: collisions(s.cells, true) == 0, ..s }
}

/// The state after a worker's report has come in: a solution takes the place
/// of the board, which is then solved and no longer being solved; a report
/// without a solution changes nothing.
pub open spec fn reported(s: BoardState, outcome: Option<(Grid, usize)>) -> BoardState {
    match outcome {
        Some((solution, _)) => BoardState {
            cells: solution@,
            is_valid: s.is_valid,
            solving: false,
            solved: true,
        },
        None => s,
    }
}

impl Gameboard {
    /// The grid is a board: nine rows of nine cells.
    pub open spec fn wf(&self) -> bool {
        is_board(self.as_array@)
    }

    /// Whether the grid is a board.
    pub fn is_well_formed(&self) -> (yes: bool)
        ensures
            yes == self.wf(),
    {
        self.as_array.is_board_shaped()
    }

    /// A fresh game.
    pub fn new() -> (board: Gameboard)
        ensures
            board@ == fresh(),
            board.wf(),
    {
        Gameboard { as_array: Grid::blank(), is_valid: true, solving: false, solved: false }
    }

    /// Checks the board for collisions in rows, columns and blocks and
    /// records whether it is free of them.
    pub fn validate(&mut self)
        requires
            old(self).wf(),
        ensures
            final(self)@ == validated(old(self)@),
            final(self).wf(),
    {
        self.is_valid = count_collisions(&self.as_array, true) == 0;
    }

    /// The character to show in the cell in column `ind[0]` and row `ind[1]`.
    pub fn char(&self, ind: [usize; 2]) -> (shown: Option<char>)
        requires
            self.wf(),
            ind[0] < 9,
            ind[1] < 9,
        ensures
            shown == digit_char(self.as_array@[ind[1] as int][ind[0] as int]),
    {
        match self.as_array.get(ind[1], ind[0]) {
            1 => Some('1'),
            2 => Some('2'),
            3 => Some('3'),
            4 => Some('4'),
            5 => Some('5'),
            6 => Some('6'),
            7 => Some('7'),
            8 => Some('8'),
            9 => Some('9'),
            _ => None,
        }
    }

    /// Writes `val` into the cell in column `ind[0]` and row `ind[1]`, unless
    /// the board is being solved or is solved.
    pub fn set(&mut self, ind: [usize; 2], val: u8)
        requires
            old(self).wf(),
            ind[0] < 9,
            ind[1] < 9,
        ensures
            final(self)@ == edited(old(self)@, ind, val),
            final(self).wf(),
    {
        if !self.solving && !self.solved {
            self.as_array.put(ind[1], ind[0], val);
        }
    }

    /// Takes in the report of the first worker to answer. A solution replaces
    /// the board and marks it solved; a report without one leaves the game
    /// as it is. Returns the number of attempts the solution took.
    pub fn accept(&mut self, outcome: Option<(Grid, usize)>) -> (attempts: Option<usize>)
        requires
            old(self).wf(),
            outcome matches Some((solution, _)) ==> is_board(solution@),
        ensures
            final(self)@ == reported(old(self)@, outcome),
            final(self).wf(),
            attempts == match outcome {
                Some((_, tried)) => Some(tried),
                None => None,
            },
    {
        if let Some(result) = outcome {
            self.as_array = result.0;
            self.solved = true;
            self.solving = false;
            Some(result.1)
        } else {
            None
        }
    }
}

} // verus!
