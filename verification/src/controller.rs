//! What a key press does to a game.
//!
//! Reading the keyboard and the mouse is left to the program around the
//! library. It names the key that was pressed and the cell that was
//! selected; the rules for what happens to the board are here.

use crate::gameboard::{edited, fresh, validated, BoardState, Gameboard};
use vstd::prelude::*;

verus! {

/// A key, as far as the game tells keys apart.
#[derive(Clone, Copy, Debug)]
pub enum Key {
    /// A digit key, with the digit on it.
    Digit(u8),
    /// The key that starts the solver.
    Return,
    /// The key that clears the board.
    Space,
    /// Any other key.
    Other,
}

/// A game board together with the cell the player has selected.
pub struct GameboardController {
    /// The game.
    pub gameboard: Gameboard,
    /// The selected cell, as column and row.
    pub selected_cell: Option<[usize; 2]>,
}

/// What the key itself does to the game, before the board is validated.
pub open spec fn key_applied(s: BoardState, ind: [usize; 2], key: Key) -> BoardState {
    match key {
        Key::Digit(d) => edited(s, ind, d),
        Key::Space => if s.solving {
            s
        } else {
            fresh()
        },
        _ => s,
    }
}

/// The game after a key press.
///
/// Without a selected cell a key does nothing. With one, a digit key edits
/// the cell, the space key starts a fresh game unless the solver is running,
/// and the board is validated after any key. The solver is then running if it
/// was running before or the return key was pressed, and in either case only
/// if the board is valid.
pub open spec fn key_pressed(s: BoardState, selected: Option<[usize; 2]>, key: Key) -> BoardState {
    match selected {
        Some(ind) => {
            let checked = validated(key_applied(s, ind, key));
            BoardState { solving: (s.solving || key is Return) && checked.is_valid, ..checked }
        },
        None => s,
    }
}

impl GameboardController {
    /// The board is well formed and the selected cell, if any, is on it.
    pub open spec fn wf(&self) -> bool {
        &&& self.gameboard.wf()
        &&& self.selected_cell matches Some(ind) ==> ind[0] < 9 && ind[1] < 9
    }

    /// Whether the board is well formed and the selected cell is on it.
    pub fn is_well_formed(&self) -> (yes: bool)
        ensures
            yes == self.wf(),
    {
        let on_board = match self.selected_cell {
            Some(ind) => ind[0] < 9 && ind[1] < 9,
            None => true,
        };
        on_board && self.gameboard.is_well_formed()
    }

    /// A controller for `gameboard`, with no cell selected.
    pub fn new(gameboard: Gameboard) -> (controller: GameboardController)
        ensures
            controller.gameboard == gameboard,
            controller.selected_cell is None,
    {
        GameboardController { gameboard, selected_cell: None }
    }

    /// Handles a key press and says whether the solver is to run.
    pub fn press(&mut self, key: Key) -> (solve: bool)
        requires
            old(self).wf(),
        ensures
            final(self).gameboard@ == key_pressed(old(self).gameboard@, old(self).selected_cell, key),
            final(self).selected_cell == old(self).selected_cell,
            final(self).wf(),
            solve == final(self).gameboard.solving,
    {
        let mut solving = self.gameboard.solving;
        if let Some(ind) = self.selected_cell {
            match key {
                Key::Digit(d) => {
                    self.gameboard.set(ind, d);
                },
                Key::Return => {
                    solving = true;
                },
                Key::Space => {
                    if !solving {
                        self.gameboard = Gameboard::new();
                    }
                },
                Key::Other => {},
            }
            self.gameboard.validate();
            if !self.gameboard.is_valid {
                solving = false;
            }
        }
        self.gameboard.solving = solving;
        solving
    }
}

} // verus!
