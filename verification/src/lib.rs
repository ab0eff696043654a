//! A Minesweeper engine: the board state machine and the extraction of
//! mine-count constraints from the numbers a player has uncovered.

use vstd::prelude::*;

pub mod bits;
pub mod clock;
pub mod constraint;
pub mod cursor;
pub mod error;
pub mod flood;
pub mod game;
pub mod grid;
pub mod model;
pub mod placement;
pub mod render;
pub mod rules;
pub mod shuffle;
pub mod text;
pub mod worklist;

pub use constraint::Constraint;

verus! {

/// The classic difficulty presets.
#[derive(Clone, Copy, Debug, PartialEq, Eq, Structural)]
pub enum Difficulty {
    Beginner,
    Intermediate,
    Expert,
}

impl Difficulty {
    /// Width, height and number of mines of a preset.
    pub open spec fn spec_dimensions(&self) -> (usize, usize, usize) {
        match self {
            Difficulty::Beginner => (9, 9, 10),
            Difficulty::Intermediate => (16, 16, 40),
            Difficulty::Expert => (30, 16, 99),
        }
    }

    /// Width, height and number of mines of a preset.
    #[verifier::when_used_as_spec(spec_dimensions)]
    pub fn dimensions(&self) -> (dims: (usize, usize, usize))
        ensures
            dims == self.spec_dimensions(),
    {
        match self {
            Difficulty::Beginner => (9, 9, 10),
            Difficulty::Intermediate => (16, 16, 40),
            Difficulty::Expert => (30, 16, 99),
        }
    }
}

/// How large an area around the first revealed cell is kept free of mines.
#[derive(Clone, Copy, Debug, PartialEq, Eq, Structural)]
pub enum FirstClickPolicy {
    /// The clicked cell and its eight neighbours hold no mine.
    GuaranteedZero,
    /// The clicked cell holds no mine.
    GuaranteedSafe,
    /// Any cell may hold a mine, the clicked one included.
    Unprotected,
}

} // verus!
