//! The mathematical model of a game: what a game is, taken apart from how
//! it is stored, and what the moves of the player make of it.

use vstd::prelude::*;
use std::time::{Duration, Instant};
use crate::FirstClickPolicy;
use crate::flood::{exploded_at, opened};
use crate::game::{Cell, CellState, GameState};
use crate::grid::{
    blank, count_cells, flagged_at, in_grid, in_state, index_of, mined, numbers_agree,
};
use crate::placement::{kept_free, reserve};

verus! {

/// The mathematical model of a game, which the contracts speak of.
pub struct GameView {
    /// The cells of the board, row by row.
    pub cells: Seq<Cell>,
    pub width: int,
    pub height: int,
    pub num_mines: int,
    pub state: GameState,
    /// The mines are still to be laid: no cell has been revealed yet.
    pub unplaced: bool,
    pub first_click_policy: FirstClickPolicy,
    pub start_time: Option<Instant>,
    pub final_time: Option<Duration>,
}

impl GameView {
    /// The board has `width * height` cells.
    pub open spec fn shaped(self) -> bool {
        self.cells.len() == self.width * self.height
    }

    /// The game is one that `new`, `from_text` or `from_rows` made and that
    /// reveals and flags played on. Before the mines are laid the board is
    /// blank, has room for the mines beside the cells that the policy keeps
    /// free, and the game is on; afterwards the board holds `num_mines`
    /// mines, every number counts the mines around it, and the timer has
    /// started. The timer is frozen exactly when the game is over.
    pub open spec fn wf(self) -> bool {
        &&& self.shaped()
        &&& self.final_time is None <==> self.state is Playing
        &&& if self.unplaced {
            &&& self.num_mines + reserve(self.first_click_policy) <= self.width * self.height
            &&& blank(self.cells)
            &&& self.state is Playing
        } else {
            &&& count_cells(self.cells, mined()) == self.num_mines
            &&& numbers_agree(self.cells, self.width, self.height)
            &&& self.start_time is Some
        }
    }

    /// The same game with other cells.
    pub open spec fn with_cells(self, cells: Seq<Cell>) -> GameView {
        GameView { cells, ..self }
    }

    /// The cell in column `x` of row `y`.
    pub open spec fn cell(self, x: int, y: int) -> Cell {
        self.cells[index_of(self.width, x, y)]
    }

    /// `after` is this game with its mines laid for a first click at
    /// `(fx, fy)` made at the instant `started`: it holds `num_mines` mines,
    /// none where the policy keeps the board free, every other cell shows
    /// its number, the timer runs from `started`, and nothing else has
    /// changed.
    pub open spec fn laid_out(self, after: GameView, fx: int, fy: int, started: Instant) -> bool {
        &&& after.wf()
        &&& after == GameView {
            cells: after.cells,
            unplaced: false,
            start_time: Some(started),
            ..self
        }
        &&& forall|i: int|
            0 <= i < self.cells.len() ==> (#[trigger] after.cells[i]).state == self.cells[i].state
                && !(after.cells[i].content is Explosion)
        &&& forall|x: int, y: int|
            in_grid(self.width, self.height, x, y) && kept_free(
                self.first_click_policy,
                fx,
                fy,
                x,
                y,
            ) ==> !mined()(#[trigger] after.cell(x, y))
    }

    /// The reveal of `(x, y)` hits a mine.
    pub open spec fn hits_mine(self, x: int, y: int) -> bool {
        self.cell(x, y).content is Mine
    }

    /// After the reveal of `(x, y)` only mines are left: the revealed cells
    /// are as many as the cells without a mine.
    pub open spec fn clears_board(self, x: int, y: int) -> bool {
        count_cells(
            opened(self.cells, self.width, self.height, x, y),
            in_state(CellState::Revealed),
        ) == self.width * self.height - self.num_mines
    }

    /// The state of the game after a reveal of the covered cell `(x, y)`. A
    /// game that is over stays as it is. A game that is on is lost when the
    /// reveal hits a mine, won when it hits none and leaves only mines, and
    /// goes on otherwise.
    pub open spec fn state_after(self, x: int, y: int) -> GameState {
        if !(self.state is Playing) {
            self.state
        } else if self.hits_mine(x, y) {
            GameState::Lost
        } else if self.clears_board(x, y) {
            GameState::Won
        } else {
            GameState::Playing
        }
    }

    /// This game, its mines laid, after a reveal of the covered cell
    /// `(x, y)` when the timer reads `elapsed`. The reveal spreads as
    /// `opened` says. The mine goes off only where it loses the game. The
    /// timer is frozen at `elapsed` by the reveal that ends the game; a time
    /// that is frozen stays.
    pub open spec fn revealed(self, x: int, y: int, elapsed: Duration) -> GameView {
        let spread = opened(self.cells, self.width, self.height, x, y);
        let state = self.state_after(x, y);
        GameView {
            cells: if self.state is Playing && self.hits_mine(x, y) {
                exploded_at(spread, index_of(self.width, x, y))
            } else {
                spread
            },
            state,
            final_time: if self.final_time is Some {
                self.final_time
            } else if self.state is Playing && !(state is Playing) {
                Some(elapsed)
            } else {
                None
            },
            ..self
        }
    }

    /// `after` is this game after the player asks to reveal `(x, y)`, at
    /// the instant `started` and with the timer reading `elapsed`. Nothing
    /// happens unless `(x, y)` is a covered cell of the board. If it is,
    /// the mines are laid first where they are not yet, in some way that
    /// `laid_out` allows, and then the cell is revealed as `revealed` says.
    pub open spec fn reveals_at(
        self,
        after: GameView,
        x: int,
        y: int,
        started: Instant,
        elapsed: Duration,
    ) -> bool {
        if in_grid(self.width, self.height, x, y) && self.cell(x, y).state is Covered {
            exists|mid: GameView|
                (if self.unplaced {
                    self.laid_out(mid, x, y, started)
                } else {
                    mid == self
                }) && after == #[trigger] mid.revealed(x, y, elapsed)
        } else {
            after == self
        }
    }

    /// `after` is this game after the player asks to reveal `(x, y)`, at
    /// whatever time.
    pub open spec fn reveals_to(self, after: GameView, x: int, y: int) -> bool {
        exists|started: Instant, elapsed: Duration| #[trigger]
            self.reveals_at(after, x, y, started, elapsed)
    }

    /// What is known of a hidden cell before any number is read: the mines
    /// and the cells that are not revealed, as the two terms of a fraction.
    /// There is none once the game is over, nor when no cell is hidden.
    pub open spec fn prior(self) -> Option<(usize, usize)> {
        let hidden_cells = count_cells(self.cells, in_state(CellState::Covered)) + count_cells(
            self.cells,
            in_state(CellState::Flagged),
        );
        if self.state is Playing && hidden_cells > 0 {
            Some((self.num_mines as usize, hidden_cells as usize))
        } else {
            None
        }
    }

    /// The game after the player toggles the flag at `(x, y)`.
    pub open spec fn flagged(self, x: int, y: int) -> GameView {
        self.with_cells(flagged_at(self.cells, self.width, self.height, x, y))
    }
}

} // verus!
