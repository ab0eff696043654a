//! What holds of every game, whatever the players, the clock and the shuffle
//! do.

use vstd::prelude::*;
use std::time::{Duration, Instant};
use crate::game::{CellContent, CellState, GameView};
use crate::grid::{
    count_cells, in_grid, in_state, index_of, lemma_index_div_mod, lemma_index_in_bounds,
    lemma_neighbours_empty, lemma_states_partition, mined, neighbour_hit, place_x, place_y,
};
use crate::flood::{lemma_flood_start, lemma_place_adjacent};

verus! {

impl GameView {
    /// Every cell is revealed, covered or flagged: the three counts add up
    /// to the size of the board.
    pub proof fn lemma_counts_add_up(self)
        requires
            self.shaped(),
        ensures
            count_cells(self.cells, in_state(CellState::Revealed)) + count_cells(
                self.cells,
                in_state(CellState::Covered),
            ) + count_cells(self.cells, in_state(CellState::Flagged)) == self.width * self.height,
    {
        lemma_states_partition(self.cells);
    }

    /// A reveal of a cell that is revealed already, of a flagged cell, or of
    /// a place off the board changes nothing.
    pub proof fn lemma_reveal_needs_covered(self, after: GameView, x: int, y: int)
        requires
            self.reveals_to(after, x, y),
            !in_grid(self.width, self.height, x, y) || !(self.cell(x, y).state is Covered),
        ensures
            after == self,
    {
    }

    /// After a reveal of a cell of the board that was covered, the cell is
    /// revealed, and the board is as large as before.
    pub proof fn lemma_reveal_reveals(self, after: GameView, x: int, y: int)
        requires
            self.wf(),
            self.reveals_to(after, x, y),
            in_grid(self.width, self.height, x, y),
            self.cell(x, y).state is Covered,
        ensures
            after.cell(x, y).state is Revealed,
            after.width == self.width,
            after.height == self.height,
    {
        let (started, elapsed) = choose|started: Instant, elapsed: Duration| #[trigger]
            self.reveals_at(after, x, y, started, elapsed);
        let mid = choose|mid: GameView|
            (if self.unplaced {
                self.laid_out(mid, x, y, started)
            } else {
                mid == self
            }) && after == #[trigger] mid.revealed(x, y, elapsed);
        lemma_index_in_bounds(self.width, self.height, x, y);
        lemma_index_div_mod(self.width, self.height, x, y);
        assert(mid.cells[index_of(self.width, x, y)].state is Covered);
        lemma_flood_start(mid.cells, self.width, self.height, x, y);
    }

    /// To reveal a cell twice is to reveal it once.
    pub proof fn lemma_reveal_again(self, once: GameView, twice: GameView, x: int, y: int)
        requires
            self.wf(),
            self.reveals_to(once, x, y),
            once.reveals_to(twice, x, y),
        ensures
            twice == once,
    {
        if in_grid(self.width, self.height, x, y) && self.cell(x, y).state is Covered {
            self.lemma_reveal_reveals(once, x, y);
        }
    }

    /// A flag cannot be put on a revealed cell, nor off the board: the
    /// attempt changes nothing.
    pub proof fn lemma_flag_needs_hidden(self, x: int, y: int)
        requires
            !in_grid(self.width, self.height, x, y) || self.cell(x, y).state is Revealed,
        ensures
            self.flagged(x, y) == self,
    {
    }

    /// To toggle a flag twice is to leave the cell as it was.
    pub proof fn lemma_flag_twice(self, x: int, y: int)
        requires
            self.shaped(),
        ensures
            self.flagged(x, y).flagged(x, y) == self,
    {
        if in_grid(self.width, self.height, x, y) {
            lemma_index_in_bounds(self.width, self.height, x, y);
            assert(self.flagged(x, y).flagged(x, y).cells =~= self.cells);
        }
    }

    /// A reveal in a game that is on loses it exactly when it hits a mine,
    /// and wins it exactly when it hits none and the revealed cells are then
    /// as many as the cells without a mine. The timer is frozen, at the
    /// reading of that moment, exactly when the reveal ends the game.
    pub proof fn lemma_game_ends(self, x: int, y: int, elapsed: Duration)
        requires
            self.wf(),
            !self.unplaced,
            self.state is Playing,
        ensures
            ({
                let after = self.revealed(x, y, elapsed);
                &&& after.state is Lost <==> self.hits_mine(x, y)
                &&& after.state is Won <==> !self.hits_mine(x, y) && count_cells(
                    after.cells,
                    in_state(CellState::Revealed),
                ) == self.width * self.height - self.num_mines
                &&& after.final_time == if after.state is Playing {
                    None
                } else {
                    Some(elapsed)
                }
            }),
    {
    }

    /// A game that is over stays as it ended: won or lost, with the time it
    /// was frozen at.
    pub proof fn lemma_over_stays_over(self, after: GameView, x: int, y: int)
        requires
            self.wf(),
            self.reveals_to(after, x, y),
            !(self.state is Playing),
        ensures
            after.state == self.state,
            after.final_time == self.final_time,
    {
        let (started, elapsed) = choose|started: Instant, elapsed: Duration| #[trigger]
            self.reveals_at(after, x, y, started, elapsed);
        if in_grid(self.width, self.height, x, y) && self.cell(x, y).state is Covered {
            let mid = choose|mid: GameView|
                (if self.unplaced {
                    self.laid_out(mid, x, y, started)
                } else {
                    mid == self
                }) && after == #[trigger] mid.revealed(x, y, elapsed);
        }
    }

    /// The timer is frozen once: no reveal changes a time that is frozen.
    pub proof fn lemma_frozen_stays_frozen(self, after: GameView, x: int, y: int)
        requires
            self.reveals_to(after, x, y),
            self.final_time is Some,
        ensures
            after.final_time == self.final_time,
    {
        let (started, elapsed) = choose|started: Instant, elapsed: Duration| #[trigger]
            self.reveals_at(after, x, y, started, elapsed);
        if in_grid(self.width, self.height, x, y) && self.cell(x, y).state is Covered {
            let mid = choose|mid: GameView|
                (if self.unplaced {
                    self.laid_out(mid, x, y, started)
                } else {
                    mid == self
                }) && after == #[trigger] mid.revealed(x, y, elapsed);
        }
    }

    /// The timer is frozen by the reveal that ends the game, at the reading
    /// of that moment, and by no earlier one.
    pub proof fn lemma_timer_freezes_at_the_end(
        self,
        after: GameView,
        x: int,
        y: int,
        started: Instant,
        elapsed: Duration,
    )
        requires
            self.wf(),
            self.reveals_at(after, x, y, started, elapsed),
            self.state is Playing,
        ensures
            after.final_time == if after.state is Playing {
                None
            } else {
                Some(elapsed)
            },
    {
        if in_grid(self.width, self.height, x, y) && self.cell(x, y).state is Covered {
            let mid = choose|mid: GameView|
                (if self.unplaced {
                    self.laid_out(mid, x, y, started)
                } else {
                    mid == self
                }) && after == #[trigger] mid.revealed(x, y, elapsed);
        }
    }

    /// A mine goes off only in the cell whose reveal loses the game: a
    /// reveal changes what no other cell holds, and what that cell holds
    /// only when it turns a game that is on into a lost one.
    pub proof fn lemma_one_explosion(self, x: int, y: int, elapsed: Duration, i: int)
        requires
            self.shaped(),
            in_grid(self.width, self.height, x, y),
            0 <= i < self.cells.len(),
        ensures
            ({
                let after = self.revealed(x, y, elapsed);
                if i == index_of(self.width, x, y) && self.state is Playing && self.hits_mine(
                    x,
                    y,
                ) {
                    after.cells[i].content is Explosion && after.state is Lost
                } else {
                    after.cells[i].content == self.cells[i].content
                }
            }),
    {
        lemma_index_in_bounds(self.width, self.height, x, y);
    }

    /// However the mines fall, the first click is safe unless the policy is
    /// `Unprotected`, and under `GuaranteedZero` the clicked cell shows
    /// zero.
    pub proof fn lemma_first_click(self, laid: GameView, fx: int, fy: int, started: Instant)
        requires
            self.shaped(),
            self.laid_out(laid, fx, fy, started),
            in_grid(self.width, self.height, fx, fy),
        ensures
            !(self.first_click_policy is Unprotected) ==> !mined()(laid.cell(fx, fy)),
            self.first_click_policy is GuaranteedZero ==> laid.cell(fx, fy).content
                == CellContent::Number(0),
    {
        let w = self.width;
        let h = self.height;
        lemma_index_in_bounds(w, h, fx, fy);
        if !(self.first_click_policy is Unprotected) {
            assert(!mined()(laid.cell(fx, fy)));
        }
        if self.first_click_policy is GuaranteedZero {
            let c = laid.cells[index_of(w, fx, fy)];
            assert(!(c.content is Explosion));
            assert forall|j: int| 0 <= j < 9 implies !neighbour_hit(
                laid.cells,
                w,
                h,
                fx,
                fy,
                mined(),
                j,
            ) by {
                lemma_place_adjacent(fx, fy, j);
                if in_grid(w, h, place_x(fx, j), place_y(fy, j)) {
                    assert(!mined()(laid.cell(place_x(fx, j), place_y(fy, j))));
                }
            }
            lemma_neighbours_empty(laid.cells, w, h, fx, fy, mined(), 9);
        }
    }
}

} // verus!
