//! The game: the board of cells and the moves of the player.

use vstd::prelude::*;
use std::time::{Duration, Instant};
use crate::FirstClickPolicy;
use crate::clock::{elapsed_since, now};
use crate::placement::reserve;
pub use crate::error::{LoadGameError, ParseGameError};
use crate::flood::{floods_to, lemma_flood_start, lemma_flood_stays, opened};
use crate::grid::{
    count_cells, hidden, in_grid, in_state, index_of, lemma_count_bound, lemma_index_div_mod,
    lemma_index_in_bounds, lemma_index_split, lemma_neighbours_same, lemma_numbers_kept,
    lemma_states_partition, lemma_toggle_keeps, live_mine, mined, neighbours_upto,
    neighbours_where, numbered, place_x, place_y,
};
pub use crate::model::GameView;

verus! {

/// What a cell hides.
#[derive(Clone, Copy, Debug, PartialEq, Eq, Structural)]
pub enum CellContent {
    Mine,
    Explosion,
    Number(u8),
}

/// What the player has done to a cell.
#[derive(Clone, Copy, Debug, PartialEq, Eq, Structural)]
pub enum CellState {
    Covered,
    Revealed,
    Flagged,
}

#[derive(Clone, Copy, Debug, PartialEq, Eq, Structural)]
pub struct Cell {
    pub content: CellContent,
    pub state: CellState,
}

#[derive(Debug, PartialEq, Eq, Structural)]
pub enum GameState {
    Playing,
    Won,
    Lost,
}

/// A game of Minesweeper: the board, the number of mines, and how far the
/// game has got.
pub struct Game {
    /// The cells, row by row.
    pub board: Vec<Cell>,
    pub width: usize,
    pub height: usize,
    pub num_mines: usize,
    pub state: GameState,
    /// The mines are still to be laid: the next reveal is the first.
    pub first_click: bool,
    pub first_click_policy: FirstClickPolicy,
    /// When the first cell was revealed.
    pub start_time: Option<Instant>,
    /// How long the game took, once it is over.
    pub final_time: Option<Duration>,
}

impl View for Game {
    type V = GameView;

    open spec fn view(&self) -> GameView {
        GameView {
            cells: self.board@,
            width: self.width as int,
            height: self.height as int,
            num_mines: self.num_mines as int,
            state: self.state,
            unplaced: self.first_click,
            first_click_policy: self.first_click_policy,
            start_time: self.start_time,
            final_time: self.final_time,
        }
    }
}

impl Game {
    /// A fresh game: every cell covered, no mine laid yet. The mines are laid
    /// by the first reveal.
    pub fn new(
        width: usize,
        height: usize,
        num_mines: usize,
        first_click_policy: FirstClickPolicy,
    ) -> (game: Game)
        requires
            width * height <= usize::MAX,
            num_mines + reserve(first_click_policy) <= width * height,
        ensures
            game@.wf(),
            game@ == (GameView {
                cells: Seq::new(
                    (width * height) as nat,
                    |i: int| Cell { content: CellContent::Number(0), state: CellState::Covered },
                ),
                width: width as int,
                height: height as int,
                num_mines: num_mines as int,
                state: GameState::Playing,
                unplaced: true,
                first_click_policy,
                start_time: None,
                final_time: None,
            }),
    {
        let board = vec![
            Cell { content: CellContent::Number(0), state: CellState::Covered };
            width * height
        ];
        let game = Game {
            board,
            width,
            height,
            num_mines,
            state: GameState::Playing,
            first_click: true,
            start_time: None,
            final_time: None,
            first_click_policy,
        };
        proof {
            assert(game@.cells =~= Seq::new(
                (width * height) as nat,
                |i: int| Cell { content: CellContent::Number(0), state: CellState::Covered },
            ));
        }
        game
    }

    /// Row-major index of the cell in column `x` of row `y`.
    pub(crate) fn index(&self, x: usize, y: usize) -> (i: usize)
        requires
            self@.shaped(),
            x < self@.width,
            y < self@.height,
        ensures
            i == index_of(self@.width, x as int, y as int),
            i < self@.cells.len(),
    {
        proof {
            lemma_index_in_bounds(self.width as int, self.height as int, x as int, y as int);
            assert(self.board@.len() == self.board.len());
        }
        y * self.width + x
    }

    /// The cell in column `x` of row `y`.
    pub fn get_cell(&self, x: usize, y: usize) -> (cell: &Cell)
        requires
            self@.shaped(),
            x < self@.width,
            y < self@.height,
        ensures
            *cell == self@.cell(x as int, y as int),
    {
        let i = self.index(x, y);
        &self.board[i]
    }

    /// The cell in column `x` of row `y`, to be changed in place. Whoever
    /// writes through it answers for `wf`.
    pub fn get_cell_mut(&mut self, x: usize, y: usize) -> (cell: &mut Cell)
        requires
            old(self)@.shaped(),
            x < old(self)@.width,
            y < old(self)@.height,
        ensures
            *cell == old(self)@.cell(x as int, y as int),
            final(self)@ == old(self)@.with_cells(
                old(self)@.cells.update(
                    index_of(old(self)@.width, x as int, y as int),
                    *final(cell),
                ),
            ),
    {
        let i = self.index(x, y);
        &mut self.board[i]
    }

    /// Number of cells in the given state.
    pub fn count(&self, cell_state: CellState) -> (n: usize)
        ensures
            n == count_cells(self@.cells, in_state(cell_state)),
    {
        let mut n: usize = 0;
        let mut i: usize = 0;
        while i < self.board.len()
            invariant
                i <= self.board@.len(),
                n <= i,
                n == count_cells(self.board@.take(i as int), in_state(cell_state)),
            decreases self.board@.len() - i,
        {
            proof {
                assert(self.board@.take(i + 1).drop_last() =~= self.board@.take(i as int));
            }
            if self.board[i].state == cell_state {
                n += 1;
            }
            i += 1;
        }
        proof {
            assert(self.board@.take(i as int) =~= self.board@);
        }
        n
    }

    /// Puts a flag on a covered cell, or takes it off a flagged one. A
    /// revealed cell and coordinates off the board are left alone.
    pub fn flag(&mut self, x: usize, y: usize)
        requires
            old(self)@.shaped(),
        ensures
            final(self)@ == old(self)@.flagged(x as int, y as int),
            old(self)@.wf() ==> final(self)@.wf(),
    {
        if x < self.width && y < self.height {
            let i = self.index(x, y);
            let ghost before = self.board@;
            match self.board[i].state {
                CellState::Covered => {
                    self.board[i].state = CellState::Flagged;
                },
                CellState::Flagged => {
                    self.board[i].state = CellState::Covered;
                },
                CellState::Revealed => {},
            }
            proof {
                lemma_toggle_keeps(
                    before,
                    self.board@,
                    self.width as int,
                    self.height as int,
                    i as int,
                );
            }
        }
    }

    /// The `k`-th place around `(x, y)`, where that is a neighbour on the
    /// board.
    pub(crate) fn neighbour(&self, x: usize, y: usize, k: usize) -> (r: Option<(usize, usize)>)
        requires
            self@.shaped(),
            x < self@.width,
            y < self@.height,
            k < 9,
        ensures
            match r {
                Some((nx, ny)) => {
                    &&& k != 4
                    &&& nx == place_x(x as int, k as int)
                    &&& ny == place_y(y as int, k as int)
                    &&& in_grid(self@.width, self@.height, nx as int, ny as int)
                },
                None => k == 4 || !in_grid(
                    self@.width,
                    self@.height,
                    place_x(x as int, k as int),
                    place_y(y as int, k as int),
                ),
            },
    {
        if k == 4 {
            return None;
        }
        let dx = k % 3;
        let dy = k / 3;
        if (dx == 0 && x == 0) || (dy == 0 && y == 0) {
            return None;
        }
        if (dx == 2 && x + 1 >= self.width) || (dy == 2 && y + 1 >= self.height) {
            return None;
        }
        Some((x + dx - 1, y + dy - 1))
    }

    /// Index of the `k`-th place around `(x, y)`, where that is a neighbour
    /// on the board.
    pub(crate) fn neighbour_index(&self, x: usize, y: usize, k: usize) -> (r: Option<usize>)
        requires
            self@.shaped(),
            x < self@.width,
            y < self@.height,
            k < 9,
        ensures
            match r {
                Some(i) => {
                    &&& k != 4
                    &&& in_grid(
                        self@.width,
                        self@.height,
                        place_x(x as int, k as int),
                        place_y(y as int, k as int),
                    )
                    &&& i == index_of(
                        self@.width,
                        place_x(x as int, k as int),
                        place_y(y as int, k as int),
                    )
                    &&& i < self@.cells.len()
                },
                None => k == 4 || !in_grid(
                    self@.width,
                    self@.height,
                    place_x(x as int, k as int),
                    place_y(y as int, k as int),
                ),
            },
    {
        match self.neighbour(x, y, k) {
            Some((nx, ny)) => Some(self.index(nx, ny)),
            None => None,
        }
    }

    /// Fills in the number of every cell that holds no live mine.
    pub(crate) fn calculate_numbers(&mut self)
        requires
            old(self)@.shaped(),
        ensures
            final(self)@ == old(self)@.with_cells(
                numbered(old(self)@.cells, old(self)@.width, old(self)@.height),
            ),
    {
        let ghost before = self.board@;
        let ghost w = self.width as int;
        let ghost h = self.height as int;
        let mut y: usize = 0;
        while y < self.height
            invariant
                y <= self.height,
                self.width == w,
                self.height == h,
                self.board@.len() == before.len(),
                before.len() == w * h,
                self@ == old(self)@.with_cells(self.board@),
                forall|j: int|
                    0 <= j < y * w ==> (#[trigger] self.board@[j]) == numbered(before, w, h)[j],
                forall|j: int| y * w <= j < before.len() ==> (#[trigger] self.board@[j]) == before[j],
            decreases self.height - y,
        {
            let mut x: usize = 0;
            while x < self.width
                invariant
                    y < self.height,
                    x <= self.width,
                    self.width == w,
                    self.height == h,
                    self.board@.len() == before.len(),
                    before.len() == w * h,
                    self@ == old(self)@.with_cells(self.board@),
                    forall|j: int|
                        0 <= j < y * w + x ==> (#[trigger] self.board@[j]) == numbered(
                            before,
                            w,
                            h,
                        )[j],
                    forall|j: int|
                        y * w + x <= j < before.len() ==> (#[trigger] self.board@[j]) == before[j],
                decreases self.width - x,
            {
                let i = self.index(x, y);
                if self.board[i].content != CellContent::Mine {
                    let n = self.count_adjacent_mines(x, y);
                    proof {
                        lemma_index_div_mod(w, h, x as int, y as int);
                        assert forall|j: int| 0 <= j < before.len() implies live_mine()(
                            #[trigger] self.board@[j],
                        ) == live_mine()(before[j]) by {
                            if j < y * w + x {
                                assert(self.board@[j] == numbered(before, w, h)[j]);
                            }
                        }
                        lemma_neighbours_same(
                            self.board@,
                            live_mine(),
                            before,
                            live_mine(),
                            w,
                            h,
                            x as int,
                            y as int,
                        );
                    }
                    self.board[i].content = CellContent::Number(n);
                }
                x += 1;
            }
            proof {
                assert((y + 1) * w == y * w + w) by (nonlinear_arith);
            }
            y += 1;
        }
        proof {
            assert(h * w == w * h) by (nonlinear_arith);
            assert(self.board@ =~= numbered(before, w, h));
        }
    }

    /// Number of live mines around `(x, y)`.
    fn count_adjacent_mines(&self, x: usize, y: usize) -> (count: u8)
        requires
            self@.shaped(),
            x < self@.width,
            y < self@.height,
        ensures
            count == neighbours_where(
                self@.cells,
                self@.width,
                self@.height,
                x as int,
                y as int,
                live_mine(),
            ).len(),
    {
        let mut count: u8 = 0;
        for k in 0..9usize
            invariant
                self@.shaped(),
                x < self@.width,
                y < self@.height,
                count <= k,
                count == neighbours_upto(
                    self@.cells,
                    self@.width,
                    self@.height,
                    x as int,
                    y as int,
                    live_mine(),
                    k as int,
                ).len(),
        {
            if let Some(i) = self.neighbour_index(x, y, k) {
                if self.board[i].content == CellContent::Mine {
                    count += 1;
                }
            }
        }
        count
    }

    /// Indices of the neighbours of `(x, y)` that are not revealed, in
    /// ascending order.
    pub(crate) fn get_adjacent_unrevealed(&self, x: usize, y: usize) -> (adjacent: Vec<usize>)
        requires
            self@.shaped(),
            x < self@.width,
            y < self@.height,
        ensures
            adjacent@ == neighbours_where(
                self@.cells,
                self@.width,
                self@.height,
                x as int,
                y as int,
                hidden(),
            ),
    {
        let mut adjacent: Vec<usize> = Vec::new();
        for k in 0..9usize
            invariant
                self@.shaped(),
                x < self@.width,
                y < self@.height,
                adjacent@ == neighbours_upto(
                    self@.cells,
                    self@.width,
                    self@.height,
                    x as int,
                    y as int,
                    hidden(),
                    k as int,
                ),
        {
            if let Some(i) = self.neighbour_index(x, y, k) {
                if self.board[i].state != CellState::Revealed {
                    adjacent.push(i);
                }
            }
        }
        adjacent
    }

    /// Number of revealed cells around the cell with index `i`.
    pub(crate) fn count_adjacent_revealed(&self, i: usize) -> (n: usize)
        requires
            self@.shaped(),
            i < self@.cells.len(),
        ensures
            n == neighbours_where(
                self@.cells,
                self@.width,
                self@.height,
                i as int % self@.width,
                i as int / self@.width,
                in_state(CellState::Revealed),
            ).len(),
    {
        proof {
            if self.width == 0 {
                assert(self.width * self.height == 0) by (nonlinear_arith)
                    requires
                        self.width == 0,
                ;
            }
            lemma_index_split(self.width as int, self.height as int, i as int);
        }
        let x = i % self.width;
        let y = i / self.width;
        let mut n: usize = 0;
        for k in 0..9usize
            invariant
                self@.shaped(),
                x < self@.width,
                y < self@.height,
                n <= k,
                n == neighbours_upto(
                    self@.cells,
                    self@.width,
                    self@.height,
                    x as int,
                    y as int,
                    in_state(CellState::Revealed),
                    k as int,
                ).len(),
        {
            if let Some(j) = self.neighbour_index(x, y, k) {
                if self.board[j].state == CellState::Revealed {
                    n += 1;
                }
            }
        }
        n
    }

    /// Declares a game that is on won when the number of revealed cells
    /// equals the number of cells without a mine, and freezes the timer at
    /// `elapsed` if it still runs.
    fn check_win_condition(&mut self, elapsed: Duration)
        requires
            old(self)@.shaped(),
            old(self)@.num_mines <= old(self)@.width * old(self)@.height,
        ensures
            ({
                let before = old(self)@;
                let won = before.state is Playing && count_cells(
                    before.cells,
                    in_state(CellState::Revealed),
                ) == before.width * before.height - before.num_mines;
                final(self)@ == GameView {
                    state: if won {
                        GameState::Won
                    } else {
                        before.state
                    },
                    final_time: if won && before.final_time is None {
                        Some(elapsed)
                    } else {
                        before.final_time
                    },
                    ..before
                }
            }),
    {
        proof {
            assert(self.board@.len() == self.board.len());
        }
        if self.state == GameState::Playing {
            let non_mine_cells = self.width * self.height - self.num_mines;
            if self.count(CellState::Revealed) == non_mine_cells {
                self.state = GameState::Won;
                if self.final_time.is_none() {
                    self.final_time = Some(elapsed);
                }
            }
        }
    }

    /// Reveals the cell `(x, y)` at the instant `started`, with the timer
    /// reading `elapsed`. Nothing happens unless it is a covered cell of the
    /// board, so a second reveal of a cell, and a reveal of a flagged cell,
    /// change nothing. The first reveal of a game made by `new` lays the
    /// mines first and starts the timer at `started`. A cell that shows zero
    /// reveals its neighbours in turn. In a game that is on, a mine goes off
    /// and the game is lost, and the game is won when only mines are left;
    /// either way the timer is frozen at `elapsed`. A game that is over
    /// stays over, with the time it was frozen at.
    pub fn reveal_at(&mut self, x: usize, y: usize, started: Instant, elapsed: Duration)
        requires
            old(self)@.wf(),
        ensures
            final(self)@.wf(),
            old(self)@.reveals_at(final(self)@, x as int, y as int, started, elapsed),
    {
        if x >= self.width || y >= self.height {
            return;
        }
        let i = self.index(x, y);
        if self.board[i].state != CellState::Covered {
            return;
        }
        if self.first_click {
            self.place_mines(x, y, started);
        }
        let ghost mid = self@;
        let ghost w = self.width as int;
        let ghost h = self.height as int;
        proof {
            lemma_count_bound(mid.cells, mined());
            lemma_index_in_bounds(w, h, x as int, y as int);
            lemma_index_div_mod(w, h, x as int, y as int);
            lemma_flood_start(mid.cells, w, h, x as int, y as int);
        }
        match self.board[i].content {
            CellContent::Number(0) => {
                self.flood(x, y);
            },
            _ => {
                self.board[i].state = CellState::Revealed;
            },
        }
        let ghost spread = self.board@;
        proof {
            if mid.cells[i as int].content != CellContent::Number(0) {
                assert forall|j: int| 0 <= j < mid.cells.len() implies spread[j] == opened(
                    mid.cells,
                    w,
                    h,
                    x as int,
                    y as int,
                )[j] by {
                    lemma_index_split(w, h, j);
                    if floods_to(mid.cells, w, h, x as int, y as int, j % w, j / w) {
                        lemma_flood_stays(mid.cells, w, h, x as int, y as int, j % w, j / w);
                    }
                }
            }
            assert(spread =~= opened(mid.cells, w, h, x as int, y as int));
        }
        if self.board[i].content == CellContent::Mine {
            if self.state == GameState::Playing {
                self.state = GameState::Lost;
                self.board[i].content = CellContent::Explosion;
                if self.final_time.is_none() {
                    self.final_time = Some(elapsed);
                }
            }
        } else {
            self.check_win_condition(elapsed);
        }
        proof {
            let now = self.board@;
            assert(now =~= mid.revealed(x as int, y as int, elapsed).cells);
            assert forall|j: int| 0 <= j < mid.cells.len() implies mined()(
                #[trigger] mid.cells[j],
            ) == mined()(now[j]) by {
                assert(spread[j].content == mid.cells[j].content);
            }
            assert forall|j: int|
                0 <= j < mid.cells.len() && (#[trigger] now[j]).content is Number
                implies now[j].content == mid.cells[j].content by {
                assert(spread[j].content == mid.cells[j].content);
            }
            lemma_numbers_kept(mid.cells, now, w, h);
            assert(self@ == mid.revealed(x as int, y as int, elapsed));
        }
    }

    /// Reveals the cell `(x, y)` now: reads the clock and reveals the cell
    /// as `reveal_at` does.
    pub fn reveal_cell(&mut self, x: usize, y: usize)
        requires
            old(self)@.wf(),
        ensures
            final(self)@.wf(),
            old(self)@.reveals_to(final(self)@, x as int, y as int),
    {
        let started = now();
        let elapsed = match self.start_time {
            Some(start) => elapsed_since(&start),
            None => elapsed_since(&started),
        };
        self.reveal_at(x, y, started, elapsed);
    }

    /// The chance that a hidden cell holds a mine when nothing else is known
    /// of it, as the number of mines and the number of hidden cells. `None`
    /// once the game is over, and when no cell is hidden.
    pub fn prior(&self) -> (odds: Option<(usize, usize)>)
        ensures
            odds == self@.prior(),
    {
        if self.state != GameState::Playing {
            return None;
        }
        let covered = self.count(CellState::Covered);
        let flagged = self.count(CellState::Flagged);
        proof {
            lemma_states_partition(self.board@);
            assert(self.board@.len() == self.board.len());
        }
        let denom = covered + flagged;
        if denom == 0 {
            return None;
        }
        Some((self.num_mines, denom))
    }
}

} // verus!
