//! Where the mines go: in a random choice of the cells that the policy for
//! the first click leaves open.

use vstd::prelude::*;
use crate::FirstClickPolicy;
use std::time::Instant;
use crate::game::{Cell, CellContent, Game, GameView};
use crate::grid::{
    blank, chebyshev, count_cells, in_grid, index_of, lemma_count_none, lemma_count_update,
    lemma_index_div_mod, lemma_index_in_bounds, lemma_numbered, live_mine, mined, numbered,
};
use crate::shuffle::shuffle;

verus! {

/// How far around the first click the policy keeps the board free of mines,
/// as a Chebyshev distance; -1 where it keeps nothing free.
pub open spec fn safe_radius(policy: FirstClickPolicy) -> int {
    match policy {
        FirstClickPolicy::GuaranteedZero => 1,
        FirstClickPolicy::GuaranteedSafe => 0,
        FirstClickPolicy::Unprotected => -1,
    }
}

/// Number of cells that the policy keeps free of mines at most: a board has
/// room for the mines when it has that many cells more than mines.
pub open spec fn reserve(policy: FirstClickPolicy) -> int {
    match policy {
        FirstClickPolicy::GuaranteedZero => 9,
        FirstClickPolicy::GuaranteedSafe => 1,
        FirstClickPolicy::Unprotected => 0,
    }
}

/// Under `policy`, a first click at `(fx, fy)` keeps `(x, y)` free of mines.
pub open spec fn kept_free(policy: FirstClickPolicy, fx: int, fy: int, x: int, y: int) -> bool {
    chebyshev(x, y, fx, fy) <= safe_radius(policy)
}

/// One of the first `n` positions of `order` is `i`.
pub open spec fn among_first(order: Seq<usize>, n: int, i: int) -> bool {
    exists|k: int| 0 <= k < n && k < order.len() && #[trigger] order[k] == i
}

/// The board with a mine in each of the first `n` positions of `order`.
pub open spec fn with_mines(cells: Seq<Cell>, order: Seq<usize>, n: int) -> Seq<Cell> {
    Seq::new(
        cells.len(),
        |i: int|
            if among_first(order, n, i) {
                Cell { content: CellContent::Mine, state: cells[i].state }
            } else {
                cells[i]
            },
    )
}

/// Number of the positions below `t` on one axis that lie within distance
/// `r` of `f`.
pub open spec fn near_before(t: int, f: int, r: int) -> int {
    let hi = if t <= f + r + 1 { t } else { f + r + 1 };
    let lo = if f >= r { f - r } else { 0 };
    if hi >= lo { hi - lo } else { 0 }
}

/// Number of the cells in the rows above row `y` that the policy can keep
/// free at most.
pub open spec fn kept_before(policy: FirstClickPolicy, y: int, fy: int) -> int {
    match policy {
        FirstClickPolicy::GuaranteedZero => 3 * near_before(y, fy, 1),
        FirstClickPolicy::GuaranteedSafe => near_before(y, fy, 0),
        FirstClickPolicy::Unprotected => 0,
    }
}

impl Game {
    /// Lays a mine in each of the first `num_mines` positions of `order`,
    /// fills in the numbers, and starts the timer at `started`.
    pub fn lay_mines(&mut self, order: &Vec<usize>, started: Instant)
        requires
            old(self)@.wf(),
            old(self)@.unplaced,
            order@.no_duplicates(),
            order@.len() >= old(self)@.num_mines,
            forall|k: int| 0 <= k < order@.len() ==> (#[trigger] order@[k]) < old(self)@.cells.len(),
        ensures
            final(self)@.wf(),
            final(self)@ == (GameView {
                cells: numbered(
                    with_mines(old(self)@.cells, order@, old(self)@.num_mines),
                    old(self)@.width,
                    old(self)@.height,
                ),
                unplaced: false,
                start_time: Some(started),
                ..old(self)@
            }),
    {
        let ghost before = self.board@;
        let mut k: usize = 0;
        proof {
            lemma_count_none(before, live_mine());
            assert(self.board@ =~= with_mines(before, order@, 0));
        }
        while k < self.num_mines
            invariant
                k <= self.num_mines,
                self.num_mines <= order@.len(),
                order@.no_duplicates(),
                forall|j: int| 0 <= j < order@.len() ==> (#[trigger] order@[j]) < before.len(),
                blank(before),
                self.board@ == with_mines(before, order@, k as int),
                count_cells(self.board@, live_mine()) == k,
                self@ == old(self)@.with_cells(self.board@),
            decreases self.num_mines - k,
        {
            let i = order[k];
            let ghost prev = self.board@;
            proof {
                assert(before[i as int].content == CellContent::Number(0));
                if among_first(order@, k as int, i as int) {
                    let j = choose|j: int| 0 <= j < k && j < order@.len() && order@[j] == i;
                    assert(order@[j] == order@[k as int]);
                }
                assert(prev[i as int] == before[i as int]);
            }
            self.board[i].content = CellContent::Mine;
            proof {
                lemma_count_update(prev, i as int, self.board@[i as int], live_mine());
                assert(self.board@ =~= with_mines(before, order@, k + 1)) by {
                    assert forall|c: int| 0 <= c < before.len() implies self.board@[c]
                        == with_mines(before, order@, k + 1)[c] by {
                        if among_first(order@, k + 1, c) {
                            let j = choose|j: int|
                                0 <= j < k + 1 && j < order@.len() && order@[j] == c;
                            if j < k {
                                assert(among_first(order@, k as int, c));
                            }
                        } else {
                            if among_first(order@, k as int, c) {
                                let j = choose|j: int|
                                    0 <= j < k && j < order@.len() && order@[j] == c;
                                assert(0 <= j < k + 1 && order@[j] == c);
                            }
                            assert(order@[k as int] != c);
                        }
                    }
                }
            }
            k += 1;
        }
        proof {
            lemma_numbered(self.board@, self.width as int, self.height as int);
        }
        self.calculate_numbers();
        self.first_click = false;
        self.start_time = Some(started);
    }

    /// Lays the mines for a first click at `(first_x, first_y)`: in a random
    /// choice of the cells that the policy does not keep free.
    pub(crate) fn place_mines(&mut self, first_x: usize, first_y: usize, started: Instant)
        requires
            old(self)@.wf(),
            old(self)@.unplaced,
            first_x < old(self)@.width,
            first_y < old(self)@.height,
        ensures
            old(self)@.laid_out(final(self)@, first_x as int, first_y as int, started),
    {
        let ghost w = self.width as int;
        let ghost h = self.height as int;
        let ghost fx = first_x as int;
        let ghost fy = first_y as int;
        let ghost before = self.board@;
        let policy = self.first_click_policy;
        let mut positions: Vec<usize> = Vec::new();
        let ghost mut skipped: int = 0;
        let mut y: usize = 0;
        while y < self.height
            invariant
                self@ == old(self)@,
                self@.shaped(),
                w == self.width,
                h == self.height,
                policy == self.first_click_policy,
                y <= h,
                fx == first_x,
                fy == first_y,
                0 <= fx < w,
                0 <= fy < h,
                positions@.len() + skipped == y * w,
                0 <= skipped <= kept_before(policy, y as int, fy),
                forall|k: int| 0 <= k < positions@.len() ==> (#[trigger] positions@[k]) < y * w,
                forall|a: int, b: int|
                    0 <= a < b < positions@.len() ==> (#[trigger] positions@[a])
                        < #[trigger] positions@[b],
                forall|k: int|
                    0 <= k < positions@.len() ==> !kept_free(
                        policy,
                        fx,
                        fy,
                        (#[trigger] positions@[k]) as int % w,
                        positions@[k] as int / w,
                    ),
            decreases h - y,
        {
            let ghost mut row_skipped: int = 0;
            let mut x: usize = 0;
            let dy = if y > first_y {
                y - first_y
            } else {
                first_y - y
            };
            while x < self.width
                invariant
                    self@ == old(self)@,
                    self@.shaped(),
                    w == self.width,
                    h == self.height,
                    policy == self.first_click_policy,
                    y < h,
                    x <= w,
                    fx == first_x,
                    fy == first_y,
                    0 <= fx < w,
                    0 <= fy < h,
                    dy == if y > fy {
                        y - fy
                    } else {
                        fy - y
                    },
                    positions@.len() + skipped + row_skipped == y * w + x,
                    0 <= row_skipped <= near_before(x as int, fx, safe_radius(policy)),
                    row_skipped > 0 ==> dy <= safe_radius(policy),
                    0 <= skipped <= kept_before(policy, y as int, fy),
                    forall|k: int|
                        0 <= k < positions@.len() ==> (#[trigger] positions@[k]) < y * w + x,
                    forall|a: int, b: int|
                        0 <= a < b < positions@.len() ==> (#[trigger] positions@[a])
                            < #[trigger] positions@[b],
                    forall|k: int|
                        0 <= k < positions@.len() ==> !kept_free(
                            policy,
                            fx,
                            fy,
                            (#[trigger] positions@[k]) as int % w,
                            positions@[k] as int / w,
                        ),
                decreases w - x,
            {
                let dx = if x > first_x {
                    x - first_x
                } else {
                    first_x - x
                };
                let avoid = match policy {
                    FirstClickPolicy::GuaranteedZero => dx <= 1 && dy <= 1,
                    FirstClickPolicy::GuaranteedSafe => dx == 0 && dy == 0,
                    FirstClickPolicy::Unprotected => false,
                };
                assert(avoid == kept_free(policy, fx, fy, x as int, y as int));
                if !avoid {
                    let i = self.index(x, y);
                    proof {
                        lemma_index_div_mod(w, h, x as int, y as int);
                    }
                    positions.push(i);
                } else {
                    proof {
                        row_skipped = row_skipped + 1;
                    }
                }
                x += 1;
            }
            proof {
                skipped = skipped + row_skipped;
                assert((y + 1) * w == y * w + w) by (nonlinear_arith);
            }
            y += 1;
        }
        let ghost candidates = positions@;
        proof {
            assert(h * w == w * h) by (nonlinear_arith);
            assert(candidates.no_duplicates());
            candidates.lemma_multiset_has_no_duplicates();
        }
        shuffle(&mut positions);
        proof {
            positions@.lemma_multiset_has_no_duplicates_conv();
            vstd::seq_lib::to_multiset_len(candidates);
            vstd::seq_lib::to_multiset_len(positions@);
            assert forall|k: int| 0 <= k < positions@.len() implies candidates.contains(
                #[trigger] positions@[k],
            ) by {
                vstd::seq_lib::to_multiset_contains(positions@, positions@[k]);
                vstd::seq_lib::to_multiset_contains(candidates, positions@[k]);
                assert(positions@.contains(positions@[k]));
            }
            assert forall|k: int| 0 <= k < positions@.len() implies (#[trigger] positions@[k])
                < before.len() by {
                assert(candidates.contains(positions@[k]));
            }
        }
        self.lay_mines(&positions, started);
        proof {
            let after = self@;
            let laid = with_mines(before, positions@, self.num_mines as int);
            lemma_numbered(laid, w, h);
            assert forall|x: int, y: int|
                in_grid(w, h, x, y) && kept_free(policy, fx, fy, x, y) implies !mined()(
                #[trigger] after.cell(x, y),
            ) by {
                lemma_index_in_bounds(w, h, x, y);
                lemma_index_div_mod(w, h, x, y);
                let i = index_of(w, x, y);
                if mined()(after.cell(x, y)) {
                    assert(laid[i].content is Mine);
                    assert(before[i].content == CellContent::Number(0));
                    assert(among_first(positions@, self.num_mines as int, i));
                    let k = choose|k: int|
                        0 <= k < self.num_mines && k < positions@.len() && positions@[k] == i;
                    assert(candidates.contains(positions@[k]));
                }
            }
            assert forall|i: int| 0 <= i < before.len() implies (#[trigger] after.cells[i]).state
                == before[i].state && !(after.cells[i].content is Explosion) by {
                assert(numbered(laid, w, h)[i].state == laid[i].state);
            }
        }
    }
}

} // verus!
