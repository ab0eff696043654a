//! The reveal as it is carried out: cells wait in a list until the reveal has
//! spread from them, and what holds of the board and the list on the way.

use vstd::prelude::*;
use crate::flood::{
    adjacent, flood_path, floods_to, lemma_adjacent_place, lemma_flood_start, lemma_flood_step,
    lemma_place_adjacent, opened,
};
use crate::game::{Cell, CellContent, CellState, Game};
use crate::grid::{
    count_cells, in_grid, in_state, index_of, lemma_count_update, lemma_index_in_bounds,
    lemma_index_injective, lemma_index_split, place_x, place_y,
};

verus! {

/// Place `k` around `(zx, zy)`, where it was a covered cell of the board
/// `before`, is revealed `now`.
pub open spec fn place_opened(
    before: Seq<Cell>,
    now: Seq<Cell>,
    width: int,
    height: int,
    zx: int,
    zy: int,
    k: int,
) -> bool {
    in_grid(width, height, place_x(zx, k), place_y(zy, k)) && before[index_of(
        width,
        place_x(zx, k),
        place_y(zy, k),
    )].state is Covered ==> now[index_of(width, place_x(zx, k), place_y(zy, k))].state is Revealed
}

/// All that was covered around `(zx, zy)` is revealed `now`.
pub open spec fn surroundings_opened(
    before: Seq<Cell>,
    now: Seq<Cell>,
    width: int,
    height: int,
    zx: int,
    zy: int,
) -> bool {
    forall|k: int| 0 <= k < 9 ==> #[trigger] place_opened(before, now, width, height, zx, zy, k)
}

/// The cell `(zx, zy)` was covered and showed zero, and is revealed `now`.
pub open spec fn newly_opened_zero(
    before: Seq<Cell>,
    now: Seq<Cell>,
    width: int,
    zx: int,
    zy: int,
) -> bool {
    &&& before[index_of(width, zx, zy)].state is Covered
    &&& before[index_of(width, zx, zy)].content == CellContent::Number(0)
    &&& now[index_of(width, zx, zy)].state is Revealed
}

/// Once the surroundings of every newly revealed zero are revealed, all that
/// the reveal spreads to is revealed.
pub proof fn lemma_flood_complete(
    before: Seq<Cell>,
    now: Seq<Cell>,
    width: int,
    height: int,
    sx: int,
    sy: int,
    path: Seq<(int, int)>,
)
    requires
        flood_path(before, width, height, path),
        path[0] == (sx, sy),
        now[index_of(width, sx, sy)].state is Revealed,
        forall|zx: int, zy: int|
            in_grid(width, height, zx, zy) && #[trigger] newly_opened_zero(
                before,
                now,
                width,
                zx,
                zy,
            ) ==> surroundings_opened(before, now, width, height, zx, zy),
    ensures
        now[index_of(width, path.last().0, path.last().1)].state is Revealed,
    decreases path.len(),
{
    if path.len() > 1 {
        let shorter = path.drop_last();
        assert forall|k: int| 0 <= k < shorter.len() implies in_grid(
            width,
            height,
            (#[trigger] shorter[k]).0,
            shorter[k].1,
        ) && before[index_of(width, shorter[k].0, shorter[k].1)].state is Covered by {
            assert(shorter[k] == path[k]);
        }
        assert forall|k: int| 0 <= k < shorter.len() - 1 implies before[index_of(
            width,
            (#[trigger] shorter[k]).0,
            shorter[k].1,
        )].content == CellContent::Number(0) && adjacent(
            shorter[k].0,
            shorter[k].1,
            shorter[k + 1].0,
            shorter[k + 1].1,
        ) by {
            assert(shorter[k] == path[k]);
            assert(shorter[k + 1] == path[k + 1]);
        }
        lemma_flood_complete(before, now, width, height, sx, sy, shorter);
        let z = path[path.len() - 2];
        let t = path.last();
        assert(z == shorter.last());
        assert(newly_opened_zero(before, now, width, z.0, z.1));
        let k = lemma_adjacent_place(z.0, z.1, t.0, t.1);
        assert(place_opened(before, now, width, height, z.0, z.1, k));
    }
}

/// A cell is waiting in the list of cells that are still to be spread from.
pub open spec fn waiting(pending: Seq<(usize, usize)>, zx: int, zy: int) -> bool {
    exists|k: int|
        0 <= k < pending.len() && (#[trigger] pending[k]).0 == zx && pending[k].1 == zy
}

/// What is revealed around a cell stays revealed on a board where no
/// revealed cell has been covered again.
pub proof fn lemma_surroundings_kept(
    before: Seq<Cell>,
    earlier: Seq<Cell>,
    now: Seq<Cell>,
    width: int,
    height: int,
    zx: int,
    zy: int,
)
    requires
        before.len() == width * height,
        earlier.len() == before.len(),
        now.len() == before.len(),
        surroundings_opened(before, earlier, width, height, zx, zy),
        forall|i: int|
            0 <= i < earlier.len() && (#[trigger] earlier[i]).state is Revealed
                ==> now[i].state is Revealed,
    ensures
        surroundings_opened(before, now, width, height, zx, zy),
{
    assert forall|k: int| 0 <= k < 9 implies #[trigger] place_opened(
        before,
        now,
        width,
        height,
        zx,
        zy,
        k,
    ) by {
        assert(place_opened(before, earlier, width, height, zx, zy, k));
        if in_grid(width, height, place_x(zx, k), place_y(zy, k)) {
            lemma_index_in_bounds(width, height, place_x(zx, k), place_y(zy, k));
        }
    }
}

/// `now` is the board `before` part of the way through a reveal of
/// `(sx, sy)`: that cell is revealed, and besides it only covered cells that
/// the reveal spreads to have been revealed.
pub open spec fn spreading(
    before: Seq<Cell>,
    now: Seq<Cell>,
    width: int,
    height: int,
    sx: int,
    sy: int,
) -> bool {
    &&& before.len() == width * height
    &&& now.len() == before.len()
    &&& forall|i: int|
        0 <= i < before.len() ==> (#[trigger] now[i]).content == before[i].content && (now[i].state
            == before[i].state || (before[i].state is Covered && now[i].state is Revealed))
    &&& forall|cx: int, cy: int|
        in_grid(width, height, cx, cy) && (#[trigger] now[index_of(width, cx, cy)]).state
            != before[index_of(width, cx, cy)].state ==> floods_to(
            before,
            width,
            height,
            sx,
            sy,
            cx,
            cy,
        )
    &&& now[index_of(width, sx, sy)].state is Revealed
}

/// Revealing a covered cell next to a newly revealed zero keeps the reveal
/// within what it spreads to.
pub proof fn lemma_spread_one(
    before: Seq<Cell>,
    now: Seq<Cell>,
    width: int,
    height: int,
    sx: int,
    sy: int,
    zx: int,
    zy: int,
    k: int,
)
    requires
        spreading(before, now, width, height, sx, sy),
        in_grid(width, height, sx, sy),
        in_grid(width, height, zx, zy),
        newly_opened_zero(before, now, width, zx, zy),
        0 <= k < 9,
        in_grid(width, height, place_x(zx, k), place_y(zy, k)),
        now[index_of(width, place_x(zx, k), place_y(zy, k))].state is Covered,
    ensures
        spreading(
            before,
            now.update(
                index_of(width, place_x(zx, k), place_y(zy, k)),
                Cell {
                    content: now[index_of(width, place_x(zx, k), place_y(zy, k))].content,
                    state: CellState::Revealed,
                },
            ),
            width,
            height,
            sx,
            sy,
        ),
{
    let tx = place_x(zx, k);
    let ty = place_y(zy, k);
    let t = index_of(width, tx, ty);
    let after = now.update(t, Cell { content: now[t].content, state: CellState::Revealed });
    lemma_index_in_bounds(width, height, tx, ty);
    lemma_index_in_bounds(width, height, zx, zy);
    lemma_index_in_bounds(width, height, sx, sy);
    let z = now[index_of(width, zx, zy)];
    assert(floods_to(before, width, height, sx, sy, zx, zy));
    lemma_place_adjacent(zx, zy, k);
    assert(now[t].state == before[t].state);
    lemma_flood_step(before, width, height, sx, sy, zx, zy, tx, ty);
    assert forall|cx: int, cy: int|
        in_grid(width, height, cx, cy) && (#[trigger] after[index_of(width, cx, cy)]).state
            != before[index_of(width, cx, cy)].state implies floods_to(
        before,
        width,
        height,
        sx,
        sy,
        cx,
        cy,
    ) by {
        lemma_index_in_bounds(width, height, cx, cy);
        if index_of(width, cx, cy) == t {
            lemma_index_injective(width, height, cx, cy, tx, ty);
        } else {
            assert(now[index_of(width, cx, cy)].state != before[index_of(width, cx, cy)].state);
        }
    }
    assert forall|i: int| 0 <= i < before.len() implies (#[trigger] after[i]).content
        == before[i].content && (after[i].state == before[i].state || (
    before[i].state is Covered && after[i].state is Revealed)) by {
        assert(now[i].content == before[i].content);
    }
}

/// The board with the cell of index `i` revealed.
pub open spec fn revealed_at(cells: Seq<Cell>, i: int) -> Seq<Cell> {
    cells.update(i, Cell { content: cells[i].content, state: CellState::Revealed })
}

/// The cells that wait are cells of the board that were covered, showed
/// zero, and are revealed `now`.
pub open spec fn pending_zeros(
    before: Seq<Cell>,
    now: Seq<Cell>,
    pending: Seq<(usize, usize)>,
    width: int,
    height: int,
) -> bool {
    forall|k: int|
        0 <= k < pending.len() ==> in_grid(
            width,
            height,
            (#[trigger] pending[k]).0 as int,
            pending[k].1 as int,
        ) && newly_opened_zero(before, now, width, pending[k].0 as int, pending[k].1 as int)
}

/// The state of a reveal of `(sx, sy)` between two steps: only what the
/// reveal spreads to has been revealed, and the reveal has spread from
/// every newly revealed zero but those that wait in `pending`.
pub open spec fn flooding(
    before: Seq<Cell>,
    now: Seq<Cell>,
    pending: Seq<(usize, usize)>,
    width: int,
    height: int,
    sx: int,
    sy: int,
) -> bool {
    &&& in_grid(width, height, sx, sy)
    &&& spreading(before, now, width, height, sx, sy)
    &&& pending_zeros(before, now, pending, width, height)
    &&& forall|ax: int, ay: int|
        in_grid(width, height, ax, ay) && #[trigger] newly_opened_zero(before, now, width, ax, ay)
            && !waiting(pending, ax, ay) ==> surroundings_opened(
            before,
            now,
            width,
            height,
            ax,
            ay,
        )
}

/// The state of a reveal of `(sx, sy)` while it spreads from the zero
/// `(zx, zy)`, with the first `k` places around that cell done.
pub open spec fn expanding(
    before: Seq<Cell>,
    now: Seq<Cell>,
    pending: Seq<(usize, usize)>,
    width: int,
    height: int,
    sx: int,
    sy: int,
    zx: int,
    zy: int,
    k: int,
) -> bool {
    &&& in_grid(width, height, sx, sy)
    &&& spreading(before, now, width, height, sx, sy)
    &&& pending_zeros(before, now, pending, width, height)
    &&& in_grid(width, height, zx, zy)
    &&& newly_opened_zero(before, now, width, zx, zy)
    &&& forall|ax: int, ay: int|
        in_grid(width, height, ax, ay) && #[trigger] newly_opened_zero(before, now, width, ax, ay)
            && !waiting(pending, ax, ay) && !(ax == zx && ay == zy) ==> surroundings_opened(
            before,
            now,
            width,
            height,
            ax,
            ay,
        )
    &&& forall|j: int|
        0 <= j < k ==> #[trigger] place_opened(before, now, width, height, zx, zy, j)
}

/// A reveal begins with its own cell revealed and waiting.
pub proof fn lemma_flood_begin(before: Seq<Cell>, width: int, height: int, x: usize, y: usize)
    requires
        before.len() == width * height,
        in_grid(width, height, x as int, y as int),
        before[index_of(width, x as int, y as int)].state is Covered,
        before[index_of(width, x as int, y as int)].content == CellContent::Number(0),
    ensures
        flooding(
            before,
            revealed_at(before, index_of(width, x as int, y as int)),
            seq![(x, y)],
            width,
            height,
            x as int,
            y as int,
        ),
{
    let start = index_of(width, x as int, y as int);
    let now = revealed_at(before, start);
    let pending = seq![(x, y)];
    lemma_index_in_bounds(width, height, x as int, y as int);
    lemma_flood_start(before, width, height, x as int, y as int);
    assert forall|cx: int, cy: int|
        in_grid(width, height, cx, cy) && (#[trigger] now[index_of(width, cx, cy)]).state
            != before[index_of(width, cx, cy)].state implies floods_to(
        before,
        width,
        height,
        x as int,
        y as int,
        cx,
        cy,
    ) by {
        lemma_index_in_bounds(width, height, cx, cy);
        if index_of(width, cx, cy) == start {
            lemma_index_injective(width, height, cx, cy, x as int, y as int);
        }
    }
    assert(pending[0] == (x, y));
    assert forall|ax: int, ay: int|
        in_grid(width, height, ax, ay) && #[trigger] newly_opened_zero(before, now, width, ax, ay)
            && !waiting(pending, ax, ay) implies surroundings_opened(
        before,
        now,
        width,
        height,
        ax,
        ay,
    ) by {
        lemma_index_in_bounds(width, height, ax, ay);
        if index_of(width, ax, ay) == start {
            lemma_index_injective(width, height, ax, ay, x as int, y as int);
        }
    }
}

/// The reveal turns to the cell that waited last.
pub proof fn lemma_flood_take(
    before: Seq<Cell>,
    now: Seq<Cell>,
    pending: Seq<(usize, usize)>,
    width: int,
    height: int,
    sx: int,
    sy: int,
)
    requires
        flooding(before, now, pending, width, height, sx, sy),
        pending.len() > 0,
    ensures
        expanding(
            before,
            now,
            pending.drop_last(),
            width,
            height,
            sx,
            sy,
            pending.last().0 as int,
            pending.last().1 as int,
            0,
        ),
{
    let rest = pending.drop_last();
    let z = pending.last();
    assert(pending[pending.len() - 1] == z);
    assert forall|k: int| 0 <= k < rest.len() implies in_grid(
        width,
        height,
        (#[trigger] rest[k]).0 as int,
        rest[k].1 as int,
    ) && newly_opened_zero(before, now, width, rest[k].0 as int, rest[k].1 as int) by {
        assert(rest[k] == pending[k]);
    }
    assert forall|ax: int, ay: int|
        in_grid(width, height, ax, ay) && #[trigger] newly_opened_zero(before, now, width, ax, ay)
            && !waiting(rest, ax, ay) && !(ax == z.0 && ay == z.1) implies surroundings_opened(
        before,
        now,
        width,
        height,
        ax,
        ay,
    ) by {
        if waiting(pending, ax, ay) {
            let k = choose|k: int|
                0 <= k < pending.len() && (#[trigger] pending[k]).0 == ax && pending[k].1 == ay;
            assert(rest[k] == pending[k]);
        }
    }
}

/// A place that is off the board, the centre, or not covered needs no
/// reveal.
pub proof fn lemma_flood_skip(
    before: Seq<Cell>,
    now: Seq<Cell>,
    pending: Seq<(usize, usize)>,
    width: int,
    height: int,
    sx: int,
    sy: int,
    zx: int,
    zy: int,
    k: int,
)
    requires
        expanding(before, now, pending, width, height, sx, sy, zx, zy, k),
        0 <= k < 9,
        k == 4 || !in_grid(width, height, place_x(zx, k), place_y(zy, k)) || !(now[index_of(
            width,
            place_x(zx, k),
            place_y(zy, k),
        )].state is Covered),
    ensures
        expanding(before, now, pending, width, height, sx, sy, zx, zy, k + 1),
{
    if in_grid(width, height, place_x(zx, k), place_y(zy, k)) {
        lemma_index_in_bounds(width, height, place_x(zx, k), place_y(zy, k));
    }
    assert(place_opened(before, now, width, height, zx, zy, k));
}

/// The waiting list after the covered cell at place `k` around `(zx, zy)`
/// is revealed: the cell joins it if it shows zero.
pub open spec fn pending_after(
    now: Seq<Cell>,
    pending: Seq<(usize, usize)>,
    width: int,
    zx: int,
    zy: int,
    k: int,
) -> Seq<(usize, usize)> {
    if now[index_of(width, place_x(zx, k), place_y(zy, k))].content == CellContent::Number(0) {
        pending.push((place_x(zx, k) as usize, place_y(zy, k) as usize))
    } else {
        pending
    }
}

/// A covered cell next to the zero is revealed, and waits in turn if it
/// shows zero itself. One cell fewer is covered.
pub proof fn lemma_flood_open(
    before: Seq<Cell>,
    now: Seq<Cell>,
    pending: Seq<(usize, usize)>,
    width: int,
    height: int,
    sx: int,
    sy: int,
    zx: int,
    zy: int,
    k: int,
)
    requires
        expanding(before, now, pending, width, height, sx, sy, zx, zy, k),
        0 <= k < 9,
        in_grid(width, height, place_x(zx, k), place_y(zy, k)),
        now[index_of(width, place_x(zx, k), place_y(zy, k))].state is Covered,
        width <= usize::MAX,
        height <= usize::MAX,
    ensures
        expanding(
            before,
            revealed_at(now, index_of(width, place_x(zx, k), place_y(zy, k))),
            pending_after(now, pending, width, zx, zy, k),
            width,
            height,
            sx,
            sy,
            zx,
            zy,
            k + 1,
        ),
        count_cells(
            revealed_at(now, index_of(width, place_x(zx, k), place_y(zy, k))),
            in_state(CellState::Covered),
        ) + 1 == count_cells(now, in_state(CellState::Covered)),
{
    let nx = place_x(zx, k);
    let ny = place_y(zy, k);
    let j = index_of(width, nx, ny);
    let next = revealed_at(now, j);
    let queue = pending_after(now, pending, width, zx, zy, k);
    lemma_index_in_bounds(width, height, nx, ny);
    lemma_index_in_bounds(width, height, zx, zy);
    lemma_spread_one(before, now, width, height, sx, sy, zx, zy, k);
    lemma_count_update(now, j, next[j], in_state(CellState::Covered));
    assert forall|i: int| 0 <= i < queue.len() implies in_grid(
        width,
        height,
        (#[trigger] queue[i]).0 as int,
        queue[i].1 as int,
    ) && newly_opened_zero(before, next, width, queue[i].0 as int, queue[i].1 as int) by {
        if i < pending.len() {
            assert(queue[i] == pending[i]);
            lemma_index_in_bounds(width, height, pending[i].0 as int, pending[i].1 as int);
        } else {
            assert(queue[i] == (nx as usize, ny as usize));
        }
    }
    assert forall|ax: int, ay: int|
        in_grid(width, height, ax, ay) && #[trigger] newly_opened_zero(
            before,
            next,
            width,
            ax,
            ay,
        ) && !waiting(queue, ax, ay) && !(ax == zx && ay == zy) implies surroundings_opened(
        before,
        next,
        width,
        height,
        ax,
        ay,
    ) by {
        lemma_index_in_bounds(width, height, ax, ay);
        if index_of(width, ax, ay) == j {
            lemma_index_injective(width, height, ax, ay, nx, ny);
            assert(queue[queue.len() - 1] == (nx as usize, ny as usize));
            assert(waiting(queue, ax, ay));
        } else {
            assert(newly_opened_zero(before, now, width, ax, ay));
            if waiting(pending, ax, ay) {
                let i = choose|i: int|
                    0 <= i < pending.len() && (#[trigger] pending[i]).0 == ax && pending[i].1
                        == ay;
                assert(queue[i] == pending[i]);
            }
            lemma_surroundings_kept(before, now, next, width, height, ax, ay);
        }
    }
    assert forall|i: int| 0 <= i < k + 1 implies #[trigger] place_opened(
        before,
        next,
        width,
        height,
        zx,
        zy,
        i,
    ) by {
        if i < k {
            assert(place_opened(before, now, width, height, zx, zy, i));
            if in_grid(width, height, place_x(zx, i), place_y(zy, i)) {
                lemma_index_in_bounds(width, height, place_x(zx, i), place_y(zy, i));
            }
        }
    }
}

/// With all nine places done, the reveal has spread from the zero.
pub proof fn lemma_flood_close(
    before: Seq<Cell>,
    now: Seq<Cell>,
    pending: Seq<(usize, usize)>,
    width: int,
    height: int,
    sx: int,
    sy: int,
    zx: int,
    zy: int,
)
    requires
        expanding(before, now, pending, width, height, sx, sy, zx, zy, 9),
    ensures
        flooding(before, now, pending, width, height, sx, sy),
{
    assert(surroundings_opened(before, now, width, height, zx, zy));
}

/// When no cell waits any more, the board is the one that `opened`
/// describes.
pub proof fn lemma_flood_end(
    before: Seq<Cell>,
    now: Seq<Cell>,
    pending: Seq<(usize, usize)>,
    width: int,
    height: int,
    sx: int,
    sy: int,
)
    requires
        flooding(before, now, pending, width, height, sx, sy),
        pending.len() == 0,
    ensures
        now == opened(before, width, height, sx, sy),
{
    assert forall|ax: int, ay: int|
        in_grid(width, height, ax, ay) && #[trigger] newly_opened_zero(
            before,
            now,
            width,
            ax,
            ay,
        ) implies surroundings_opened(before, now, width, height, ax, ay) by {
        assert(!waiting(pending, ax, ay));
    }
    assert forall|i: int| 0 <= i < before.len() implies now[i] == opened(
        before,
        width,
        height,
        sx,
        sy,
    )[i] by {
        lemma_index_split(width, height, i);
        let cx = i % width;
        let cy = i / width;
        if floods_to(before, width, height, sx, sy, cx, cy) {
            let path = choose|path: Seq<(int, int)>|
                #[trigger] flood_path(before, width, height, path) && path[0] == (sx, sy)
                    && path.last() == (cx, cy);
            lemma_flood_complete(before, now, width, height, sx, sy, path);
        } else {
            assert(now[index_of(width, cx, cy)].state == before[index_of(width, cx, cy)].state);
        }
        assert(now[i].content == before[i].content);
        lemma_index_in_bounds(width, height, sx, sy);
    }
    assert(now =~= opened(before, width, height, sx, sy));
}

impl Game {
    /// Reveals the covered cell `(x, y)`, which shows zero, and all that the
    /// reveal spreads to. Cells wait in a list until the reveal has spread
    /// from them; a cell is revealed when it enters the list, so none enters
    /// twice.
    pub(crate) fn flood(&mut self, x: usize, y: usize)
        requires
            old(self)@.shaped(),
            x < old(self)@.width,
            y < old(self)@.height,
            old(self)@.cell(x as int, y as int).state is Covered,
            old(self)@.cell(x as int, y as int).content == CellContent::Number(0),
        ensures
            final(self)@ == old(self)@.with_cells(
                opened(
                    old(self)@.cells,
                    old(self)@.width,
                    old(self)@.height,
                    x as int,
                    y as int,
                ),
            ),
    {
        let ghost before = self.board@;
        let ghost w = self.width as int;
        let ghost h = self.height as int;
        let start = self.index(x, y);
        self.board[start].state = CellState::Revealed;
        let mut pending: Vec<(usize, usize)> = Vec::new();
        pending.push((x, y));
        proof {
            lemma_flood_begin(before, w, h, x, y);
            assert(self.board@ =~= revealed_at(before, start as int));
            assert(pending@ =~= seq![(x, y)]);
        }
        while pending.len() > 0
            invariant
                self@ == old(self)@.with_cells(self.board@),
                w == self.width,
                h == self.height,
                flooding(before, self.board@, pending@, w, h, x as int, y as int),
            decreases count_cells(self.board@, in_state(CellState::Covered)) + pending@.len(),
        {
            let ghost measure = count_cells(self.board@, in_state(CellState::Covered))
                + pending@.len();
            proof {
                lemma_flood_take(before, self.board@, pending@, w, h, x as int, y as int);
            }
            let (zx, zy) = pending.pop().unwrap();
            for k in 0..9usize
                invariant
                    self@ == old(self)@.with_cells(self.board@),
                    w == self.width,
                    h == self.height,
                    expanding(
                        before,
                        self.board@,
                        pending@,
                        w,
                        h,
                        x as int,
                        y as int,
                        zx as int,
                        zy as int,
                        k as int,
                    ),
                    count_cells(self.board@, in_state(CellState::Covered)) + pending@.len()
                        < measure,
            {
                let ghost earlier = self.board@;
                let ghost listed = pending@;
                let ghost mut revealed = false;
                if let Some((nx, ny)) = self.neighbour(zx, zy, k) {
                    let j = self.index(nx, ny);
                    if self.board[j].state == CellState::Covered {
                        self.board[j].state = CellState::Revealed;
                        if self.board[j].content == CellContent::Number(0) {
                            pending.push((nx, ny));
                        }
                        proof {
                            revealed = true;
                            lemma_flood_open(
                                before,
                                earlier,
                                listed,
                                w,
                                h,
                                x as int,
                                y as int,
                                zx as int,
                                zy as int,
                                k as int,
                            );
                            assert(self.board@ =~= revealed_at(earlier, j as int));
                        }
                    }
                }
                proof {
                    if !revealed {
                        lemma_flood_skip(
                            before,
                            earlier,
                            listed,
                            w,
                            h,
                            x as int,
                            y as int,
                            zx as int,
                            zy as int,
                            k as int,
                        );
                    }
                }
            }
            proof {
                lemma_flood_close(
                    before,
                    self.board@,
                    pending@,
                    w,
                    h,
                    x as int,
                    y as int,
                    zx as int,
                    zy as int,
                );
            }
        }
        proof {
            lemma_flood_end(before, self.board@, pending@, w, h, x as int, y as int);
        }
    }
}

} // verus!
