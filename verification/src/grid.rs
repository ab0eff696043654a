//! The geometry of a rectangular board stored row by row, as a mathematical
//! model over `Seq<Cell>`: indices, neighbourhoods and counts.

use vstd::prelude::*;
use crate::game::{Cell, CellContent, CellState};

verus! {

/// Row-major index of the cell in column `x` of row `y`.
pub open spec fn index_of(width: int, x: int, y: int) -> int {
    y * width + x
}

/// `(x, y)` names a cell of a `width` by `height` board.
pub open spec fn in_grid(width: int, height: int, x: int, y: int) -> bool {
    0 <= x < width && 0 <= y < height
}

/// Chebyshev distance between two cells: the larger of the column and the
/// row difference.
pub open spec fn chebyshev(ax: int, ay: int, bx: int, by: int) -> int {
    let dx = if ax <= bx { bx - ax } else { ax - bx };
    let dy = if ay <= by { by - ay } else { ay - by };
    if dx <= dy { dy } else { dx }
}

/// The cell holds a mine that has not gone off.
pub open spec fn live_mine() -> spec_fn(Cell) -> bool {
    |c: Cell| c.content is Mine
}

/// The cell holds a mine, gone off or not.
pub open spec fn mined() -> spec_fn(Cell) -> bool {
    |c: Cell| c.content is Mine || c.content is Explosion
}

/// The cell is in state `s`.
pub open spec fn in_state(s: CellState) -> spec_fn(Cell) -> bool {
    |c: Cell| c.state == s
}

/// The cell is not revealed: covered or flagged.
pub open spec fn hidden() -> spec_fn(Cell) -> bool {
    |c: Cell| !(c.state is Revealed)
}

/// Number of cells that satisfy `p`.
pub open spec fn count_cells(cells: Seq<Cell>, p: spec_fn(Cell) -> bool) -> nat
    decreases cells.len(),
{
    if cells.len() == 0 {
        0
    } else {
        count_cells(cells.drop_last(), p) + if p(cells.last()) { 1nat } else { 0nat }
    }
}

/// Column of the `k`-th place of the three by three block around column `x`,
/// the places taken row by row; place 4 is the centre.
pub open spec fn place_x(x: int, k: int) -> int {
    x + k % 3 - 1
}

/// Row of the `k`-th place of the three by three block around row `y`.
pub open spec fn place_y(y: int, k: int) -> int {
    y + k / 3 - 1
}

/// Place `k` around `(x, y)` is a neighbour on the board that satisfies `p`.
pub open spec fn neighbour_hit(
    cells: Seq<Cell>,
    width: int,
    height: int,
    x: int,
    y: int,
    p: spec_fn(Cell) -> bool,
    k: int,
) -> bool {
    &&& k != 4
    &&& in_grid(width, height, place_x(x, k), place_y(y, k))
    &&& p(cells[index_of(width, place_x(x, k), place_y(y, k))])
}

/// Indices of the neighbours of `(x, y)` among the first `k` places that
/// satisfy `p`, in ascending order.
pub open spec fn neighbours_upto(
    cells: Seq<Cell>,
    width: int,
    height: int,
    x: int,
    y: int,
    p: spec_fn(Cell) -> bool,
    k: int,
) -> Seq<usize>
    decreases k,
{
    if k <= 0 {
        Seq::empty()
    } else {
        let before = neighbours_upto(cells, width, height, x, y, p, k - 1);
        if neighbour_hit(cells, width, height, x, y, p, k - 1) {
            before.push(index_of(width, place_x(x, k - 1), place_y(y, k - 1)) as usize)
        } else {
            before
        }
    }
}

/// Indices of the up to eight neighbours of `(x, y)` that satisfy `p`, in
/// ascending order.
pub open spec fn neighbours_where(
    cells: Seq<Cell>,
    width: int,
    height: int,
    x: int,
    y: int,
    p: spec_fn(Cell) -> bool,
) -> Seq<usize> {
    neighbours_upto(cells, width, height, x, y, p, 9)
}

/// Every numbered cell shows how many of its neighbours are mined.
pub open spec fn numbers_agree(cells: Seq<Cell>, width: int, height: int) -> bool {
    forall|x: int, y: int|
        in_grid(width, height, x, y) ==> match (#[trigger] cells[index_of(width, x, y)]).content {
            CellContent::Number(n) => n == neighbours_where(
                cells,
                width,
                height,
                x,
                y,
                mined(),
            ).len(),
            _ => true,
        }
}

/// No mine is laid yet and nothing is revealed.
pub open spec fn blank(cells: Seq<Cell>) -> bool {
    forall|i: int|
        0 <= i < cells.len() ==> (#[trigger] cells[i]).content == CellContent::Number(0)
            && !(cells[i].state is Revealed)
}

/// A cell of the grid has an index below `width * height`.
pub proof fn lemma_index_in_bounds(width: int, height: int, x: int, y: int)
    requires
        in_grid(width, height, x, y),
    ensures
        0 <= index_of(width, x, y) < width * height,
        y * width <= index_of(width, x, y),
{
    assert(0 <= y * width && (y + 1) * width <= height * width) by (nonlinear_arith)
        requires
            0 <= y < height,
            0 < width,
    ;
    assert((y + 1) * width == y * width + width) by (nonlinear_arith);
    assert(height * width == width * height) by (nonlinear_arith);
}

/// Two cells of the grid with the same index are the same cell.
pub proof fn lemma_index_injective(width: int, height: int, ax: int, ay: int, bx: int, by: int)
    requires
        in_grid(width, height, ax, ay),
        in_grid(width, height, bx, by),
        index_of(width, ax, ay) == index_of(width, bx, by),
    ensures
        ax == bx,
        ay == by,
{
    assert(ay == by) by (nonlinear_arith)
        requires
            0 <= ax < width,
            0 <= bx < width,
            ay * width + ax == by * width + bx,
    ;
}

/// An index below `width * height` splits into a column and a row of the
/// grid.
pub proof fn lemma_index_split(width: int, height: int, i: int)
    requires
        0 < width,
        0 <= i < width * height,
    ensures
        in_grid(width, height, i % width, i / width),
        index_of(width, i % width, i / width) == i,
{
    vstd::arithmetic::div_mod::lemma_fundamental_div_mod(i, width);
    vstd::arithmetic::div_mod::lemma_mod_bound(i, width);
    let q = i / width;
    assert(width * q == q * width) by (nonlinear_arith);
    assert(0 <= q < height) by (nonlinear_arith)
        requires
            0 < width,
            0 <= i < width * height,
            i == q * width + i % width,
            0 <= i % width < width,
    ;
}

/// Counting never finds more cells than there are.
pub proof fn lemma_count_bound(cells: Seq<Cell>, p: spec_fn(Cell) -> bool)
    ensures
        count_cells(cells, p) <= cells.len(),
    decreases cells.len(),
{
    if cells.len() > 0 {
        lemma_count_bound(cells.drop_last(), p);
    }
}

/// Counting one more cell adds one exactly when that cell satisfies `p`.
pub proof fn lemma_count_push(cells: Seq<Cell>, c: Cell, p: spec_fn(Cell) -> bool)
    ensures
        count_cells(cells.push(c), p) == count_cells(cells, p) + if p(c) { 1nat } else { 0nat },
{
    assert(cells.push(c).drop_last() =~= cells);
}

/// Replacing one cell changes a count by what the old and the new cell
/// contribute.
pub proof fn lemma_count_update(cells: Seq<Cell>, i: int, c: Cell, p: spec_fn(Cell) -> bool)
    requires
        0 <= i < cells.len(),
    ensures
        count_cells(cells.update(i, c), p) + (if p(cells[i]) { 1nat } else { 0nat })
            == count_cells(cells, p) + if p(c) { 1nat } else { 0nat },
    decreases cells.len(),
{
    let after = cells.update(i, c);
    if i == cells.len() - 1 {
        assert(after.drop_last() =~= cells.drop_last());
    } else {
        assert(after.drop_last() =~= cells.drop_last().update(i, c));
        lemma_count_update(cells.drop_last(), i, c, p);
    }
}

/// A board where no cell satisfies `p` counts zero.
pub proof fn lemma_count_none(cells: Seq<Cell>, p: spec_fn(Cell) -> bool)
    requires
        forall|i: int| 0 <= i < cells.len() ==> !p(#[trigger] cells[i]),
    ensures
        count_cells(cells, p) == 0,
    decreases cells.len(),
{
    if cells.len() > 0 {
        lemma_count_none(cells.drop_last(), p);
    }
}

/// Every cell is in exactly one of the three states, so the three counts
/// add up to the number of cells.
pub proof fn lemma_states_partition(cells: Seq<Cell>)
    ensures
        count_cells(cells, in_state(CellState::Revealed)) + count_cells(
            cells,
            in_state(CellState::Covered),
        ) + count_cells(cells, in_state(CellState::Flagged)) == cells.len(),
    decreases cells.len(),
{
    if cells.len() > 0 {
        lemma_states_partition(cells.drop_last());
    }
}

/// The neighbours found depend only on which of the places around `(x, y)`
/// are hits.
pub proof fn lemma_neighbours_agree(
    a: Seq<Cell>,
    p: spec_fn(Cell) -> bool,
    b: Seq<Cell>,
    q: spec_fn(Cell) -> bool,
    width: int,
    height: int,
    x: int,
    y: int,
    k: int,
)
    requires
        forall|j: int|
            0 <= j < k ==> neighbour_hit(a, width, height, x, y, p, j) == neighbour_hit(
                b,
                width,
                height,
                x,
                y,
                q,
                j,
            ),
    ensures
        neighbours_upto(a, width, height, x, y, p, k) == neighbours_upto(
            b,
            width,
            height,
            x,
            y,
            q,
            k,
        ),
    decreases k,
{
    if k > 0 {
        lemma_neighbours_agree(a, p, b, q, width, height, x, y, k - 1);
    }
}

/// Where `p` judges every cell of `a` as `q` judges the same cell of `b`,
/// both find the same neighbours.
pub proof fn lemma_neighbours_same(
    a: Seq<Cell>,
    p: spec_fn(Cell) -> bool,
    b: Seq<Cell>,
    q: spec_fn(Cell) -> bool,
    width: int,
    height: int,
    x: int,
    y: int,
)
    requires
        a.len() == width * height,
        b.len() == a.len(),
        forall|j: int| 0 <= j < a.len() ==> p(#[trigger] a[j]) == q(b[j]),
    ensures
        neighbours_where(a, width, height, x, y, p) == neighbours_where(
            b,
            width,
            height,
            x,
            y,
            q,
        ),
{
    assert forall|j: int| 0 <= j < 9 implies neighbour_hit(a, width, height, x, y, p, j)
        == neighbour_hit(b, width, height, x, y, q, j) by {
        if in_grid(width, height, place_x(x, j), place_y(y, j)) {
            lemma_index_in_bounds(width, height, place_x(x, j), place_y(y, j));
            let m = a[index_of(width, place_x(x, j), place_y(y, j))];
        }
    }
    lemma_neighbours_agree(a, p, b, q, width, height, x, y, 9);
}

/// A cell has at most eight neighbours.
pub proof fn lemma_neighbours_bound(
    cells: Seq<Cell>,
    width: int,
    height: int,
    x: int,
    y: int,
    p: spec_fn(Cell) -> bool,
)
    ensures
        neighbours_where(cells, width, height, x, y, p).len() <= 8,
{
    lemma_neighbours_grow(cells, width, height, x, y, p, 4);
    assert(neighbours_upto(cells, width, height, x, y, p, 5) == neighbours_upto(
        cells,
        width,
        height,
        x,
        y,
        p,
        4,
    ));
    reveal_with_fuel(neighbours_upto, 5);
}

/// The list of neighbours only grows place by place, by at most one each.
pub proof fn lemma_neighbours_grow(
    cells: Seq<Cell>,
    width: int,
    height: int,
    x: int,
    y: int,
    p: spec_fn(Cell) -> bool,
    k: int,
)
    requires
        0 <= k,
    ensures
        neighbours_upto(cells, width, height, x, y, p, k).len() <= k,
        forall|j: int|
            0 <= j < k && neighbour_hit(cells, width, height, x, y, p, j) ==> neighbours_upto(
                cells,
                width,
                height,
                x,
                y,
                p,
                k,
            ).len() > 0,
    decreases k,
{
    if k > 0 {
        lemma_neighbours_grow(cells, width, height, x, y, p, k - 1);
    }
}

/// The board after the player toggles the flag at `(x, y)`: a covered cell
/// there becomes flagged and a flagged one covered; anything else, and
/// coordinates off the board, change nothing.
pub open spec fn flagged_at(cells: Seq<Cell>, width: int, height: int, x: int, y: int) -> Seq<
    Cell,
> {
    if in_grid(width, height, x, y) {
        let i = index_of(width, x, y);
        match cells[i].state {
            CellState::Covered => cells.update(
                i,
                Cell { content: cells[i].content, state: CellState::Flagged },
            ),
            CellState::Flagged => cells.update(
                i,
                Cell { content: cells[i].content, state: CellState::Covered },
            ),
            CellState::Revealed => cells,
        }
    } else {
        cells
    }
}

/// A change of one hidden cell's state that keeps it hidden, and keeps what
/// it holds, preserves blankness, the mine count and the numbers.
pub proof fn lemma_toggle_keeps(a: Seq<Cell>, b: Seq<Cell>, width: int, height: int, i: int)
    requires
        0 <= i < a.len(),
        a.len() == width * height,
        b.len() == a.len(),
        forall|j: int| 0 <= j < a.len() && j != i ==> a[j] == b[j],
        a[i].content == b[i].content,
        (a[i].state is Revealed) == (b[i].state is Revealed),
    ensures
        blank(a) ==> blank(b),
        count_cells(a, mined()) == count_cells(b, mined()),
        numbers_agree(a, width, height) ==> numbers_agree(b, width, height),
{
    lemma_count_agree2(a, mined(), b, mined());
    if numbers_agree(a, width, height) {
        lemma_numbers_kept(a, b, width, height);
    }
}

/// The numbers stay right where every cell keeps its number and stays mined
/// or free of mines.
pub proof fn lemma_numbers_kept(a: Seq<Cell>, b: Seq<Cell>, width: int, height: int)
    requires
        a.len() == width * height,
        b.len() == a.len(),
        forall|j: int| 0 <= j < a.len() ==> mined()(#[trigger] a[j]) == mined()(b[j]),
        forall|j: int|
            0 <= j < a.len() && (#[trigger] b[j]).content is Number ==> b[j].content
                == a[j].content,
        numbers_agree(a, width, height),
    ensures
        numbers_agree(b, width, height),
        count_cells(a, mined()) == count_cells(b, mined()),
{
    lemma_count_agree2(a, mined(), b, mined());
    assert forall|x: int, y: int| in_grid(width, height, x, y) implies match (
    #[trigger] b[index_of(width, x, y)]).content {
        CellContent::Number(n) => n == neighbours_where(b, width, height, x, y, mined()).len(),
        _ => true,
    } by {
        lemma_index_in_bounds(width, height, x, y);
        let c = a[index_of(width, x, y)];
        lemma_neighbours_same(a, mined(), b, mined(), width, height, x, y);
    }
}

/// The board with its numbers filled in: a cell with a live mine keeps it,
/// and every other cell shows how many live mines lie around it.
pub open spec fn numbered(cells: Seq<Cell>, width: int, height: int) -> Seq<Cell> {
    Seq::new(
        cells.len(),
        |i: int|
            if cells[i].content is Mine {
                cells[i]
            } else {
                Cell {
                    content: CellContent::Number(
                        neighbours_where(
                            cells,
                            width,
                            height,
                            i % width,
                            i / width,
                            live_mine(),
                        ).len() as u8,
                    ),
                    state: cells[i].state,
                }
            },
    )
}

/// The column and the row of a cell are the remainder and the quotient of
/// its index by the width.
pub proof fn lemma_index_div_mod(width: int, height: int, x: int, y: int)
    requires
        in_grid(width, height, x, y),
    ensures
        index_of(width, x, y) % width == x,
        index_of(width, x, y) / width == y,
{
    vstd::arithmetic::div_mod::lemma_fundamental_div_mod_converse(
        index_of(width, x, y),
        width,
        y,
        x,
    );
}

/// After the numbers are filled in they are right, the mines are the live
/// mines of before, and no state has changed.
pub proof fn lemma_numbered(cells: Seq<Cell>, width: int, height: int)
    requires
        cells.len() == width * height,
    ensures
        numbers_agree(numbered(cells, width, height), width, height),
        count_cells(numbered(cells, width, height), mined()) == count_cells(cells, live_mine()),
        forall|i: int|
            0 <= i < cells.len() ==> (#[trigger] numbered(cells, width, height)[i]).state
                == cells[i].state,
{
    let after = numbered(cells, width, height);
    assert forall|i: int| 0 <= i < cells.len() implies live_mine()(#[trigger] cells[i]) == mined()(
        after[i],
    ) by {}
    lemma_count_agree2(cells, live_mine(), after, mined());
    assert forall|x: int, y: int| in_grid(width, height, x, y) implies match (
    #[trigger] after[index_of(width, x, y)]).content {
        CellContent::Number(n) => n == neighbours_where(
            after,
            width,
            height,
            x,
            y,
            mined(),
        ).len(),
        _ => true,
    } by {
        lemma_index_in_bounds(width, height, x, y);
        lemma_index_div_mod(width, height, x, y);
        lemma_neighbours_same(cells, live_mine(), after, mined(), width, height, x, y);
        lemma_neighbours_bound(cells, width, height, x, y, live_mine());
    }
}

/// Where `p` judges every cell of `a` as `q` judges the same cell of `b`,
/// both counts are the same.
pub proof fn lemma_count_agree2(
    a: Seq<Cell>,
    p: spec_fn(Cell) -> bool,
    b: Seq<Cell>,
    q: spec_fn(Cell) -> bool,
)
    requires
        a.len() == b.len(),
        forall|i: int| 0 <= i < a.len() ==> p(#[trigger] a[i]) == q(b[i]),
    ensures
        count_cells(a, p) == count_cells(b, q),
    decreases a.len(),
{
    if a.len() > 0 {
        lemma_count_agree2(a.drop_last(), p, b.drop_last(), q);
    }
}

/// The indices below `n` that `pick` holds of, in ascending order.
pub open spec fn indices_upto(n: int, pick: spec_fn(int) -> bool) -> Seq<usize>
    decreases n,
{
    if n <= 0 {
        Seq::empty()
    } else {
        let before = indices_upto(n - 1, pick);
        if pick(n - 1) {
            before.push((n - 1) as usize)
        } else {
            before
        }
    }
}

/// The cell with index `i` is not revealed.
pub open spec fn hidden_at(cells: Seq<Cell>) -> spec_fn(int) -> bool {
    |i: int| !(cells[i].state is Revealed)
}

/// The cell with index `i` is not revealed, and neither is any cell around
/// it.
pub open spec fn unknown_at(cells: Seq<Cell>, width: int, height: int) -> spec_fn(int) -> bool {
    |i: int|
        !(cells[i].state is Revealed) && neighbours_where(
            cells,
            width,
            height,
            i % width,
            i / width,
            in_state(CellState::Revealed),
        ).len() == 0
}

/// Indices of the cells that are not revealed, in ascending order.
pub open spec fn covered_indices(cells: Seq<Cell>) -> Seq<usize> {
    indices_upto(cells.len() as int, hidden_at(cells))
}

/// Indices of the cells of which the revealed numbers say nothing: those
/// that are not revealed and have no revealed neighbour, in ascending order.
pub open spec fn sea_of_unknown(cells: Seq<Cell>, width: int, height: int) -> Seq<usize> {
    indices_upto(cells.len() as int, unknown_at(cells, width, height))
}

/// Where none of the first `k` places is a hit, no neighbour is found among
/// them.
pub proof fn lemma_neighbours_empty(
    cells: Seq<Cell>,
    width: int,
    height: int,
    x: int,
    y: int,
    p: spec_fn(Cell) -> bool,
    k: int,
)
    requires
        forall|j: int| 0 <= j < k ==> !neighbour_hit(cells, width, height, x, y, p, j),
    ensures
        neighbours_upto(cells, width, height, x, y, p, k).len() == 0,
    decreases k,
{
    if k > 0 {
        lemma_neighbours_empty(cells, width, height, x, y, p, k - 1);
    }
}

/// The indices stand in strictly ascending order.
pub open spec fn strictly_ascending(s: Seq<usize>) -> bool {
    forall|i: int, j: int| 0 <= i < j < s.len() ==> s[i] < s[j]
}

/// The picked indices come out in strictly ascending order, all below `n`.
pub proof fn lemma_indices_ascending(n: int, pick: spec_fn(int) -> bool)
    requires
        n <= usize::MAX + 1,
    ensures
        strictly_ascending(indices_upto(n, pick)),
        forall|i: int|
            0 <= i < indices_upto(n, pick).len() ==> (#[trigger] indices_upto(n, pick)[i]) < n,
    decreases n,
{
    if n > 0 {
        lemma_indices_ascending(n - 1, pick);
    }
}

/// Of two places around a cell that are both on the board, the later one
/// has the larger index.
pub proof fn lemma_place_order(width: int, height: int, x: int, y: int, j: int, k: int)
    requires
        0 <= j < k < 9,
        in_grid(width, height, place_x(x, j), place_y(y, j)),
        in_grid(width, height, place_x(x, k), place_y(y, k)),
    ensures
        0 <= index_of(width, place_x(x, j), place_y(y, j)) < index_of(
            width,
            place_x(x, k),
            place_y(y, k),
        ) < width * height,
{
    let ja = place_y(y, j);
    let ka = place_y(y, k);
    lemma_index_in_bounds(width, height, place_x(x, j), ja);
    lemma_index_in_bounds(width, height, place_x(x, k), ka);
    if ja < ka {
        assert((ja + 1) * width <= ka * width) by (nonlinear_arith)
            requires
                ja + 1 <= ka,
                0 <= width,
        ;
        assert((ja + 1) * width == ja * width + width) by (nonlinear_arith);
    }
}

/// `e` is the index of one of the first `k` places around `(x, y)`, one that
/// is a hit.
pub open spec fn found_among(
    cells: Seq<Cell>,
    width: int,
    height: int,
    x: int,
    y: int,
    p: spec_fn(Cell) -> bool,
    k: int,
    e: usize,
) -> bool {
    exists|j: int|
        0 <= j < k && #[trigger] neighbour_hit(cells, width, height, x, y, p, j) && e == index_of(
            width,
            place_x(x, j),
            place_y(y, j),
        )
}

/// The neighbours found come out in strictly ascending order, and each is
/// the index of a place that is a hit.
pub proof fn lemma_neighbours_ascending(
    cells: Seq<Cell>,
    width: int,
    height: int,
    x: int,
    y: int,
    p: spec_fn(Cell) -> bool,
    k: int,
)
    requires
        0 <= k <= 9,
        width * height <= usize::MAX,
    ensures
        strictly_ascending(neighbours_upto(cells, width, height, x, y, p, k)),
        forall|i: int|
            0 <= i < neighbours_upto(cells, width, height, x, y, p, k).len() ==> found_among(
                cells,
                width,
                height,
                x,
                y,
                p,
                k,
                #[trigger] neighbours_upto(cells, width, height, x, y, p, k)[i],
            ),
    decreases k,
{
    if k > 0 {
        lemma_neighbours_ascending(cells, width, height, x, y, p, k - 1);
        let before = neighbours_upto(cells, width, height, x, y, p, k - 1);
        let now = neighbours_upto(cells, width, height, x, y, p, k);
        assert forall|i: int| 0 <= i < before.len() implies found_among(
            cells,
            width,
            height,
            x,
            y,
            p,
            k,
            #[trigger] before[i],
        ) by {
            assert(found_among(cells, width, height, x, y, p, k - 1, before[i]));
            let j = choose|j: int|
                0 <= j < k - 1 && #[trigger] neighbour_hit(cells, width, height, x, y, p, j)
                    && before[i] == index_of(width, place_x(x, j), place_y(y, j));
            assert(0 <= j < k && neighbour_hit(cells, width, height, x, y, p, j));
        }
        if neighbour_hit(cells, width, height, x, y, p, k - 1) {
            let last = index_of(width, place_x(x, k - 1), place_y(y, k - 1));
            lemma_index_in_bounds(width, height, place_x(x, k - 1), place_y(y, k - 1));
            assert(now == before.push(last as usize));
            assert forall|i: int| 0 <= i < before.len() implies before[i] < last by {
                assert(found_among(cells, width, height, x, y, p, k - 1, before[i]));
                let j = choose|j: int|
                    0 <= j < k - 1 && #[trigger] neighbour_hit(cells, width, height, x, y, p, j)
                        && before[i] == index_of(width, place_x(x, j), place_y(y, j));
                lemma_place_order(width, height, x, y, j, k - 1);
            }
            assert forall|i: int| 0 <= i < now.len() implies found_among(
                cells,
                width,
                height,
                x,
                y,
                p,
                k,
                #[trigger] now[i],
            ) by {
                if i < before.len() {
                    assert(now[i] == before[i]);
                }
            }
            assert forall|i: int, j: int| 0 <= i < j < now.len() implies now[i] < now[j] by {
                if j < before.len() {
                    assert(before[i] < before[j]);
                } else {
                    assert(before[i] < last);
                }
            }
        } else {
            assert(now == before);
        }
    }
}

} // verus!
