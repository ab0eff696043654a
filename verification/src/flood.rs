//! How a reveal spreads: from a cell that shows zero to all of its covered
//! neighbours, and on from those that show zero themselves.

use vstd::prelude::*;
use crate::game::{Cell, CellContent, CellState};
use crate::grid::{
    chebyshev, in_grid, index_of, lemma_index_split, lemma_neighbours_grow, mined,
    neighbour_hit, numbers_agree, place_x, place_y,
};

verus! {

/// The two cells touch, or are the same cell.
pub open spec fn adjacent(ax: int, ay: int, bx: int, by: int) -> bool {
    chebyshev(ax, ay, bx, by) <= 1
}

/// `path` is a way that a reveal can spread along: cells of the grid, all
/// covered, each next to the one before it, and all but the last showing
/// zero.
pub open spec fn flood_path(cells: Seq<Cell>, width: int, height: int, path: Seq<(int, int)>) -> bool {
    &&& path.len() > 0
    &&& forall|k: int|
        0 <= k < path.len() ==> in_grid(width, height, (#[trigger] path[k]).0, path[k].1)
            && cells[index_of(width, path[k].0, path[k].1)].state is Covered
    &&& forall|k: int|
        0 <= k < path.len() - 1 ==> cells[index_of(
            width,
            (#[trigger] path[k]).0,
            path[k].1,
        )].content == CellContent::Number(0) && adjacent(
            path[k].0,
            path[k].1,
            path[k + 1].0,
            path[k + 1].1,
        )
}

/// A reveal of the covered cell `(sx, sy)` spreads to `(tx, ty)`: the two are
/// joined by covered cells that show zero, `(tx, ty)` itself showing any
/// number.
pub open spec fn floods_to(
    cells: Seq<Cell>,
    width: int,
    height: int,
    sx: int,
    sy: int,
    tx: int,
    ty: int,
) -> bool {
    exists|path: Seq<(int, int)>|
        #[trigger] flood_path(cells, width, height, path) && path[0] == (sx, sy) && path.last()
            == (tx, ty)
}

/// The board after a reveal of the covered cell `(x, y)`: every cell that the
/// reveal spreads to is revealed, and nothing else has changed.
pub open spec fn opened(cells: Seq<Cell>, width: int, height: int, x: int, y: int) -> Seq<Cell> {
    Seq::new(
        cells.len(),
        |i: int|
            Cell {
                content: cells[i].content,
                state: if floods_to(cells, width, height, x, y, i % width, i / width) {
                    CellState::Revealed
                } else {
                    cells[i].state
                },
            },
    )
}

/// The board with the mine in the cell of index `i` gone off.
pub open spec fn exploded_at(cells: Seq<Cell>, i: int) -> Seq<Cell> {
    cells.update(i, Cell { content: CellContent::Explosion, state: cells[i].state })
}

/// A reveal reaches the cell it starts from.
pub proof fn lemma_flood_start(cells: Seq<Cell>, width: int, height: int, x: int, y: int)
    requires
        in_grid(width, height, x, y),
        cells[index_of(width, x, y)].state is Covered,
    ensures
        floods_to(cells, width, height, x, y, x, y),
{
    let path = seq![(x, y)];
    assert(flood_path(cells, width, height, path));
}

/// A reveal that has reached a cell showing zero goes on to each covered
/// cell next to it.
pub proof fn lemma_flood_step(
    cells: Seq<Cell>,
    width: int,
    height: int,
    sx: int,
    sy: int,
    zx: int,
    zy: int,
    tx: int,
    ty: int,
)
    requires
        floods_to(cells, width, height, sx, sy, zx, zy),
        cells[index_of(width, zx, zy)].content == CellContent::Number(0),
        adjacent(zx, zy, tx, ty),
        in_grid(width, height, tx, ty),
        cells[index_of(width, tx, ty)].state is Covered,
    ensures
        floods_to(cells, width, height, sx, sy, tx, ty),
{
    let path = choose|path: Seq<(int, int)>|
        #[trigger] flood_path(cells, width, height, path) && path[0] == (sx, sy) && path.last()
            == (zx, zy);
    let longer = path.push((tx, ty));
    assert forall|k: int| 0 <= k < longer.len() implies in_grid(
        width,
        height,
        (#[trigger] longer[k]).0,
        longer[k].1,
    ) && cells[index_of(width, longer[k].0, longer[k].1)].state is Covered by {
        if k < path.len() {
            assert(longer[k] == path[k]);
        }
    }
    assert forall|k: int| 0 <= k < longer.len() - 1 implies cells[index_of(
        width,
        (#[trigger] longer[k]).0,
        longer[k].1,
    )].content == CellContent::Number(0) && adjacent(
        longer[k].0,
        longer[k].1,
        longer[k + 1].0,
        longer[k + 1].1,
    ) by {
        assert(longer[k] == path[k]);
        if k < path.len() - 1 {
            assert(longer[k + 1] == path[k + 1]);
        }
    }
    assert(flood_path(cells, width, height, longer));
}

/// A reveal of a cell that does not show zero stays on that cell.
pub proof fn lemma_flood_stays(
    cells: Seq<Cell>,
    width: int,
    height: int,
    sx: int,
    sy: int,
    tx: int,
    ty: int,
)
    requires
        cells[index_of(width, sx, sy)].content != CellContent::Number(0),
        floods_to(cells, width, height, sx, sy, tx, ty),
    ensures
        tx == sx,
        ty == sy,
{
    let path = choose|path: Seq<(int, int)>|
        #[trigger] flood_path(cells, width, height, path) && path[0] == (sx, sy) && path.last()
            == (tx, ty);
    if path.len() > 1 {
        assert(cells[index_of(width, path[0].0, path[0].1)].content == CellContent::Number(0));
    }
}

/// A cell next to `(zx, zy)` stands at one of the nine places around it.
pub proof fn lemma_adjacent_place(zx: int, zy: int, tx: int, ty: int) -> (k: int)
    requires
        adjacent(zx, zy, tx, ty),
    ensures
        0 <= k < 9,
        place_x(zx, k) == tx,
        place_y(zy, k) == ty,
{
    (ty - zy + 1) * 3 + (tx - zx + 1)
}

/// One of the nine places around `(zx, zy)` is next to it.
pub proof fn lemma_place_adjacent(zx: int, zy: int, k: int)
    requires
        0 <= k < 9,
    ensures
        adjacent(zx, zy, place_x(zx, k), place_y(zy, k)),
{
}

/// On a board whose numbers are right, a reveal spreads to numbered cells
/// only: it never reaches a mine.
pub proof fn lemma_flood_reaches_numbers(
    cells: Seq<Cell>,
    width: int,
    height: int,
    sx: int,
    sy: int,
    tx: int,
    ty: int,
)
    requires
        cells.len() == width * height,
        numbers_agree(cells, width, height),
        floods_to(cells, width, height, sx, sy, tx, ty),
        !(tx == sx && ty == sy),
    ensures
        cells[index_of(width, tx, ty)].content is Number,
{
    let path = choose|path: Seq<(int, int)>|
        #[trigger] flood_path(cells, width, height, path) && path[0] == (sx, sy) && path.last()
            == (tx, ty);
    assert(path.len() > 1);
    let z = path[path.len() - 2];
    let t = path.last();
    assert(t == path[path.len() - 2 + 1]);
    let zero = cells[index_of(width, z.0, z.1)];
    assert(zero.content == CellContent::Number(0));
    let k = lemma_adjacent_place(z.0, z.1, tx, ty);
    if k != 4 {
        if mined()(cells[index_of(width, tx, ty)]) {
            assert(neighbour_hit(
                cells,
                width,
                height,
                z.0,
                z.1,
                mined(),
                k,
            ));
            lemma_neighbours_grow(
                cells,
                width,
                height,
                z.0,
                z.1,
                mined(),
                9,
            );
        }
    }
}

/// A reveal uncovers covered cells only: a flagged cell stays flagged, and a
/// revealed one revealed.
pub proof fn lemma_flood_keeps_flags(
    cells: Seq<Cell>,
    width: int,
    height: int,
    x: int,
    y: int,
    i: int,
)
    requires
        cells.len() == width * height,
        0 < width,
        0 <= i < cells.len(),
        !(cells[i].state is Covered),
    ensures
        opened(cells, width, height, x, y)[i].state == cells[i].state,
{
    lemma_index_split(width, height, i);
    if floods_to(cells, width, height, x, y, i % width, i / width) {
        let path = choose|path: Seq<(int, int)>|
            #[trigger] flood_path(cells, width, height, path) && path[0] == (x, y) && path.last()
                == (i % width, i / width);
        let last = path[path.len() - 1];
        assert(cells[index_of(width, last.0, last.1)].state is Covered);
    }
}

} // verus!
