//! Constraints on where the mines are: "exactly so many mines among these
//! cells".

use vstd::prelude::*;
use vstd::std_specs::cmp::PartialEqSpecImpl;
use crate::bits::{whole_bits, whole_count_bits};
use crate::game::{Cell, CellContent, CellState, Game};
use crate::grid::{
    covered_indices, hidden, hidden_at, in_grid, index_of, indices_upto,
    lemma_indices_ascending, lemma_neighbours_ascending, neighbours_where, sea_of_unknown,
    strictly_ascending, unknown_at,
};

verus! {

/// So many of the cells with the indices `cells` hold a mine. The count may
/// be a fraction; it is held as the bit pattern of a double-precision
/// number, and two counts are the same when their bits are. The
/// indices stand in ascending order, so that two constraints on the same
/// cells with the same count are equal.
#[derive(Debug, Hash)]
pub struct Constraint {
    pub cells: Vec<usize>,
    pub count_bits: u64,
}

/// The indices stand in ascending order.
pub open spec fn ascending(s: Seq<usize>) -> bool {
    forall|i: int, j: int| 0 <= i <= j < s.len() ==> s[i] <= s[j]
}

/// Calls `sort_unstable` of the standard library on the indices, which puts
/// them in ascending order and neither adds nor drops one.
#[verifier::external_body]
fn sort_ascending(indices: &mut Vec<usize>)
    ensures
        ascending(final(indices)@),
        final(indices)@.to_multiset() == old(indices)@.to_multiset(),
{
    indices.sort_unstable();
}

impl Constraint {
    /// This is the constraint with the given count on the given cells,
    /// whatever order they were named in.
    pub open spec fn canonical_of(&self, cells: Seq<usize>, count_bits: u64) -> bool {
        &&& ascending(self.cells@)
        &&& self.cells@.to_multiset() == cells.to_multiset()
        &&& self.count_bits == count_bits
    }

    /// Both constraints ask for the same count on the same cells. This is
    /// what `==` computes.
    pub open spec fn same_as(&self, other: &Constraint) -> bool {
        self.cells@ == other.cells@ && self.count_bits == other.count_bits
    }

    /// The constraint on the given cells with the count whose bit pattern is
    /// given.
    pub fn new(cells: Vec<usize>, count_bits: u64) -> (constraint: Constraint)
        ensures
            constraint.canonical_of(cells@, count_bits),
    {
        let mut cells = cells;
        sort_ascending(&mut cells);
        Constraint { cells, count_bits }
    }
}

impl PartialEq for Constraint {
    fn eq(&self, other: &Constraint) -> (equal: bool) {
        if self.count_bits != other.count_bits || self.cells.len() != other.cells.len() {
            return false;
        }
        let mut i: usize = 0;
        while i < self.cells.len()
            invariant
                i <= self.cells@.len(),
                self.cells@.len() == other.cells@.len(),
                self.count_bits == other.count_bits,
                forall|k: int| 0 <= k < i ==> self.cells@[k] == other.cells@[k],
            decreases self.cells@.len() - i,
        {
            if self.cells[i] != other.cells[i] {
                return false;
            }
            i += 1;
        }
        proof {
            assert(self.cells@ =~= other.cells@);
        }
        true
    }
}

impl PartialEqSpecImpl for Constraint {
    open spec fn obeys_eq_spec() -> bool {
        true
    }

    open spec fn eq_spec(&self, other: &Constraint) -> bool {
        self.same_as(other)
    }
}

impl Eq for Constraint {

}

/// `<=` on indices.
pub open spec fn at_most() -> spec_fn(usize, usize) -> bool {
    |a: usize, b: usize| a <= b
}

/// Two constraints with the same count on the same cells are equal, in
/// whatever order the cells were named: an ascending order of given indices
/// is unique.
pub proof fn lemma_canonical_unique(
    a: Constraint,
    b: Constraint,
    cells_a: Seq<usize>,
    cells_b: Seq<usize>,
    count_bits: u64,
)
    requires
        a.canonical_of(cells_a, count_bits),
        b.canonical_of(cells_b, count_bits),
        cells_a.to_multiset() == cells_b.to_multiset(),
    ensures
        a.same_as(&b),
{
    lemma_ascending_unique(a.cells@, b.cells@);
}

/// The constraint on cells that are named in ascending order holds them as
/// they were named.
pub proof fn lemma_canonical_of_ascending(c: Constraint, cells: Seq<usize>, count_bits: u64)
    requires
        c.canonical_of(cells, count_bits),
        strictly_ascending(cells),
    ensures
        c.cells@ == cells,
{
    lemma_ascending_unique(c.cells@, cells);
}

/// Two ascending sequences of the same indices are the same sequence.
pub proof fn lemma_ascending_unique(x: Seq<usize>, y: Seq<usize>)
    requires
        ascending(x),
        ascending(y),
        x.to_multiset() == y.to_multiset(),
    ensures
        x == y,
{
    assert(vstd::relations::sorted_by(x, at_most()));
    assert(vstd::relations::sorted_by(y, at_most()));
    assert(vstd::relations::total_ordering(at_most()));
    vstd::seq_lib::lemma_sorted_unique(x, y, at_most());
}

/// The revealed number at `(x, y)` constrains cells: it has a neighbour that
/// is not revealed.
pub open spec fn has_local(cells: Seq<Cell>, width: int, height: int, x: int, y: int) -> bool {
    &&& in_grid(width, height, x, y)
    &&& cells[index_of(width, x, y)].state is Revealed
    &&& cells[index_of(width, x, y)].content is Number
    &&& neighbours_where(cells, width, height, x, y, hidden()).len() > 0
}

/// `c` is the constraint that the revealed number at `(x, y)` puts on its
/// neighbours that are not revealed: that many of them hold a mine.
pub open spec fn stems_from(
    c: Constraint,
    cells: Seq<Cell>,
    width: int,
    height: int,
    x: int,
    y: int,
) -> bool {
    &&& has_local(cells, width, height, x, y)
    &&& c.cells@ == neighbours_where(cells, width, height, x, y, hidden())
    &&& c.count_bits == whole_bits(cells[index_of(width, x, y)].content->Number_0 as nat)
}

/// `c` is the constraint of some revealed number of the board.
pub open spec fn is_local(c: Constraint, cells: Seq<Cell>, width: int, height: int) -> bool {
    exists|x: int, y: int| #[trigger] stems_from(c, cells, width, height, x, y)
}

/// The constraint of the revealed number at `(x, y)` is one of `list`.
pub open spec fn listed(
    list: Seq<Constraint>,
    cells: Seq<Cell>,
    width: int,
    height: int,
    x: int,
    y: int,
) -> bool {
    exists|k: int| 0 <= k < list.len() && stems_from(#[trigger] list[k], cells, width, height, x, y)
}

/// No two constraints of `list` are equal.
pub open spec fn distinct(list: Seq<Constraint>) -> bool {
    forall|j: int, k: int|
        #![trigger list[j], list[k]]
        0 <= j < k < list.len() ==> !list[j].same_as(&list[k])
}

/// Whether a constraint equal to `c` is in the list.
fn contains(list: &Vec<Constraint>, c: &Constraint) -> (found: bool)
    ensures
        found == exists|k: int| 0 <= k < list@.len() && (#[trigger] list@[k]).same_as(c),
{
    let mut i: usize = 0;
    while i < list.len()
        invariant
            i <= list@.len(),
            forall|k: int| 0 <= k < i ==> !(#[trigger] list@[k]).same_as(c),
        decreases list@.len() - i,
    {
        if list[i] == *c {
            return true;
        }
        i += 1;
    }
    false
}

impl Game {
    /// Indices of the cells that are not revealed, flagged ones included, in
    /// ascending order.
    pub fn get_covered(&self) -> (covered: Vec<usize>)
        ensures
            covered@ == covered_indices(self@.cells),
    {
        let mut covered: Vec<usize> = Vec::new();
        let mut i: usize = 0;
        while i < self.board.len()
            invariant
                i <= self.board@.len(),
                covered@ == indices_upto(i as int, hidden_at(self.board@)),
            decreases self.board@.len() - i,
        {
            if self.board[i].state != CellState::Revealed {
                covered.push(i);
            }
            i += 1;
        }
        covered
    }

    /// Indices of the cells of which the revealed numbers say nothing: those
    /// that are not revealed and have no revealed neighbour, in ascending
    /// order.
    pub fn get_sea_of_unknown(&self) -> (sea: Vec<usize>)
        requires
            self@.shaped(),
        ensures
            sea@ == sea_of_unknown(self@.cells, self@.width, self@.height),
    {
        let mut sea: Vec<usize> = Vec::new();
        let mut i: usize = 0;
        while i < self.board.len()
            invariant
                self@.shaped(),
                i <= self.board@.len(),
                sea@ == indices_upto(
                    i as int,
                    unknown_at(self.board@, self.width as int, self.height as int),
                ),
            decreases self.board@.len() - i,
        {
            if self.board[i].state != CellState::Revealed && self.count_adjacent_revealed(i) == 0 {
                sea.push(i);
            }
            i += 1;
        }
        sea
    }

    /// What the board tells about where the mines are, as three things. The
    /// global constraint: `num_mines` mines among the cells that are not
    /// revealed. The local constraints: for each revealed number with a
    /// neighbour that is not revealed, that many mines among such
    /// neighbours; each constraint once, however many numbers give it. And
    /// the cells that no local constraint speaks of.
    pub fn get_constraints(&self) -> (r: (Constraint, Vec<Constraint>, Vec<usize>))
        requires
            self@.shaped(),
        ensures
            r.0.cells@ == covered_indices(self@.cells),
            r.0.count_bits == whole_bits(self@.num_mines as nat),
            forall|k: int|
                0 <= k < r.1@.len() ==> is_local(
                    #[trigger] r.1@[k],
                    self@.cells,
                    self@.width,
                    self@.height,
                ),
            forall|x: int, y: int| #[trigger]
                has_local(self@.cells, self@.width, self@.height, x, y) ==> listed(
                    r.1@,
                    self@.cells,
                    self@.width,
                    self@.height,
                    x,
                    y,
                ),
            distinct(r.1@),
            r.2@ == sea_of_unknown(self@.cells, self@.width, self@.height),
    {
        let ghost cells = self.board@;
        let ghost w = self.width as int;
        let ghost h = self.height as int;
        let mut locals: Vec<Constraint> = Vec::new();
        let global_bits = whole_count_bits(self.num_mines);
        let global = Constraint::new(self.get_covered(), global_bits);
        let sea = self.get_sea_of_unknown();
        proof {
            assert(self.board@.len() == self.board.len());
            lemma_indices_ascending(cells.len() as int, hidden_at(cells));
            lemma_canonical_of_ascending(global, covered_indices(cells), global_bits);
        }
        let mut y: usize = 0;
        while y < self.height
            invariant
                self@.shaped(),
                cells == self.board@,
                w == self.width,
                h == self.height,
                y <= h,
                forall|k: int| 0 <= k < locals@.len() ==> is_local(#[trigger] locals@[k], cells, w, h),
                forall|cx: int, cy: int| #[trigger]
                    has_local(cells, w, h, cx, cy) && cy < y ==> listed(
                        locals@,
                        cells,
                        w,
                        h,
                        cx,
                        cy,
                    ),
                distinct(locals@),
            decreases h - y,
        {
            let mut x: usize = 0;
            while x < self.width
                invariant
                    self@.shaped(),
                    cells == self.board@,
                    w == self.width,
                    h == self.height,
                    y < h,
                    x <= w,
                    forall|k: int|
                        0 <= k < locals@.len() ==> is_local(#[trigger] locals@[k], cells, w, h),
                    forall|cx: int, cy: int| #[trigger]
                        has_local(cells, w, h, cx, cy) && (cy < y || (cy == y && cx < x))
                            ==> listed(locals@, cells, w, h, cx, cy),
                    distinct(locals@),
                decreases w - x,
            {
                let i = self.index(x, y);
                let cell = self.board[i];
                let ghost earlier = locals@;
                if cell.state == CellState::Revealed {
                    if let CellContent::Number(n) = cell.content {
                        let unrevealed = self.get_adjacent_unrevealed(x, y);
                        if unrevealed.len() > 0 {
                            let ghost around = unrevealed@;
                            let bits = whole_count_bits(n as usize);
                            let c = Constraint::new(unrevealed, bits);
                            let ghost made = c;
                            proof {
                                assert(self.board@.len() == self.board.len());
                                lemma_neighbours_ascending(
                                    cells,
                                    w,
                                    h,
                                    x as int,
                                    y as int,
                                    hidden(),
                                    9,
                                );
                                lemma_canonical_of_ascending(made, around, bits);
                                assert(stems_from(made, cells, w, h, x as int, y as int));
                            }
                            if !contains(&locals, &c) {
                                locals.push(c);
                                proof {
                                    assert(locals@[locals@.len() - 1] == made);
                                    assert forall|k: int| 0 <= k < locals@.len() implies is_local(
                                        #[trigger] locals@[k],
                                        cells,
                                        w,
                                        h,
                                    ) by {
                                        if k < earlier.len() {
                                            assert(locals@[k] == earlier[k]);
                                        }
                                    }
                                    assert(distinct(locals@)) by {
                                        assert forall|j: int, k: int|
                                            #![trigger locals@[j], locals@[k]]
                                            0 <= j < k < locals@.len() implies !locals@[j].same_as(
                                            &locals@[k],
                                        ) by {
                                            assert(locals@[j] == earlier[j]);
                                            if k < earlier.len() {
                                                assert(locals@[k] == earlier[k]);
                                            }
                                        }
                                    }
                                }
                            } else {
                                proof {
                                    let k = choose|k: int|
                                        0 <= k < locals@.len() && (#[trigger] locals@[k]).same_as(
                                            &made,
                                        );
                                    assert(stems_from(locals@[k], cells, w, h, x as int, y as int));
                                }
                            }
                            proof {
                                assert(listed(locals@, cells, w, h, x as int, y as int));
                            }
                        }
                    }
                }
                proof {
                    assert forall|cx: int, cy: int| #[trigger]
                        has_local(cells, w, h, cx, cy) && (cy < y || (cy == y && cx < x + 1))
                        implies listed(locals@, cells, w, h, cx, cy) by {
                        if cy < y || (cy == y && cx < x) {
                            assert(listed(earlier, cells, w, h, cx, cy));
                            let k = choose|k: int|
                                0 <= k < earlier.len() && stems_from(
                                    #[trigger] earlier[k],
                                    cells,
                                    w,
                                    h,
                                    cx,
                                    cy,
                                );
                            assert(locals@[k] == earlier[k]);
                        }
                    }
                }
                x += 1;
            }
            y += 1;
        }
        (global, locals, sea)
    }
}

} // verus!
