//! The sparse grid: a set of disjoint leaves over a uniform background.

use std::collections::HashMap;
use vstd::prelude::*;
use crate::cell::{Cell, Side, value_ok, VALUE_MAX};
use crate::leaf::{Leaf, block_of, block_origin, cell_index, cell_pos, index_in_block, is_origin,
    lemma_cell_index, lemma_cell_pos, point_in_block};
use crate::point::{Bounds, Point, Pos, COORD_MIN};

verus! {

broadcast use vstd::std_specs::hash::group_hash_axioms;

/// A sparse field of cells over the whole lattice.
///
/// Every lattice point has a cell: the one its leaf stores, or the background
/// where no leaf covers the point.  The leaves lie in an arena, and an
/// index finds the leaf of a block by the key of the block's origin.
#[derive(Debug)]
pub struct Grid {
    pub leaves: Vec<Leaf>,
    pub index: HashMap<u128, usize>,
    pub background: Cell,
}

/// The key under which the index of a grid holds the block with origin `o`:
/// the three coordinates, counted from the lattice minimum, side by side.
pub open spec fn block_key(o: Pos) -> int {
    ((o.x - COORD_MIN) * 0x400_0000_0000 + (o.y - COORD_MIN)) * 0x400_0000_0000 + (o.z
        - COORD_MIN)
}

/// Distinct positions of the lattice have distinct keys.
pub proof fn lemma_key_injective(a: Pos, b: Pos)
    requires
        a.in_lattice(),
        b.in_lattice(),
        block_key(a) == block_key(b),
    ensures
        a == b,
{
}

/// The key of the block with origin `o`.
pub fn key_of(o: Point) -> (k: u128)
    requires
        o@.in_lattice(),
    ensures
        k == block_key(o@),
{
    let x: u128 = (o.x - COORD_MIN) as u128;
    let y: u128 = (o.y - COORD_MIN) as u128;
    let z: u128 = (o.z - COORD_MIN) as u128;
    (x * 0x400_0000_0000 + y) * 0x400_0000_0000 + z
}

/// An active lattice point together with its stored distance.
#[derive(Clone, Copy, PartialEq, Eq, Debug, Structural)]
pub struct Voxel {
    pub point: Point,
    pub value: i64,
}

impl View for Grid {
    type V = Map<Pos, Cell>;

    /// The field as a total map from positions to cells.
    open spec fn view(&self) -> Map<Pos, Cell> {
        Map::new(|p: Pos| true, |p: Pos| self.cell_at(p))
    }
}

impl Grid {
    /// Leaves are well formed and pairwise disjoint, the index holds each
    /// leaf under the key of its origin and nothing else, and the
    /// background stores no distance.
    pub open spec fn wf(&self) -> bool {
        &&& !(self.background is Active)
        &&& forall|i: int| 0 <= i < self.leaves@.len() ==> (#[trigger] self.leaves@[i]).wf()
        &&& forall|i: int, j: int|
            0 <= i < j < self.leaves@.len() ==> (#[trigger] self.leaves@[i]).origin() != (
            #[trigger] self.leaves@[j]).origin()
        &&& self.indexed()
    }

    /// The index holds each leaf under the key of its origin, and nothing
    /// else.
    pub open spec fn indexed(&self) -> bool {
        &&& forall|i: int|
            0 <= i < self.leaves@.len() ==> self.index@.contains_key(
                block_key((#[trigger] self.leaves@[i]).origin()@) as u128,
            ) && self.index@[block_key(self.leaves@[i].origin()@) as u128] == i
        &&& forall|k: u128| #[trigger]
            self.index@.contains_key(k) ==> self.index@[k] < self.leaves@.len() && block_key(
                self.leaves@[self.index@[k] as int].origin()@,
            ) == k
    }

    /// Whether some leaf has its origin at `o`.
    pub closed spec fn has_leaf(&self, o: Pos) -> bool {
        exists|i: int| 0 <= i < self.leaves@.len() && (#[trigger] self.leaves@[i]).origin()@ == o
    }

    /// The index of the leaf with origin `o`, where there is one.
    pub closed spec fn leaf_index(&self, o: Pos) -> int {
        choose|i: int| 0 <= i < self.leaves@.len() && (#[trigger] self.leaves@[i]).origin()@ == o
    }

    /// The cell at position `p`.
    pub closed spec fn cell_at(&self, p: Pos) -> Cell {
        if self.has_leaf(block_of(p)) {
            self.leaves@[self.leaf_index(block_of(p))].cell(p)
        } else {
            self.background
        }
    }

    /// Whether the field stores a distance at `p`.
    pub open spec fn is_active(&self, p: Pos) -> bool {
        self.cell_at(p) is Active
    }

    /// The distance stored at an active position.
    pub open spec fn value_at(&self, p: Pos) -> int {
        self.cell_at(p)->Active_0 as int
    }

    /// Whether no position is left without a side.
    pub open spec fn is_filled(&self) -> bool {
        forall|p: Pos| !(#[trigger] self.cell_at(p) is Empty)
    }

    /// A position covered by leaf `i` has the cell that the leaf stores.
    pub proof fn lemma_cell_at_leaf(&self, i: int, p: Pos)
        requires
            self.wf(),
            0 <= i < self.leaves@.len(),
            self.leaves@[i].covers(p),
        ensures
            self.cell_at(p) == self.leaves@[i].cell(p),
            self.has_leaf(block_of(p)),
    {
        let j = self.leaf_index(block_of(p));
        assert(self.leaves@[j].origin()@ == self.leaves@[i].origin()@);
        assert(self.leaves@[j].origin() == self.leaves@[i].origin());
    }

    /// A block has a leaf exactly when some leaf has its origin there.
    pub proof fn lemma_has_leaf_iff(&self, o: Pos)
        ensures
            self.has_leaf(o) == exists|i: int|
                0 <= i < self.leaves@.len() && (#[trigger] self.leaves@[i]).origin()@ == o,
    {
    }

    /// Two grids with the same view have the same cell at every position.
    pub proof fn lemma_same_view(&self, other: &Grid)
        requires
            self@ == other@,
        ensures
            forall|p: Pos| #[trigger] self.cell_at(p) == other.cell_at(p),
            forall|p: Pos| #[trigger] self.is_active(p) == other.is_active(p),
            forall|b: Bounds| #[trigger] self.is_bounds(b) == other.is_bounds(b),
    {
        assert forall|p: Pos| #[trigger] self.cell_at(p) == other.cell_at(p) by {
            self.lemma_view(p);
            other.lemma_view(p);
        }
        assert forall|b: Bounds| #[trigger] self.is_bounds(b) == other.is_bounds(b) by {
            if self.is_bounds(b) {
                self.lemma_bounds_transfer(other, b);
            }
            if other.is_bounds(b) {
                other.lemma_bounds_transfer(self, b);
            }
        }
    }

    /// A bounding box of one grid bounds every grid with the same cells.
    pub proof fn lemma_bounds_transfer(&self, other: &Grid, b: Bounds)
        requires
            forall|p: Pos| #[trigger] self.cell_at(p) == other.cell_at(p),
            self.is_bounds(b),
        ensures
            other.is_bounds(b),
    {
        let on_min_x = choose|p: Pos| #[trigger] self.is_active(p) && p.x == b.min.x;
        let on_min_y = choose|p: Pos| #[trigger] self.is_active(p) && p.y == b.min.y;
        let on_min_z = choose|p: Pos| #[trigger] self.is_active(p) && p.z == b.min.z;
        let on_max_x = choose|p: Pos| #[trigger] self.is_active(p) && p.x == b.max.x;
        let on_max_y = choose|p: Pos| #[trigger] self.is_active(p) && p.y == b.max.y;
        let on_max_z = choose|p: Pos| #[trigger] self.is_active(p) && p.z == b.max.z;
        assert(other.is_active(on_min_x) && other.is_active(on_min_y) && other.is_active(on_min_z));
        assert(other.is_active(on_max_x) && other.is_active(on_max_y) && other.is_active(on_max_z));
        assert forall|p: Pos| other.is_active(p) implies b.contains(p) by {
            assert(self.is_active(p));
        }
    }

    /// The view maps every position to its cell.
    pub proof fn lemma_view(&self, p: Pos)
        ensures
            self@.dom().contains(p),
            self@[p] == self.cell_at(p),
    {
        assert(Set::new(|q: Pos| true).contains(p));
    }

    /// Where a block has a leaf, its index is that of a leaf with that origin.
    pub proof fn lemma_has_leaf(&self, p: Pos)
        requires
            self.has_leaf(block_of(p)),
        ensures
            0 <= self.leaf_index(block_of(p)) < self.leaves@.len(),
            self.leaves@[self.leaf_index(block_of(p))].covers(p),
            self.cell_at(p) == self.leaves@[self.leaf_index(block_of(p))].cell(p),
    {
    }

    /// Where a block has no leaf, its positions have the background cell.
    pub proof fn lemma_no_leaf(&self, p: Pos)
        requires
            !self.has_leaf(block_of(p)),
        ensures
            self.cell_at(p) == self.background,
            forall|i: int| 0 <= i < self.leaves@.len() ==> !(#[trigger] self.leaves@[i]).covers(p),
    {
    }

    /// The background is within range, and a block without a leaf has no
    /// leaf with its origin.
    pub proof fn lemma_no_leaf_here(&self, o: Pos)
        requires
            self.wf(),
        ensures
            self.background.wf(),
            !self.has_leaf(o) ==> forall|i: int|
                0 <= i < self.leaves@.len() ==> (#[trigger] self.leaves@[i]).origin()@ != o,
    {
    }

    /// The leaf that covers a position is the one found by its block.
    pub proof fn lemma_leaf_index(&self, i: int, p: Pos)
        requires
            self.wf(),
            0 <= i < self.leaves@.len(),
            self.leaves@[i].covers(p),
        ensures
            self.has_leaf(block_of(p)),
            self.leaf_index(block_of(p)) == i,
    {
        let j = self.leaf_index(block_of(p));
        assert(self.leaves@[j].origin()@ == self.leaves@[i].origin()@);
        assert(self.leaves@[j].origin() == self.leaves@[i].origin());
    }

    /// A position that no leaf covers has the background cell.
    pub proof fn lemma_cell_at_background(&self, p: Pos)
        requires
            forall|i: int| 0 <= i < self.leaves@.len() ==> !(#[trigger] self.leaves@[i]).covers(p),
        ensures
            self.cell_at(p) == self.background,
    {
    }

    /// Every cell of a well-formed grid is within range, and positions
    /// outside the lattice have the background cell.
    pub proof fn lemma_cell_wf(&self, p: Pos)
        requires
            self.wf(),
        ensures
            self.cell_at(p).wf(),
            !p.in_lattice() ==> self.cell_at(p) == self.background,
    {
        if self.has_leaf(block_of(p)) {
            let i = self.leaf_index(block_of(p));
            assert(self.leaves@[i].wf());
            assert(is_origin(block_of(p)));
            assert(p.in_lattice());
            lemma_cell_index(p);
        }
    }

    /// No leaf covers a position outside the lattice.
    pub proof fn lemma_no_leaf_outside(&self, p: Pos)
        requires
            self.wf(),
            !p.in_lattice(),
        ensures
            !self.has_leaf(block_of(p)),
    {
        if self.has_leaf(block_of(p)) {
            let i = self.leaf_index(block_of(p));
            assert(self.leaves@[i].wf());
        }
    }

    /// A grid in which every position is background.
    pub fn empty() -> (g: Grid)
        ensures
            g.wf(),
            g.leaves@.len() == 0,
            g.background == Cell::Empty,
            forall|p: Pos| g.cell_at(p) == Cell::Empty,
    {
        Grid { leaves: Vec::new(), index: HashMap::new(), background: Cell::Empty }
    }

    /// The index of the leaf with origin `o`.
    pub fn find_leaf(&self, o: Point) -> (r: Option<usize>)
        requires
            self.wf(),
        ensures
            match r {
                Some(i) => i < self.leaves@.len() && self.leaves@[i as int].origin() == o,
                None => forall|i: int|
                    0 <= i < self.leaves@.len() ==> (#[trigger] self.leaves@[i]).origin() != o,
            },
    {
        if !o.in_lattice() {
            proof {
                assert forall|i: int| 0 <= i < self.leaves@.len() implies (
                #[trigger] self.leaves@[i]).origin() != o by {
                    assert(self.leaves@[i].wf());
                }
            }
            return None;
        }
        let k = key_of(o);
        match self.index.get(&k) {
            Some(i) => {
                proof {
                    let l = self.leaves@[*i as int];
                    assert(l.wf());
                    lemma_key_injective(l.origin()@, o@);
                }
                Some(*i)
            },
            None => {
                proof {
                    assert forall|i: int| 0 <= i < self.leaves@.len() implies (
                    #[trigger] self.leaves@[i]).origin() != o by {
                        assert(self.index@.contains_key(
                            block_key(self.leaves@[i].origin()@) as u128,
                        ));
                    }
                }
                None
            },
        }
    }

    /// The cell at `p`.
    pub fn get(&self, p: Point) -> (c: Cell)
        requires
            self.wf(),
        ensures
            c == self.cell_at(p@),
            c.wf(),
    {
        proof {
            self.lemma_cell_wf(p@);
        }
        if !p.in_lattice() {
            return self.background;
        }
        let o = block_origin(p);
        match self.find_leaf(o) {
            Some(i) => {
                proof {
                    self.lemma_cell_at_leaf(i as int, p@);
                }
                self.leaves[i].cell_at_point(p)
            },
            None => {
                proof {
                    self.lemma_cell_at_background(p@);
                }
                self.background
            },
        }
    }

    /// Number of leaves.
    pub fn leaf_count(&self) -> (n: usize)
        ensures
            n == self.leaves@.len(),
    {
        self.leaves.len()
    }

    /// The `i`-th leaf; leaves come in no particular order.
    pub fn leaf(&self, i: usize) -> (l: &Leaf)
        requires
            i < self.leaves@.len(),
        ensures
            *l == self.leaves@[i as int],
    {
        &self.leaves[i]
    }

    /// Stores distance `value` at `p`, making the point active.
    ///
    /// Points outside the lattice and distances out of range are refused, and
    /// the grid is then left as it was.
    pub fn insert(&mut self, p: Point, value: i64) -> (ok: bool)
        requires
            old(self).wf(),
        ensures
            final(self).wf(),
            ok == (p@.in_lattice() && value_ok(value as int)),
            final(self).background == old(self).background,
            ok ==> final(self)@ == old(self)@.insert(p@, Cell::Active(value)),
            !ok ==> *final(self) == *old(self),
            forall|q: Pos|
                final(self).cell_at(q) == if ok && q == p@ {
                    Cell::Active(value)
                } else {
                    old(self).cell_at(q)
                },
    {
        if !p.in_lattice() || value < -VALUE_MAX || value > VALUE_MAX {
            return false;
        }
        let o = block_origin(p);
        let k = index_in_block(p);
        let cell = Cell::Active(value);
        let ghost before = *self;
        match self.find_leaf(o) {
            Some(i) => {
                let mut dense: bool = true;
                let mut tile_side = Side::Outside;
                match &self.leaves[i] {
                    Leaf::Tile { side, .. } => {
                        dense = false;
                        tile_side = *side;
                    },
                    Leaf::Dense { .. } => {},
                }
                if dense {
                    self.store(i, k, cell);
                } else {
                    let mut cells = filled_cells(Cell::Filled(tile_side));
                    cells.set(k, cell);
                    self.replace_leaf(i, Leaf::Dense { origin: o, cells });
                }
                proof {
                    assert forall|q: Pos|
                        self.cell_at(q) == if q == p@ {
                            cell
                        } else {
                            before.cell_at(q)
                        } by {
                        before.lemma_changed_leaf(self, i as int, q);
                        lemma_cell_index(p@);
                        if q.in_lattice() {
                            lemma_cell_index(q);
                        }
                    }
                }
            },
            None => {
                let mut cells = filled_cells(self.background);
                cells.set(k, cell);
                self.push_leaf(Leaf::Dense { origin: o, cells });
                proof {
                    assert forall|q: Pos|
                        self.cell_at(q) == if q == p@ {
                            cell
                        } else {
                            before.cell_at(q)
                        } by {
                        before.lemma_pushed_leaf(self, q);
                        lemma_cell_index(p@);
                        if q.in_lattice() {
                            lemma_cell_index(q);
                        }
                    }
                }
            },
        }
        proof {
            assert(self@ =~= before@.insert(p@, cell));
        }
        true
    }

    /// Overwrites slot `k` of the dense leaf `i`.
    fn store(&mut self, i: usize, k: usize, c: Cell)
        requires
            old(self).wf(),
            i < old(self).leaves@.len(),
            k < 512,
            old(self).leaves@[i as int] is Dense,
            c.wf(),
        ensures
            final(self).wf(),
            final(self).leaves@.len() == old(self).leaves@.len(),
            final(self).background == old(self).background,
            final(self).leaves@[i as int] is Dense,
            final(self).leaves@[i as int].origin() == old(self).leaves@[i as int].origin(),
            final(self).leaves@[i as int]->Dense_cells@ == old(self).leaves@[i as int]->Dense_cells@.update(
                k as int,
                c,
            ),
            forall|j: int|
                0 <= j < old(self).leaves@.len() && j != i ==> final(self).leaves@[j] == old(
                    self,
                ).leaves@[j],
    {
        let ghost before = *self;
        assert(self.leaves@[i as int].wf());
        match &mut self.leaves[i] {
            Leaf::Dense { cells, .. } => {
                cells.set(k, c);
            },
            Leaf::Tile { .. } => {},
        }
        proof {
            before.lemma_same_origins(self, i as int);
        }
    }

    /// Puts `leaf` in place of leaf `i`, which covers the same block.
    pub fn replace_leaf(&mut self, i: usize, leaf: Leaf)
        requires
            old(self).wf(),
            i < old(self).leaves@.len(),
            leaf.wf(),
            leaf.origin() == old(self).leaves@[i as int].origin(),
        ensures
            final(self).wf(),
            final(self).leaves@ == old(self).leaves@.update(i as int, leaf),
            final(self).leaves@.len() == old(self).leaves@.len(),
            final(self).background == old(self).background,
            final(self).leaves@[i as int] == leaf,
            forall|j: int|
                0 <= j < old(self).leaves@.len() && j != i ==> final(self).leaves@[j] == old(
                    self,
                ).leaves@[j],
    {
        let ghost before = *self;
        self.leaves.set(i, leaf);
        proof {
            before.lemma_same_origins(self, i as int);
        }
    }

    /// Appends `leaf`, which covers a block that has no leaf yet.
    pub fn push_leaf(&mut self, leaf: Leaf)
        requires
            old(self).wf(),
            leaf.wf(),
            forall|i: int|
                0 <= i < old(self).leaves@.len() ==> (#[trigger] old(self).leaves@[i]).origin()
                    != leaf.origin(),
        ensures
            final(self).wf(),
            final(self).leaves@ == old(self).leaves@.push(leaf),
            final(self).leaves@.len() == old(self).leaves@.len() + 1,
            final(self).background == old(self).background,
            final(self).leaves@[old(self).leaves@.len() as int] == leaf,
            forall|j: int|
                0 <= j < old(self).leaves@.len() ==> final(self).leaves@[j] == old(self).leaves@[j],
    {
        let ghost before = *self;
        let n = self.leaves.len();
        let k = key_of(leaf.corner());
        self.leaves.push(leaf);
        self.index.insert(k, n);
        proof {
            assert forall|i: int| 0 <= i < self.leaves@.len() implies self.index@.contains_key(
                block_key((#[trigger] self.leaves@[i]).origin()@) as u128,
            ) && self.index@[block_key(self.leaves@[i].origin()@) as u128] == i by {
                if i < n {
                    assert(self.leaves@[i] == before.leaves@[i]);
                    assert(before.leaves@[i].wf());
                    if block_key(before.leaves@[i].origin()@) == k {
                        lemma_key_injective(before.leaves@[i].origin()@, leaf.origin()@);
                    }
                }
            }
            assert forall|j: u128| #[trigger] self.index@.contains_key(j) implies self.index@[j]
                < self.leaves@.len() && block_key(self.leaves@[self.index@[j] as int].origin()@)
                == j by {
                if j != k {
                    assert(before.index@.contains_key(j));
                    let l = before.index@[j] as int;
                    assert(self.leaves@[l] == before.leaves@[l]);
                }
            }
            assert forall|i: int| 0 <= i < self.leaves@.len() implies (
            #[trigger] self.leaves@[i]).wf() by {
                if i < n {
                    assert(self.leaves@[i] == before.leaves@[i]);
                }
            }
        }
    }

    /// Adds a leaf at origin `o` unless there is one.  No cell changes.
    pub fn ensure_leaf(&mut self, o: Point)
        requires
            old(self).wf(),
            is_origin(o@),
        ensures
            final(self).wf(),
            final(self).background == old(self).background,
            forall|p: Pos| #[trigger] final(self).cell_at(p) == old(self).cell_at(p),
            forall|q: Pos| old(self).has_leaf(q) ==> #[trigger] final(self).has_leaf(q),
            final(self).has_leaf(o@),
    {
        let ghost before = *self;
        match self.find_leaf(o) {
            Some(i) => {
                proof {
                    self.lemma_has_leaf_iff(o@);
                }
            },
            None => {
                let cells = filled_cells(self.background);
                proof {
                    before.lemma_cell_wf(o@);
                    before.lemma_no_leaf_here(o@);
                }
                let leaf = Leaf::from_cells(o, cells);
                self.push_leaf(leaf);
                proof {
                    let n = before.leaves@.len() as int;
                    assert forall|p: Pos| #[trigger] self.cell_at(p) == before.cell_at(p) by {
                        before.lemma_pushed_leaf(self, p);
                        if self.leaves@[n].covers(p) {
                            before.lemma_cell_wf(p);
                            if p.in_lattice() {
                                lemma_cell_index(p);
                            }
                            before.lemma_has_leaf_iff(block_of(p));
                            before.lemma_no_leaf(p);
                        }
                    }
                    assert forall|q: Pos| before.has_leaf(q) implies #[trigger] self.has_leaf(
                        q,
                    ) by {
                        before.lemma_has_leaf_iff(q);
                        self.lemma_has_leaf_iff(q);
                        let i = choose|i: int|
                            0 <= i < before.leaves@.len() && (#[trigger] before.leaves@[i]).origin()@
                                == q;
                        assert(self.leaves@[i] == before.leaves@[i]);
                    }
                    self.lemma_has_leaf_iff(o@);
                    assert(self.leaves@[n].origin()@ == o@);
                }
            },
        }
    }

    /// A grid stays well formed when leaf `i` changes its cells, within
    /// range, but not its origin.
    pub proof fn lemma_same_origins(&self, after: &Grid, i: int)
        requires
            self.wf(),
            0 <= i < self.leaves@.len(),
            after.leaves@.len() == self.leaves@.len(),
            after.index == self.index,
            after.background == self.background,
            after.leaves@[i].wf(),
            after.leaves@[i].origin() == self.leaves@[i].origin(),
            forall|j: int|
                0 <= j < self.leaves@.len() && j != i ==> after.leaves@[j] == self.leaves@[j],
        ensures
            after.wf(),
    {
        assert forall|j: int| 0 <= j < after.leaves@.len() implies (
        #[trigger] after.leaves@[j]).origin() == self.leaves@[j].origin() && after.leaves@[j].wf() by {
            if j != i {
                assert(after.leaves@[j] == self.leaves@[j]);
            }
        }
        assert forall|j: int, l: int| 0 <= j < l < after.leaves@.len() implies (
        #[trigger] after.leaves@[j]).origin() != (#[trigger] after.leaves@[l]).origin() by {
            assert(self.leaves@[j].origin() != self.leaves@[l].origin());
        }
        assert forall|k: u128| #[trigger] after.index@.contains_key(k) implies after.index@[k]
            < after.leaves@.len() && block_key(after.leaves@[after.index@[k] as int].origin()@)
            == k by {
            let j = self.index@[k] as int;
            assert(after.leaves@[j].origin() == self.leaves@[j].origin());
        }
    }

    /// How cells read after leaf `i` was replaced by one with the same origin.
    pub proof fn lemma_changed_leaf(&self, after: &Grid, i: int, q: Pos)
        requires
            self.wf(),
            after.wf(),
            0 <= i < self.leaves@.len(),
            after.leaves@.len() == self.leaves@.len(),
            after.background == self.background,
            after.leaves@[i].origin() == self.leaves@[i].origin(),
            forall|j: int|
                0 <= j < self.leaves@.len() && j != i ==> after.leaves@[j] == self.leaves@[j],
        ensures
            after.cell_at(q) == if self.leaves@[i].covers(q) {
                after.leaves@[i].cell(q)
            } else {
                self.cell_at(q)
            },
    {
        if self.leaves@[i].covers(q) {
            after.lemma_cell_at_leaf(i, q);
        } else if self.has_leaf(block_of(q)) {
            let j = self.leaf_index(block_of(q));
            assert(after.leaves@[j] == self.leaves@[j]);
            after.lemma_cell_at_leaf(j, q);
            self.lemma_cell_at_leaf(j, q);
        } else {
            assert forall|j: int| 0 <= j < after.leaves@.len() implies !(
            #[trigger] after.leaves@[j]).covers(q) by {
                if j != i {
                    assert(after.leaves@[j] == self.leaves@[j]);
                }
                assert(self.leaves@[j].origin()@ != block_of(q));
            }
            after.lemma_cell_at_background(q);
        }
    }

    /// How cells read after one leaf was appended.
    pub proof fn lemma_pushed_leaf(&self, after: &Grid, q: Pos)
        requires
            self.wf(),
            after.wf(),
            after.leaves@.len() == self.leaves@.len() + 1,
            after.background == self.background,
            forall|j: int| 0 <= j < self.leaves@.len() ==> after.leaves@[j] == self.leaves@[j],
        ensures
            after.cell_at(q) == if after.leaves@[self.leaves@.len() as int].covers(q) {
                after.leaves@[self.leaves@.len() as int].cell(q)
            } else {
                self.cell_at(q)
            },
    {
        let n = self.leaves@.len() as int;
        if after.leaves@[n].covers(q) {
            after.lemma_cell_at_leaf(n, q);
        } else if self.has_leaf(block_of(q)) {
            let j = self.leaf_index(block_of(q));
            assert(after.leaves@[j] == self.leaves@[j]);
            after.lemma_cell_at_leaf(j, q);
            self.lemma_cell_at_leaf(j, q);
        } else {
            assert forall|j: int| 0 <= j < after.leaves@.len() implies !(
            #[trigger] after.leaves@[j]).covers(q) by {
                if j != n {
                    assert(after.leaves@[j] == self.leaves@[j]);
                    assert(self.leaves@[j].origin()@ != block_of(q));
                }
            }
            after.lemma_cell_at_background(q);
        }
    }

    /// How cells read in two grids whose leaves cover the same blocks.
    pub proof fn lemma_same_blocks(&self, after: &Grid, p: Pos)
        requires
            self.wf(),
            after.wf(),
            after.leaves@.len() == self.leaves@.len(),
            forall|j: int|
                0 <= j < self.leaves@.len() ==> (#[trigger] after.leaves@[j]).origin()
                    == self.leaves@[j].origin(),
        ensures
            self.has_leaf(block_of(p)) == after.has_leaf(block_of(p)),
            self.has_leaf(block_of(p)) ==> {
                let i = self.leaf_index(block_of(p));
                &&& 0 <= i < self.leaves@.len()
                &&& self.leaves@[i].covers(p)
                &&& self.cell_at(p) == self.leaves@[i].cell(p)
                &&& after.cell_at(p) == after.leaves@[i].cell(p)
            },
            !self.has_leaf(block_of(p)) ==> self.cell_at(p) == self.background && after.cell_at(p)
                == after.background,
    {
        if self.has_leaf(block_of(p)) {
            let i = self.leaf_index(block_of(p));
            assert(after.leaves@[i].origin() == self.leaves@[i].origin());
            after.lemma_cell_at_leaf(i, p);
        } else {
            assert forall|j: int| 0 <= j < after.leaves@.len() implies !(
            #[trigger] after.leaves@[j]).covers(p) by {
                assert(self.leaves@[j].origin()@ != block_of(p));
            }
            after.lemma_cell_at_background(p);
        }
    }

    /// Whether a scan over the leaves, slot by slot, has passed `q` when it
    /// stands at slot `s` of leaf `i`.
    pub open spec fn scanned(&self, i: int, s: int, q: Pos) -> bool {
        self.has_leaf(block_of(q)) && (self.leaf_index(block_of(q)) < i || (self.leaf_index(
            block_of(q),
        ) == i && cell_index(q) < s))
    }

    /// All active points with their distances, each once, in no particular
    /// order.
    pub fn active_voxels(&self) -> (r: Vec<Voxel>)
        requires
            self.wf(),
        ensures
            forall|k: int|
                0 <= k < r@.len() ==> self.cell_at((#[trigger] r@[k]).point@) == Cell::Active(
                    r@[k].value,
                ),
            forall|p: Pos|
                self.is_active(p) ==> exists|k: int|
                    0 <= k < r@.len() && (#[trigger] r@[k]).point@ == p,
            forall|j: int, k: int|
                0 <= j < k < r@.len() ==> (#[trigger] r@[j]).point != (#[trigger] r@[k]).point,
    {
        let mut r: Vec<Voxel> = Vec::new();
        let mut i: usize = 0;
        while i < self.leaves.len()
            invariant
                self.wf(),
                i <= self.leaves@.len(),
                forall|k: int|
                    0 <= k < r@.len() ==> self.cell_at((#[trigger] r@[k]).point@) == Cell::Active(
                        r@[k].value,
                    ),
                forall|j: int, s: int|
                    0 <= j < i && 0 <= s < 512 && (#[trigger] self.leaves@[j].slot(s)) is Active
                        ==> exists|k: int|
                        0 <= k < r@.len() && (#[trigger] r@[k]).point@ == cell_pos(
                            self.leaves@[j].origin()@,
                            s,
                        ),
                forall|k: int|
                    0 <= k < r@.len() ==> self.scanned(i as int, 0, (#[trigger] r@[k]).point@),
                forall|j: int, k: int|
                    0 <= j < k < r@.len() ==> (#[trigger] r@[j]).point != (#[trigger] r@[k]).point,
            decreases self.leaves@.len() - i,
        {
            let leaf = &self.leaves[i];
            if !leaf.is_tile() {
                let o = leaf.corner();
                let mut s: usize = 0;
                while s < 512
                    invariant
                        self.wf(),
                        i < self.leaves@.len(),
                        *leaf == self.leaves@[i as int],
                        leaf is Dense,
                        o == leaf.origin(),
                        s <= 512,
                        forall|k: int|
                            0 <= k < r@.len() ==> self.cell_at((#[trigger] r@[k]).point@)
                                == Cell::Active(r@[k].value),
                        forall|j: int, t: int|
                            0 <= j < i && 0 <= t < 512 && (#[trigger] self.leaves@[j].slot(
                                t,
                            )) is Active ==> exists|k: int|
                                0 <= k < r@.len() && (#[trigger] r@[k]).point@ == cell_pos(
                                    self.leaves@[j].origin()@,
                                    t,
                                ),
                        forall|t: int|
                            0 <= t < s && (#[trigger] leaf.slot(t)) is Active ==> exists|k: int|
                                0 <= k < r@.len() && (#[trigger] r@[k]).point@ == cell_pos(o@, t),
                        forall|k: int|
                            0 <= k < r@.len() ==> self.scanned(
                                i as int,
                                s as int,
                                (#[trigger] r@[k]).point@,
                            ),
                        forall|j: int, k: int|
                            0 <= j < k < r@.len() ==> (#[trigger] r@[j]).point != (
                            #[trigger] r@[k]).point,
                    decreases 512 - s,
                {
                    let c = leaf.cell_in_slot(s);
                    if let Cell::Active(v) = c {
                        let p = point_in_block(o, s);
                        let ghost prev = r@;
                        r.push(Voxel { point: p, value: v });
                        proof {
                            lemma_cell_pos(o@, s as int);
                            self.lemma_cell_at_leaf(i as int, p@);
                            self.lemma_leaf_index(i as int, p@);
                            let last = prev.len() as int;
                            assert forall|k: int| 0 <= k < r@.len() implies self.scanned(
                                i as int,
                                s + 1,
                                (#[trigger] r@[k]).point@,
                            ) by {
                                if k < last {
                                    assert(r@[k] == prev[k]);
                                    assert(self.scanned(i as int, s as int, prev[k].point@));
                                }
                            }
                            assert forall|j: int, k: int| 0 <= j < k < r@.len() implies (
                            #[trigger] r@[j]).point != (#[trigger] r@[k]).point by {
                                assert(r@[j] == prev[j]);
                                if k < last {
                                    assert(r@[k] == prev[k]);
                                } else {
                                    assert(self.scanned(i as int, s as int, prev[j].point@));
                                }
                            }
                            assert(r@[last].point@ == cell_pos(o@, s as int));
                            assert forall|j: int, t: int|
                                0 <= j < i && 0 <= t < 512 && (#[trigger] self.leaves@[j].slot(
                                    t,
                                )) is Active implies exists|k: int|
                                0 <= k < r@.len() && (#[trigger] r@[k]).point@ == cell_pos(
                                    self.leaves@[j].origin()@,
                                    t,
                                ) by {
                                let k = choose|k: int|
                                    0 <= k < prev.len() && (#[trigger] prev[k]).point@ == cell_pos(
                                        self.leaves@[j].origin()@,
                                        t,
                                    );
                                assert(r@[k] == prev[k]);
                            }
                            assert forall|t: int|
                                0 <= t < s + 1 && (#[trigger] leaf.slot(
                                    t,
                                )) is Active implies exists|k: int|
                                0 <= k < r@.len() && (#[trigger] r@[k]).point@ == cell_pos(
                                    o@,
                                    t,
                                ) by {
                                if t < s {
                                    let k = choose|k: int|
                                        0 <= k < prev.len() && (#[trigger] prev[k]).point@
                                            == cell_pos(o@, t);
                                    assert(r@[k] == prev[k]);
                                } else {
                                    assert(r@[last].point@ == cell_pos(o@, t));
                                }
                            }
                        }
                    }
                    s += 1;
                }
            }
            proof {
                assert forall|k: int| 0 <= k < r@.len() implies self.scanned(
                    i + 1,
                    0,
                    (#[trigger] r@[k]).point@,
                ) by {
                    assert(self.scanned(i as int, 0, r@[k].point@) || self.scanned(
                        i as int,
                        512,
                        r@[k].point@,
                    ));
                }
            }
            i += 1;
        }
        proof {
            assert forall|p: Pos| self.is_active(p) implies exists|k: int|
                0 <= k < r@.len() && (#[trigger] r@[k]).point@ == p by {
                self.lemma_cell_wf(p);
                let j = self.leaf_index(block_of(p));
                self.lemma_cell_at_leaf(j, p);
                lemma_cell_index(p);
                assert(self.leaves@[j].slot(cell_index(p)) is Active);
            }
        }
        r
    }

    /// Whether `b` is the bounding box of the active points: it holds them
    /// all, and each of its six faces holds one.
    pub open spec fn is_bounds(&self, b: Bounds) -> bool {
        &&& forall|p: Pos| self.is_active(p) ==> b.contains(p)
        &&& exists|p: Pos| #[trigger] self.is_active(p) && p.x == b.min.x
        &&& exists|p: Pos| #[trigger] self.is_active(p) && p.y == b.min.y
        &&& exists|p: Pos| #[trigger] self.is_active(p) && p.z == b.min.z
        &&& exists|p: Pos| #[trigger] self.is_active(p) && p.x == b.max.x
        &&& exists|p: Pos| #[trigger] self.is_active(p) && p.y == b.max.y
        &&& exists|p: Pos| #[trigger] self.is_active(p) && p.z == b.max.z
    }

    /// A box bounds the grid exactly when it bounds its view.
    pub proof fn lemma_bounds_view(&self, b: Bounds)
        ensures
            self.is_bounds(b) == field_bounds(self@, b),
    {
        assert forall|p: Pos| #[trigger] self@[p] == self.cell_at(p) by {
            self.lemma_view(p);
        }
        if self.is_bounds(b) {
            let on_min_x = choose|p: Pos| #[trigger] self.is_active(p) && p.x == b.min.x;
            let on_min_y = choose|p: Pos| #[trigger] self.is_active(p) && p.y == b.min.y;
            let on_min_z = choose|p: Pos| #[trigger] self.is_active(p) && p.z == b.min.z;
            let on_max_x = choose|p: Pos| #[trigger] self.is_active(p) && p.x == b.max.x;
            let on_max_y = choose|p: Pos| #[trigger] self.is_active(p) && p.y == b.max.y;
            let on_max_z = choose|p: Pos| #[trigger] self.is_active(p) && p.z == b.max.z;
            assert(self@[on_min_x] is Active && self@[on_min_y] is Active);
            assert(self@[on_min_z] is Active && self@[on_max_x] is Active);
            assert(self@[on_max_y] is Active && self@[on_max_z] is Active);
            assert forall|p: Pos| #[trigger] self@[p] is Active implies b.contains(p) by {
                assert(self.is_active(p));
            }
        }
        if field_bounds(self@, b) {
            let on_min_x = choose|p: Pos| #[trigger] self@[p] is Active && p.x == b.min.x;
            let on_min_y = choose|p: Pos| #[trigger] self@[p] is Active && p.y == b.min.y;
            let on_min_z = choose|p: Pos| #[trigger] self@[p] is Active && p.z == b.min.z;
            let on_max_x = choose|p: Pos| #[trigger] self@[p] is Active && p.x == b.max.x;
            let on_max_y = choose|p: Pos| #[trigger] self@[p] is Active && p.y == b.max.y;
            let on_max_z = choose|p: Pos| #[trigger] self@[p] is Active && p.z == b.max.z;
            assert(self.is_active(on_min_x) && self.is_active(on_min_y));
            assert(self.is_active(on_min_z) && self.is_active(on_max_x));
            assert(self.is_active(on_max_y) && self.is_active(on_max_z));
            assert forall|p: Pos| self.is_active(p) implies b.contains(p) by {
                assert(self@[p] is Active);
            }
        }
    }

    /// The bounding box of the active points; `None` where there is none.
    pub fn active_bounds(&self) -> (r: Option<Bounds>)
        requires
            self.wf(),
        ensures
            r is None ==> forall|p: Pos| !self.is_active(p),
            r matches Some(b) ==> self.is_bounds(b) && b.min@.in_lattice() && b.max@.in_lattice(),
    {
        let voxels = self.active_voxels();
        if voxels.len() == 0 {
            return None;
        }
        let first = voxels[0].point;
        let mut b = Bounds { min: first, max: first };
        proof {
            assert(self.is_active(first@));
            self.lemma_cell_wf(first@);
        }
        let mut k: usize = 1;
        while k < voxels.len()
            invariant
                self.wf(),
                1 <= k <= voxels@.len(),
                forall|j: int|
                    0 <= j < voxels@.len() ==> self.cell_at((#[trigger] voxels@[j]).point@)
                        == Cell::Active(voxels@[j].value),
                forall|j: int| 0 <= j < k ==> b.contains((#[trigger] voxels@[j]).point@),
                exists|p: Pos| #[trigger] self.is_active(p) && p.x == b.min.x,
                exists|p: Pos| #[trigger] self.is_active(p) && p.y == b.min.y,
                exists|p: Pos| #[trigger] self.is_active(p) && p.z == b.min.z,
                exists|p: Pos| #[trigger] self.is_active(p) && p.x == b.max.x,
                exists|p: Pos| #[trigger] self.is_active(p) && p.y == b.max.y,
                exists|p: Pos| #[trigger] self.is_active(p) && p.z == b.max.z,
                b.min@.in_lattice(),
                b.max@.in_lattice(),
            decreases voxels@.len() - k,
        {
            let p = voxels[k].point;
            proof {
                assert(self.is_active(p@));
                self.lemma_cell_wf(p@);
            }
            if p.x < b.min.x {
                b.min.x = p.x;
            }
            if p.y < b.min.y {
                b.min.y = p.y;
            }
            if p.z < b.min.z {
                b.min.z = p.z;
            }
            if p.x > b.max.x {
                b.max.x = p.x;
            }
            if p.y > b.max.y {
                b.max.y = p.y;
            }
            if p.z > b.max.z {
                b.max.z = p.z;
            }
            k += 1;
        }
        proof {
            assert forall|p: Pos| self.is_active(p) implies b.contains(p) by {
                let j = choose|j: int|
                    0 <= j < voxels@.len() && (#[trigger] voxels@[j]).point@ == p;
                assert(b.contains(voxels@[j].point@));
            }
        }
        Some(b)
    }

    /// Whether every stored distance stays in range when lowered by `d`.
    pub fn can_shift(&self, d: i64) -> (r: bool)
        requires
            self.wf(),
            value_ok(d as int),
        ensures
            r == forall|p: Pos| #[trigger]
                self.cell_at(p) is Active ==> value_ok(self.cell_at(p)->Active_0 - d),
    {
        let voxels = self.active_voxels();
        let mut k: usize = 0;
        while k < voxels.len()
            invariant
                self.wf(),
                value_ok(d as int),
                k <= voxels@.len(),
                forall|j: int| 0 <= j < k ==> value_ok((#[trigger] voxels@[j]).value - d),
                forall|j: int|
                    0 <= j < voxels@.len() ==> self.cell_at((#[trigger] voxels@[j]).point@)
                        == Cell::Active(voxels@[j].value),
            decreases voxels@.len() - k,
        {
            let v: i64 = voxels[k].value;
            proof {
                self.lemma_cell_wf(voxels@[k as int].point@);
            }
            if v - d > VALUE_MAX || v - d < -VALUE_MAX {
                proof {
                    let p = voxels@[k as int].point@;
                    assert(self.cell_at(p) is Active && !value_ok(self.cell_at(p)->Active_0 - d));
                }
                return false;
            }
            k += 1;
        }
        proof {
            assert forall|p: Pos| #[trigger] self.cell_at(p) is Active implies value_ok(
                self.cell_at(p)->Active_0 - d,
            ) by {
                assert(self.is_active(p));
                let j = choose|j: int|
                    0 <= j < voxels@.len() && (#[trigger] voxels@[j]).point@ == p;
                assert(value_ok(voxels@[j].value - d));
            }
        }
        true
    }

    /// Replaces every stored distance `v` by `f(v)`.
    pub fn map_values<F: Fn(i64) -> i64>(&mut self, f: F)
        requires
            old(self).wf(),
            forall|p: Pos|
                #[trigger] old(self).cell_at(p) is Active ==> call_requires(
                    f,
                    (old(self).cell_at(p)->Active_0,),
                ),
            forall|p: Pos, w: i64|
                old(self).cell_at(p) is Active && #[trigger] call_ensures(
                    f,
                    (old(self).cell_at(p)->Active_0,),
                    w,
                ) ==> value_ok(w as int),
        ensures
            final(self).wf(),
            final(self).background == old(self).background,
            forall|p: Pos| mapped_by(f, old(self).cell_at(p), #[trigger] final(self).cell_at(p)),
    {
        let ghost before = *self;
        let mut i: usize = 0;
        while i < self.leaves.len()
            invariant
                before.wf(),
                self.wf(),
                forall|p: Pos|
                    #[trigger] before.cell_at(p) is Active ==> call_requires(
                        f,
                        (before.cell_at(p)->Active_0,),
                    ),
                forall|p: Pos, w: i64|
                    before.cell_at(p) is Active && #[trigger] call_ensures(
                        f,
                        (before.cell_at(p)->Active_0,),
                        w,
                    ) ==> value_ok(w as int),
                self.background == before.background,
                self.leaves@.len() == before.leaves@.len(),
                i <= self.leaves@.len(),
                forall|j: int|
                    0 <= j < self.leaves@.len() ==> (#[trigger] self.leaves@[j]).origin()
                        == before.leaves@[j].origin(),
                forall|j: int| i <= j < self.leaves@.len() ==> self.leaves@[j] == before.leaves@[j],
                forall|j: int, s: int|
                    0 <= j < i && 0 <= s < 512 ==> mapped_by(
                        f,
                        before.leaves@[j].slot(s),
                        #[trigger] self.leaves@[j].slot(s),
                    ),
            decreases self.leaves@.len() - i,
        {
            let ghost prev = *self;
            proof {
                let old_leaf = before.leaves@[i as int];
                assert(old_leaf.wf());
                assert forall|s: int| 0 <= s < 512 implies before.cell_at(
                    cell_pos(old_leaf.origin()@, s),
                ) == #[trigger] old_leaf.slot(s) by {
                    lemma_cell_pos(old_leaf.origin()@, s);
                    before.lemma_cell_at_leaf(i as int, cell_pos(old_leaf.origin()@, s));
                }
            }
            let leaf = map_leaf(&self.leaves[i], &f);
            self.replace_leaf(i, leaf);
            proof {
                assert forall|j: int, s: int| 0 <= j < i + 1 && 0 <= s < 512 implies mapped_by(
                    f,
                    before.leaves@[j].slot(s),
                    #[trigger] self.leaves@[j].slot(s),
                ) by {
                    if j < i {
                        assert(self.leaves@[j] == prev.leaves@[j]);
                        assert(mapped_by(f, before.leaves@[j].slot(s), prev.leaves@[j].slot(s)));
                    }
                }
            }
            i += 1;
        }
        proof {
            assert forall|p: Pos| mapped_by(f, before.cell_at(p), #[trigger] self.cell_at(p)) by {
                before.lemma_same_blocks(self, p);
                before.lemma_cell_wf(p);
                if before.has_leaf(block_of(p)) {
                    let j = before.leaf_index(block_of(p));
                    lemma_cell_index(p);
                    assert(mapped_by(
                        f,
                        before.leaves@[j].slot(cell_index(p)),
                        self.leaves@[j].slot(cell_index(p)),
                    ));
                }
            }
        }
    }
}

/// The leaf with every stored distance `v` replaced by `f(v)`.
fn map_leaf<F: Fn(i64) -> i64>(leaf: &Leaf, f: &F) -> (r: Leaf)
    requires
        leaf.wf(),
        forall|s: int|
            0 <= s < 512 && (#[trigger] leaf.slot(s)) is Active ==> call_requires(
                *f,
                (leaf.slot(s)->Active_0,),
            ),
        forall|s: int, w: i64|
            0 <= s < 512 && leaf.slot(s) is Active && #[trigger] call_ensures(
                *f,
                (leaf.slot(s)->Active_0,),
                w,
            ) ==> value_ok(w as int),
    ensures
        r.wf(),
        r.origin() == leaf.origin(),
        forall|s: int| 0 <= s < 512 ==> mapped_by(*f, leaf.slot(s), #[trigger] r.slot(s)),
{
    let mut cells: Vec<Cell> = Vec::new();
    let mut s: usize = 0;
    while s < 512
        invariant
            leaf.wf(),
            forall|t: int|
                0 <= t < 512 && (#[trigger] leaf.slot(t)) is Active ==> call_requires(
                    *f,
                    (leaf.slot(t)->Active_0,),
                ),
            forall|t: int, w: i64|
                0 <= t < 512 && leaf.slot(t) is Active && #[trigger] call_ensures(
                    *f,
                    (leaf.slot(t)->Active_0,),
                    w,
                ) ==> value_ok(w as int),
            s <= 512,
            cells@.len() == s,
            forall|t: int|
                0 <= t < s ==> mapped_by(*f, leaf.slot(t), #[trigger] cells@[t]) && cells@[t].wf(),
        decreases 512 - s,
    {
        let c = leaf.cell_in_slot(s);
        let mapped = match c {
            Cell::Active(v) => Cell::Active(f(v)),
            c => c,
        };
        cells.push(mapped);
        s += 1;
    }
    Leaf::from_cells(leaf.corner(), cells)
}

/// Whether `b` is the bounding box of the active positions of the field `f`.
pub open spec fn field_bounds(f: Map<Pos, Cell>, b: Bounds) -> bool {
    &&& forall|p: Pos| #[trigger] f[p] is Active ==> b.contains(p)
    &&& exists|p: Pos| #[trigger] f[p] is Active && p.x == b.min.x
    &&& exists|p: Pos| #[trigger] f[p] is Active && p.y == b.min.y
    &&& exists|p: Pos| #[trigger] f[p] is Active && p.z == b.min.z
    &&& exists|p: Pos| #[trigger] f[p] is Active && p.x == b.max.x
    &&& exists|p: Pos| #[trigger] f[p] is Active && p.y == b.max.y
    &&& exists|p: Pos| #[trigger] f[p] is Active && p.z == b.max.z
}

/// A field has at most one bounding box.
pub proof fn lemma_field_bounds_unique(f: Map<Pos, Cell>, a: Bounds, b: Bounds)
    requires
        field_bounds(f, a),
        field_bounds(f, b),
    ensures
        a == b,
{
}

/// How `map_values` with `f` turns one cell into another.
pub open spec fn mapped_by<F: Fn(i64) -> i64>(f: F, before: Cell, after: Cell) -> bool {
    match before {
        Cell::Active(v) => after is Active && call_ensures(f, (v,), after->Active_0),
        c => after == c,
    }
}

impl Clone for Grid {
    /// An independent copy with the same cells everywhere.
    fn clone(&self) -> (r: Self)
        ensures
            self.wf() ==> r.wf() && r@ == self@,
            r.background == self.background,
            r.leaves@.len() == self.leaves@.len(),
            forall|j: int|
                0 <= j < self.leaves@.len() ==> (#[trigger] r.leaves@[j]).same_as(&self.leaves@[j])
                    && (r.leaves@[j] is Tile) == (self.leaves@[j] is Tile),
    {
        let mut leaves: Vec<Leaf> = Vec::new();
        let mut i: usize = 0;
        while i < self.leaves.len()
            invariant
                i <= self.leaves@.len(),
                leaves@.len() == i,
                forall|j: int|
                    0 <= j < i ==> (#[trigger] leaves@[j]).same_as(&self.leaves@[j]) && (
                    self.leaves@[j].wf() ==> leaves@[j].wf()) && (leaves@[j] is Tile) == (
                    self.leaves@[j] is Tile),
            decreases self.leaves@.len() - i,
        {
            let l = self.leaves[i].clone();
            leaves.push(l);
            i += 1;
        }
        let r = Grid { leaves, index: self.index.clone(), background: self.background };
        proof {
            if self.wf() {
                assert forall|i: int, j: int| 0 <= i < j < r.leaves@.len() implies (
                #[trigger] r.leaves@[i]).origin() != (#[trigger] r.leaves@[j]).origin() by {
                    assert(self.leaves@[i].origin() != self.leaves@[j].origin());
                }
                assert(r.wf());
                assert forall|p: Pos| r.cell_at(p) == self.cell_at(p) by {
                    self.lemma_same_blocks(&r, p);
                    if self.has_leaf(block_of(p)) {
                        self.lemma_cell_wf(p);
                        lemma_cell_index(p);
                    }
                }
                assert(r@ =~= self@);
            }
        }
        r
    }
}

/// A full block of copies of `c`.
pub fn filled_cells(c: Cell) -> (cells: Vec<Cell>)
    ensures
        cells@.len() == 512,
        forall|k: int| 0 <= k < 512 ==> cells@[k] == c,
{
    let mut cells: Vec<Cell> = Vec::new();
    let mut k: usize = 0;
    while k < 512
        invariant
            k <= 512,
            cells@.len() == k,
            forall|j: int| 0 <= j < k ==> cells@[j] == c,
        decreases 512 - k,
    {
        cells.push(c);
        k += 1;
    }
    cells
}

} // verus!
