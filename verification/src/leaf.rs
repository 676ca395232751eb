//! Leaves: the cubic blocks of cells that a grid is made of.

use vstd::prelude::*;
use crate::cell::{Cell, Side};
use crate::point::{Point, Pos, COORD_MIN};

verus! {

/// Edge length of a leaf, in lattice steps.
pub const LEAF_DIM: i64 = 8;

/// Number of cells of a leaf.
pub const LEAF_CELLS: usize = 512;

/// The smallest coordinate of the block that holds coordinate `c`.
pub open spec fn block_base(c: int) -> int {
    c - c % 8
}

/// The origin (smallest corner) of the block that holds `p`.
pub open spec fn block_of(p: Pos) -> Pos {
    Pos { x: block_base(p.x), y: block_base(p.y), z: block_base(p.z) }
}

/// The slot of `p` within its block: `x` slowest, `z` fastest.
pub open spec fn cell_index(p: Pos) -> int {
    (p.x % 8) * 64 + (p.y % 8) * 8 + p.z % 8
}

/// The position of slot `k` in the block at `origin`.
pub open spec fn cell_pos(origin: Pos, k: int) -> Pos {
    Pos { x: origin.x + k / 64, y: origin.y + (k / 8) % 8, z: origin.z + k % 8 }
}

/// Whether `o` is the origin of a block that lies wholly in the lattice.
pub open spec fn is_origin(o: Pos) -> bool {
    &&& o.in_lattice()
    &&& o.x % 8 == 0
    &&& o.y % 8 == 0
    &&& o.z % 8 == 0
}

/// Slots and positions of a block correspond one to one.
pub proof fn lemma_cell_pos(o: Pos, k: int)
    requires
        is_origin(o),
        0 <= k < 512,
    ensures
        block_of(cell_pos(o, k)) == o,
        cell_index(cell_pos(o, k)) == k,
        cell_pos(o, k).in_lattice(),
{
}

/// Every lattice point is one slot of one block.
pub proof fn lemma_cell_index(p: Pos)
    requires
        p.in_lattice(),
    ensures
        is_origin(block_of(p)),
        0 <= cell_index(p) < 512,
        cell_pos(block_of(p), cell_index(p)) == p,
{
}

/// The origin of the block that holds `p`.
pub fn block_origin(p: Point) -> (o: Point)
    requires
        p@.in_lattice(),
    ensures
        o@ == block_of(p@),
        is_origin(o@),
{
    let rx: i64 = (p.x - COORD_MIN) % 8;
    let ry: i64 = (p.y - COORD_MIN) % 8;
    let rz: i64 = (p.z - COORD_MIN) % 8;
    Point { x: p.x - rx, y: p.y - ry, z: p.z - rz }
}

/// The slot of `p` within its block.
pub fn index_in_block(p: Point) -> (k: usize)
    requires
        p@.in_lattice(),
    ensures
        k == cell_index(p@),
        k < 512,
{
    let rx: i64 = (p.x - COORD_MIN) % 8;
    let ry: i64 = (p.y - COORD_MIN) % 8;
    let rz: i64 = (p.z - COORD_MIN) % 8;
    (rx * 64 + ry * 8 + rz) as usize
}

/// The point at slot `k` of the block at `origin`.
pub fn point_in_block(origin: Point, k: usize) -> (p: Point)
    requires
        is_origin(origin@),
        k < 512,
    ensures
        p@ == cell_pos(origin@, k as int),
        p@.in_lattice(),
{
    let k64: i64 = k as i64;
    Point { x: origin.x + k64 / 64, y: origin.y + (k64 / 8) % 8, z: origin.z + k64 % 8 }
}

/// One block of a grid.
#[derive(Debug)]
pub enum Leaf {
    /// A block that lies wholly on one side of the surface, beyond the band.
    Tile { origin: Point, side: Side },
    /// A block with one cell per lattice point.
    Dense { origin: Point, cells: Vec<Cell> },
}

impl Leaf {
    /// The smallest corner of the block.
    pub open spec fn origin(&self) -> Point {
        match self {
            Leaf::Tile { origin, .. } => *origin,
            Leaf::Dense { origin, .. } => *origin,
        }
    }

    /// The cell in slot `k`.
    pub open spec fn slot(&self, k: int) -> Cell {
        match self {
            Leaf::Tile { side, .. } => Cell::Filled(*side),
            Leaf::Dense { cells, .. } => cells@[k],
        }
    }

    /// The block is aligned, lies in the lattice, and a dense block has all
    /// its cells, each within range.
    pub open spec fn wf(&self) -> bool {
        &&& is_origin(self.origin()@)
        &&& self matches Leaf::Dense { cells, .. } ==> {
            &&& cells@.len() == 512
            &&& forall|k: int| 0 <= k < 512 ==> (#[trigger] cells@[k]).wf()
        }
    }

    /// Whether `p` lies in the block.
    pub open spec fn covers(&self, p: Pos) -> bool {
        block_of(p) == self.origin()@
    }

    /// The cell at `p`, for a position of the block.
    pub open spec fn cell(&self, p: Pos) -> Cell {
        self.slot(cell_index(p))
    }

    /// Whether two leaves cover the same block with the same cells.
    pub open spec fn same_as(&self, other: &Leaf) -> bool {
        &&& self.origin() == other.origin()
        &&& forall|k: int| 0 <= k < 512 ==> self.slot(k) == other.slot(k)
    }

    /// The smallest corner of the block.
    pub fn corner(&self) -> (o: Point)
        ensures
            o == self.origin(),
    {
        match self {
            Leaf::Tile { origin, .. } => *origin,
            Leaf::Dense { origin, .. } => *origin,
        }
    }

    /// Edge length of the block.
    pub fn size(&self) -> (n: i64)
        ensures
            n == LEAF_DIM,
    {
        LEAF_DIM
    }

    /// Whether the block is stored as a tile.
    pub fn is_tile(&self) -> (r: bool)
        ensures
            r == (*self is Tile),
    {
        match self {
            Leaf::Tile { .. } => true,
            Leaf::Dense { .. } => false,
        }
    }

    /// The cell in slot `k`.
    pub fn cell_in_slot(&self, k: usize) -> (c: Cell)
        requires
            self.wf(),
            k < 512,
        ensures
            c == self.slot(k as int),
            c.wf(),
    {
        match self {
            Leaf::Tile { side, .. } => Cell::Filled(*side),
            Leaf::Dense { cells, .. } => cells[k],
        }
    }

    /// The cell at a point of the block.
    pub fn cell_at_point(&self, p: Point) -> (c: Cell)
        requires
            self.wf(),
            self.covers(p@),
        ensures
            c == self.cell(p@),
            c.wf(),
    {
        proof {
            lemma_cell_pos(self.origin()@, 0);
            assert(p@.in_lattice());
        }
        let k = index_in_block(p);
        self.cell_in_slot(k)
    }

    /// A leaf with the given cells, stored as a tile where every cell is far
    /// on the same side.
    pub fn from_cells(origin: Point, cells: Vec<Cell>) -> (leaf: Leaf)
        requires
            is_origin(origin@),
            cells@.len() == 512,
            forall|k: int| 0 <= k < 512 ==> (#[trigger] cells@[k]).wf(),
        ensures
            leaf.wf(),
            leaf.origin() == origin,
            forall|k: int| 0 <= k < 512 ==> leaf.slot(k) == cells@[k],
    {
        let first = cells[0];
        match first {
            Cell::Filled(side) => {
                let mut k: usize = 1;
                while k < 512
                    invariant
                        1 <= k <= 512,
                        is_origin(origin@),
                        cells@.len() == 512,
                        forall|j: int| 0 <= j < 512 ==> (#[trigger] cells@[j]).wf(),
                        first == Cell::Filled(side),
                        forall|j: int| 0 <= j < k ==> cells@[j] == first,
                    decreases 512 - k,
                {
                    if cells[k] != first {
                        return Leaf::Dense { origin, cells };
                    }
                    k += 1;
                }
                Leaf::Tile { origin, side }
            },
            _ => Leaf::Dense { origin, cells },
        }
    }
}

impl Clone for Leaf {
    fn clone(&self) -> (r: Self)
        ensures
            r.same_as(self),
            self.wf() ==> r.wf(),
            (r is Tile) == (*self is Tile),
    {
        match self {
            Leaf::Tile { origin, side } => Leaf::Tile { origin: *origin, side: *side },
            Leaf::Dense { origin, cells } => Leaf::Dense { origin: *origin, cells: cells.clone() },
        }
    }
}

} // verus!
