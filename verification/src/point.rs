//! Lattice points, their mathematical positions, and axis-aligned boxes.

use vstd::prelude::*;

verus! {

/// Smallest lattice coordinate a grid can hold.
pub const COORD_MIN: i64 = -0x100_0000_0000;

/// Largest lattice coordinate a grid can hold.
pub const COORD_MAX: i64 = 0xff_ffff_ffff;

/// Largest voxel size, in world units per lattice step.
pub const VOXEL_MAX: i64 = 0x10_0000;

/// Whether `s` can be a voxel size: the world length of one lattice step.
pub open spec fn voxel_size_ok(s: int) -> bool {
    0 < s <= VOXEL_MAX
}

/// A position of the unbounded integer lattice.
pub struct Pos {
    pub x: int,
    pub y: int,
    pub z: int,
}

impl Pos {
    /// The position displaced by `(dx, dy, dz)`.
    pub open spec fn shift(self, dx: int, dy: int, dz: int) -> Pos {
        Pos { x: self.x + dx, y: self.y + dy, z: self.z + dz }
    }

    /// Whether all three coordinates can be held by a grid.
    pub open spec fn in_lattice(self) -> bool {
        &&& COORD_MIN <= self.x <= COORD_MAX
        &&& COORD_MIN <= self.y <= COORD_MAX
        &&& COORD_MIN <= self.z <= COORD_MAX
    }

    /// Lexicographic order by `x`, then `y`, then `z`.
    pub open spec fn lex_lt(self, other: Pos) -> bool {
        self.x < other.x || (self.x == other.x && (self.y < other.y || (self.y == other.y && self.z
            < other.z)))
    }
}

/// A point with machine coordinates: a lattice point, or a world position
/// counted in world units.
#[derive(Clone, Copy, PartialEq, Eq, Debug, Structural)]
pub struct Point {
    pub x: i64,
    pub y: i64,
    pub z: i64,
}

impl View for Point {
    type V = Pos;

    open spec fn view(&self) -> Pos {
        Pos { x: self.x as int, y: self.y as int, z: self.z as int }
    }
}

impl Point {
    /// The point with the given coordinates.
    pub fn new(x: i64, y: i64, z: i64) -> (p: Point)
        ensures
            p@ == (Pos { x: x as int, y: y as int, z: z as int }),
            p.x == x && p.y == y && p.z == z,
    {
        Point { x, y, z }
    }

    /// Whether a grid can hold this point.
    pub fn in_lattice(&self) -> (ok: bool)
        ensures
            ok == self@.in_lattice(),
    {
        COORD_MIN <= self.x && self.x <= COORD_MAX && COORD_MIN <= self.y && self.y <= COORD_MAX
            && COORD_MIN <= self.z && self.z <= COORD_MAX
    }
}

/// An axis-aligned box of lattice points, both corners included.
#[derive(Clone, Copy, PartialEq, Eq, Debug, Structural)]
pub struct Bounds {
    pub min: Point,
    pub max: Point,
}

impl Bounds {
    /// Whether `p` lies in the box.
    pub open spec fn contains(self, p: Pos) -> bool {
        &&& self.min.x <= p.x <= self.max.x
        &&& self.min.y <= p.y <= self.max.y
        &&& self.min.z <= p.z <= self.max.z
    }

    /// Whether `p` lies in the box.
    pub fn holds(&self, p: Point) -> (r: bool)
        ensures
            r == self.contains(p@),
    {
        self.min.x <= p.x && p.x <= self.max.x && self.min.y <= p.y && p.y <= self.max.y
            && self.min.z <= p.z && p.z <= self.max.z
    }
}

} // verus!
