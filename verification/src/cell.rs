//! What the field knows at one lattice point, and how two fields combine there.

use vstd::prelude::*;

verus! {

/// Largest magnitude of a stored distance.
pub const VALUE_MAX: i64 = 0x1000_0000_0000_0000;

/// Whether `v` is a distance that a cell can store.
pub open spec fn value_ok(v: int) -> bool {
    -VALUE_MAX <= v <= VALUE_MAX
}

/// The two sides of a surface.
#[derive(Clone, Copy, PartialEq, Eq, Debug, Structural)]
pub enum Side {
    Inside,
    Outside,
}

/// The side on which a signed distance lies; the surface itself counts as outside.
pub open spec fn side_of_value(v: int) -> Side {
    if v < 0 {
        Side::Inside
    } else {
        Side::Outside
    }
}

impl Side {
    pub open spec fn flip(self) -> Side {
        match self {
            Side::Inside => Side::Outside,
            Side::Outside => Side::Inside,
        }
    }

    /// The other side.
    pub fn flipped(self) -> (r: Side)
        ensures
            r == self.flip(),
    {
        match self {
            Side::Inside => Side::Outside,
            Side::Outside => Side::Inside,
        }
    }
}

/// The state of one lattice point.
#[derive(Clone, Copy, PartialEq, Eq, Debug, Structural)]
pub enum Cell {
    /// Background: neither a distance nor a sign is known.
    Empty,
    /// Far from the surface: only the side is known.
    Filled(Side),
    /// In the narrow band: the signed distance is stored.
    Active(i64),
}

impl Cell {
    /// A stored distance is within the representable range.
    pub open spec fn wf(self) -> bool {
        self matches Cell::Active(v) ==> value_ok(v as int)
    }

    /// The side of the surface this point is known to lie on, if any.
    pub open spec fn side(self) -> Option<Side> {
        match self {
            Cell::Empty => None,
            Cell::Filled(s) => Some(s),
            Cell::Active(v) => Some(side_of_value(v as int)),
        }
    }

    /// Whether both cells have a side and the sides differ.
    pub open spec fn opposes(self, other: Cell) -> bool {
        self.side() is Some && other.side() is Some && self.side() != other.side()
    }

    /// The order of signed distances, with the far inside below and the far
    /// outside above every stored distance.
    pub open spec fn le(self, other: Cell) -> bool {
        match (self, other) {
            (Cell::Filled(Side::Inside), _) => true,
            (_, Cell::Filled(Side::Outside)) => true,
            (Cell::Active(a), Cell::Active(b)) => a <= b,
            _ => false,
        }
    }

    /// The lesser of two cells; a background cell yields to the other.
    pub open spec fn union(self, other: Cell) -> Cell {
        if self is Empty {
            other
        } else if other is Empty {
            self
        } else if self.le(other) {
            self
        } else {
            other
        }
    }

    /// The greater of two cells; a background cell yields to the other.
    pub open spec fn intersect(self, other: Cell) -> Cell {
        if self is Empty {
            other
        } else if other is Empty {
            self
        } else if other.le(self) {
            self
        } else {
            other
        }
    }

    /// The cell of the complementary solid.
    pub open spec fn negate(self) -> Cell {
        match self {
            Cell::Empty => Cell::Empty,
            Cell::Filled(s) => Cell::Filled(s.flip()),
            Cell::Active(v) => Cell::Active((-v) as i64),
        }
    }

    /// The cell of `self` with `other` carved out.
    pub open spec fn subtract(self, other: Cell) -> Cell {
        self.intersect(other.negate())
    }

    pub fn is_active(&self) -> (r: bool)
        ensures
            r == (*self is Active),
    {
        match self {
            Cell::Active(_) => true,
            _ => false,
        }
    }

    /// The side of the surface this point is known to lie on, if any.
    pub fn side_of(&self) -> (r: Option<Side>)
        ensures
            r == self.side(),
    {
        match self {
            Cell::Empty => None,
            Cell::Filled(s) => Some(*s),
            Cell::Active(v) => if *v < 0 {
                Some(Side::Inside)
            } else {
                Some(Side::Outside)
            },
        }
    }

    /// Whether both cells have a side and the sides differ.
    pub fn is_opposite(&self, other: &Cell) -> (r: bool)
        ensures
            r == self.opposes(*other),
    {
        match (self.side_of(), other.side_of()) {
            (Some(a), Some(b)) => a != b,
            _ => false,
        }
    }

    fn below(&self, other: &Cell) -> (r: bool)
        ensures
            r == self.le(*other),
    {
        match (self, other) {
            (Cell::Filled(Side::Inside), _) => true,
            (_, Cell::Filled(Side::Outside)) => true,
            (Cell::Active(a), Cell::Active(b)) => *a <= *b,
            _ => false,
        }
    }

    /// The lesser of two cells.
    pub fn combine_union(&self, other: &Cell) -> (r: Cell)
        ensures
            r == self.union(*other),
            self.wf() && other.wf() ==> r.wf(),
    {
        if self == &Cell::Empty {
            *other
        } else if other == &Cell::Empty {
            *self
        } else if self.below(other) {
            *self
        } else {
            *other
        }
    }

    /// The greater of two cells.
    pub fn combine_intersect(&self, other: &Cell) -> (r: Cell)
        ensures
            r == self.intersect(*other),
            self.wf() && other.wf() ==> r.wf(),
    {
        if self == &Cell::Empty {
            *other
        } else if other == &Cell::Empty {
            *self
        } else if other.below(self) {
            *self
        } else {
            *other
        }
    }

    /// The cell of the complementary solid.
    pub fn negated(&self) -> (r: Cell)
        requires
            self.wf(),
        ensures
            r == self.negate(),
            r.wf(),
    {
        match self {
            Cell::Empty => Cell::Empty,
            Cell::Filled(s) => Cell::Filled(s.flipped()),
            Cell::Active(v) => Cell::Active(-*v),
        }
    }

    /// The cell of `self` with `other` carved out.
    pub fn combine_subtract(&self, other: &Cell) -> (r: Cell)
        requires
            other.wf(),
        ensures
            r == self.subtract(*other),
            self.wf() ==> r.wf(),
    {
        let n = other.negated();
        self.combine_intersect(&n)
    }
}

} // verus!
