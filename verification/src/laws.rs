//! Laws of Boolean combination and flood filling, stated over fields.

use vstd::prelude::*;
use crate::cell::{Cell, Side, value_ok};
use crate::csg::{Csg, combined};
use crate::flood::flooded;
use crate::point::Pos;

verus! {

/// Flood filling keeps every stored distance and leaves no position
/// without a side.
pub proof fn lemma_flooded_has_side(f: Map<Pos, Cell>, p: Pos)
    ensures
        flooded(f)[p].side() is Some,
        f[p] is Active ==> flooded(f)[p] == f[p],
        !(f[p] is Empty) ==> flooded(f)[p] == f[p],
{
    assert(Set::new(|q: Pos| true).contains(p));
}

/// Where both operands store a distance, the union of the flood-filled
/// fields stores the smaller of the two.
pub proof fn lemma_union_takes_min(f: Map<Pos, Cell>, g: Map<Pos, Cell>, p: Pos, a: i64, b: i64)
    requires
        f[p] == Cell::Active(a),
        g[p] == Cell::Active(b),
    ensures
        combined(Csg::Union, flooded(f), flooded(g))[p] == Cell::Active(
            if a <= b {
                a
            } else {
                b
            },
        ),
{
    assert(Set::new(|q: Pos| true).contains(p));
}

/// Where both operands store a distance, the intersection of the
/// flood-filled fields stores the larger of the two.
pub proof fn lemma_intersect_takes_max(
    f: Map<Pos, Cell>,
    g: Map<Pos, Cell>,
    p: Pos,
    a: i64,
    b: i64,
)
    requires
        f[p] == Cell::Active(a),
        g[p] == Cell::Active(b),
    ensures
        combined(Csg::Intersect, flooded(f), flooded(g))[p] == Cell::Active(
            if a >= b {
                a
            } else {
                b
            },
        ),
{
    assert(Set::new(|q: Pos| true).contains(p));
}

/// Where both operands store a distance, the difference of the
/// flood-filled fields stores the larger of the first distance and the
/// negated second one.
pub proof fn lemma_subtract_takes_max_neg(
    f: Map<Pos, Cell>,
    g: Map<Pos, Cell>,
    p: Pos,
    a: i64,
    b: i64,
)
    requires
        f[p] == Cell::Active(a),
        g[p] == Cell::Active(b),
        value_ok(b as int),
    ensures
        combined(Csg::Subtract, flooded(f), flooded(g))[p] == Cell::Active(
            if a >= -b {
                a
            } else {
                (-b) as i64
            },
        ),
{
    assert(Set::new(|q: Pos| true).contains(p));
}

/// A position lies inside the union exactly when it lies inside one of the
/// operands, whether the operands store a distance there or only a side.
pub proof fn lemma_union_side(a: Cell, b: Cell)
    requires
        a.side() is Some,
        b.side() is Some,
    ensures
        a.union(b).side() == Some(
            if a.side() == Some(Side::Inside) || b.side() == Some(Side::Inside) {
                Side::Inside
            } else {
                Side::Outside
            },
        ),
{
}

/// A position lies inside the intersection exactly when it lies inside
/// both operands.
pub proof fn lemma_intersect_side(a: Cell, b: Cell)
    requires
        a.side() is Some,
        b.side() is Some,
    ensures
        a.intersect(b).side() == Some(
            if a.side() == Some(Side::Inside) && b.side() == Some(Side::Inside) {
                Side::Inside
            } else {
                Side::Outside
            },
        ),
{
}

/// Subtracting a solid is intersecting with its complement.
pub proof fn lemma_subtract_is_intersect_negated(
    f: Map<Pos, Cell>,
    g: Map<Pos, Cell>,
    p: Pos,
)
    ensures
        combined(Csg::Subtract, f, g)[p] == Csg::Intersect.apply(f[p], g[p].negate()),
{
    assert(Set::new(|q: Pos| true).contains(p));
}

/// Flood filling a flood-filled field changes nothing.
pub proof fn lemma_flooded_twice(f: Map<Pos, Cell>)
    ensures
        flooded(flooded(f)) == flooded(f),
{
    assert forall|p: Pos| #[trigger] flooded(flooded(f))[p] == flooded(f)[p] by {
        assert(Set::new(|q: Pos| true).contains(p));
    }
    assert(flooded(flooded(f)) =~= flooded(f));
}

/// Union and intersection do not depend on the order of their operands,
/// wherever both operands have a side.
pub proof fn lemma_union_intersect_commute(a: Cell, b: Cell)
    requires
        a.side() is Some,
        b.side() is Some,
    ensures
        a.union(b) == b.union(a),
        a.intersect(b) == b.intersect(a),
{
}

/// The complement of a union is the intersection of the complements, and
/// the complement of an intersection is the union of the complements.
pub proof fn lemma_de_morgan(a: Cell, b: Cell)
    requires
        a.wf(),
        b.wf(),
        a.side() is Some,
        b.side() is Some,
    ensures
        a.union(b).negate() == a.negate().intersect(b.negate()),
        a.intersect(b).negate() == a.negate().union(b.negate()),
{
}

} // verus!
