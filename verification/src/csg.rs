//! Boolean combination of two fields, cell by cell.

use vstd::prelude::*;
use crate::cell::Cell;
use crate::grid::Grid;
use crate::leaf::{Leaf, block_of, cell_index, cell_pos, lemma_cell_index, lemma_cell_pos};
use crate::point::Pos;

verus! {

/// The three Boolean operations on solids.
#[derive(Clone, Copy, PartialEq, Eq, Debug, Structural)]
pub enum Csg {
    /// Points in either solid: the lesser distance.
    Union,
    /// Points in both solids: the greater distance.
    Intersect,
    /// Points in the first solid but not in the second: the greater of the
    /// first distance and the negated second one.
    Subtract,
}

impl Csg {
    /// The combined cell.
    pub open spec fn apply(self, a: Cell, b: Cell) -> Cell {
        match self {
            Csg::Union => a.union(b),
            Csg::Intersect => a.intersect(b),
            Csg::Subtract => a.subtract(b),
        }
    }

    /// The combined cell.
    pub fn combine(&self, a: &Cell, b: &Cell) -> (r: Cell)
        requires
            b.wf(),
        ensures
            r == self.apply(*a, *b),
            a.wf() ==> r.wf(),
            !(*a is Active) && !(*b is Active) ==> !(r is Active),
    {
        match self {
            Csg::Union => a.combine_union(b),
            Csg::Intersect => a.combine_intersect(b),
            Csg::Subtract => a.combine_subtract(b),
        }
    }
}

/// The field that combines `f` and `g` at every position.
pub open spec fn combined(op: Csg, f: Map<Pos, Cell>, g: Map<Pos, Cell>) -> Map<Pos, Cell> {
    Map::new(|p: Pos| true, |p: Pos| op.apply(f[p], g[p]))
}

/// The cell of an optional leaf in slot `s`, or `background` without a leaf.
pub open spec fn slot_or(leaf: Option<&Leaf>, background: Cell, s: int) -> Cell {
    match leaf {
        Some(l) => l.slot(s),
        None => background,
    }
}

/// The leaf `a` combined slot by slot with the leaf `b`, or with the
/// background where there is no `b`.
fn combine_leaf(a: &Leaf, b: Option<&Leaf>, background: Cell, op: Csg) -> (r: Leaf)
    requires
        a.wf(),
        b matches Some(l) ==> l.wf(),
        background.wf(),
    ensures
        r.wf(),
        r.origin() == a.origin(),
        forall|s: int|
            0 <= s < 512 ==> #[trigger] r.slot(s) == op.apply(a.slot(s), slot_or(b, background, s)),
{
    let mut cells: Vec<Cell> = Vec::new();
    let mut s: usize = 0;
    while s < 512
        invariant
            a.wf(),
            b matches Some(l) ==> l.wf(),
            background.wf(),
            s <= 512,
            cells@.len() == s,
            forall|t: int|
                0 <= t < s ==> #[trigger] cells@[t] == op.apply(
                    a.slot(t),
                    slot_or(b, background, t),
                ) && cells@[t].wf(),
        decreases 512 - s,
    {
        let x = a.cell_in_slot(s);
        let y = match b {
            Some(l) => l.cell_in_slot(s),
            None => background,
        };
        cells.push(op.combine(&x, &y));
        s += 1;
    }
    Leaf::from_cells(a.corner(), cells)
}

impl Grid {
    /// Combines the field with `other` at every position of the lattice,
    /// background positions included.
    pub fn combine(&mut self, other: &Grid, op: Csg)
        requires
            old(self).wf(),
            other.wf(),
        ensures
            final(self).wf(),
            final(self)@ == combined(op, old(self)@, other@),
            forall|p: Pos|
                #[trigger] final(self).cell_at(p) == op.apply(
                    old(self).cell_at(p),
                    other.cell_at(p),
                ),
    {
        let ghost before = *self;
        let mut j: usize = 0;
        while j < other.leaf_count()
            invariant
                before.wf(),
                self.wf(),
                other.wf(),
                self.background == before.background,
                j <= other.leaves@.len(),
                forall|p: Pos| #[trigger] self.cell_at(p) == before.cell_at(p),
                forall|l: int|
                    0 <= l < j ==> self.has_leaf((#[trigger] other.leaves@[l]).origin()@),
            decreases other.leaves@.len() - j,
        {
            let o = other.leaf(j).corner();
            let ghost prev = *self;
            assert(other.leaves@[j as int].wf());
            self.ensure_leaf(o);
            proof {
                assert forall|l: int| 0 <= l < j + 1 implies self.has_leaf(
                    (#[trigger] other.leaves@[l]).origin()@,
                ) by {
                    if l < j {
                        assert(prev.has_leaf(other.leaves@[l].origin()@));
                    }
                }
            }
            j += 1;
        }
        let ghost mid = *self;
        let mut i: usize = 0;
        while i < self.leaves.len()
            invariant
                mid.wf(),
                self.wf(),
                other.wf(),
                self.background == mid.background,
                self.leaves@.len() == mid.leaves@.len(),
                i <= self.leaves@.len(),
                forall|l: int|
                    0 <= l < self.leaves@.len() ==> (#[trigger] self.leaves@[l]).origin()
                        == mid.leaves@[l].origin(),
                forall|l: int| i <= l < self.leaves@.len() ==> self.leaves@[l] == mid.leaves@[l],
                forall|l: int, s: int|
                    0 <= l < i && 0 <= s < 512 ==> #[trigger] self.leaves@[l].slot(s) == op.apply(
                        mid.leaves@[l].slot(s),
                        other.cell_at(cell_pos(mid.leaves@[l].origin()@, s)),
                    ),
            decreases self.leaves@.len() - i,
        {
            let ghost prev = *self;
            let o = self.leaves[i].corner();
            assert(self.leaves@[i as int].wf());
            let found = other.find_leaf(o);
            let leaf = match found {
                Some(k) => {
                    assert(other.leaves@[k as int].wf());
                    combine_leaf(&self.leaves[i], Some(other.leaf(k)), other.background, op)
                },
                None => combine_leaf(&self.leaves[i], None, other.background, op),
            };
            proof {
                assert forall|s: int| 0 <= s < 512 implies #[trigger] leaf.slot(s) == op.apply(
                    mid.leaves@[i as int].slot(s),
                    other.cell_at(cell_pos(o@, s)),
                ) by {
                    let p = cell_pos(o@, s);
                    lemma_cell_pos(o@, s);
                    match found {
                        Some(k) => {
                            other.lemma_cell_at_leaf(k as int, p);
                        },
                        None => {
                            other.lemma_cell_at_background(p);
                        },
                    }
                }
            }
            self.replace_leaf(i, leaf);
            proof {
                assert forall|l: int, s: int| 0 <= l < i + 1 && 0 <= s < 512 implies
                    #[trigger] self.leaves@[l].slot(s) == op.apply(
                    mid.leaves@[l].slot(s),
                    other.cell_at(cell_pos(mid.leaves@[l].origin()@, s)),
                ) by {
                    if l < i {
                        assert(self.leaves@[l] == prev.leaves@[l]);
                        assert(prev.leaves@[l].slot(s) == op.apply(
                            mid.leaves@[l].slot(s),
                            other.cell_at(cell_pos(mid.leaves@[l].origin()@, s)),
                        ));
                    }
                }
            }
            i += 1;
        }
        let background = op.combine(&self.background, &other.background);
        self.background = background;
        proof {
            assert(self.wf()) by {
                assert forall|l: int| 0 <= l < self.leaves@.len() implies (
                #[trigger] self.leaves@[l]).wf() by {}
            }
            assert forall|p: Pos| #[trigger] self.cell_at(p) == op.apply(
                before.cell_at(p),
                other.cell_at(p),
            ) by {
                mid.lemma_same_blocks(self, p);
                mid.lemma_cell_wf(p);
                if mid.has_leaf(block_of(p)) {
                    let l = mid.leaf_index(block_of(p));
                    assert(mid.leaves@[l].wf());
                    lemma_cell_index(p);
                    assert(self.leaves@[l].slot(cell_index(p)) == op.apply(
                        mid.leaves@[l].slot(cell_index(p)),
                        other.cell_at(cell_pos(mid.leaves@[l].origin()@, cell_index(p))),
                    ));
                } else {
                    if other.has_leaf(block_of(p)) {
                        other.lemma_has_leaf(p);
                        let k = other.leaf_index(block_of(p));
                        assert(mid.has_leaf(other.leaves@[k].origin()@));
                    }
                    other.lemma_no_leaf(p);
                }
            }
            assert forall|p: Pos| #[trigger] self@[p] == combined(op, before@, other@)[p] by {
                self.lemma_view(p);
                before.lemma_view(p);
                other.lemma_view(p);
            }
            assert(self@ =~= combined(op, before@, other@));
        }
    }

    /// Keeps the lesser cell at every position: the union of the two solids.
    pub fn union(&mut self, other: Grid)
        requires
            old(self).wf(),
            other.wf(),
        ensures
            final(self).wf(),
            final(self)@ == combined(Csg::Union, old(self)@, other@),
            forall|p: Pos|
                #[trigger] final(self).cell_at(p) == old(self).cell_at(p).union(other.cell_at(p)),
    {
        self.combine(&other, Csg::Union);
    }

    /// Keeps the greater cell at every position: the intersection of the
    /// two solids.
    pub fn intersect(&mut self, other: Grid)
        requires
            old(self).wf(),
            other.wf(),
        ensures
            final(self).wf(),
            final(self)@ == combined(Csg::Intersect, old(self)@, other@),
            forall|p: Pos|
                #[trigger] final(self).cell_at(p) == old(self).cell_at(p).intersect(
                    other.cell_at(p),
                ),
    {
        self.combine(&other, Csg::Intersect);
    }

    /// Intersects with the complement of `other`: the first solid with the
    /// second carved out.
    pub fn subtract(&mut self, other: Grid)
        requires
            old(self).wf(),
            other.wf(),
        ensures
            final(self).wf(),
            final(self)@ == combined(Csg::Subtract, old(self)@, other@),
            forall|p: Pos|
                #[trigger] final(self).cell_at(p) == old(self).cell_at(p).subtract(
                    other.cell_at(p),
                ),
    {
        self.combine(&other, Csg::Subtract);
    }
}

} // verus!
