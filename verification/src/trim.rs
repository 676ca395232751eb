//! Band trimming: keeping only the voxels that bracket the surface.

use vstd::prelude::*;
use crate::arith::abs;
use crate::cell::Cell;
use crate::grid::Grid;
use crate::leaf::{block_of, lemma_cell_index, lemma_cell_pos, point_in_block};
use crate::point::{Point, Pos};

verus! {

/// Whether a face neighbour of `p` lies on the other side of the surface.
///
/// A neighbour counts with the side of its distance, or with the side that
/// flood filling gave it; a background neighbour has no side.
pub open spec fn has_opposite_neighbor(f: Map<Pos, Cell>, p: Pos) -> bool {
    let c = f[p];
    ||| c.opposes(f[p.shift(-1, 0, 0)])
    ||| c.opposes(f[p.shift(1, 0, 0)])
    ||| c.opposes(f[p.shift(0, -1, 0)])
    ||| c.opposes(f[p.shift(0, 1, 0)])
    ||| c.opposes(f[p.shift(0, 0, -1)])
    ||| c.opposes(f[p.shift(0, 0, 1)])
}

/// Whether trimming keeps `p`: the point is active and either has a face
/// neighbour on the other side or lies less than one voxel from the surface.
pub open spec fn keeps(f: Map<Pos, Cell>, voxel_size: int, p: Pos) -> bool {
    f[p] matches Cell::Active(v) && (has_opposite_neighbor(f, p) || abs(v as int) < voxel_size)
}

/// The cell of the trimmed field at `p`.
pub open spec fn trimmed_cell(f: Map<Pos, Cell>, voxel_size: int, p: Pos) -> Cell {
    if keeps(f, voxel_size, p) {
        f[p]
    } else {
        Cell::Empty
    }
}

/// The trimmed field: the kept voxels, and background everywhere else.
pub open spec fn trimmed(f: Map<Pos, Cell>, voxel_size: int) -> Map<Pos, Cell> {
    Map::new(|p: Pos| true, |p: Pos| trimmed_cell(f, voxel_size, p))
}

/// Whether a face neighbour of the active point `p` lies on the other side.
pub fn opposite_neighbor(g: &Grid, p: Point) -> (r: bool)
    requires
        g.wf(),
        p@.in_lattice(),
    ensures
        r == has_opposite_neighbor(g@, p@),
{
    proof {
        g.lemma_view(p@);
        g.lemma_view(p@.shift(-1, 0, 0));
        g.lemma_view(p@.shift(1, 0, 0));
        g.lemma_view(p@.shift(0, -1, 0));
        g.lemma_view(p@.shift(0, 1, 0));
        g.lemma_view(p@.shift(0, 0, -1));
        g.lemma_view(p@.shift(0, 0, 1));
    }
    let c = g.get(p);
    let xm = g.get(Point { x: p.x - 1, y: p.y, z: p.z });
    let xp = g.get(Point { x: p.x + 1, y: p.y, z: p.z });
    let ym = g.get(Point { x: p.x, y: p.y - 1, z: p.z });
    let yp = g.get(Point { x: p.x, y: p.y + 1, z: p.z });
    let zm = g.get(Point { x: p.x, y: p.y, z: p.z - 1 });
    let zp = g.get(Point { x: p.x, y: p.y, z: p.z + 1 });
    c.is_opposite(&xm) || c.is_opposite(&xp) || c.is_opposite(&ym) || c.is_opposite(&yp)
        || c.is_opposite(&zm) || c.is_opposite(&zp)
}

/// A fresh grid that holds exactly the voxels of `g` that bracket the
/// surface; everything else is background.
///
/// Tiles store no distances, so they contribute no voxel; they count as
/// neighbours of the voxels next to them.
pub fn trim_to_band(g: &Grid, voxel_size: i64) -> (out: Grid)
    requires
        g.wf(),
    ensures
        out.wf(),
        out.background == Cell::Empty,
        out@ == trimmed(g@, voxel_size as int),
        forall|p: Pos| #[trigger] out.cell_at(p) == trimmed_cell(g@, voxel_size as int, p),
{
    let mut out = Grid::empty();
    let ghost vs = voxel_size as int;
    let mut i: usize = 0;
    proof {
        assert forall|q: Pos| !g.scanned(0, 0, q) by {
            if g.has_leaf(block_of(q)) {
                g.lemma_has_leaf(q);
            }
        }
    }
    while i < g.leaf_count()
        invariant
            g.wf(),
            out.wf(),
            out.background == Cell::Empty,
            vs == voxel_size,
            i <= g.leaves@.len(),
            forall|q: Pos|
                #[trigger] out.cell_at(q) == if g.scanned(i as int, 0, q) {
                    trimmed_cell(g@, vs, q)
                } else {
                    Cell::Empty
                },
        decreases g.leaves@.len() - i,
    {
        let leaf = g.leaf(i);
        if !leaf.is_tile() {
            let o = leaf.corner();
            let mut s: usize = 0;
            while s < 512
                invariant
                    g.wf(),
                    out.wf(),
                    out.background == Cell::Empty,
                    vs == voxel_size,
                    i < g.leaves@.len(),
                    *leaf == g.leaves@[i as int],
                    o == leaf.origin(),
                    s <= 512,
                    forall|q: Pos|
                        #[trigger] out.cell_at(q) == if g.scanned(i as int, s as int, q) {
                            trimmed_cell(g@, vs, q)
                        } else {
                            Cell::Empty
                        },
                decreases 512 - s,
            {
                let c = leaf.cell_in_slot(s);
                let p = point_in_block(o, s);
                let ghost before = out;
                proof {
                    lemma_cell_pos(o@, s as int);
                    g.lemma_cell_at_leaf(i as int, p@);
                    g.lemma_leaf_index(i as int, p@);
                    g.lemma_view(p@);
                }
                if let Cell::Active(v) = c {
                    let near = voxel_size > 0 && -voxel_size < v && v < voxel_size;
                    if near || opposite_neighbor(g, p) {
                        out.insert(p, v);
                    }
                }
                proof {
                    assert(out.cell_at(p@) == trimmed_cell(g@, vs, p@));
                    assert forall|q: Pos|
                        #[trigger] out.cell_at(q) == if g.scanned(i as int, s + 1, q) {
                            trimmed_cell(g@, vs, q)
                        } else {
                            Cell::Empty
                        } by {
                        if q != p@ {
                            assert(out.cell_at(q) == before.cell_at(q));
                            if g.scanned(i as int, s + 1, q) && !g.scanned(i as int, s as int, q) {
                                g.lemma_cell_wf(q);
                                g.lemma_has_leaf(q);
                                if !q.in_lattice() {
                                    g.lemma_no_leaf_outside(q);
                                }
                                lemma_cell_index(q);
                            }
                        }
                    }
                }
                s += 1;
            }
        }
        proof {
            assert forall|q: Pos|
                #[trigger] out.cell_at(q) == if g.scanned(i + 1, 0, q) {
                    trimmed_cell(g@, vs, q)
                } else {
                    Cell::Empty
                } by {
                g.lemma_view(q);
                if g.has_leaf(block_of(q)) && g.leaf_index(block_of(q)) == i {
                    g.lemma_has_leaf(q);
                }
            }
        }
        i += 1;
    }
    proof {
        assert forall|p: Pos| #[trigger] out.cell_at(p) == trimmed_cell(g@, vs, p) by {
            g.lemma_view(p);
            g.lemma_cell_wf(p);
            if !g.has_leaf(block_of(p)) {
                g.lemma_no_leaf(p);
            } else {
                g.lemma_has_leaf(p);
            }
        }
        assert forall|p: Pos| #[trigger] out@[p] == trimmed(g@, vs)[p] by {
            out.lemma_view(p);
        }
        assert(out@ =~= trimmed(g@, vs));
    }
    out
}

} // verus!
