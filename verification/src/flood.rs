//! Flood filling: giving every background position the side of its nearest
//! active voxel.

use vstd::prelude::*;
use crate::arith::abs;
use crate::cell::{Cell, Side, side_of_value};
use crate::grid::{Grid, Voxel, field_bounds, lemma_field_bounds_unique};
use crate::leaf::{Leaf, block_base, block_of, cell_index, cell_pos, is_origin, lemma_cell_index,
    lemma_cell_pos, point_in_block};
use crate::point::{Bounds, Point, Pos, COORD_MIN};

verus! {

/// The number of lattice steps between two positions.
pub open spec fn manhattan(p: Pos, q: Pos) -> int {
    abs(p.x - q.x) + abs(p.y - q.y) + abs(p.z - q.z)
}

/// Whether `a` is nearer to `p` than `b`: fewer steps away, or as many and
/// first in lexicographic order.
pub open spec fn closer(p: Pos, a: Pos, b: Pos) -> bool {
    manhattan(p, a) < manhattan(p, b) || (manhattan(p, a) == manhattan(p, b) && a.lex_lt(b))
}

/// Whether `q` is the active position of `f` nearest to `p`.
pub open spec fn is_nearest(f: Map<Pos, Cell>, p: Pos, q: Pos) -> bool {
    f[q] is Active && forall|r: Pos| #[trigger] f[r] is Active && r != q ==> closer(p, q, r)
}

/// The active position of `f` nearest to `p`.
pub open spec fn nearest(f: Map<Pos, Cell>, p: Pos) -> Pos {
    choose|q: Pos| is_nearest(f, p, q)
}

/// Whether `p` lies in the bounding box of the active positions of `f`.
pub open spec fn in_extent(f: Map<Pos, Cell>, p: Pos) -> bool {
    exists|b: Bounds| field_bounds(f, b) && b.contains(p)
}

/// What flood filling makes of cell `c` at position `p` of the field `f`.
///
/// A background cell inside the bounding box of the band takes the side of
/// the nearest active voxel; outside that box it lies outside the solid.
/// Every other cell stays as it is.
pub open spec fn fill(f: Map<Pos, Cell>, c: Cell, p: Pos) -> Cell {
    match c {
        Cell::Empty => if in_extent(f, p) {
            Cell::Filled(side_of_value(f[nearest(f, p)]->Active_0 as int))
        } else {
            Cell::Filled(Side::Outside)
        },
        c => c,
    }
}

/// The flood-filled field.
pub open spec fn flooded(f: Map<Pos, Cell>) -> Map<Pos, Cell> {
    Map::new(|p: Pos| true, |p: Pos| fill(f, f[p], p))
}

/// Of two distinct positions one is nearer to `p` than the other.
pub proof fn lemma_closer_total(p: Pos, a: Pos, b: Pos)
    requires
        a != b,
    ensures
        closer(p, a, b) || closer(p, b, a),
        !(closer(p, a, b) && closer(p, b, a)),
{
}

/// A field has at most one nearest active position for `p`.
pub proof fn lemma_nearest_unique(f: Map<Pos, Cell>, p: Pos, a: Pos, b: Pos)
    requires
        is_nearest(f, p, a),
        is_nearest(f, p, b),
    ensures
        a == b,
{
    if a != b {
        lemma_closer_total(p, a, b);
    }
}

/// Whether `voxels` lists the active positions of `f`, each with its
/// distance, all of them in the lattice.
pub open spec fn lists_active(f: Map<Pos, Cell>, voxels: Seq<Voxel>) -> bool {
    &&& forall|k: int|
        0 <= k < voxels.len() ==> f[(#[trigger] voxels[k]).point@] == Cell::Active(voxels[k].value)
            && voxels[k].point@.in_lattice()
    &&& forall|p: Pos|
        #[trigger] f[p] is Active ==> exists|k: int|
            0 <= k < voxels.len() && (#[trigger] voxels[k]).point@ == p
}

/// Whether `bounds` is the bounding box of the active positions of `f`, or
/// `None` where `f` has none.
pub open spec fn bounds_of(f: Map<Pos, Cell>, bounds: Option<Bounds>) -> bool {
    match bounds {
        Some(b) => field_bounds(f, b),
        None => forall|p: Pos| !(#[trigger] f[p] is Active),
    }
}

fn steps(p: Point, q: Point) -> (d: i64)
    requires
        p@.in_lattice(),
        q@.in_lattice(),
    ensures
        d == manhattan(p@, q@),
{
    let dx: i64 = if p.x >= q.x {
        p.x - q.x
    } else {
        q.x - p.x
    };
    let dy: i64 = if p.y >= q.y {
        p.y - q.y
    } else {
        q.y - p.y
    };
    let dz: i64 = if p.z >= q.z {
        p.z - q.z
    } else {
        q.z - p.z
    };
    dx + dy + dz
}

fn lex_before(a: Point, b: Point) -> (r: bool)
    ensures
        r == a@.lex_lt(b@),
{
    a.x < b.x || (a.x == b.x && (a.y < b.y || (a.y == b.y && a.z < b.z)))
}

/// Whether each of `voxels` is an active position of `f`, in the lattice,
/// with its distance.
pub open spec fn lists_some(f: Map<Pos, Cell>, voxels: Seq<Voxel>) -> bool {
    forall|k: int|
        0 <= k < voxels.len() ==> f[(#[trigger] voxels[k]).point@] == Cell::Active(voxels[k].value)
            && voxels[k].point@.in_lattice()
}

/// Whether none of the active positions of `f` is nearer to `p` than all
/// of `voxels`.
#[verifier::opaque]
pub open spec fn reaches_nearest(f: Map<Pos, Cell>, voxels: Seq<Voxel>, p: Pos) -> bool {
    forall|r: Pos|
        #[trigger] f[r] is Active ==> exists|k: int|
            0 <= k < voxels.len() && !closer(p, r, (#[trigger] voxels[k]).point@)
}

/// Whether the nearest active position of `f` to `p` is found among
/// `voxels`.
pub open spec fn finds_nearest(f: Map<Pos, Cell>, voxels: Seq<Voxel>, p: Pos) -> bool {
    lists_some(f, voxels) && reaches_nearest(f, voxels, p)
}

/// The distance from coordinate `c` to the nearest coordinate of a block
/// that starts at `lo`.
pub open spec fn gap(lo: int, c: int) -> int {
    if c < lo {
        lo - c
    } else if c > lo + 7 {
        c - (lo + 7)
    } else {
        0
    }
}

/// The distance from coordinate `c` to the farthest coordinate of a block
/// that starts at `lo`.
pub open spec fn span(lo: int, c: int) -> int {
    if c - lo >= lo + 7 - c {
        c - lo
    } else {
        lo + 7 - c
    }
}

/// The least number of steps from a position of the block at `o` to `q`.
pub open spec fn block_gap(o: Pos, q: Pos) -> int {
    gap(o.x, q.x) + gap(o.y, q.y) + gap(o.z, q.z)
}

/// The greatest number of steps from a position of the block at `o` to `q`.
pub open spec fn block_span(o: Pos, q: Pos) -> int {
    span(o.x, q.x) + span(o.y, q.y) + span(o.z, q.z)
}

/// Every position of a block is at least the gap and at most the span of
/// the block away from `q`.
pub proof fn lemma_block_steps(p: Pos, q: Pos)
    ensures
        block_gap(block_of(p), q) <= manhattan(p, q) <= block_span(block_of(p), q),
{
}

/// A list of voxels has one that none of the others is nearer to `p` than.
pub proof fn lemma_best_index(voxels: Seq<Voxel>, p: Pos, n: int) -> (b: int)
    requires
        0 < n <= voxels.len(),
    ensures
        0 <= b < n,
        forall|j: int| 0 <= j < n ==> !closer(p, (#[trigger] voxels[j]).point@, voxels[b].point@),
    decreases n,
{
    if n == 1 {
        0
    } else {
        let prev = lemma_best_index(voxels, p, n - 1);
        if closer(p, voxels[n - 1].point@, voxels[prev].point@) {
            assert forall|j: int| 0 <= j < n implies !closer(
                p,
                (#[trigger] voxels[j]).point@,
                voxels[n - 1].point@,
            ) by {
                if j < n - 1 {
                    assert(!closer(p, voxels[j].point@, voxels[prev].point@));
                }
            }
            n - 1
        } else {
            prev
        }
    }
}

/// The listed voxel that none of the others is nearer to `p` than is the
/// nearest active position of the field.
pub proof fn lemma_nearest_is_best(f: Map<Pos, Cell>, voxels: Seq<Voxel>, p: Pos, b: int)
    requires
        finds_nearest(f, voxels, p),
        0 <= b < voxels.len(),
        forall|j: int|
            0 <= j < voxels.len() ==> !closer(p, (#[trigger] voxels[j]).point@, voxels[b].point@),
    ensures
        nearest(f, p) == voxels[b].point@,
        is_nearest(f, p, nearest(f, p)),
{
    reveal(reaches_nearest);
    let q = voxels[b].point@;
    assert forall|r: Pos| #[trigger] f[r] is Active && r != q implies closer(p, q, r) by {
        let j = choose|j: int| 0 <= j < voxels.len() && !closer(p, r, (#[trigger] voxels[j]).point@);
        assert(!closer(p, voxels[j].point@, q));
        lemma_closer_total(p, q, r);
    }
    assert(is_nearest(f, p, q));
    lemma_nearest_unique(f, p, q, nearest(f, p));
}

/// The side of the active voxel nearest to `p`.
fn nearest_side(voxels: &Vec<Voxel>, p: Point, Ghost(f): Ghost<Map<Pos, Cell>>) -> (s: Side)
    requires
        finds_nearest(f, voxels@, p@),
        voxels@.len() > 0,
        p@.in_lattice(),
    ensures
        s == side_of_value(f[nearest(f, p@)]->Active_0 as int),
        is_nearest(f, p@, nearest(f, p@)),
{
    let mut best: usize = 0;
    let mut best_steps: i64 = steps(p, voxels[0].point);
    let mut k: usize = 1;
    while k < voxels.len()
        invariant
            lists_some(f, voxels@),
            reaches_nearest(f, voxels@, p@),
            p@.in_lattice(),
            1 <= k <= voxels@.len(),
            best < k,
            best_steps == manhattan(p@, voxels@[best as int].point@),
            forall|j: int|
                0 <= j < k ==> !closer(
                    p@,
                    (#[trigger] voxels@[j]).point@,
                    voxels@[best as int].point@,
                ),
        decreases voxels@.len() - k,
    {
        let q = voxels[k].point;
        let d: i64 = steps(p, q);
        if d < best_steps || (d == best_steps && lex_before(q, voxels[best].point)) {
            proof {
                let old_best = voxels@[best as int].point@;
                assert forall|j: int| 0 <= j < k + 1 implies !closer(
                    p@,
                    (#[trigger] voxels@[j]).point@,
                    q@,
                ) by {
                    if j < k {
                        assert(!closer(p@, voxels@[j].point@, old_best));
                    }
                }
            }
            best = k;
            best_steps = d;
        }
        k += 1;
    }
    proof {
        lemma_nearest_is_best(f, voxels@, p@, best as int);
    }
    let v: i64 = voxels[best].value;
    if v < 0 {
        Side::Inside
    } else {
        Side::Outside
    }
}

fn block_distances(o: Point, q: Point) -> (r: (i64, i64))
    requires
        is_origin(o@),
        q@.in_lattice(),
    ensures
        r.0 == block_gap(o@, q@),
        r.1 == block_span(o@, q@),
{
    let gx: i64 = if q.x < o.x {
        o.x - q.x
    } else if q.x > o.x + 7 {
        q.x - (o.x + 7)
    } else {
        0
    };
    let gy: i64 = if q.y < o.y {
        o.y - q.y
    } else if q.y > o.y + 7 {
        q.y - (o.y + 7)
    } else {
        0
    };
    let gz: i64 = if q.z < o.z {
        o.z - q.z
    } else if q.z > o.z + 7 {
        q.z - (o.z + 7)
    } else {
        0
    };
    let sx: i64 = if q.x - o.x >= o.x + 7 - q.x {
        q.x - o.x
    } else {
        o.x + 7 - q.x
    };
    let sy: i64 = if q.y - o.y >= o.y + 7 - q.y {
        q.y - o.y
    } else {
        o.y + 7 - q.y
    };
    let sz: i64 = if q.z - o.z >= o.z + 7 - q.z {
        q.z - o.z
    } else {
        o.z + 7 - q.z
    };
    (gx + gy + gz, sx + sy + sz)
}

/// The voxels among which every position of the block at `o` finds its
/// nearest one: those whose gap to the block is no more than the smallest
/// span of any voxel.
fn candidates(voxels: &Vec<Voxel>, o: Point, Ghost(f): Ghost<Map<Pos, Cell>>) -> (c: Vec<Voxel>)
    requires
        lists_active(f, voxels@),
        voxels@.len() > 0,
        is_origin(o@),
    ensures
        c@.len() > 0,
        forall|p: Pos| block_of(p) == o@ ==> #[trigger] finds_nearest(f, c@, p),
{
    let mut near: usize = 0;
    let mut least: i64 = block_distances(o, voxels[0].point).1;
    let mut k: usize = 1;
    while k < voxels.len()
        invariant
            lists_active(f, voxels@),
            is_origin(o@),
            1 <= k <= voxels@.len(),
            near < k,
            least == block_span(o@, voxels@[near as int].point@),
            forall|j: int| 0 <= j < k ==> least <= block_span(o@, (#[trigger] voxels@[j]).point@),
        decreases voxels@.len() - k,
    {
        let d = block_distances(o, voxels[k].point);
        if d.1 < least {
            near = k;
            least = d.1;
        }
        k += 1;
    }
    let mut c: Vec<Voxel> = Vec::new();
    let mut k: usize = 0;
    while k < voxels.len()
        invariant
            lists_active(f, voxels@),
            is_origin(o@),
            k <= voxels@.len(),
            lists_some(f, c@),
            least == block_span(o@, voxels@[near as int].point@),
            near < voxels@.len(),
            forall|j: int|
                0 <= j < k && block_gap(o@, (#[trigger] voxels@[j]).point@) <= least ==> exists|
                    i: int,
                | 0 <= i < c@.len() && #[trigger] c@[i] == voxels@[j],
        decreases voxels@.len() - k,
    {
        let v = voxels[k];
        let d = block_distances(o, v.point);
        if d.0 <= least {
            let ghost prev = c@;
            c.push(v);
            proof {
                assert(c@[prev.len() as int] == voxels@[k as int]);
                assert forall|j: int|
                    0 <= j < k + 1 && block_gap(o@, (#[trigger] voxels@[j]).point@)
                        <= least implies exists|i: int|
                    0 <= i < c@.len() && #[trigger] c@[i] == voxels@[j] by {
                    if j < k {
                        let i = choose|i: int| 0 <= i < prev.len() && #[trigger] prev[i] == voxels@[j];
                        assert(c@[i] == prev[i]);
                    }
                }
            }
        }
        k += 1;
    }
    proof {
        assert forall|p: Pos| block_of(p) == o@ implies #[trigger] finds_nearest(f, c@, p) by {
            lemma_candidates(f, voxels@, c@, near as int, p);
        }
        let w = voxels@[near as int];
        assert(block_gap(o@, w.point@) <= least);
    }
    c
}

/// The voxels whose gap to a block is no more than the span of one chosen
/// voxel hold the nearest voxel of every position of the block.
proof fn lemma_candidates(f: Map<Pos, Cell>, voxels: Seq<Voxel>, c: Seq<Voxel>, near: int, p: Pos)
    requires
        lists_active(f, voxels),
        lists_some(f, c),
        0 <= near < voxels.len(),
        forall|j: int|
            0 <= j < voxels.len() && block_gap(block_of(p), (#[trigger] voxels[j]).point@)
                <= block_span(block_of(p), voxels[near].point@) ==> exists|i: int|
                0 <= i < c.len() && #[trigger] c[i] == voxels[j],
    ensures
        finds_nearest(f, c, p),
{
    reveal(reaches_nearest);
    let o = block_of(p);
    let w = voxels[near];
    lemma_block_steps(p, w.point@);
    assert(block_gap(o, w.point@) <= block_span(o, w.point@));
    let iw = choose|i: int| 0 <= i < c.len() && #[trigger] c[i] == w;
    assert forall|r: Pos| #[trigger] f[r] is Active implies exists|i: int|
        0 <= i < c.len() && !closer(p, r, (#[trigger] c[i]).point@) by {
        let j = choose|j: int| 0 <= j < voxels.len() && (#[trigger] voxels[j]).point@ == r;
        lemma_block_steps(p, r);
        if block_gap(o, voxels[j].point@) <= block_span(o, w.point@) {
            let i = choose|i: int| 0 <= i < c.len() && #[trigger] c[i] == voxels[j];
            assert(!closer(p, r, c[i].point@));
        } else {
            assert(!closer(p, r, c[iw].point@));
        }
    }
}

/// Whether every one of `voxels` lies on `side`.
pub open spec fn all_on(voxels: Seq<Voxel>, side: Side) -> bool {
    forall|k: int|
        0 <= k < voxels.len() ==> side_of_value((#[trigger] voxels[k]).value as int) == side
}

/// The side that all of `voxels` lie on; `None` where some lie inside and
/// some outside.
pub open spec fn shared_side(voxels: Seq<Voxel>) -> Option<Side> {
    if all_on(voxels, Side::Inside) {
        Some(Side::Inside)
    } else if all_on(voxels, Side::Outside) {
        Some(Side::Outside)
    } else {
        None
    }
}

/// The side that all the voxels share, if they do.
fn common_side(voxels: &Vec<Voxel>) -> (r: Option<Side>)
    requires
        voxels@.len() > 0,
    ensures
        r == shared_side(voxels@),
        r matches Some(s) ==> all_on(voxels@, s),
        r is None ==> exists|j: int, k: int|
            0 <= j < voxels@.len() && 0 <= k < voxels@.len() && side_of_value(
                (#[trigger] voxels@[j]).value as int,
            ) != side_of_value((#[trigger] voxels@[k]).value as int),
{
    let inside = voxels[0].value < 0;
    let mut k: usize = 1;
    while k < voxels.len()
        invariant
            1 <= k <= voxels@.len(),
            inside == (voxels@[0].value < 0),
            forall|j: int| 0 <= j < k ==> ((#[trigger] voxels@[j]).value < 0) == inside,
        decreases voxels@.len() - k,
    {
        if (voxels[k].value < 0) != inside {
            proof {
                let first = voxels@[0];
                let other = voxels@[k as int];
                assert(side_of_value(first.value as int) != side_of_value(other.value as int));
                assert(!all_on(voxels@, Side::Inside));
                assert(!all_on(voxels@, Side::Outside));
            }
            return None;
        }
        k += 1;
    }
    proof {
        let first = voxels@[0];
        if inside {
            assert(all_on(voxels@, Side::Inside));
        } else {
            assert(all_on(voxels@, Side::Outside));
            assert(side_of_value(first.value as int) == Side::Outside);
            assert(!all_on(voxels@, Side::Inside));
        }
    }
    if inside {
        Some(Side::Inside)
    } else {
        Some(Side::Outside)
    }
}

/// Whether `near` and `common` serve to fill the background cells of the
/// block at `o`: the nearest voxel of each position is among `near`, and
/// `common` is a side only if all of `near` lie on it.
pub open spec fn serves(
    f: Map<Pos, Cell>,
    o: Pos,
    near: Seq<Voxel>,
    common: Option<Side>,
) -> bool {
    &&& near.len() > 0
    &&& forall|p: Pos| block_of(p) == o ==> #[trigger] finds_nearest(f, near, p)
    &&& common matches Some(s) ==> all_on(near, s)
}

/// The cell that flood filling puts at `p` in place of `c`.
fn fill_cell(
    c: Cell,
    p: Point,
    near: &Vec<Voxel>,
    common: Option<Side>,
    bounds: Option<Bounds>,
    Ghost(f): Ghost<Map<Pos, Cell>>,
) -> (r: Cell)
    requires
        bounds_of(f, bounds),
        p@.in_lattice(),
        c.wf(),
        c is Empty && bounds is Some ==> serves(f, block_of(p@), near@, common),
    ensures
        r == fill(f, c, p@),
        r.wf(),
        !(r is Empty),
        in_extent(f, p@) && c is Empty ==> is_nearest(f, p@, nearest(f, p@)),
{
    match c {
        Cell::Empty => {
            match bounds {
                Some(b) => {
                    proof {
                        assert forall|other: Bounds| field_bounds(f, other) implies other == b by {
                            lemma_field_bounds_unique(f, other, b);
                        }
                    }
                    if b.holds(p) {
                        assert(finds_nearest(f, near@, p@));
                        match common {
                            Some(s) => {
                                proof {
                                    let best = lemma_best_index(near@, p@, near@.len() as int);
                                    lemma_nearest_is_best(f, near@, p@, best);
                                }
                                Cell::Filled(s)
                            },
                            None => Cell::Filled(nearest_side(near, p, Ghost(f))),
                        }
                    } else {
                        Cell::Filled(Side::Outside)
                    }
                },
                None => {
                    proof {
                        assert forall|other: Bounds| !field_bounds(f, other) by {
                            if field_bounds(f, other) {
                                let w = choose|w: Pos| #[trigger]
                                    f[w] is Active && w.x == other.min.x;
                                assert(f[w] is Active);
                            }
                        }
                    }
                    Cell::Filled(Side::Outside)
                },
            }
        },
        c => c,
    }
}

/// Whether some cell of the leaf is background.
fn has_background(leaf: &Leaf) -> (r: bool)
    requires
        leaf.wf(),
    ensures
        r == exists|s: int| 0 <= s < 512 && (#[trigger] leaf.slot(s)) is Empty,
{
    let mut s: usize = 0;
    while s < 512
        invariant
            leaf.wf(),
            s <= 512,
            forall|t: int| 0 <= t < s ==> !((#[trigger] leaf.slot(t)) is Empty),
        decreases 512 - s,
    {
        if leaf.cell_in_slot(s) == Cell::Empty {
            return true;
        }
        s += 1;
    }
    false
}

/// The leaf with every background cell flood filled.
fn fill_leaf(
    leaf: &Leaf,
    voxels: &Vec<Voxel>,
    bounds: Option<Bounds>,
    Ghost(f): Ghost<Map<Pos, Cell>>,
) -> (r: Leaf)
    requires
        leaf.wf(),
        lists_active(f, voxels@),
        bounds_of(f, bounds),
    ensures
        r.wf(),
        r.origin() == leaf.origin(),
        forall|s: int|
            0 <= s < 512 ==> #[trigger] r.slot(s) == fill(
                f,
                leaf.slot(s),
                cell_pos(leaf.origin()@, s),
            ),
        forall|s: int|
            0 <= s < 512 && in_extent(f, cell_pos(leaf.origin()@, s)) && (#[trigger] leaf.slot(
                s,
            )) is Empty ==> is_nearest(
                f,
                cell_pos(leaf.origin()@, s),
                nearest(f, cell_pos(leaf.origin()@, s)),
            ),
{
    let o = leaf.corner();
    let mut near: Vec<Voxel> = Vec::new();
    let mut common: Option<Side> = None;
    let wanted = bounds.is_some() && has_background(leaf);
    if wanted {
        proof {
            let w = choose|w: Pos| #[trigger] f[w] is Active && w.x == bounds->Some_0.min.x;
            assert(f[w] is Active);
        }
        near = candidates(voxels, o, Ghost(f));
        common = common_side(&near);
    }
    let mut cells: Vec<Cell> = Vec::new();
    let mut s: usize = 0;
    while s < 512
        invariant
            leaf.wf(),
            bounds_of(f, bounds),
            o == leaf.origin(),
            wanted == (bounds is Some && exists|t: int|
                0 <= t < 512 && (#[trigger] leaf.slot(t)) is Empty),
            wanted ==> serves(f, o@, near@, common),
            s <= 512,
            cells@.len() == s,
            forall|t: int|
                0 <= t < s ==> #[trigger] cells@[t] == fill(f, leaf.slot(t), cell_pos(o@, t))
                    && cells@[t].wf(),
            forall|t: int|
                0 <= t < s && in_extent(f, cell_pos(o@, t)) && (#[trigger] leaf.slot(t)) is Empty
                    ==> is_nearest(f, cell_pos(o@, t), nearest(f, cell_pos(o@, t))),
        decreases 512 - s,
    {
        let c = leaf.cell_in_slot(s);
        let p = point_in_block(o, s);
        proof {
            lemma_cell_pos(o@, s as int);
        }
        let filled = fill_cell(c, p, &near, common, bounds, Ghost(f));
        cells.push(filled);
        s += 1;
    }
    Leaf::from_cells(o, cells)
}

impl Grid {
    /// Adds a leaf for every block that meets the box `b` and has none.
    /// No cell changes.
    fn cover(&mut self, b: Bounds)
        requires
            old(self).wf(),
            b.min@.in_lattice(),
            b.max@.in_lattice(),
            b.contains(b.min@),
        ensures
            final(self).wf(),
            final(self).background == old(self).background,
            forall|p: Pos| #[trigger] final(self).cell_at(p) == old(self).cell_at(p),
            forall|p: Pos| b.contains(p) ==> #[trigger] final(self).has_leaf(block_of(p)),
    {
        let ghost before = *self;
        let x0: i64 = b.min.x - (b.min.x - COORD_MIN) % 8;
        let y0: i64 = b.min.y - (b.min.y - COORD_MIN) % 8;
        let z0: i64 = b.min.z - (b.min.z - COORD_MIN) % 8;
        let mut x: i64 = x0;
        while x <= b.max.x
            invariant
                before.wf(),
                self.wf(),
                self.background == before.background,
                b.min@.in_lattice(),
                b.max@.in_lattice(),
                b.contains(b.min@),
                x0 == block_base(b.min.x as int),
                y0 == block_base(b.min.y as int),
                z0 == block_base(b.min.z as int),
                x0 <= x <= b.max.x + 8,
                x % 8 == 0,
                forall|p: Pos| #[trigger] self.cell_at(p) == before.cell_at(p),
                forall|o: Pos|
                    is_origin(o) && x0 <= o.x < x && y0 <= o.y <= b.max.y && z0 <= o.z <= b.max.z
                        ==> #[trigger] self.has_leaf(o),
            decreases b.max.x + 8 - x,
        {
            let mut y: i64 = y0;
            while y <= b.max.y
                invariant
                    before.wf(),
                    self.wf(),
                    self.background == before.background,
                    b.min@.in_lattice(),
                    b.max@.in_lattice(),
                    b.contains(b.min@),
                    x0 == block_base(b.min.x as int),
                    y0 == block_base(b.min.y as int),
                    z0 == block_base(b.min.z as int),
                    x0 <= x <= b.max.x,
                    y0 <= y <= b.max.y + 8,
                    x % 8 == 0,
                    y % 8 == 0,
                    forall|p: Pos| #[trigger] self.cell_at(p) == before.cell_at(p),
                    forall|o: Pos|
                        is_origin(o) && y0 <= o.y <= b.max.y && z0 <= o.z <= b.max.z && (x0 <= o.x
                            < x || (o.x == x && o.y < y)) ==> #[trigger] self.has_leaf(o),
                decreases b.max.y + 8 - y,
            {
                let mut z: i64 = z0;
                while z <= b.max.z
                    invariant
                        before.wf(),
                        self.wf(),
                        self.background == before.background,
                        b.min@.in_lattice(),
                        b.max@.in_lattice(),
                        b.contains(b.min@),
                        x0 == block_base(b.min.x as int),
                        y0 == block_base(b.min.y as int),
                        z0 == block_base(b.min.z as int),
                        x0 <= x <= b.max.x,
                        y0 <= y <= b.max.y,
                        z0 <= z <= b.max.z + 8,
                        x % 8 == 0,
                        y % 8 == 0,
                        z % 8 == 0,
                        forall|p: Pos| #[trigger] self.cell_at(p) == before.cell_at(p),
                        forall|o: Pos|
                            is_origin(o) && y0 <= o.y <= b.max.y && z0 <= o.z <= b.max.z && (x0
                                <= o.x < x || (o.x == x && (o.y < y || (o.y == y && o.z < z))))
                                ==> #[trigger] self.has_leaf(o),
                    decreases b.max.z + 8 - z,
                {
                    let o = Point { x, y, z };
                    self.ensure_leaf(o);
                    z += 8;
                }
                y += 8;
            }
            x += 8;
        }
        proof {
            assert forall|p: Pos| b.contains(p) implies #[trigger] self.has_leaf(block_of(p)) by {
                lemma_cell_index(p);
            }
        }
    }

    /// The active voxels and their bounding box.
    fn seeds(&self) -> (r: (Vec<Voxel>, Option<Bounds>))
        requires
            self.wf(),
        ensures
            lists_active(self@, r.0@),
            bounds_of(self@, r.1),
            r.1 matches Some(b) ==> b.min@.in_lattice() && b.max@.in_lattice() && b.contains(
                b.min@,
            ),
    {
        let voxels = self.active_voxels();
        let bounds = self.active_bounds();
        proof {
            let f = self@;
            assert forall|p: Pos| #[trigger] f[p] == self.cell_at(p) by {
                self.lemma_view(p);
            }
            assert forall|k: int| 0 <= k < voxels@.len() implies f[(#[trigger] voxels@[k]).point@]
                == Cell::Active(voxels@[k].value) && voxels@[k].point@.in_lattice() by {
                self.lemma_cell_wf(voxels@[k].point@);
            }
            assert forall|p: Pos| #[trigger] f[p] is Active implies exists|k: int|
                0 <= k < voxels@.len() && (#[trigger] voxels@[k]).point@ == p by {
                assert(self.is_active(p));
            }
            match bounds {
                Some(b) => {
                    self.lemma_bounds_view(b);
                    let w = choose|w: Pos| #[trigger] self.is_active(w) && w.x == b.min.x;
                    assert(b.contains(w));
                },
                None => {
                    assert forall|p: Pos| !(#[trigger] f[p] is Active) by {
                        assert(!self.is_active(p));
                    }
                },
            }
        }
        (voxels, bounds)
    }

    /// Flood fills the background cells of every leaf, with the sides that
    /// the field `f` gives them.
    fn fill_leaves(
        &mut self,
        voxels: &Vec<Voxel>,
        bounds: Option<Bounds>,
        Ghost(f): Ghost<Map<Pos, Cell>>,
    )
        requires
            old(self).wf(),
            lists_active(f, voxels@),
            bounds_of(f, bounds),
        ensures
            final(self).wf(),
            final(self).background == old(self).background,
            forall|p: Pos|
                old(self).has_leaf(block_of(p)) ==> #[trigger] final(self).cell_at(p) == fill(
                    f,
                    old(self).cell_at(p),
                    p,
                ),
            forall|p: Pos|
                !old(self).has_leaf(block_of(p)) ==> #[trigger] final(self).cell_at(p) == old(
                    self,
                ).background,
            forall|p: Pos|
                old(self).has_leaf(block_of(p)) && in_extent(f, p) && #[trigger] old(self).cell_at(
                    p,
                ) is Empty ==> is_nearest(f, p, nearest(f, p)),
            forall|p: Pos|
                #[trigger] final(self).has_leaf(block_of(p)) == old(self).has_leaf(block_of(p)),
    {
        let ghost mid = *self;
        let mut i: usize = 0;
        while i < self.leaves.len()
            invariant
                mid.wf(),
                self.wf(),
                lists_active(f, voxels@),
                bounds_of(f, bounds),
                self.background == mid.background,
                self.leaves@.len() == mid.leaves@.len(),
                i <= self.leaves@.len(),
                forall|j: int|
                    0 <= j < self.leaves@.len() ==> (#[trigger] self.leaves@[j]).origin()
                        == mid.leaves@[j].origin(),
                forall|j: int| i <= j < self.leaves@.len() ==> self.leaves@[j] == mid.leaves@[j],
                forall|j: int, s: int|
                    0 <= j < i && 0 <= s < 512 ==> #[trigger] self.leaves@[j].slot(s) == fill(
                        f,
                        mid.leaves@[j].slot(s),
                        cell_pos(mid.leaves@[j].origin()@, s),
                    ),
                forall|j: int, s: int|
                    0 <= j < i && 0 <= s < 512 && in_extent(
                        f,
                        cell_pos(mid.leaves@[j].origin()@, s),
                    ) && (#[trigger] mid.leaves@[j].slot(s)) is Empty ==> is_nearest(
                        f,
                        cell_pos(mid.leaves@[j].origin()@, s),
                        nearest(f, cell_pos(mid.leaves@[j].origin()@, s)),
                    ),
            decreases self.leaves@.len() - i,
        {
            let ghost prev = *self;
            assert(self.leaves@[i as int].wf());
            let leaf = fill_leaf(&self.leaves[i], voxels, bounds, Ghost(f));
            self.replace_leaf(i, leaf);
            proof {
                assert forall|j: int, s: int| 0 <= j < i + 1 && 0 <= s < 512 implies
                    #[trigger] self.leaves@[j].slot(s) == fill(
                    f,
                    mid.leaves@[j].slot(s),
                    cell_pos(mid.leaves@[j].origin()@, s),
                ) by {
                    if j < i {
                        assert(self.leaves@[j] == prev.leaves@[j]);
                        assert(prev.leaves@[j].slot(s) == fill(
                            f,
                            mid.leaves@[j].slot(s),
                            cell_pos(mid.leaves@[j].origin()@, s),
                        ));
                    }
                }
            }
            i += 1;
        }
        proof {
            assert forall|p: Pos| mid.has_leaf(block_of(p)) implies #[trigger] self.cell_at(p)
                == fill(f, mid.cell_at(p), p) by {
                mid.lemma_same_blocks(self, p);
                mid.lemma_cell_wf(p);
                if !p.in_lattice() {
                    mid.lemma_no_leaf_outside(p);
                }
                let j = mid.leaf_index(block_of(p));
                assert(mid.leaves@[j].wf());
                lemma_cell_index(p);
                assert(self.leaves@[j].slot(cell_index(p)) == fill(
                    f,
                    mid.leaves@[j].slot(cell_index(p)),
                    cell_pos(mid.leaves@[j].origin()@, cell_index(p)),
                ));
            }
            assert forall|p: Pos| !mid.has_leaf(block_of(p)) implies #[trigger] self.cell_at(p)
                == mid.background by {
                mid.lemma_same_blocks(self, p);
            }
            assert forall|p: Pos| #[trigger]
                self.has_leaf(block_of(p)) == mid.has_leaf(block_of(p)) by {
                mid.lemma_same_blocks(self, p);
            }
            assert forall|p: Pos|
                mid.has_leaf(block_of(p)) && in_extent(f, p) && #[trigger] mid.cell_at(
                    p,
                ) is Empty implies is_nearest(f, p, nearest(f, p)) by {
                mid.lemma_has_leaf(p);
                if !p.in_lattice() {
                    mid.lemma_no_leaf_outside(p);
                }
                let j = mid.leaf_index(block_of(p));
                assert(mid.leaves@[j].wf());
                lemma_cell_index(p);
                assert(mid.leaves@[j].slot(cell_index(p)) is Empty);
            }
        }
    }

    /// Gives every background position a side.
    ///
    /// Inside the bounding box of the active voxels a background position
    /// takes the side of its nearest active voxel, by lattice steps, the
    /// first in lexicographic order among equally near ones.  Outside that
    /// box, and where there is no active voxel at all, it lies outside the
    /// solid.  Positions that already have a distance or a side keep it.
    pub fn flood_fill(&mut self)
        requires
            old(self).wf(),
        ensures
            final(self).wf(),
            final(self)@ == flooded(old(self)@),
            final(self).is_filled(),
            forall|p: Pos|
                #[trigger] final(self).cell_at(p) == fill(old(self)@, old(self).cell_at(p), p),
            forall|p: Pos|
                in_extent(old(self)@, p) && #[trigger] old(self).cell_at(p) is Empty ==> is_nearest(
                    old(self)@,
                    p,
                    nearest(old(self)@, p),
                ),
    {
        let ghost before = *self;
        let ghost f = self@;
        let (voxels, bounds) = self.seeds();
        if let Some(b) = bounds {
            self.cover(b);
        }
        let ghost mid = *self;
        self.fill_leaves(&voxels, bounds, Ghost(f));
        let ghost filled = *self;
        if self.background == Cell::Empty {
            self.background = Cell::Filled(Side::Outside);
        }
        let ghost last = *self;
        proof {
            lemma_flood_result(before, mid, filled, last, bounds);
            assert forall|p: Pos| #[trigger] self@[p] == flooded(f)[p] by {
                self.lemma_view(p);
                before.lemma_view(p);
            }
            assert(self@ =~= flooded(f));
        }
    }
}

/// What the steps of flood filling add up to: `mid` is `before` with every
/// block of the bounding box covered, `filled` is `mid` with its leaves
/// filled, and `last` is `filled` with its background filled.
proof fn lemma_flood_result(
    before: Grid,
    mid: Grid,
    filled: Grid,
    last: Grid,
    bounds: Option<Bounds>,
)
    requires
        bounds_of(before@, bounds),
        forall|p: Pos| #[trigger] mid.cell_at(p) == before.cell_at(p),
        mid.background == before.background,
        bounds matches Some(b) ==> forall|p: Pos|
            b.contains(p) ==> #[trigger] mid.has_leaf(block_of(p)),
        filled.wf(),
        filled.background == mid.background,
        forall|p: Pos|
            mid.has_leaf(block_of(p)) ==> #[trigger] filled.cell_at(p) == fill(
                before@,
                mid.cell_at(p),
                p,
            ),
        forall|p: Pos|
            !mid.has_leaf(block_of(p)) ==> #[trigger] filled.cell_at(p) == mid.background,
        forall|p: Pos|
            mid.has_leaf(block_of(p)) && in_extent(before@, p) && #[trigger] mid.cell_at(
                p,
            ) is Empty ==> is_nearest(before@, p, nearest(before@, p)),
        forall|p: Pos| #[trigger] filled.has_leaf(block_of(p)) == mid.has_leaf(block_of(p)),
        last.leaves == filled.leaves,
        last.index == filled.index,
        last.background == fill_background(filled.background),
    ensures
        last.wf(),
        forall|p: Pos| #[trigger] last.cell_at(p) == fill(before@, before.cell_at(p), p),
        forall|p: Pos|
            in_extent(before@, p) && #[trigger] before.cell_at(p) is Empty ==> is_nearest(
                before@,
                p,
                nearest(before@, p),
            ),
        last.is_filled(),
{
    let f = before@;
    assert(last.wf());
    assert forall|p: Pos| in_extent(f, p) implies mid.has_leaf(block_of(p)) by {
        let b = choose|b: Bounds| field_bounds(f, b) && b.contains(p);
        if bounds is None {
            let w = choose|w: Pos| #[trigger] f[w] is Active && w.x == b.min.x;
            assert(f[w] is Active);
        }
        lemma_field_bounds_unique(f, b, bounds->Some_0);
    }
    assert forall|p: Pos| #[trigger] last.cell_at(p) == fill(f, before.cell_at(p), p) by {
        assert(mid.cell_at(p) == before.cell_at(p));
        filled.lemma_same_blocks(&last, p);
        assert(filled.has_leaf(block_of(p)) == mid.has_leaf(block_of(p)));
        if mid.has_leaf(block_of(p)) {
            assert(filled.cell_at(p) == fill(f, mid.cell_at(p), p));
            assert(last.cell_at(p) == filled.cell_at(p));
        } else {
            mid.lemma_no_leaf(p);
            assert(last.cell_at(p) == last.background);
            assert(!in_extent(f, p)) by {
                if in_extent(f, p) {
                    assert(mid.has_leaf(block_of(p)));
                }
            }
        }
    }
    assert forall|p: Pos|
        in_extent(f, p) && #[trigger] before.cell_at(p) is Empty implies is_nearest(
        f,
        p,
        nearest(f, p),
    ) by {
        assert(mid.cell_at(p) == before.cell_at(p));
    }
    assert forall|p: Pos| !(#[trigger] last.cell_at(p) is Empty) by {
        assert(last.cell_at(p) == fill(f, before.cell_at(p), p));
    }
}

/// The background of a flood-filled grid: what is not known to lie inside
/// lies outside.
pub open spec fn fill_background(c: Cell) -> Cell {
    match c {
        Cell::Empty => Cell::Filled(Side::Outside),
        c => c,
    }
}

} // verus!
