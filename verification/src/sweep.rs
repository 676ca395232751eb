//! Fast sweeping: extending a band of known distances outward by
//! Gauss-Seidel sweeps of the upwind eikonal update.

use vstd::prelude::*;
use crate::arith::{abs, count, max2, min2};
use crate::cell::{Cell, Side, side_of_value, value_ok, VALUE_MAX};
use crate::eikonal::{as_int, at_least, is_magnitude, lemma_solve_lower, solve, update};
use crate::grid::{Grid, field_bounds, lemma_field_bounds_unique};
use crate::point::{Bounds, Point, Pos, voxel_size_ok, COORD_MAX, COORD_MIN, VOXEL_MAX};

verus! {

/// Number of rounds of eight sweeps after which sweeping stops at the latest.
pub const MAX_ROUNDS: usize = 4;

/// What a sweep works from: the band it must not touch, the lattice step,
/// and how far and on which side it may extend the band.
pub struct Front {
    pub frozen: Map<Pos, Cell>,
    pub h: int,
    pub limit: int,
    pub side: Side,
}

/// The distance of a cell from the surface, where the cell is active and
/// lies on `side`.
pub open spec fn magnitude(c: Cell, side: Side) -> Option<int> {
    match c {
        Cell::Active(v) => if side_of_value(v as int) == side {
            Some(abs(v as int))
        } else {
            None
        },
        _ => None,
    }
}

/// The smaller of two distances, either of which may be missing.
pub open spec fn nearer(a: Option<int>, b: Option<int>) -> Option<int> {
    match (a, b) {
        (Some(x), Some(y)) => Some(min2(x, y)),
        (Some(x), None) => Some(x),
        (None, b) => b,
    }
}

/// The nearest of the two neighbours of `p` along the x axis.
pub open spec fn upwind_x(f: Map<Pos, Cell>, side: Side, p: Pos) -> Option<int> {
    nearer(magnitude(f[p.shift(-1, 0, 0)], side), magnitude(f[p.shift(1, 0, 0)], side))
}

/// The nearest of the two neighbours of `p` along the y axis.
pub open spec fn upwind_y(f: Map<Pos, Cell>, side: Side, p: Pos) -> Option<int> {
    nearer(magnitude(f[p.shift(0, -1, 0)], side), magnitude(f[p.shift(0, 1, 0)], side))
}

/// The nearest of the two neighbours of `p` along the z axis.
pub open spec fn upwind_z(f: Map<Pos, Cell>, side: Side, p: Pos) -> Option<int> {
    nearer(magnitude(f[p.shift(0, 0, -1)], side), magnitude(f[p.shift(0, 0, 1)], side))
}

/// The signed distance of magnitude `d` on `side`.
pub open spec fn signed(d: int, side: Side) -> int {
    match side {
        Side::Outside => d,
        Side::Inside => -d,
    }
}

/// The candidate distance at `p`: the upwind update from its neighbours.
pub open spec fn candidate(f: Map<Pos, Cell>, fr: Front, p: Pos) -> Option<int> {
    solve(upwind_x(f, fr.side, p), upwind_y(f, fr.side, p), upwind_z(f, fr.side, p), fr.h)
}

/// One update of the field at `p`.
///
/// A point of the frozen band is never touched.  Elsewhere the candidate is
/// stored where it is within the limit and smaller than what the point
/// holds; a point out of reach stays as it is.
pub open spec fn relax(f: Map<Pos, Cell>, fr: Front, p: Pos) -> Map<Pos, Cell> {
    if fr.frozen[p] is Active {
        f
    } else {
        match candidate(f, fr, p) {
            None => f,
            Some(d) => if d > fr.limit {
                f
            } else {
                match magnitude(f[p], fr.side) {
                    Some(m) => if m <= d {
                        f
                    } else {
                        f.insert(p, Cell::Active(signed(d, fr.side) as i64))
                    },
                    None => f.insert(p, Cell::Active(signed(d, fr.side) as i64)),
                }
            },
        }
    }
}

/// Whether `c` is a cell that sweeping may have added: a distance on the
/// side of the front, within its limit.
pub open spec fn is_added(fr: Front, c: Cell) -> bool {
    magnitude(c, fr.side) matches Some(m) && m <= fr.limit
}

/// Whether `f` is the frozen band plus cells that sweeping added.
pub open spec fn extends(fr: Front, f: Map<Pos, Cell>) -> bool {
    forall|p: Pos| #[trigger]
        f[p] == fr.frozen[p] || (!(fr.frozen[p] is Active) && is_added(fr, f[p]))
}

/// The step along an axis: forward or backward.
pub open spec fn step(forward: bool) -> int {
    if forward {
        1
    } else {
        -1
    }
}

/// The first coordinate that a sweep over `lo..=hi` visits.
pub open spec fn first(lo: int, hi: int, forward: bool) -> int {
    if forward {
        lo
    } else {
        hi
    }
}

/// The `i`-th coordinate that a sweep over `lo..=hi` visits.
pub open spec fn coord(lo: int, hi: int, forward: bool, i: int) -> int {
    if forward {
        lo + i
    } else {
        hi - i
    }
}

/// Updates `n` points of the line through `(x, y, z)` along the z axis, one
/// after the other.
pub open spec fn sweep_line(
    f: Map<Pos, Cell>,
    fr: Front,
    x: int,
    y: int,
    z: int,
    n: nat,
    fz: bool,
) -> Map<Pos, Cell>
    decreases n,
{
    if n == 0 {
        f
    } else {
        sweep_line(relax(f, fr, Pos { x, y, z }), fr, x, y, z + step(fz), (n - 1) as nat, fz)
    }
}

/// Sweeps `ny` lines of the plane at `x`, one after the other.
pub open spec fn sweep_plane(
    f: Map<Pos, Cell>,
    fr: Front,
    x: int,
    y: int,
    ny: nat,
    fy: bool,
    z: int,
    nz: nat,
    fz: bool,
) -> Map<Pos, Cell>
    decreases ny,
{
    if ny == 0 {
        f
    } else {
        sweep_plane(
            sweep_line(f, fr, x, y, z, nz, fz),
            fr,
            x,
            y + step(fy),
            (ny - 1) as nat,
            fy,
            z,
            nz,
            fz,
        )
    }
}

/// Sweeps `nx` planes, one after the other.
pub open spec fn sweep_box(
    f: Map<Pos, Cell>,
    fr: Front,
    x: int,
    nx: nat,
    fx: bool,
    y: int,
    ny: nat,
    fy: bool,
    z: int,
    nz: nat,
    fz: bool,
) -> Map<Pos, Cell>
    decreases nx,
{
    if nx == 0 {
        f
    } else {
        sweep_box(
            sweep_plane(f, fr, x, y, ny, fy, z, nz, fz),
            fr,
            x + step(fx),
            (nx - 1) as nat,
            fx,
            y,
            ny,
            fy,
            z,
            nz,
            fz,
        )
    }
}

/// One sweep over the box `lo..=hi` in the ordering given by the three
/// directions: `x` slowest, `z` fastest.
pub open spec fn pass(
    f: Map<Pos, Cell>,
    fr: Front,
    lo: Pos,
    hi: Pos,
    fx: bool,
    fy: bool,
    fz: bool,
) -> Map<Pos, Cell> {
    sweep_box(
        f,
        fr,
        first(lo.x, hi.x, fx),
        count(lo.x, hi.x),
        fx,
        first(lo.y, hi.y, fy),
        count(lo.y, hi.y),
        fy,
        first(lo.z, hi.z, fz),
        count(lo.z, hi.z),
        fz,
    )
}

/// One round: the eight sweep orderings, each completed before the next.
pub open spec fn round(f: Map<Pos, Cell>, fr: Front, lo: Pos, hi: Pos) -> Map<Pos, Cell> {
    let f1 = pass(f, fr, lo, hi, true, true, true);
    let f2 = pass(f1, fr, lo, hi, false, true, true);
    let f3 = pass(f2, fr, lo, hi, true, false, true);
    let f4 = pass(f3, fr, lo, hi, false, false, true);
    let f5 = pass(f4, fr, lo, hi, true, true, false);
    let f6 = pass(f5, fr, lo, hi, false, true, false);
    let f7 = pass(f6, fr, lo, hi, true, false, false);
    pass(f7, fr, lo, hi, false, false, false)
}

/// `n` rounds.  A round that changes nothing is a fixed point, so stopping
/// there gives the same field.
pub open spec fn rounds(f: Map<Pos, Cell>, fr: Front, lo: Pos, hi: Pos, n: nat) -> Map<Pos, Cell>
    decreases n,
{
    if n == 0 {
        f
    } else {
        rounds(round(f, fr, lo, hi), fr, lo, hi, (n - 1) as nat)
    }
}

/// The field that sweeping makes of the band `f`.
///
/// The sweeps run over the bounding box of the band, grown by the reach of
/// the engine.  A field without active positions stays as it is.
pub open spec fn swept(f: Map<Pos, Cell>, fs: FastSweeping) -> Map<Pos, Cell> {
    if exists|b: Bounds| field_bounds(f, b) {
        let b = choose|b: Bounds| field_bounds(f, b);
        rounds(
            f,
            fs.front(f),
            region_lo(b, fs.reach()),
            region_hi(b, fs.reach()),
            MAX_ROUNDS as nat,
        )
    } else {
        f
    }
}

/// Once a round changes nothing, no later round does.
pub proof fn lemma_rounds_fixed(f: Map<Pos, Cell>, fr: Front, lo: Pos, hi: Pos, n: nat)
    requires
        round(f, fr, lo, hi) == f,
    ensures
        rounds(f, fr, lo, hi, n) == f,
    decreases n,
{
    if n > 0 {
        lemma_rounds_fixed(f, fr, lo, hi, (n - 1) as nat);
    }
}

/// The smallest corner of the swept region: the band's bounding box grown
/// by `reach` steps, cut off at the edge of the lattice.
pub open spec fn region_lo(b: Bounds, reach: int) -> Pos {
    Pos {
        x: max2(b.min.x - reach, COORD_MIN as int),
        y: max2(b.min.y - reach, COORD_MIN as int),
        z: max2(b.min.z - reach, COORD_MIN as int),
    }
}

/// The largest corner of the swept region.
pub open spec fn region_hi(b: Bounds, reach: int) -> Pos {
    Pos {
        x: min2(b.max.x + reach, COORD_MAX as int),
        y: min2(b.max.y + reach, COORD_MAX as int),
        z: min2(b.max.z + reach, COORD_MAX as int),
    }
}

fn magnitude_of(c: Cell, side: Side) -> (m: Option<i64>)
    requires
        c.wf(),
    ensures
        as_int(m) == magnitude(c, side),
        is_magnitude(m),
        side == Side::Inside ==> is_positive(m),
{
    match c {
        Cell::Active(v) => match side {
            Side::Outside => if v >= 0 {
                Some(v)
            } else {
                None
            },
            Side::Inside => if v < 0 {
                Some(-v)
            } else {
                None
            },
        },
        _ => None,
    }
}

/// Whether `o`, where present, is greater than zero.
pub open spec fn is_positive(o: Option<i64>) -> bool {
    o matches Some(v) ==> v > 0
}

fn nearer_of(a: Option<i64>, b: Option<i64>) -> (m: Option<i64>)
    requires
        is_magnitude(a),
        is_magnitude(b),
    ensures
        as_int(m) == nearer(as_int(a), as_int(b)),
        is_magnitude(m),
        is_positive(a) && is_positive(b) ==> is_positive(m),
{
    match (a, b) {
        (Some(x), Some(y)) => if x <= y {
            Some(x)
        } else {
            Some(y)
        },
        (Some(x), None) => Some(x),
        (None, b) => b,
    }
}

/// The engine: a voxel size and a signed extension distance.
///
/// A positive extension grows the band on the outside of the surface, a
/// negative one on the inside, up to the magnitude of the extension.
#[derive(Clone, Copy, Debug)]
pub struct FastSweeping {
    pub voxel_size: i64,
    pub extension: i64,
}

impl FastSweeping {
    /// The voxel size is valid and the extension is a storable distance.
    pub open spec fn wf(&self) -> bool {
        voxel_size_ok(self.voxel_size as int) && value_ok(self.extension as int)
    }

    /// The side on which the band is extended.
    pub open spec fn side(&self) -> Side {
        if self.extension >= 0 {
            Side::Outside
        } else {
            Side::Inside
        }
    }

    /// The largest distance that sweeping stores.
    pub open spec fn limit(&self) -> int {
        abs(self.extension as int)
    }

    /// How many lattice steps beyond the band a distance within the limit
    /// can lie.
    pub open spec fn reach(&self) -> int {
        self.limit() / (self.voxel_size as int) + 1
    }

    /// The front that sweeping from the band `frozen` works from.
    pub open spec fn front(&self, frozen: Map<Pos, Cell>) -> Front {
        Front { frozen, h: self.voxel_size as int, limit: self.limit(), side: self.side() }
    }

    /// An engine, where the voxel size is valid and the extension is a
    /// storable distance.
    pub fn new(voxel_size: i64, extension: i64) -> (r: Option<FastSweeping>)
        ensures
            r is Some == (voxel_size_ok(voxel_size as int) && value_ok(extension as int)),
            r matches Some(s) ==> s.wf() && s.voxel_size == voxel_size && s.extension == extension,
    {
        if voxel_size <= 0 || voxel_size > VOXEL_MAX || extension < -VALUE_MAX || extension
            > VALUE_MAX {
            None
        } else {
            Some(FastSweeping { voxel_size, extension })
        }
    }

    fn exec_side(&self) -> (s: Side)
        ensures
            s == self.side(),
    {
        if self.extension >= 0 {
            Side::Outside
        } else {
            Side::Inside
        }
    }

    fn exec_limit(&self) -> (l: i64)
        requires
            self.wf(),
        ensures
            l == self.limit(),
            0 <= l <= VALUE_MAX,
    {
        if self.extension >= 0 {
            self.extension
        } else {
            -self.extension
        }
    }

    /// Updates the field at `p`; tells whether the field changed.
    pub fn relax_at(&self, grid: &mut Grid, band: &Grid, p: Point) -> (changed: bool)
        requires
            self.wf(),
            old(grid).wf(),
            band.wf(),
            p@.in_lattice(),
        ensures
            final(grid).wf(),
            final(grid).background == old(grid).background,
            final(grid)@ == relax(old(grid)@, self.front(band@), p@),
            !changed ==> final(grid)@ == old(grid)@,
    {
        let ghost fr = self.front(band@);
        let ghost f = grid@;
        if band.get(p).is_active() {
            return false;
        }
        let side = self.exec_side();
        let xm = magnitude_of(grid.get(Point { x: p.x - 1, y: p.y, z: p.z }), side);
        let xp = magnitude_of(grid.get(Point { x: p.x + 1, y: p.y, z: p.z }), side);
        let ym = magnitude_of(grid.get(Point { x: p.x, y: p.y - 1, z: p.z }), side);
        let yp = magnitude_of(grid.get(Point { x: p.x, y: p.y + 1, z: p.z }), side);
        let zm = magnitude_of(grid.get(Point { x: p.x, y: p.y, z: p.z - 1 }), side);
        let zp = magnitude_of(grid.get(Point { x: p.x, y: p.y, z: p.z + 1 }), side);
        let ax = nearer_of(xm, xp);
        let ay = nearer_of(ym, yp);
        let az = nearer_of(zm, zp);
        proof {
            assert(as_int(ax) == upwind_x(f, fr.side, p@));
            assert(as_int(ay) == upwind_y(f, fr.side, p@));
            assert(as_int(az) == upwind_z(f, fr.side, p@));
        }
        match update(ax, ay, az, self.voxel_size) {
            None => false,
            Some(d) => {
                if d > self.exec_limit() {
                    return false;
                }
                let keep = match magnitude_of(grid.get(p), side) {
                    Some(m) => m <= d,
                    None => false,
                };
                if keep {
                    return false;
                }
                let v: i64 = match side {
                    Side::Outside => d,
                    Side::Inside => -d,
                };
                grid.insert(p, v);
                true
            },
        }
    }

    /// Updates the points of one line along the z axis, in the given
    /// direction; tells whether the field changed.
    fn sweep_line_at(
        &self,
        grid: &mut Grid,
        band: &Grid,
        x: i64,
        y: i64,
        lo: Point,
        hi: Point,
        fz: bool,
    ) -> (changed: bool)
        requires
            self.wf(),
            old(grid).wf(),
            band.wf(),
            lo@.in_lattice(),
            hi@.in_lattice(),
            lo.x <= x <= hi.x,
            lo.y <= y <= hi.y,
            lo.z <= hi.z,
        ensures
            final(grid).wf(),
            final(grid).background == old(grid).background,
            final(grid)@ == sweep_line(
                old(grid)@,
                self.front(band@),
                x as int,
                y as int,
                first(lo.z as int, hi.z as int, fz),
                count(lo.z as int, hi.z as int),
                fz,
            ),
            !changed ==> final(grid)@ == old(grid)@,
    {
        let ghost fr = self.front(band@);
        let ghost start = grid@;
        let ghost bg = grid.background;
        let nz: i64 = hi.z - lo.z + 1;
        let ghost z0 = first(lo.z as int, hi.z as int, fz);
        let mut changed = false;
        let mut k: i64 = 0;
        while k < nz
            invariant
                self.wf(),
                grid.wf(),
                band.wf(),
                grid.background == bg,
                fr == self.front(band@),
                lo@.in_lattice(),
                hi@.in_lattice(),
                nz == hi.z - lo.z + 1,
                nz >= 1,
                lo.x <= x <= hi.x,
                lo.y <= y <= hi.y,
                z0 == first(lo.z as int, hi.z as int, fz),
                0 <= k <= nz,
                !changed ==> grid@ == start,
                sweep_line(
                    grid@,
                    fr,
                    x as int,
                    y as int,
                    coord(lo.z as int, hi.z as int, fz, k as int),
                    (nz - k) as nat,
                    fz,
                ) == sweep_line(start, fr, x as int, y as int, z0, nz as nat, fz),
            decreases nz - k,
        {
            let z: i64 = if fz {
                lo.z + k
            } else {
                hi.z - k
            };
            let c = self.relax_at(grid, band, Point { x, y, z });
            if c {
                changed = true;
            }
            k += 1;
        }
        changed
    }

    /// Sweeps the lines of one plane, in the given directions; tells
    /// whether the field changed.
    fn sweep_plane_at(
        &self,
        grid: &mut Grid,
        band: &Grid,
        x: i64,
        lo: Point,
        hi: Point,
        fy: bool,
        fz: bool,
    ) -> (changed: bool)
        requires
            self.wf(),
            old(grid).wf(),
            band.wf(),
            lo@.in_lattice(),
            hi@.in_lattice(),
            lo.x <= x <= hi.x,
            lo.y <= hi.y,
            lo.z <= hi.z,
        ensures
            final(grid).wf(),
            final(grid).background == old(grid).background,
            final(grid)@ == sweep_plane(
                old(grid)@,
                self.front(band@),
                x as int,
                first(lo.y as int, hi.y as int, fy),
                count(lo.y as int, hi.y as int),
                fy,
                first(lo.z as int, hi.z as int, fz),
                count(lo.z as int, hi.z as int),
                fz,
            ),
            !changed ==> final(grid)@ == old(grid)@,
    {
        let ghost fr = self.front(band@);
        let ghost start = grid@;
        let ghost bg = grid.background;
        let ny: i64 = hi.y - lo.y + 1;
        let ghost y0 = first(lo.y as int, hi.y as int, fy);
        let ghost z0 = first(lo.z as int, hi.z as int, fz);
        let ghost nz = count(lo.z as int, hi.z as int);
        let mut changed = false;
        let mut j: i64 = 0;
        while j < ny
            invariant
                self.wf(),
                grid.wf(),
                band.wf(),
                grid.background == bg,
                fr == self.front(band@),
                lo@.in_lattice(),
                hi@.in_lattice(),
                ny == hi.y - lo.y + 1,
                ny >= 1,
                lo.x <= x <= hi.x,
                lo.z <= hi.z,
                y0 == first(lo.y as int, hi.y as int, fy),
                z0 == first(lo.z as int, hi.z as int, fz),
                nz == count(lo.z as int, hi.z as int),
                0 <= j <= ny,
                !changed ==> grid@ == start,
                sweep_plane(
                    grid@,
                    fr,
                    x as int,
                    coord(lo.y as int, hi.y as int, fy, j as int),
                    (ny - j) as nat,
                    fy,
                    z0,
                    nz,
                    fz,
                ) == sweep_plane(start, fr, x as int, y0, ny as nat, fy, z0, nz, fz),
            decreases ny - j,
        {
            let y: i64 = if fy {
                lo.y + j
            } else {
                hi.y - j
            };
            let c = self.sweep_line_at(grid, band, x, y, lo, hi, fz);
            if c {
                changed = true;
            }
            j += 1;
        }
        changed
    }

    /// One sweep over the box `lo..=hi` in the ordering given by the three
    /// directions; tells whether the field changed.
    pub fn sweep_pass(
        &self,
        grid: &mut Grid,
        band: &Grid,
        lo: Point,
        hi: Point,
        fx: bool,
        fy: bool,
        fz: bool,
    ) -> (changed: bool)
        requires
            self.wf(),
            old(grid).wf(),
            band.wf(),
            lo@.in_lattice(),
            hi@.in_lattice(),
            lo.x <= hi.x,
            lo.y <= hi.y,
            lo.z <= hi.z,
        ensures
            final(grid).wf(),
            final(grid).background == old(grid).background,
            final(grid)@ == pass(old(grid)@, self.front(band@), lo@, hi@, fx, fy, fz),
            !changed ==> final(grid)@ == old(grid)@,
    {
        let ghost fr = self.front(band@);
        let ghost start = grid@;
        let ghost bg = grid.background;
        let nx: i64 = hi.x - lo.x + 1;
        let ghost y0 = first(lo.y as int, hi.y as int, fy);
        let ghost z0 = first(lo.z as int, hi.z as int, fz);
        let ghost ny = count(lo.y as int, hi.y as int);
        let ghost nz = count(lo.z as int, hi.z as int);
        let mut changed = false;
        let mut i: i64 = 0;
        while i < nx
            invariant
                self.wf(),
                grid.wf(),
                band.wf(),
                grid.background == bg,
                fr == self.front(band@),
                lo@.in_lattice(),
                hi@.in_lattice(),
                nx == hi.x - lo.x + 1,
                nx >= 1,
                lo.y <= hi.y,
                lo.z <= hi.z,
                y0 == first(lo.y as int, hi.y as int, fy),
                z0 == first(lo.z as int, hi.z as int, fz),
                ny == count(lo.y as int, hi.y as int),
                nz == count(lo.z as int, hi.z as int),
                0 <= i <= nx,
                !changed ==> grid@ == start,
                sweep_box(
                    grid@,
                    fr,
                    coord(lo.x as int, hi.x as int, fx, i as int),
                    (nx - i) as nat,
                    fx,
                    y0,
                    ny,
                    fy,
                    z0,
                    nz,
                    fz,
                ) == pass(start, fr, lo@, hi@, fx, fy, fz),
            decreases nx - i,
        {
            let x: i64 = if fx {
                lo.x + i
            } else {
                hi.x - i
            };
            let c = self.sweep_plane_at(grid, band, x, lo, hi, fy, fz);
            if c {
                changed = true;
            }
            i += 1;
        }
        changed
    }

    /// One round of the eight sweep orderings; tells whether the field changed.
    pub fn sweep_round(&self, grid: &mut Grid, band: &Grid, lo: Point, hi: Point) -> (changed:
        bool)
        requires
            self.wf(),
            old(grid).wf(),
            band.wf(),
            lo@.in_lattice(),
            hi@.in_lattice(),
            lo.x <= hi.x,
            lo.y <= hi.y,
            lo.z <= hi.z,
        ensures
            final(grid).wf(),
            final(grid).background == old(grid).background,
            final(grid)@ == round(old(grid)@, self.front(band@), lo@, hi@),
            !changed ==> final(grid)@ == old(grid)@,
    {
        let c1 = self.sweep_pass(grid, band, lo, hi, true, true, true);
        let c2 = self.sweep_pass(grid, band, lo, hi, false, true, true);
        let c3 = self.sweep_pass(grid, band, lo, hi, true, false, true);
        let c4 = self.sweep_pass(grid, band, lo, hi, false, false, true);
        let c5 = self.sweep_pass(grid, band, lo, hi, true, true, false);
        let c6 = self.sweep_pass(grid, band, lo, hi, false, true, false);
        let c7 = self.sweep_pass(grid, band, lo, hi, true, false, false);
        let c8 = self.sweep_pass(grid, band, lo, hi, false, false, false);
        c1 || c2 || c3 || c4 || c5 || c6 || c7 || c8
    }

    /// Extends the band of `grid` by sweeping.
    ///
    /// The active points of the grid are the boundary condition and keep
    /// their distances.  Points within reach of them get the distances that
    /// at most `MAX_ROUNDS` rounds of sweeps over the grown bounding box
    /// produce.  A grid without active points is left as it is.
    pub fn fast_sweep(&self, grid: &mut Grid)
        requires
            self.wf(),
            old(grid).wf(),
        ensures
            final(grid).wf(),
            final(grid).background == old(grid).background,
            final(grid)@ == swept(old(grid)@, *self),
            (forall|p: Pos| !old(grid).is_active(p)) ==> final(grid)@ == old(grid)@,
            extends(self.front(old(grid)@), final(grid)@),
    {
        let ghost before = *grid;
        let band = grid.clone();
        let ghost fr = self.front(band@);
        proof {
            lemma_swept_extends(before@, *self);
        }
        match band.active_bounds() {
            None => {
                proof {
                    before.lemma_same_view(&band);
                    assert forall|b: Bounds| !field_bounds(before@, b) by {
                        before.lemma_bounds_view(b);
                        if before.is_bounds(b) {
                            let p = choose|p: Pos| #[trigger] before.is_active(p) && p.x == b.min.x;
                            assert(band.is_active(p));
                        }
                    }
                }
            },
            Some(b) => {
                let reach: i64 = self.exec_limit() / self.voxel_size + 1;
                let lo = Point {
                    x: clamp_low(b.min.x - reach),
                    y: clamp_low(b.min.y - reach),
                    z: clamp_low(b.min.z - reach),
                };
                let hi = Point {
                    x: clamp_high(b.max.x + reach),
                    y: clamp_high(b.max.y + reach),
                    z: clamp_high(b.max.z + reach),
                };
                proof {
                    before.lemma_same_view(&band);
                    assert(before.is_bounds(b));
                    before.lemma_bounds_view(b);
                    assert forall|c: Bounds| field_bounds(before@, c) implies c == b by {
                        lemma_field_bounds_unique(before@, c, b);
                    }
                    let p = choose|p: Pos| #[trigger] band.is_active(p) && p.x == b.min.x;
                    assert(b.contains(p));
                }
                let ghost target = rounds(before@, fr, lo@, hi@, MAX_ROUNDS as nat);
                let mut n: usize = 0;
                while n < MAX_ROUNDS
                    invariant
                        self.wf(),
                        grid.wf(),
                        band.wf(),
                        grid.background == before.background,
                        fr == self.front(band@),
                        lo@.in_lattice(),
                        hi@.in_lattice(),
                        lo.x <= hi.x,
                        lo.y <= hi.y,
                        lo.z <= hi.z,
                        n <= MAX_ROUNDS,
                                rounds(grid@, fr, lo@, hi@, (MAX_ROUNDS - n) as nat) == target,
                    decreases MAX_ROUNDS - n,
                {
                    let ghost f = grid@;
                    let changed = self.sweep_round(grid, &band, lo, hi);
                    if !changed {
                        proof {
                            lemma_rounds_fixed(f, fr, lo@, hi@, (MAX_ROUNDS - n) as nat);
                        }
                        n = MAX_ROUNDS;
                    } else {
                        n += 1;
                    }
                }
            },
        }
    }
}

fn clamp_low(c: i64) -> (r: i64)
    ensures
        r == max2(c as int, COORD_MIN as int),
{
    if c < COORD_MIN {
        COORD_MIN
    } else {
        c
    }
}

fn clamp_high(c: i64) -> (r: i64)
    ensures
        r == min2(c as int, COORD_MAX as int),
{
    if c > COORD_MAX {
        COORD_MAX
    } else {
        c
    }
}

/// Whether a front has a positive step and a limit that a cell can store.
pub open spec fn front_ok(fr: Front) -> bool {
    fr.h > 0 && 0 <= fr.limit <= VALUE_MAX
}

/// The distance of a neighbour on the side of the front is at least zero,
/// and at least one on the inside.
pub proof fn lemma_magnitude_lower(c: Cell, side: Side)
    ensures
        at_least(magnitude(c, side), 0),
        side == Side::Inside ==> at_least(magnitude(c, side), 1),
{
}

/// One update leaves the frozen band alone, and what it stores is a
/// distance on the side of the front, within its limit.
pub proof fn lemma_relax_extends(f: Map<Pos, Cell>, fr: Front, p: Pos)
    requires
        front_ok(fr),
        extends(fr, f),
    ensures
        extends(fr, relax(f, fr, p)),
{
    let low: int = if fr.side == Side::Inside {
        1
    } else {
        0
    };
    lemma_magnitude_lower(f[p.shift(-1, 0, 0)], fr.side);
    lemma_magnitude_lower(f[p.shift(1, 0, 0)], fr.side);
    lemma_magnitude_lower(f[p.shift(0, -1, 0)], fr.side);
    lemma_magnitude_lower(f[p.shift(0, 1, 0)], fr.side);
    lemma_magnitude_lower(f[p.shift(0, 0, -1)], fr.side);
    lemma_magnitude_lower(f[p.shift(0, 0, 1)], fr.side);
    lemma_solve_lower(
        upwind_x(f, fr.side, p),
        upwind_y(f, fr.side, p),
        upwind_z(f, fr.side, p),
        fr.h,
        low,
    );
    let g = relax(f, fr, p);
    assert forall|q: Pos| #[trigger]
        g[q] == fr.frozen[q] || (!(fr.frozen[q] is Active) && is_added(fr, g[q])) by {
        assert(f[q] == fr.frozen[q] || (!(fr.frozen[q] is Active) && is_added(fr, f[q])));
    }
}

/// A sweep along a line extends the band.
pub proof fn lemma_line_extends(
    f: Map<Pos, Cell>,
    fr: Front,
    x: int,
    y: int,
    z: int,
    n: nat,
    fz: bool,
)
    requires
        front_ok(fr),
        extends(fr, f),
    ensures
        extends(fr, sweep_line(f, fr, x, y, z, n, fz)),
    decreases n,
{
    if n > 0 {
        lemma_relax_extends(f, fr, Pos { x, y, z });
        let g = relax(f, fr, Pos { x, y, z });
        lemma_line_extends(g, fr, x, y, z + step(fz), (n - 1) as nat, fz);
    }
}

/// A sweep over a plane extends the band.
pub proof fn lemma_plane_extends(
    f: Map<Pos, Cell>,
    fr: Front,
    x: int,
    y: int,
    ny: nat,
    fy: bool,
    z: int,
    nz: nat,
    fz: bool,
)
    requires
        front_ok(fr),
        extends(fr, f),
    ensures
        extends(fr, sweep_plane(f, fr, x, y, ny, fy, z, nz, fz)),
    decreases ny,
{
    if ny > 0 {
        lemma_line_extends(f, fr, x, y, z, nz, fz);
        lemma_plane_extends(
            sweep_line(f, fr, x, y, z, nz, fz),
            fr,
            x,
            y + step(fy),
            (ny - 1) as nat,
            fy,
            z,
            nz,
            fz,
        );
    }
}

/// A sweep over a box extends the band.
pub proof fn lemma_box_extends(
    f: Map<Pos, Cell>,
    fr: Front,
    x: int,
    nx: nat,
    fx: bool,
    y: int,
    ny: nat,
    fy: bool,
    z: int,
    nz: nat,
    fz: bool,
)
    requires
        front_ok(fr),
        extends(fr, f),
    ensures
        extends(fr, sweep_box(f, fr, x, nx, fx, y, ny, fy, z, nz, fz)),
    decreases nx,
{
    if nx > 0 {
        lemma_plane_extends(f, fr, x, y, ny, fy, z, nz, fz);
        lemma_box_extends(
            sweep_plane(f, fr, x, y, ny, fy, z, nz, fz),
            fr,
            x + step(fx),
            (nx - 1) as nat,
            fx,
            y,
            ny,
            fy,
            z,
            nz,
            fz,
        );
    }
}

/// One sweep in any ordering extends the band.
pub proof fn lemma_pass_extends(
    f: Map<Pos, Cell>,
    fr: Front,
    lo: Pos,
    hi: Pos,
    fx: bool,
    fy: bool,
    fz: bool,
)
    requires
        front_ok(fr),
        extends(fr, f),
    ensures
        extends(fr, pass(f, fr, lo, hi, fx, fy, fz)),
{
    lemma_box_extends(
        f,
        fr,
        first(lo.x, hi.x, fx),
        count(lo.x, hi.x),
        fx,
        first(lo.y, hi.y, fy),
        count(lo.y, hi.y),
        fy,
        first(lo.z, hi.z, fz),
        count(lo.z, hi.z),
        fz,
    );
}

/// A round of eight sweeps extends the band.
pub proof fn lemma_round_extends(f: Map<Pos, Cell>, fr: Front, lo: Pos, hi: Pos)
    requires
        front_ok(fr),
        extends(fr, f),
    ensures
        extends(fr, round(f, fr, lo, hi)),
{
    let f1 = pass(f, fr, lo, hi, true, true, true);
    lemma_pass_extends(f, fr, lo, hi, true, true, true);
    let f2 = pass(f1, fr, lo, hi, false, true, true);
    lemma_pass_extends(f1, fr, lo, hi, false, true, true);
    let f3 = pass(f2, fr, lo, hi, true, false, true);
    lemma_pass_extends(f2, fr, lo, hi, true, false, true);
    let f4 = pass(f3, fr, lo, hi, false, false, true);
    lemma_pass_extends(f3, fr, lo, hi, false, false, true);
    let f5 = pass(f4, fr, lo, hi, true, true, false);
    lemma_pass_extends(f4, fr, lo, hi, true, true, false);
    let f6 = pass(f5, fr, lo, hi, false, true, false);
    lemma_pass_extends(f5, fr, lo, hi, false, true, false);
    let f7 = pass(f6, fr, lo, hi, true, false, false);
    lemma_pass_extends(f6, fr, lo, hi, true, false, false);
    lemma_pass_extends(f7, fr, lo, hi, false, false, false);
}

/// Any number of rounds extends the band.
pub proof fn lemma_rounds_extend(f: Map<Pos, Cell>, fr: Front, lo: Pos, hi: Pos, n: nat)
    requires
        front_ok(fr),
        extends(fr, f),
    ensures
        extends(fr, rounds(f, fr, lo, hi, n)),
    decreases n,
{
    if n > 0 {
        lemma_round_extends(f, fr, lo, hi);
        lemma_rounds_extend(round(f, fr, lo, hi), fr, lo, hi, (n - 1) as nat);
    }
}

/// Sweeping keeps the band it starts from, and whatever it adds is a
/// distance on the side of the extension, within its magnitude.
pub proof fn lemma_swept_extends(f: Map<Pos, Cell>, fs: FastSweeping)
    requires
        fs.wf(),
    ensures
        extends(fs.front(f), swept(f, fs)),
{
    let fr = fs.front(f);
    if exists|b: Bounds| field_bounds(f, b) {
        let b = choose|b: Bounds| field_bounds(f, b);
        lemma_rounds_extend(
            f,
            fr,
            region_lo(b, fs.reach()),
            region_hi(b, fs.reach()),
            MAX_ROUNDS as nat,
        );
    }
}

} // verus!
