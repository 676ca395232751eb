//! Volumes: a signed distance field together with its voxel size.

use vstd::prelude::*;
use crate::arith::{abs, ceil_div, div_ceil, div_floor, floor_div, lemma_ceil_div_bounds,
    lemma_floor_div_bounds};
use crate::cell::{Cell, value_ok, VALUE_MAX};
use crate::csg::{Csg, combined};
use crate::flood::flooded;
use crate::grid::Grid;
use crate::point::{Point, Pos, voxel_size_ok, COORD_MAX, COORD_MIN, VOXEL_MAX};
use crate::offset::{lemma_offset_shifts_band, offset_field, offset_fits, rebuilt, shifted,
    shifted_cell, sweeper};
use crate::sweep::FastSweeping;
use crate::trim::{keeps, trim_to_band};

verus! {

/// Why a volume could not be built or combined.
#[derive(Clone, Copy, PartialEq, Eq, Debug, Structural)]
pub enum VolumeError {
    /// The voxel size is not positive, or larger than `VOXEL_MAX`.
    InvalidVoxelSize,
    /// The two operands were sampled with different voxel sizes.
    VoxelSizeMismatch,
    /// A position or a distance leaves the range that a grid can hold.
    OutOfRange,
}

/// A solid, given by its signed distance field near the surface.
#[derive(Debug)]
pub struct Volume {
    pub grid: Grid,
    pub voxel_size: i64,
}

/// Half-width of the band that construction keeps, in world units.
pub open spec fn band_width(narrow_band_width: int, voxel_size: int) -> int {
    (narrow_band_width + 1) * voxel_size
}

/// The world position of a lattice position.
pub open spec fn world_of(p: Pos, voxel_size: int) -> Pos {
    Pos { x: p.x * voxel_size, y: p.y * voxel_size, z: p.z * voxel_size }
}

/// Whether the world box has no points, because a maximum lies below its minimum.
pub open spec fn is_inverted(min: Pos, max: Pos) -> bool {
    max.x < min.x || max.y < min.y || max.z < min.z
}

/// The smallest lattice corner of the sampled region: the world minimum
/// divided by the voxel size, rounded down.
pub open spec fn lattice_floor(min: Pos, voxel_size: int) -> Pos {
    Pos {
        x: floor_div(min.x, voxel_size),
        y: floor_div(min.y, voxel_size),
        z: floor_div(min.z, voxel_size),
    }
}

/// The largest lattice corner of the sampled region: the world maximum
/// divided by the voxel size, rounded up.
pub open spec fn lattice_ceil(max: Pos, voxel_size: int) -> Pos {
    Pos {
        x: ceil_div(max.x, voxel_size),
        y: ceil_div(max.y, voxel_size),
        z: ceil_div(max.z, voxel_size),
    }
}

/// Whether construction samples the lattice position `p`: the world box
/// has points, and `p` lies in the box widened to whole lattice steps.
pub open spec fn samples(voxel_size: int, min: Pos, max: Pos, p: Pos) -> bool {
    !is_inverted(min, max) && in_box(
        lattice_floor(min, voxel_size),
        lattice_ceil(max, voxel_size),
        p,
    )
}

/// Whether the sampled region and the band can be held: the lattice box
/// lies in the lattice, and the band is no wider than the largest distance.
pub open spec fn fits(voxel_size: int, min: Pos, max: Pos, narrow_band_width: int) -> bool {
    &&& lattice_floor(min, voxel_size).in_lattice()
    &&& lattice_ceil(max, voxel_size).in_lattice()
    &&& band_width(narrow_band_width, voxel_size) <= VALUE_MAX
}

/// Why construction refuses its arguments, if it does.
///
/// A voxel size out of range is refused first.  A box without points is
/// accepted whatever its size; any other box must fit the lattice, and the
/// band the range of distances.
pub open spec fn refusal(voxel_size: int, min: Pos, max: Pos, narrow_band_width: int) -> Option<
    VolumeError,
> {
    if !voxel_size_ok(voxel_size) {
        Some(VolumeError::InvalidVoxelSize)
    } else if is_inverted(min, max) {
        None
    } else if !fits(voxel_size, min, max, narrow_band_width) {
        Some(VolumeError::OutOfRange)
    } else {
        None
    }
}

/// Whether `p` lies in the box with corners `lo` and `hi`, both included.
pub open spec fn in_box(lo: Pos, hi: Pos, p: Pos) -> bool {
    &&& lo.x <= p.x <= hi.x
    &&& lo.y <= p.y <= hi.y
    &&& lo.z <= p.z <= hi.z
}

/// The cell that construction stores for a sampled distance `w`.
pub open spec fn band_cell(w: i64, band: int) -> Cell {
    if abs(w as int) <= band {
        Cell::Active(w)
    } else {
        Cell::Empty
    }
}

/// Whether `cell` is what construction stores at `p`: the banded sample of
/// `func` at the world position of `p`.
pub open spec fn sampled<F: Fn(Point) -> i64>(
    func: F,
    voxel_size: int,
    band: int,
    p: Pos,
    cell: Cell,
) -> bool {
    exists|at: Point, w: i64|
        at@ == world_of(p, voxel_size) && #[trigger] call_ensures(func, (at,), w) && cell
            == band_cell(w, band)
}

/// The product of a lattice coordinate and a voxel size fits a machine word.
pub proof fn lemma_world_fits(c: int, s: int)
    requires
        COORD_MIN <= c <= COORD_MAX,
        voxel_size_ok(s),
    ensures
        -VALUE_MAX <= c * s <= VALUE_MAX,
{
    assert(-0x100_0000_0000 * 0x10_0000 <= c * s <= 0x100_0000_0000 * 0x10_0000)
        by (nonlinear_arith)
        requires
            -0x100_0000_0000 <= c <= 0x100_0000_0000,
            0 < s <= 0x10_0000,
    ;
}

impl Volume {
    /// The grid is well formed and the voxel size is valid.
    pub open spec fn wf(&self) -> bool {
        self.grid.wf() && voxel_size_ok(self.voxel_size as int)
    }

    /// A volume over an existing grid.
    pub fn new(grid: Grid, voxel_size: i64) -> (r: Result<Volume, VolumeError>)
        requires
            grid.wf(),
        ensures
            !voxel_size_ok(voxel_size as int) ==> r == Err::<Volume, VolumeError>(
                VolumeError::InvalidVoxelSize,
            ),
            voxel_size_ok(voxel_size as int) ==> r is Ok && r->Ok_0.grid == grid
                && r->Ok_0.voxel_size == voxel_size && r->Ok_0.wf(),
    {
        if voxel_size <= 0 || voxel_size > VOXEL_MAX {
            return Err(VolumeError::InvalidVoxelSize);
        }
        Ok(Volume { grid, voxel_size })
    }

    /// World units per lattice step.
    pub fn voxel_size(&self) -> (s: i64)
        ensures
            s == self.voxel_size,
    {
        self.voxel_size
    }

    /// The underlying grid.
    pub fn grid(&self) -> (g: &Grid)
        ensures
            *g == self.grid,
    {
        &self.grid
    }

    /// Samples `func` at every lattice point of the world box `[min, max]`
    /// and keeps the samples within the band.
    ///
    /// The box is widened to whole lattice steps.  A sample `w` is stored
    /// where `|w| <= (narrow_band_width + 1) * voxel_size`; every other point
    /// stays background.  A box with a maximum below its minimum gives the
    /// empty volume.
    pub fn from_fn<F: Fn(Point) -> i64>(
        voxel_size: i64,
        min: Point,
        max: Point,
        narrow_band_width: usize,
        func: F,
    ) -> (r: Result<Volume, VolumeError>)
        requires
            forall|p: Pos, at: Point|
                #![trigger world_of(p, voxel_size as int), call_requires(func, (at,))]
                voxel_size_ok(voxel_size as int) && samples(voxel_size as int, min@, max@, p)
                    && at@ == world_of(p, voxel_size as int) ==> call_requires(func, (at,)),
        ensures
            match refusal(voxel_size as int, min@, max@, narrow_band_width as int) {
                Some(e) => r == Err::<Volume, VolumeError>(e),
                None => r is Ok,
            },
            r matches Ok(v) ==> {
                &&& v.wf()
                &&& v.voxel_size == voxel_size
                &&& v.grid.background == Cell::Empty
                &&& forall|p: Pos|
                    if samples(voxel_size as int, min@, max@, p) {
                        sampled(
                            func,
                            voxel_size as int,
                            band_width(narrow_band_width as int, voxel_size as int),
                            p,
                            #[trigger] v.grid.cell_at(p),
                        )
                    } else {
                        v.grid.cell_at(p) == Cell::Empty
                    }
                &&& forall|p: Pos| #[trigger]
                    v.grid.cell_at(p) is Active ==> samples(voxel_size as int, min@, max@, p)
                        && abs(v.grid.value_at(p)) <= band_width(
                        narrow_band_width as int,
                        voxel_size as int,
                    )
            },
    {
        if voxel_size <= 0 || voxel_size > VOXEL_MAX {
            return Err(VolumeError::InvalidVoxelSize);
        }
        let mut grid = Grid::empty();
        if max.x < min.x || max.y < min.y || max.z < min.z {
            return Ok(Volume { grid, voxel_size });
        }
        let lo = Point {
            x: div_floor(min.x, voxel_size),
            y: div_floor(min.y, voxel_size),
            z: div_floor(min.z, voxel_size),
        };
        let hi = Point {
            x: div_ceil(max.x, voxel_size),
            y: div_ceil(max.y, voxel_size),
            z: div_ceil(max.z, voxel_size),
        };
        assert((narrow_band_width + 1) * voxel_size <= 0x1_0000_0000_0000_0000 * 0x10_0000)
            by (nonlinear_arith)
            requires
                0 <= narrow_band_width + 1 <= 0x1_0000_0000_0000_0000,
                0 < voxel_size <= 0x10_0000,
        ;
        let wide: u128 = (narrow_band_width as u128 + 1) * (voxel_size as u128);
        if !lo.in_lattice() || !hi.in_lattice() || wide > VALUE_MAX as u128 {
            return Err(VolumeError::OutOfRange);
        }
        let band: i64 = wide as i64;
        let ghost vs = voxel_size as int;
        let ghost bw = band_width(narrow_band_width as int, vs);
        assert(band == bw);
        proof {
            lemma_floor_div_bounds(min.x as int, vs);
            lemma_floor_div_bounds(min.y as int, vs);
            lemma_floor_div_bounds(min.z as int, vs);
            lemma_ceil_div_bounds(max.x as int, vs);
            lemma_ceil_div_bounds(max.y as int, vs);
            lemma_ceil_div_bounds(max.z as int, vs);
            lemma_lattice_box_ordered(min.x as int, max.x as int, vs);
            lemma_lattice_box_ordered(min.y as int, max.y as int, vs);
            lemma_lattice_box_ordered(min.z as int, max.z as int, vs);
        }
        let mut x: i64 = lo.x;
        while x <= hi.x
            invariant
                grid.wf(),
                grid.background == Cell::Empty,
                voxel_size_ok(vs),
                vs == voxel_size,
                band == bw,
                0 <= band <= VALUE_MAX,
                lo@.in_lattice(),
                hi@.in_lattice(),
                lo.x <= x <= hi.x + 1,
                lo.y <= hi.y,
                lo.z <= hi.z,
                forall|p: Pos, at: Point|
                    #![trigger world_of(p, vs), call_requires(func, (at,))]
                    in_box(lo@, hi@, p) && at@ == world_of(p, vs) ==> call_requires(func, (at,)),
                forall|p: Pos|
                    if in_box(lo@, hi@, p) && p.x < x {
                        sampled(func, vs, bw, p, #[trigger] grid.cell_at(p))
                    } else {
                        grid.cell_at(p) == Cell::Empty
                    },
            decreases hi.x + 1 - x,
        {
            let mut y: i64 = lo.y;
            while y <= hi.y
                invariant
                    grid.wf(),
                    grid.background == Cell::Empty,
                    voxel_size_ok(vs),
                    vs == voxel_size,
                    band == bw,
                    0 <= band <= VALUE_MAX,
                    lo@.in_lattice(),
                    hi@.in_lattice(),
                    lo.x <= x <= hi.x,
                    lo.y <= y <= hi.y + 1,
                    lo.z <= hi.z,
                    forall|p: Pos, at: Point|
                        #![trigger world_of(p, vs), call_requires(func, (at,))]
                        in_box(lo@, hi@, p) && at@ == world_of(p, vs) ==> call_requires(
                            func,
                            (at,),
                        ),
                    forall|p: Pos|
                        if in_box(lo@, hi@, p) && (p.x < x || (p.x == x && p.y < y)) {
                            sampled(func, vs, bw, p, #[trigger] grid.cell_at(p))
                        } else {
                            grid.cell_at(p) == Cell::Empty
                        },
                decreases hi.y + 1 - y,
            {
                let mut z: i64 = lo.z;
                while z <= hi.z
                    invariant
                        grid.wf(),
                        grid.background == Cell::Empty,
                        voxel_size_ok(vs),
                        vs == voxel_size,
                        band == bw,
                        0 <= band <= VALUE_MAX,
                        lo@.in_lattice(),
                        hi@.in_lattice(),
                        lo.x <= x <= hi.x,
                        lo.y <= y <= hi.y,
                        lo.z <= z <= hi.z + 1,
                        forall|p: Pos, at: Point|
                            #![trigger world_of(p, vs), call_requires(func, (at,))]
                            in_box(lo@, hi@, p) && at@ == world_of(p, vs) ==> call_requires(
                                func,
                                (at,),
                            ),
                        forall|p: Pos|
                            if in_box(lo@, hi@, p) && (p.x < x || (p.x == x && (p.y < y || (p.y
                                == y && p.z < z)))) {
                                sampled(func, vs, bw, p, #[trigger] grid.cell_at(p))
                            } else {
                                grid.cell_at(p) == Cell::Empty
                            },
                    decreases hi.z + 1 - z,
                {
                    let idx = Point { x, y, z };
                    proof {
                        lemma_world_fits(x as int, vs);
                        lemma_world_fits(y as int, vs);
                        lemma_world_fits(z as int, vs);
                    }
                    let at = Point { x: x * voxel_size, y: y * voxel_size, z: z * voxel_size };
                    assert(at@ == world_of(idx@, vs));
                    let w = func(at);
                    let ghost before = grid;
                    if -band <= w && w <= band {
                        grid.insert(idx, w);
                    }
                    proof {
                        assert(grid.cell_at(idx@) == band_cell(w, bw));
                        assert(sampled(func, vs, bw, idx@, grid.cell_at(idx@)));
                        assert forall|p: Pos|
                            if in_box(lo@, hi@, p) && (p.x < x || (p.x == x && (p.y < y || (p.y
                                == y && p.z < z + 1)))) {
                                sampled(func, vs, bw, p, #[trigger] grid.cell_at(p))
                            } else {
                                grid.cell_at(p) == Cell::Empty
                            } by {
                            if p != idx@ {
                                assert(grid.cell_at(p) == before.cell_at(p));
                            }
                        }
                    }
                    z += 1;
                }
                y += 1;
            }
            x += 1;
        }
        Ok(Volume { grid, voxel_size })
    }

    /// Combines two volumes of the same voxel size.
    ///
    /// Each operand is flood filled, so that every position of the lattice
    /// has a side, and the fields are then combined position by position.
    pub fn combine(self, other: Volume, op: Csg) -> (r: Result<Volume, VolumeError>)
        requires
            self.wf(),
            other.wf(),
        ensures
            r is Ok == (self.voxel_size == other.voxel_size),
            r matches Err(e) ==> e == VolumeError::VoxelSizeMismatch,
            r matches Ok(v) ==> {
                &&& v.wf()
                &&& v.voxel_size == self.voxel_size
                &&& v.grid.is_filled()
                &&& v.grid@ == combined(op, flooded(self.grid@), flooded(other.grid@))
            },
    {
        if self.voxel_size != other.voxel_size {
            return Err(VolumeError::VoxelSizeMismatch);
        }
        let mut a = self;
        let mut b = other;
        a.grid.flood_fill();
        b.grid.flood_fill();
        let ghost fa = a.grid;
        let ghost fb = b.grid;
        a.grid.combine(&b.grid, op);
        proof {
            assert forall|p: Pos| !(#[trigger] a.grid.cell_at(p) is Empty) by {
                assert(!(fa.cell_at(p) is Empty));
                assert(!(fb.cell_at(p) is Empty));
            }
        }
        Ok(a)
    }

    /// The union of two solids: at every position the lesser distance.
    pub fn union(self, other: Volume) -> (r: Result<Volume, VolumeError>)
        requires
            self.wf(),
            other.wf(),
        ensures
            r is Ok == (self.voxel_size == other.voxel_size),
            r matches Err(e) ==> e == VolumeError::VoxelSizeMismatch,
            r matches Ok(v) ==> {
                &&& v.wf()
                &&& v.voxel_size == self.voxel_size
                &&& v.grid.is_filled()
                &&& v.grid@ == combined(Csg::Union, flooded(self.grid@), flooded(other.grid@))
            },
    {
        self.combine(other, Csg::Union)
    }

    /// The intersection of two solids: at every position the greater
    /// distance.
    pub fn intersect(self, other: Volume) -> (r: Result<Volume, VolumeError>)
        requires
            self.wf(),
            other.wf(),
        ensures
            r is Ok == (self.voxel_size == other.voxel_size),
            r matches Err(e) ==> e == VolumeError::VoxelSizeMismatch,
            r matches Ok(v) ==> {
                &&& v.wf()
                &&& v.voxel_size == self.voxel_size
                &&& v.grid.is_filled()
                &&& v.grid@ == combined(Csg::Intersect, flooded(self.grid@), flooded(other.grid@))
            },
    {
        self.combine(other, Csg::Intersect)
    }

    /// The first solid with the second carved out: at every position the
    /// greater of the first distance and the negated second one.
    pub fn subtract(self, other: Volume) -> (r: Result<Volume, VolumeError>)
        requires
            self.wf(),
            other.wf(),
        ensures
            r is Ok == (self.voxel_size == other.voxel_size),
            r matches Err(e) ==> e == VolumeError::VoxelSizeMismatch,
            r matches Ok(v) ==> {
                &&& v.wf()
                &&& v.voxel_size == self.voxel_size
                &&& v.grid.is_filled()
                &&& v.grid@ == combined(Csg::Subtract, flooded(self.grid@), flooded(other.grid@))
            },
    {
        self.combine(other, Csg::Subtract)
    }

    /// Moves the surface by `distance` along its normal: outward for a
    /// positive distance, inward for a negative one.
    ///
    /// The field is trimmed to the voxels that bracket the surface, swept
    /// out to `|distance|` plus two voxels on the side of the offset, and
    /// every stored distance is lowered by `distance`.  The voxels that
    /// bracket the old surface keep their exact distances up to that shift,
    /// so an offset by zero leaves the surface where it is.
    pub fn offset(self, distance: i64) -> (r: Result<Volume, VolumeError>)
        requires
            self.wf(),
        ensures
            r is Ok == offset_fits(self.grid@, self.voxel_size as int, distance as int),
            r matches Err(e) ==> e == VolumeError::OutOfRange,
            r matches Ok(v) ==> {
                &&& v.wf()
                &&& v.voxel_size == self.voxel_size
                &&& v.grid.background == Cell::Empty
                &&& v.grid@ == offset_field(self.grid@, self.voxel_size as int, distance as int)
                &&& forall|p: Pos|
                    keeps(self.grid@, self.voxel_size as int, p) ==> #[trigger] v.grid.cell_at(p)
                        == shifted_cell(self.grid.cell_at(p), distance as int)
            },
    {
        let vs: i64 = self.voxel_size;
        let room: i64 = VALUE_MAX - 2 * vs;
        if distance > room || distance < -room {
            return Err(VolumeError::OutOfRange);
        }
        let ext: i64 = if distance >= 0 {
            distance + 2 * vs
        } else {
            distance - 2 * vs
        };
        let ghost d = distance as int;
        let ghost f = self.grid@;
        let mut grid = trim_to_band(&self.grid, vs);
        let engine = match FastSweeping::new(vs, ext) {
            Some(e) => e,
            None => {
                return Err(VolumeError::OutOfRange);
            },
        };
        assert(engine == sweeper(vs as int, d));
        engine.fast_sweep(&mut grid);
        let ghost built = grid;
        assert(built@ == rebuilt(f, vs as int, d));
        if !grid.can_shift(distance) {
            proof {
                let p = choose|p: Pos| #[trigger]
                    grid.cell_at(p) is Active && !value_ok(grid.cell_at(p)->Active_0 - d);
                grid.lemma_view(p);
            }
            return Err(VolumeError::OutOfRange);
        }
        proof {
            assert forall|p: Pos| #[trigger] built@[p] is Active implies value_ok(
                built@[p]->Active_0 - d,
            ) by {
                grid.lemma_view(p);
            }
        }
        let shift = |v: i64| -> (w: i64)
            requires
                value_ok(v - distance),
            ensures
                w == v - distance,
            { v - distance };
        grid.map_values(shift);
        proof {
            assert forall|p: Pos| #[trigger] grid@[p] == shifted(built@, d)[p] by {
                grid.lemma_view(p);
                built.lemma_view(p);
            }
            assert(grid@ =~= shifted(built@, d));
            assert forall|p: Pos| keeps(f, vs as int, p) implies #[trigger] grid.cell_at(p)
                == shifted_cell(self.grid.cell_at(p), d) by {
                lemma_offset_shifts_band(f, vs as int, d, p);
                grid.lemma_view(p);
                self.grid.lemma_view(p);
            }
        }
        Ok(Volume { grid, voxel_size: vs })
    }
}

/// Rounding outward keeps a box that has points from becoming empty.
pub proof fn lemma_lattice_box_ordered(min: int, max: int, s: int)
    requires
        s > 0,
        min <= max,
    ensures
        floor_div(min, s) <= ceil_div(max, s),
{
    lemma_floor_div_bounds(min, s);
    lemma_ceil_div_bounds(max, s);
    let a = floor_div(min, s);
    let b = ceil_div(max, s);
    if a > b {
        assert(a * s >= (b + 1) * s) by (nonlinear_arith)
            requires
                a >= b + 1,
                s > 0,
        ;
        assert((b + 1) * s == b * s + s) by (nonlinear_arith);
    }
}

impl Clone for Volume {
    /// An independent copy: same voxel size, same cells everywhere.
    fn clone(&self) -> (r: Self)
        ensures
            r.voxel_size == self.voxel_size,
            self.wf() ==> r.wf() && r.grid@ == self.grid@,
    {
        Volume { grid: self.grid.clone(), voxel_size: self.voxel_size }
    }
}

} // verus!
