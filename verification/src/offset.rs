//! Offsetting a field: what it computes, and what follows for the surface.

use vstd::prelude::*;
use crate::cell::{Cell, value_ok};
use crate::point::{Pos, voxel_size_ok};
use crate::sweep::{FastSweeping, extends, is_added, lemma_swept_extends, swept};
use crate::trim::{keeps, trimmed};

verus! {

/// The signed distance over which an offset by `distance` rebuilds the
/// band: two voxels beyond the offset, on the side of the offset.
pub open spec fn extension(distance: int, voxel_size: int) -> int {
    if distance >= 0 {
        distance + 2 * voxel_size
    } else {
        distance - 2 * voxel_size
    }
}

/// The sweeping engine of an offset by `distance`.
pub open spec fn sweeper(voxel_size: int, distance: int) -> FastSweeping {
    FastSweeping {
        voxel_size: voxel_size as i64,
        extension: extension(distance, voxel_size) as i64,
    }
}

/// The band that an offset by `distance` rebuilds before it shifts the
/// distances: the trimmed field, swept out to the extension distance.
pub open spec fn rebuilt(f: Map<Pos, Cell>, voxel_size: int, distance: int) -> Map<Pos, Cell> {
    swept(trimmed(f, voxel_size), sweeper(voxel_size, distance))
}

/// A cell with its distance, if it stores one, lowered by `d`.
pub open spec fn shifted_cell(c: Cell, d: int) -> Cell {
    match c {
        Cell::Active(v) => Cell::Active((v - d) as i64),
        c => c,
    }
}

/// The field `f` with every stored distance lowered by `d`.
pub open spec fn shifted(f: Map<Pos, Cell>, d: int) -> Map<Pos, Cell> {
    Map::new(|p: Pos| true, |p: Pos| shifted_cell(f[p], d))
}

/// The field `f` offset by `distance`: trimmed, swept, and shifted.
pub open spec fn offset_field(f: Map<Pos, Cell>, voxel_size: int, distance: int) -> Map<
    Pos,
    Cell,
> {
    shifted(rebuilt(f, voxel_size, distance), distance)
}

/// Whether every distance of an offset by `distance` can be stored: the
/// extension distance, and each distance of the rebuilt band once shifted.
pub open spec fn offset_fits(f: Map<Pos, Cell>, voxel_size: int, distance: int) -> bool {
    &&& value_ok(extension(distance, voxel_size))
    &&& forall|p: Pos| #[trigger]
        rebuilt(f, voxel_size, distance)[p] is Active ==> value_ok(
            rebuilt(f, voxel_size, distance)[p]->Active_0 - distance,
        )
}

/// The rebuilt band holds the trimmed band unchanged; whatever else it
/// holds is a distance on the side of the offset, within the extension.
pub proof fn lemma_rebuilt_extends(f: Map<Pos, Cell>, voxel_size: int, distance: int)
    requires
        voxel_size_ok(voxel_size),
        value_ok(extension(distance, voxel_size)),
    ensures
        extends(
            sweeper(voxel_size, distance).front(trimmed(f, voxel_size)),
            rebuilt(f, voxel_size, distance),
        ),
{
    lemma_swept_extends(trimmed(f, voxel_size), sweeper(voxel_size, distance));
}

/// An offset lowers the distance of every voxel that brackets the surface
/// by exactly the offset distance: the surface moves by that distance.
pub proof fn lemma_offset_shifts_band(f: Map<Pos, Cell>, voxel_size: int, distance: int, p: Pos)
    requires
        voxel_size_ok(voxel_size),
        value_ok(extension(distance, voxel_size)),
        keeps(f, voxel_size, p),
    ensures
        offset_field(f, voxel_size, distance)[p] == shifted_cell(f[p], distance),
{
    lemma_rebuilt_extends(f, voxel_size, distance);
    let band = trimmed(f, voxel_size);
    let built = rebuilt(f, voxel_size, distance);
    assert(Set::new(|q: Pos| true).contains(p));
    assert(band[p] == f[p]);
    assert(built[p] == band[p] || !(band[p] is Active));
}

/// A voxel that an offset adds lies on the side of the offset: before the
/// shift its distance is within the extension, positive or zero for an
/// outward offset and negative for an inward one.
pub proof fn lemma_offset_adds_on_one_side(
    f: Map<Pos, Cell>,
    voxel_size: int,
    distance: int,
    p: Pos,
)
    requires
        voxel_size_ok(voxel_size),
        value_ok(extension(distance, voxel_size)),
        !keeps(f, voxel_size, p),
    ensures
        offset_field(f, voxel_size, distance)[p] == Cell::Empty || is_added(
            sweeper(voxel_size, distance).front(trimmed(f, voxel_size)),
            rebuilt(f, voxel_size, distance)[p],
        ),
{
    lemma_rebuilt_extends(f, voxel_size, distance);
    let band = trimmed(f, voxel_size);
    let built = rebuilt(f, voxel_size, distance);
    assert(Set::new(|q: Pos| true).contains(p));
    assert(band[p] == Cell::Empty);
    assert(built[p] == band[p] || is_added(
        sweeper(voxel_size, distance).front(band),
        built[p],
    ));
}

/// Whether every distance that the field stores is within range.
pub open spec fn in_range(f: Map<Pos, Cell>) -> bool {
    forall|p: Pos| (#[trigger] f[p]).wf()
}

/// An offset by zero can always be made, and it leaves the voxels that
/// bracket the surface as they are: the surface does not move.
pub proof fn lemma_offset_zero_keeps_surface(f: Map<Pos, Cell>, voxel_size: int)
    requires
        voxel_size_ok(voxel_size),
        in_range(f),
    ensures
        offset_fits(f, voxel_size, 0),
        forall|p: Pos|
            keeps(f, voxel_size, p) ==> #[trigger] offset_field(f, voxel_size, 0)[p] == f[p],
{
    assert forall|p: Pos| keeps(f, voxel_size, p) implies #[trigger] offset_field(
        f,
        voxel_size,
        0,
    )[p] == f[p] by {
        lemma_offset_shifts_band(f, voxel_size, 0, p);
    }
    lemma_rebuilt_extends(f, voxel_size, 0);
    let band = trimmed(f, voxel_size);
    let built = rebuilt(f, voxel_size, 0);
    assert forall|p: Pos| #[trigger] built[p] is Active implies value_ok(
        built[p]->Active_0 - 0,
    ) by {
        assert(Set::new(|q: Pos| true).contains(p));
        assert(f[p].wf());
        assert(built[p] == band[p] || is_added(sweeper(voxel_size, 0).front(band), built[p]));
    }
}

/// Two offsets in a row agree with one offset by the sum, exactly, at
/// every voxel that brackets the surface before and after the first
/// offset, as long as the distances stay within range.
pub proof fn lemma_offsets_compose_on_band(
    f: Map<Pos, Cell>,
    voxel_size: int,
    first: int,
    second: int,
)
    requires
        voxel_size_ok(voxel_size),
        value_ok(extension(first, voxel_size)),
        value_ok(extension(second, voxel_size)),
        value_ok(extension(first + second, voxel_size)),
        offset_fits(f, voxel_size, first),
    ensures
        forall|p: Pos|
            keeps(f, voxel_size, p) && keeps(offset_field(f, voxel_size, first), voxel_size, p)
                ==> #[trigger] offset_field(
                offset_field(f, voxel_size, first),
                voxel_size,
                second,
            )[p] == offset_field(f, voxel_size, first + second)[p],
{
    let once = offset_field(f, voxel_size, first);
    assert forall|p: Pos|
        keeps(f, voxel_size, p) && keeps(once, voxel_size, p) implies #[trigger] offset_field(
        once,
        voxel_size,
        second,
    )[p] == offset_field(f, voxel_size, first + second)[p] by {
        lemma_offset_shifts_band(f, voxel_size, first, p);
        lemma_offset_shifts_band(once, voxel_size, second, p);
        lemma_offset_shifts_band(f, voxel_size, first + second, p);
        lemma_rebuilt_extends(f, voxel_size, first);
        let band = trimmed(f, voxel_size);
        let built = rebuilt(f, voxel_size, first);
        assert(Set::new(|q: Pos| true).contains(p));
        assert(band[p] == f[p]);
        assert(built[p] == f[p]);
        assert(value_ok(built[p]->Active_0 - first));
    }
}

} // verus!
