//! Dense sampling of a field over a box, for inspection and export.

use vstd::prelude::*;
use crate::arith::count;
use crate::cell::Cell;
use crate::grid::Grid;
use crate::point::{Bounds, Point, Pos};

verus! {

/// The number that a dense image shows for a cell: its distance, or
/// `background` where the cell stores none.
pub open spec fn sample_value(c: Cell, background: i64) -> i64 {
    match c {
        Cell::Active(v) => v,
        _ => background,
    }
}

/// Whether `row` holds the samples of the line of `n` positions that starts
/// at `(x, y, z)` and runs along the z axis.
pub open spec fn is_row(g: &Grid, background: i64, x: int, y: int, z: int, n: nat, row: Seq<i64>)
    -> bool {
    &&& row.len() == n
    &&& forall|k: int|
        0 <= k < n ==> #[trigger] row[k] == sample_value(
            g.cell_at(Pos { x, y, z: z + k }),
            background,
        )
}

/// Whether `image` holds the samples of the box `b`, indexed by the offsets
/// from its smallest corner along x, then y, then z.
pub open spec fn is_image(g: &Grid, background: i64, b: Bounds, image: Seq<Vec<Vec<i64>>>)
    -> bool {
    &&& image.len() == count(b.min.x as int, b.max.x as int)
    &&& forall|i: int|
        0 <= i < image.len() ==> (#[trigger] image[i])@.len() == count(
            b.min.y as int,
            b.max.y as int,
        )
    &&& forall|i: int, j: int|
        0 <= i < image.len() && 0 <= j < image[i]@.len() ==> is_row(
            g,
            background,
            b.min.x + i,
            b.min.y + j,
            b.min.z as int,
            count(b.min.z as int, b.max.z as int),
            (#[trigger] image[i]@[j])@,
        )
}

fn sample_cell(g: &Grid, p: Point, background: i64) -> (v: i64)
    requires
        g.wf(),
    ensures
        v == sample_value(g.cell_at(p@), background),
{
    match g.get(p) {
        Cell::Active(v) => v,
        _ => background,
    }
}

fn sample_row(g: &Grid, background: i64, x: i64, y: i64, b: Bounds) -> (row: Vec<i64>)
    requires
        g.wf(),
        b.min@.in_lattice(),
        b.max@.in_lattice(),
    ensures
        is_row(
            g,
            background,
            x as int,
            y as int,
            b.min.z as int,
            count(b.min.z as int, b.max.z as int),
            row@,
        ),
{
    let mut row: Vec<i64> = Vec::new();
    let mut z: i64 = b.min.z;
    while z <= b.max.z
        invariant
            g.wf(),
            b.min@.in_lattice(),
            b.max@.in_lattice(),
            b.min.z <= z,
            b.max.z >= b.min.z ==> z <= b.max.z + 1,
            b.max.z < b.min.z ==> z == b.min.z,
            row@.len() == z - b.min.z,
            forall|k: int|
                0 <= k < row@.len() ==> #[trigger] row@[k] == sample_value(
                    g.cell_at(Pos { x: x as int, y: y as int, z: b.min.z + k }),
                    background,
                ),
        decreases b.max.z + 1 - z,
    {
        let v = sample_cell(g, Point { x, y, z }, background);
        row.push(v);
        z += 1;
    }
    row
}

impl Grid {
    /// The field sampled at every position of the box `b`: the stored
    /// distance where there is one, `background` elsewhere.
    ///
    /// The sample at `b.min + (i, j, k)` is `image[i][j][k]`.  A box that
    /// reaches beyond the lattice is refused.
    pub fn sample_box(&self, b: Bounds, background: i64) -> (r: Option<Vec<Vec<Vec<i64>>>>)
        requires
            self.wf(),
        ensures
            r is Some == (b.min@.in_lattice() && b.max@.in_lattice()),
            r matches Some(image) ==> is_image(self, background, b, image@),
    {
        if !b.min.in_lattice() || !b.max.in_lattice() {
            return None;
        }
        let mut image: Vec<Vec<Vec<i64>>> = Vec::new();
        let mut x: i64 = b.min.x;
        while x <= b.max.x
            invariant
                self.wf(),
                b.min@.in_lattice(),
                b.max@.in_lattice(),
                b.min.x <= x,
                b.max.x >= b.min.x ==> x <= b.max.x + 1,
            b.max.x < b.min.x ==> x == b.min.x,
                image@.len() == x - b.min.x,
                forall|i: int|
                    0 <= i < image@.len() ==> (#[trigger] image@[i])@.len() == count(
                        b.min.y as int,
                        b.max.y as int,
                    ),
                forall|i: int, j: int|
                    0 <= i < image@.len() && 0 <= j < image@[i]@.len() ==> is_row(
                        self,
                        background,
                        b.min.x + i,
                        b.min.y + j,
                        b.min.z as int,
                        count(b.min.z as int, b.max.z as int),
                        (#[trigger] image@[i]@[j])@,
                    ),
            decreases b.max.x + 1 - x,
        {
            let mut plane: Vec<Vec<i64>> = Vec::new();
            let mut y: i64 = b.min.y;
            while y <= b.max.y
                invariant
                    self.wf(),
                    b.min@.in_lattice(),
                    b.max@.in_lattice(),
                    b.min.y <= y,
                    b.max.y >= b.min.y ==> y <= b.max.y + 1,
            b.max.y < b.min.y ==> y == b.min.y,
                    plane@.len() == y - b.min.y,
                    forall|j: int|
                        0 <= j < plane@.len() ==> is_row(
                            self,
                            background,
                            x as int,
                            b.min.y + j,
                            b.min.z as int,
                            count(b.min.z as int, b.max.z as int),
                            (#[trigger] plane@[j])@,
                        ),
                decreases b.max.y + 1 - y,
            {
                let row = sample_row(self, background, x, y, b);
                plane.push(row);
                y += 1;
            }
            let ghost prev = image@;
            image.push(plane);
            proof {
                assert forall|i: int, j: int|
                    0 <= i < image@.len() && 0 <= j < image@[i]@.len() implies is_row(
                    self,
                    background,
                    b.min.x + i,
                    b.min.y + j,
                    b.min.z as int,
                    count(b.min.z as int, b.max.z as int),
                    (#[trigger] image@[i]@[j])@,
                ) by {
                    if i < prev.len() {
                        assert(image@[i] == prev[i]);
                    }
                }
            }
            x += 1;
        }
        Some(image)
    }
}

} // verus!
