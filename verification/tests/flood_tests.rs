use voxel_sdf::cell::{Cell, Side};
use voxel_sdf::grid::Grid;
use voxel_sdf::point::Point;
use voxel_sdf::volume::Volume;

const UNIT: i64 = 1024;

fn sphere(cx: i64, cy: i64, cz: i64, radius: i64) -> impl Fn(Point) -> i64 {
    move |p: Point| {
        let dx = (p.x - cx) as f64;
        let dy = (p.y - cy) as f64;
        let dz = (p.z - cz) as f64;
        (dx * dx + dy * dy + dz * dz).sqrt().round() as i64 - radius
    }
}

fn side_of(v: i64) -> Side {
    if v < 0 {
        Side::Inside
    } else {
        Side::Outside
    }
}

#[test]
fn flood_fill_of_an_empty_grid_is_outside_everywhere() {
    let mut g = Grid::empty();
    g.flood_fill();
    assert_eq!(g.get(Point::new(0, 0, 0)), Cell::Filled(Side::Outside));
    assert_eq!(g.get(Point::new(-77, 5, 900)), Cell::Filled(Side::Outside));
    assert_eq!(g.leaf_count(), 0);
}

#[test]
fn flood_fill_takes_the_side_of_the_nearest_voxel() {
    let mut g = Grid::empty();
    g.insert(Point::new(0, 0, 0), -3);
    g.insert(Point::new(10, 0, 0), 4);
    g.flood_fill();
    for x in 1..=4i64 {
        assert_eq!(g.get(Point::new(x, 0, 0)), Cell::Filled(Side::Inside));
    }
    // five steps from either voxel: the first in lexicographic order decides
    assert_eq!(g.get(Point::new(5, 0, 0)), Cell::Filled(Side::Inside));
    for x in 6..=9i64 {
        assert_eq!(g.get(Point::new(x, 0, 0)), Cell::Filled(Side::Outside));
    }
    assert_eq!(g.get(Point::new(0, 0, 0)), Cell::Active(-3));
    assert_eq!(g.get(Point::new(10, 0, 0)), Cell::Active(4));
    // beyond the bounding box of the voxels
    assert_eq!(g.get(Point::new(-1, 0, 0)), Cell::Filled(Side::Outside));
    assert_eq!(g.get(Point::new(3, 1, 0)), Cell::Filled(Side::Outside));
    assert_eq!(g.get(Point::new(3, 0, -1)), Cell::Filled(Side::Outside));
}

#[test]
fn flood_fill_keeps_sides_that_are_already_known() {
    let mut g = Grid::empty();
    g.insert(Point::new(0, 0, 0), -3);
    g.insert(Point::new(4, 0, 0), -3);
    g.flood_fill();
    assert_eq!(g.get(Point::new(2, 0, 0)), Cell::Filled(Side::Inside));
    g.insert(Point::new(3, 0, 0), 9);
    g.flood_fill();
    assert_eq!(g.get(Point::new(2, 0, 0)), Cell::Filled(Side::Inside));
    assert_eq!(g.get(Point::new(3, 0, 0)), Cell::Active(9));
}

#[test]
fn flood_fill_gives_every_point_of_a_sphere_its_side() {
    let f = sphere(0, 0, 0, 5 * UNIT);
    let half = 10 * UNIT;
    let vol = Volume::from_fn(
        UNIT,
        Point::new(-half, -half, -half),
        Point::new(half, half, half),
        1,
        &f,
    )
    .unwrap();
    let mut g = vol.grid().clone();
    g.flood_fill();
    for x in -14..=14i64 {
        for y in -14..=14i64 {
            for z in -14..=14i64 {
                let d = f(Point::new(x * UNIT, y * UNIT, z * UNIT));
                let c = g.get(Point::new(x, y, z));
                assert_eq!(c.side_of(), Some(side_of(d)), "at {} {} {}", x, y, z);
                if d.abs() <= 2 * UNIT && x.abs() <= 10 && y.abs() <= 10 && z.abs() <= 10 {
                    assert_eq!(c, Cell::Active(d));
                } else {
                    assert_eq!(c, Cell::Filled(side_of(d)));
                }
            }
        }
    }
}

#[test]
fn flood_fill_stores_far_blocks_as_tiles() {
    // the block with corners (0,0,0) and (7,7,7) lies deep inside the sphere
    let f = sphere(4 * UNIT, 4 * UNIT, 4 * UNIT, 9 * UNIT);
    let vol = Volume::from_fn(
        UNIT,
        Point::new(-8 * UNIT, -8 * UNIT, -8 * UNIT),
        Point::new(16 * UNIT, 16 * UNIT, 16 * UNIT),
        0,
        &f,
    )
    .unwrap();
    let mut g = vol.grid().clone();
    let before = g.leaf_count();
    assert!((0..before).all(|i| !g.leaf(i).is_tile()));
    assert!((0..before).all(|i| g.leaf(i).corner() != Point::new(0, 0, 0)));
    g.flood_fill();
    let inner = (0..g.leaf_count())
        .map(|i| g.leaf(i))
        .find(|l| l.corner() == Point::new(0, 0, 0))
        .expect("a leaf for the inner block");
    assert!(inner.is_tile());
    assert_eq!(inner.cell_in_slot(0), Cell::Filled(Side::Inside));
    assert_eq!(inner.cell_at_point(Point::new(7, 7, 7)), Cell::Filled(Side::Inside));
    assert_eq!(g.get(Point::new(3, 4, 5)), Cell::Filled(Side::Inside));
    // a voxel stored into a tile turns the tile into a dense leaf
    assert!(g.insert(Point::new(3, 4, 5), -6 * UNIT));
    let inner = (0..g.leaf_count())
        .map(|i| g.leaf(i))
        .find(|l| l.corner() == Point::new(0, 0, 0))
        .unwrap();
    assert!(!inner.is_tile());
    assert_eq!(g.get(Point::new(3, 4, 5)), Cell::Active(-6 * UNIT));
    assert_eq!(g.get(Point::new(3, 4, 6)), Cell::Filled(Side::Inside));
}

#[test]
fn trim_counts_tiles_as_neighbours() {
    // the block with corners (0,0,0) and (7,7,7) becomes a tile inside the sphere
    let f = sphere(4 * UNIT, 4 * UNIT, 4 * UNIT, 9 * UNIT);
    let vol = Volume::from_fn(
        UNIT,
        Point::new(-8 * UNIT, -8 * UNIT, -8 * UNIT),
        Point::new(16 * UNIT, 16 * UNIT, 16 * UNIT),
        0,
        &f,
    )
    .unwrap();
    let mut g = vol.grid().clone();
    g.flood_fill();
    // two far voxels next to the tile, one on either side of the surface
    assert_eq!(g.get(Point::new(0, 4, 4)), Cell::Filled(Side::Inside));
    assert!(g.insert(Point::new(-1, 4, 4), 5 * UNIT));
    assert!(g.insert(Point::new(-1, 4, 5), -5 * UNIT));
    let t = voxel_sdf::trim::trim_to_band(&g, UNIT);
    assert_eq!(t.get(Point::new(-1, 4, 4)), Cell::Active(5 * UNIT));
    assert_eq!(t.get(Point::new(0, 4, 4)), Cell::Empty);
    assert_eq!(t.leaf_count() > 0, true);
    // the inside voxel has the outside voxel as its neighbour
    assert_eq!(t.get(Point::new(-1, 4, 5)), Cell::Active(-5 * UNIT));
    // next to the tile alone, an inside voxel is dropped
    let mut h = vol.grid().clone();
    h.flood_fill();
    assert!(h.insert(Point::new(-1, 4, 5), -5 * UNIT));
    let t = voxel_sdf::trim::trim_to_band(&h, UNIT);
    assert_eq!(t.get(Point::new(-1, 4, 5)), Cell::Empty);
}
