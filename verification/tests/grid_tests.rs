use voxel_sdf::cell::{Cell, Side, VALUE_MAX};
use voxel_sdf::grid::{Grid, Voxel};
use voxel_sdf::point::{Bounds, Point, COORD_MAX, COORD_MIN};
use voxel_sdf::trim::trim_to_band;

#[test]
fn empty_grid_is_background_everywhere() {
    let g = Grid::empty();
    assert_eq!(g.get(Point::new(0, 0, 0)), Cell::Empty);
    assert_eq!(g.get(Point::new(-1000, 7, 123456)), Cell::Empty);
    assert_eq!(g.leaf_count(), 0);
    assert_eq!(g.active_bounds(), None);
    assert!(g.active_voxels().is_empty());
}

#[test]
fn insert_activates_one_voxel() {
    let mut g = Grid::empty();
    assert!(g.insert(Point::new(3, -4, 5), 17));
    assert_eq!(g.get(Point::new(3, -4, 5)), Cell::Active(17));
    assert_eq!(g.get(Point::new(3, -4, 6)), Cell::Empty);
    assert_eq!(g.get(Point::new(4, -4, 5)), Cell::Empty);
    assert_eq!(g.get(Point::new(3, -5, 5)), Cell::Empty);
    assert!(g.insert(Point::new(3, -4, 5), -2));
    assert_eq!(g.get(Point::new(3, -4, 5)), Cell::Active(-2));
    assert_eq!(g.active_voxels(), vec![Voxel { point: Point::new(3, -4, 5), value: -2 }]);
}

#[test]
fn voxels_of_one_block_share_a_leaf() {
    let mut g = Grid::empty();
    g.insert(Point::new(0, 0, 0), 1);
    g.insert(Point::new(7, 7, 7), 2);
    assert_eq!(g.leaf_count(), 1);
    g.insert(Point::new(8, 0, 0), 3);
    g.insert(Point::new(-1, 0, 0), 4);
    assert_eq!(g.leaf_count(), 3);
    let mut origins: Vec<Point> = (0..g.leaf_count()).map(|i| g.leaf(i).corner()).collect();
    origins.sort_by_key(|p| p.x);
    assert_eq!(origins, vec![Point::new(-8, 0, 0), Point::new(0, 0, 0), Point::new(8, 0, 0)]);
    assert_eq!(g.leaf(0).size(), 8);
    assert!(!g.leaf(0).is_tile());
    assert_eq!(g.get(Point::new(-1, 0, 0)), Cell::Active(4));
    assert_eq!(g.get(Point::new(7, 7, 7)), Cell::Active(2));
    // the index finds each leaf by the origin of its block
    assert_eq!(g.index.len(), 3);
    for i in 0..g.leaf_count() {
        assert_eq!(g.find_leaf(g.leaf(i).corner()), Some(i));
    }
    assert_eq!(g.find_leaf(Point::new(16, 0, 0)), None);
    assert_eq!(g.find_leaf(Point::new(1, 0, 0)), None);
    assert_eq!(g.find_leaf(Point::new(COORD_MAX + 1, 0, 0)), None);
}

#[test]
fn a_large_grid_is_read_back_voxel_by_voxel() {
    let mut g = Grid::empty();
    let value = |x: i64, y: i64, z: i64| 1000 * x + 10 * y + z;
    for x in -40..40i64 {
        for y in -20..20i64 {
            for z in 0..10i64 {
                assert!(g.insert(Point::new(3 * x, 3 * y, 5 * z), value(x, y, z)));
            }
        }
    }
    assert_eq!(g.active_voxels().len(), 80 * 40 * 10);
    assert_eq!(g.index.len(), g.leaf_count());
    for x in -40..40i64 {
        for y in -20..20i64 {
            for z in 0..10i64 {
                assert_eq!(g.get(Point::new(3 * x, 3 * y, 5 * z)), Cell::Active(value(x, y, z)));
                assert_eq!(g.get(Point::new(3 * x + 1, 3 * y, 5 * z)), Cell::Empty);
            }
        }
    }
    let copy = g.clone();
    assert_eq!(copy.get(Point::new(-120, -60, 0)), Cell::Active(value(-40, -20, 0)));
    assert_eq!(copy.index.len(), copy.leaf_count());
}

#[test]
fn insert_refuses_what_the_lattice_cannot_hold() {
    let mut g = Grid::empty();
    assert!(!g.insert(Point::new(COORD_MAX + 1, 0, 0), 1));
    assert!(!g.insert(Point::new(0, COORD_MIN - 1, 0), 1));
    assert!(!g.insert(Point::new(0, 0, 0), VALUE_MAX + 1));
    assert!(!g.insert(Point::new(0, 0, 0), -VALUE_MAX - 1));
    assert_eq!(g.leaf_count(), 0);
    assert!(g.insert(Point::new(COORD_MAX, COORD_MIN, 0), VALUE_MAX));
    assert!(g.insert(Point::new(COORD_MIN, COORD_MAX, 0), -VALUE_MAX));
    assert_eq!(g.get(Point::new(COORD_MAX, COORD_MIN, 0)), Cell::Active(VALUE_MAX));
    assert_eq!(g.get(Point::new(COORD_MAX + 1, COORD_MIN, 0)), Cell::Empty);
}

#[test]
fn bounds_are_the_extreme_active_coordinates() {
    let mut g = Grid::empty();
    g.insert(Point::new(3, -4, 5), 1);
    assert_eq!(
        g.active_bounds(),
        Some(Bounds { min: Point::new(3, -4, 5), max: Point::new(3, -4, 5) })
    );
    g.insert(Point::new(-20, 9, 5), 1);
    g.insert(Point::new(0, 0, 40), 1);
    assert_eq!(
        g.active_bounds(),
        Some(Bounds { min: Point::new(-20, -4, 5), max: Point::new(3, 9, 40) })
    );
    let b = g.active_bounds().unwrap();
    assert!(b.holds(Point::new(0, 0, 5)));
    assert!(!b.holds(Point::new(0, 0, 4)));
}

#[test]
fn map_values_rewrites_every_distance() {
    let mut g = Grid::empty();
    g.insert(Point::new(1, 1, 1), 10);
    g.insert(Point::new(-30, 2, 9), -7);
    g.map_values(|v: i64| 2 * v + 1);
    assert_eq!(g.get(Point::new(1, 1, 1)), Cell::Active(21));
    assert_eq!(g.get(Point::new(-30, 2, 9)), Cell::Active(-13));
    assert_eq!(g.get(Point::new(0, 0, 0)), Cell::Empty);
    assert_eq!(g.active_voxels().len(), 2);
}

#[test]
fn can_shift_checks_every_distance() {
    let mut g = Grid::empty();
    g.insert(Point::new(1, 1, 1), VALUE_MAX - 5);
    g.insert(Point::new(2, 1, 1), -3);
    assert!(g.can_shift(0));
    assert!(g.can_shift(10));
    assert!(g.can_shift(-5));
    assert!(!g.can_shift(-6));
    assert!(!g.can_shift(VALUE_MAX));
}

#[test]
fn clone_is_independent() {
    let mut g = Grid::empty();
    g.insert(Point::new(1, 2, 3), 4);
    let mut h = g.clone();
    h.insert(Point::new(1, 2, 3), 5);
    h.insert(Point::new(100, 2, 3), 6);
    assert_eq!(g.get(Point::new(1, 2, 3)), Cell::Active(4));
    assert_eq!(g.get(Point::new(100, 2, 3)), Cell::Empty);
    assert_eq!(h.get(Point::new(1, 2, 3)), Cell::Active(5));
    assert_eq!(h.get(Point::new(100, 2, 3)), Cell::Active(6));
}

#[test]
fn sample_box_reads_distances_and_background() {
    let mut g = Grid::empty();
    g.insert(Point::new(0, 0, 0), 5);
    g.insert(Point::new(1, 2, 3), -6);
    g.flood_fill();
    let b = Bounds { min: Point::new(-1, 0, 0), max: Point::new(1, 2, 3) };
    let image = g.sample_box(b, 1000).unwrap();
    assert_eq!(image.len(), 3);
    assert_eq!(image[0].len(), 3);
    assert_eq!(image[0][0].len(), 4);
    for i in 0..3usize {
        for j in 0..3usize {
            for k in 0..4usize {
                let expected = match (i, j, k) {
                    (1, 0, 0) => 5,
                    (2, 2, 3) => -6,
                    _ => 1000,
                };
                assert_eq!(image[i][j][k], expected);
            }
        }
    }
    let inverted = Bounds { min: Point::new(1, 0, 0), max: Point::new(0, 0, 0) };
    assert_eq!(g.sample_box(inverted, 0), Some(vec![]));
    let too_far = Bounds { min: Point::new(0, 0, 0), max: Point::new(COORD_MAX + 1, 0, 0) };
    assert_eq!(g.sample_box(too_far, 0), None);
}

#[test]
fn trim_keeps_the_voxels_that_bracket_the_surface() {
    // a ramp along x with the surface between x = 0 and x = 1
    let mut g = Grid::empty();
    for x in -3..=4i64 {
        g.insert(Point::new(x, 0, 0), (2 * x - 1) * 100);
    }
    let t = trim_to_band(&g, 150);
    // values: x=-3:-700, -2:-500, -1:-300, 0:-100, 1:100, 2:300, 3:500, 4:700
    assert_eq!(t.get(Point::new(0, 0, 0)), Cell::Active(-100));
    assert_eq!(t.get(Point::new(1, 0, 0)), Cell::Active(100));
    for x in [-3i64, -2, -1, 2, 3, 4] {
        assert_eq!(t.get(Point::new(x, 0, 0)), Cell::Empty);
    }
    assert_eq!(t.active_voxels().len(), 2);
}

#[test]
fn trim_keeps_voxels_nearer_than_one_step() {
    let mut g = Grid::empty();
    g.insert(Point::new(0, 0, 0), 99);
    g.insert(Point::new(5, 0, 0), 100);
    g.insert(Point::new(9, 0, 0), -99);
    g.insert(Point::new(12, 0, 0), -100);
    let t = trim_to_band(&g, 100);
    assert_eq!(t.get(Point::new(0, 0, 0)), Cell::Active(99));
    assert_eq!(t.get(Point::new(5, 0, 0)), Cell::Empty);
    assert_eq!(t.get(Point::new(9, 0, 0)), Cell::Active(-99));
    assert_eq!(t.get(Point::new(12, 0, 0)), Cell::Empty);
}

#[test]
fn trim_counts_flood_filled_neighbours() {
    let mut g = Grid::empty();
    g.insert(Point::new(0, 0, 0), 500);
    g.insert(Point::new(0, 0, 2), -500);
    // without sides around them, neither voxel brackets the surface
    assert!(trim_to_band(&g, 100).active_voxels().is_empty());
    g.flood_fill();
    // (0,0,1) is as near to (0,0,0) as to (0,0,2); (0,0,0) comes first
    assert_eq!(g.get(Point::new(0, 0, 1)), Cell::Filled(Side::Outside));
    let t = trim_to_band(&g, 100);
    assert_eq!(t.get(Point::new(0, 0, 0)), Cell::Empty);
    assert_eq!(t.get(Point::new(0, 0, 2)), Cell::Active(-500));
    assert_eq!(t.get(Point::new(0, 0, 1)), Cell::Empty);
    assert_eq!(t.active_voxels().len(), 1);
}
