use voxel_sdf::cell::{Cell, Side};
use voxel_sdf::grid::Grid;
use voxel_sdf::point::Point;
use voxel_sdf::volume::{Volume, VolumeError};

const UNIT: i64 = 1024;

fn sphere(cx: i64, cy: i64, cz: i64, radius: i64) -> impl Fn(Point) -> i64 {
    move |p: Point| {
        let dx = (p.x - cx) as f64;
        let dy = (p.y - cy) as f64;
        let dz = (p.z - cz) as f64;
        (dx * dx + dy * dy + dz * dz).sqrt().round() as i64 - radius
    }
}

fn ball(cx: i64, radius: i64) -> Volume {
    let f = sphere(cx * UNIT, 0, 0, radius * UNIT);
    let r = (radius + 4) * UNIT;
    Volume::from_fn(
        UNIT,
        Point::new(cx * UNIT - r, -r, -r),
        Point::new(cx * UNIT + r, r, r),
        2,
        f,
    )
    .unwrap()
}

fn side_of(v: i64) -> Side {
    if v < 0 {
        Side::Inside
    } else {
        Side::Outside
    }
}

/// Checks `result` against the exact combination `expect(a(p), b(p))` of
/// two spheres of radius 5 around (0,0,0) and (4,0,0).
fn check_pair(result: &Volume, expect: fn(i64, i64) -> i64) {
    let a = sphere(0, 0, 0, 5 * UNIT);
    let b = sphere(4 * UNIT, 0, 0, 5 * UNIT);
    let band = 3 * UNIT;
    let mut stored = 0usize;
    for x in -12..=16i64 {
        for y in -12..=12i64 {
            for z in -12..=12i64 {
                let at = Point::new(x * UNIT, y * UNIT, z * UNIT);
                let (da, db) = (a(at), b(at));
                let want = expect(da, db);
                match result.grid().get(Point::new(x, y, z)) {
                    Cell::Active(v) => {
                        stored += 1;
                        assert_eq!(v, want, "at {} {} {}", x, y, z);
                    },
                    Cell::Filled(s) => assert_eq!(s, side_of(want), "at {} {} {}", x, y, z),
                    Cell::Empty => panic!("no side at {} {} {}", x, y, z),
                }
                if da.abs() <= band && db.abs() <= band {
                    assert_eq!(result.grid().get(Point::new(x, y, z)), Cell::Active(want));
                }
            }
        }
    }
    assert!(stored > 0);
}

#[test]
fn union_of_two_spheres_is_the_minimum() {
    let r = ball(0, 5).union(ball(4, 5)).unwrap();
    check_pair(&r, |a, b| a.min(b));
    assert_eq!(r.voxel_size(), UNIT);
}

#[test]
fn intersection_of_two_spheres_is_the_maximum() {
    let r = ball(0, 5).intersect(ball(4, 5)).unwrap();
    check_pair(&r, |a, b| a.max(b));
}

#[test]
fn difference_of_two_spheres_is_the_maximum_with_the_negation() {
    let r = ball(0, 5).subtract(ball(4, 5)).unwrap();
    check_pair(&r, |a, b| a.max(-b));
}

#[test]
fn operands_of_different_voxel_size_are_rejected() {
    let a = ball(0, 5);
    let b = Volume::new(Grid::empty(), 2 * UNIT).unwrap();
    assert_eq!(a.union(b).err(), Some(VolumeError::VoxelSizeMismatch));
    let a = ball(0, 5);
    let b = Volume::new(Grid::empty(), 2 * UNIT).unwrap();
    assert_eq!(a.intersect(b).err(), Some(VolumeError::VoxelSizeMismatch));
    let a = ball(0, 5);
    let b = Volume::new(Grid::empty(), 2 * UNIT).unwrap();
    assert_eq!(a.subtract(b).err(), Some(VolumeError::VoxelSizeMismatch));
}

#[test]
fn union_with_the_empty_volume_changes_no_distance() {
    let a = ball(0, 5);
    let before = a.grid().active_voxels();
    let e = Volume::new(Grid::empty(), UNIT).unwrap();
    let r = a.union(e).unwrap();
    for v in before.iter() {
        assert_eq!(r.grid().get(v.point), Cell::Active(v.value));
    }
    assert_eq!(r.grid().active_voxels().len(), before.len());
    assert_eq!(r.grid().get(Point::new(0, 0, 0)), Cell::Filled(Side::Inside));
    assert_eq!(r.grid().get(Point::new(100, 0, 0)), Cell::Filled(Side::Outside));
}

#[test]
fn grids_combine_where_only_one_has_a_leaf() {
    let mut a = Grid::empty();
    a.insert(Point::new(0, 0, 0), -5);
    a.flood_fill();
    let mut b = Grid::empty();
    b.insert(Point::new(100, 0, 0), -7);
    b.insert(Point::new(0, 0, 0), 2);
    b.flood_fill();
    let mut u = a.clone();
    u.union(b.clone());
    assert_eq!(u.get(Point::new(0, 0, 0)), Cell::Active(-5));
    assert_eq!(u.get(Point::new(100, 0, 0)), Cell::Active(-7));
    assert_eq!(u.get(Point::new(50, 0, 0)), Cell::Filled(Side::Outside));
    assert_eq!(u.get(Point::new(51, 0, 0)), Cell::Filled(Side::Inside));
    let mut i = a.clone();
    i.intersect(b.clone());
    assert_eq!(i.get(Point::new(0, 0, 0)), Cell::Active(2));
    assert_eq!(i.get(Point::new(100, 0, 0)), Cell::Filled(Side::Outside));
    let mut s = a.clone();
    s.subtract(b);
    assert_eq!(s.get(Point::new(0, 0, 0)), Cell::Active(-2));
    assert_eq!(s.get(Point::new(100, 0, 0)), Cell::Filled(Side::Outside));
}

#[test]
fn union_of_two_larger_spheres_has_the_right_sides() {
    let a = sphere(0, 0, 0, 16 * UNIT);
    let b = sphere(12 * UNIT, 0, 0, 16 * UNIT);
    let r = ball(0, 16).union(ball(12, 16)).unwrap();
    for x in (-24..=36i64).step_by(3) {
        for y in (-24..=24i64).step_by(3) {
            for z in (-24..=24i64).step_by(3) {
                let at = Point::new(x * UNIT, y * UNIT, z * UNIT);
                let want = a(at).min(b(at));
                match r.grid().get(Point::new(x, y, z)) {
                    Cell::Active(v) => assert_eq!(v, want),
                    Cell::Filled(s) => assert_eq!(s, side_of(want), "at {} {} {}", x, y, z),
                    Cell::Empty => panic!("no side at {} {} {}", x, y, z),
                }
            }
        }
    }
    // the overlap holds blocks that lie wholly inside
    assert!((0..r.grid().leaf_count()).any(|i| r.grid().leaf(i).is_tile()));
}
