use voxel_sdf::cell::{Cell, VALUE_MAX};
use voxel_sdf::grid::Grid;
use voxel_sdf::point::{Point, COORD_MAX, VOXEL_MAX};
use voxel_sdf::trim::trim_to_band;
use voxel_sdf::volume::{Volume, VolumeError};

const UNIT: i64 = 1024;

fn sphere(radius: i64) -> impl Fn(Point) -> i64 {
    move |p: Point| {
        let (dx, dy, dz) = (p.x as f64, p.y as f64, p.z as f64);
        (dx * dx + dy * dy + dz * dz).sqrt().round() as i64 - radius
    }
}

fn ball(radius: i64, narrow_band_width: usize) -> Volume {
    let r = (radius + 6) * UNIT;
    Volume::from_fn(
        UNIT,
        Point::new(-r, -r, -r),
        Point::new(r, r, r),
        narrow_band_width,
        sphere(radius * UNIT),
    )
    .unwrap()
}

#[test]
fn offset_by_zero_leaves_the_surface_where_it_is() {
    let vol = ball(5, 2);
    let band = trim_to_band(vol.grid(), UNIT).active_voxels();
    assert!(!band.is_empty());
    let same = vol.clone().offset(0).unwrap();
    for v in band.iter() {
        assert_eq!(same.grid().get(v.point), Cell::Active(v.value));
    }
    // what was added lies outside, within two voxels
    for v in same.grid().active_voxels() {
        if vol.grid().get(v.point) != Cell::Active(v.value) || !band.contains(&v) {
            assert!(v.value >= 0 && v.value <= 2 * UNIT);
        }
    }
    assert_eq!(same.voxel_size(), UNIT);
}

#[test]
fn offset_shifts_the_bracketing_voxels_exactly() {
    let vol = ball(5, 2);
    let band = trim_to_band(vol.grid(), UNIT).active_voxels();
    let d = 700;
    let moved = vol.offset(d).unwrap();
    for v in band.iter() {
        assert_eq!(moved.grid().get(v.point), Cell::Active(v.value - d));
    }
}

#[test]
fn offset_inward_shrinks_the_sphere() {
    let f = sphere(4 * UNIT);
    let shrunk = ball(5, 2).offset(-UNIT).unwrap();
    let mut seen = 0usize;
    for v in shrunk.grid().active_voxels() {
        let p = v.point;
        let exact = f(Point::new(p.x * UNIT, p.y * UNIT, p.z * UNIT));
        assert!((v.value - exact).abs() <= UNIT, "{:?}: {} for {}", p, v.value, exact);
        seen += 1;
    }
    assert!(seen > 0);
    assert_eq!(shrunk.grid().get(Point::new(4, 0, 0)), Cell::Active(0));
    match shrunk.grid().get(Point::new(3, 0, 0)) {
        Cell::Active(v) => assert!((v + UNIT).abs() <= UNIT / 8, "{}", v),
        other => panic!("no distance one voxel inside: {:?}", other),
    }
}

#[test]
fn offsets_compose_within_a_voxel() {
    let twice = ball(5, 2).offset(UNIT / 2).unwrap().offset(UNIT / 2).unwrap();
    let once = ball(5, 2).offset(UNIT).unwrap();
    let mut common = 0usize;
    for v in once.grid().active_voxels() {
        if let Cell::Active(w) = twice.grid().get(v.point) {
            common += 1;
            assert!((v.value - w).abs() <= UNIT, "{:?}: {} and {}", v.point, v.value, w);
        }
    }
    assert!(common > 100);
    // both surfaces cross the x axis next to radius 6
    for vol in [&once, &twice] {
        match (vol.grid().get(Point::new(5, 0, 0)), vol.grid().get(Point::new(7, 0, 0))) {
            (Cell::Active(a), Cell::Active(b)) => assert!(a < 0 && b > 0),
            other => panic!("no band around radius 6: {:?}", other),
        }
    }
}

#[test]
fn offset_refuses_distances_out_of_range() {
    let r = ball(5, 2).offset(VALUE_MAX);
    assert_eq!(r.err(), Some(VolumeError::OutOfRange));
    let r = ball(5, 2).offset(i64::MIN);
    assert_eq!(r.err(), Some(VolumeError::OutOfRange));
    let r = ball(5, 2).offset(VALUE_MAX - 2 * UNIT + 1);
    assert_eq!(r.err(), Some(VolumeError::OutOfRange));
    // a voxel next to the surface whose shifted distance cannot be stored
    let mut g = Grid::empty();
    g.insert(Point::new(0, 0, 0), VALUE_MAX);
    g.insert(Point::new(1, 0, 0), -5);
    let vol = Volume::new(g, UNIT).unwrap();
    assert_eq!(vol.clone().offset(-1).err(), Some(VolumeError::OutOfRange));
    let ok = vol.offset(1).unwrap();
    assert_eq!(ok.grid().get(Point::new(0, 0, 0)), Cell::Active(VALUE_MAX - 1));
    assert_eq!(ok.grid().get(Point::new(1, 0, 0)), Cell::Active(-6));
}

#[test]
fn offset_of_the_empty_volume_is_empty() {
    let vol = Volume::new(Grid::empty(), UNIT).unwrap();
    let r = vol.offset(3 * UNIT).unwrap();
    assert!(r.grid().active_voxels().is_empty());
    assert_eq!(r.grid().get(Point::new(0, 0, 0)), Cell::Empty);
}

#[test]
fn construction_rounds_the_box_outward() {
    let vol = Volume::from_fn(10, Point::new(-11, 0, 5), Point::new(11, 0, 5), 0, |_p: Point| 0)
        .unwrap();
    // x from floor(-1.1) = -2 to ceil(1.1) = 2, y = 0, z from 0 to 1
    let mut points: Vec<Point> = vol.grid().active_voxels().iter().map(|v| v.point).collect();
    points.sort_by_key(|p| (p.x, p.y, p.z));
    let mut expected = Vec::new();
    for x in -2..=2i64 {
        for z in 0..=1i64 {
            expected.push(Point::new(x, 0, z));
        }
    }
    assert_eq!(points, expected);
}

#[test]
fn construction_samples_at_world_positions() {
    let vol = Volume::from_fn(10, Point::new(0, 0, 0), Point::new(30, 20, 10), 100, |p: Point| {
        p.x + 2 * p.y - 3 * p.z
    })
    .unwrap();
    assert_eq!(vol.grid().get(Point::new(3, 2, 1)), Cell::Active(30 + 40 - 30));
    assert_eq!(vol.grid().get(Point::new(0, 0, 1)), Cell::Active(-30));
    assert_eq!(vol.grid().get(Point::new(1, 0, 0)), Cell::Active(10));
    assert_eq!(vol.grid().get(Point::new(4, 0, 0)), Cell::Empty);
    assert_eq!(vol.grid().active_voxels().len(), 4 * 3 * 2);
}

#[test]
fn construction_keeps_the_band_edge() {
    // band half-width (2 + 1) * 10 = 30: |value| = 30 is kept, 31 is not
    let vol = Volume::from_fn(10, Point::new(0, 0, 0), Point::new(40, 0, 0), 2, |p: Point| {
        match p.x {
            0 => 30,
            10 => -30,
            20 => 31,
            30 => -31,
            _ => 0,
        }
    })
    .unwrap();
    assert_eq!(vol.grid().get(Point::new(0, 0, 0)), Cell::Active(30));
    assert_eq!(vol.grid().get(Point::new(1, 0, 0)), Cell::Active(-30));
    assert_eq!(vol.grid().get(Point::new(2, 0, 0)), Cell::Empty);
    assert_eq!(vol.grid().get(Point::new(3, 0, 0)), Cell::Empty);
    assert_eq!(vol.grid().get(Point::new(4, 0, 0)), Cell::Active(0));
}

#[test]
fn construction_over_an_inverted_box_is_empty() {
    let vol = Volume::from_fn(UNIT, Point::new(5, 0, 0), Point::new(4, 9, 9), 2, |_p: Point| 0)
        .unwrap();
    assert!(vol.grid().active_voxels().is_empty());
    assert_eq!(vol.grid().leaf_count(), 0);
    let vol = Volume::from_fn(UNIT, Point::new(0, 0, 1), Point::new(0, 0, 0), 2, |_p: Point| 0)
        .unwrap();
    assert!(vol.grid().active_voxels().is_empty());
    // a box of one point is not empty
    let vol = Volume::from_fn(UNIT, Point::new(0, 0, 0), Point::new(0, 0, 0), 2, |_p: Point| 7)
        .unwrap();
    assert_eq!(vol.grid().active_voxels().len(), 1);
}

#[test]
fn construction_refuses_what_the_lattice_cannot_hold() {
    let far = Point::new(COORD_MAX + 1, 0, 0);
    let r = Volume::from_fn(1, Point::new(COORD_MAX, 0, 0), far, 2, |_p: Point| 0);
    assert_eq!(r.err(), Some(VolumeError::OutOfRange));
    let r = Volume::from_fn(1, Point::new(0, 0, 0), Point::new(0, 0, 0), usize::MAX, |_p: Point| 0);
    assert_eq!(r.err(), Some(VolumeError::OutOfRange));
    let r = Volume::from_fn(VOXEL_MAX + 1, Point::new(0, 0, 0), Point::new(0, 0, 0), 2, |_p: Point| 0);
    assert_eq!(r.err(), Some(VolumeError::InvalidVoxelSize));
    let r = Volume::from_fn(VOXEL_MAX, Point::new(0, 0, 0), Point::new(0, 0, 0), 2, |_p: Point| 0);
    assert!(r.is_ok());
    assert_eq!(Volume::new(Grid::empty(), 0).err(), Some(VolumeError::InvalidVoxelSize));
}

#[test]
fn band_size_follows_the_surface_not_the_volume() {
    // a ball of twice the radius has four times the surface and eight
    // times the volume
    let small = ball(5, 1).grid().active_voxels().len();
    let large = ball(10, 1).grid().active_voxels().len();
    assert!(large < 5 * small);
    assert!(large > 3 * small);
    // at most about (2 * band + 1) voxels per unit of surface: band = 2
    let area = |r: f64| 4.0 * std::f64::consts::PI * r * r;
    assert!((small as f64) < 6.0 * area(5.0));
    assert!((large as f64) < 6.0 * area(10.0));
}

#[test]
fn clone_of_a_volume_is_independent() {
    let vol = ball(5, 2);
    let copy = vol.clone();
    let moved = vol.offset(UNIT).unwrap();
    assert_eq!(copy.grid().get(Point::new(5, 0, 0)), Cell::Active(0));
    assert_eq!(moved.grid().get(Point::new(5, 0, 0)), Cell::Active(-UNIT));
    assert_eq!(copy.voxel_size(), UNIT);
}
