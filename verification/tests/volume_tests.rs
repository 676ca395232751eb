use voxel_sdf::cell::Cell;
use voxel_sdf::point::Point;
use voxel_sdf::volume::{Volume, VolumeError};

const UNIT: i64 = 1024;

fn sphere(cx: i64, cy: i64, cz: i64, radius: i64) -> impl Fn(Point) -> i64 {
    move |p: Point| {
        let dx = (p.x - cx) as f64;
        let dy = (p.y - cy) as f64;
        let dz = (p.z - cz) as f64;
        (dx * dx + dy * dy + dz * dz).sqrt().round() as i64 - radius
    }
}

fn cube(half: i64) -> (Point, Point) {
    (Point::new(-half, -half, -half), Point::new(half, half, half))
}

#[test]
fn sphere_band_holds_exactly_the_near_voxels() {
    let f = sphere(0, 0, 0, 5 * UNIT);
    let (min, max) = cube(10 * UNIT);
    let vol = Volume::from_fn(UNIT, min, max, 2, &f).unwrap();
    let mut active = 0usize;
    for x in -12..=12i64 {
        for y in -12..=12i64 {
            for z in -12..=12i64 {
                let p = Point::new(x, y, z);
                let d = f(Point::new(x * UNIT, y * UNIT, z * UNIT));
                let inside_box = x.abs() <= 10 && y.abs() <= 10 && z.abs() <= 10;
                let expected = if inside_box && d.abs() <= 3 * UNIT {
                    active += 1;
                    Cell::Active(d)
                } else {
                    Cell::Empty
                };
                assert_eq!(vol.grid().get(p), expected);
            }
        }
    }
    assert_eq!(vol.grid().active_voxels().len(), active);
    assert_eq!(vol.voxel_size(), UNIT);
}

#[test]
fn offset_moves_sphere_surface_outward() {
    let f = sphere(0, 0, 0, 5 * UNIT);
    let (min, max) = cube(10 * UNIT);
    let vol = Volume::from_fn(UNIT, min, max, 2, &f).unwrap();
    let grown = vol.offset(UNIT).unwrap();
    let mut crossing = None;
    for x in 0..12i64 {
        let a = grown.grid().get(Point::new(x, 0, 0));
        let b = grown.grid().get(Point::new(x + 1, 0, 0));
        if let (Cell::Active(va), Cell::Active(vb)) = (a, b) {
            if va < 0 && vb >= 0 {
                crossing = Some((x, va, vb));
            }
        }
    }
    let (x, va, vb) = crossing.expect("a zero crossing on the x axis");
    assert!(x >= 5 && x + 1 <= 7, "crossing between {} and {}", x, x + 1);
    assert!(va.abs() <= UNIT && vb.abs() <= UNIT);
    assert_eq!(grown.grid().get(Point::new(6, 0, 0)), Cell::Active(0));
}

#[test]
fn invalid_voxel_size_is_rejected() {
    let (min, max) = cube(UNIT);
    let r = Volume::from_fn(0, min, max, 2, |_p: Point| 0);
    assert_eq!(r.err(), Some(VolumeError::InvalidVoxelSize));
    let r = Volume::from_fn(-3, min, max, 2, |_p: Point| 0);
    assert_eq!(r.err(), Some(VolumeError::InvalidVoxelSize));
}
