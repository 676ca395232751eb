use voxel_sdf::cell::{Cell, VALUE_MAX};
use voxel_sdf::grid::Grid;
use voxel_sdf::point::Point;
use voxel_sdf::sweep::FastSweeping;
use voxel_sdf::trim::trim_to_band;
use voxel_sdf::volume::Volume;

const UNIT: i64 = 1024;

fn sphere(radius: i64) -> impl Fn(Point) -> i64 {
    move |p: Point| {
        let (dx, dy, dz) = (p.x as f64, p.y as f64, p.z as f64);
        (dx * dx + dy * dy + dz * dz).sqrt().round() as i64 - radius
    }
}

fn ball(radius: i64, narrow_band_width: usize) -> Volume {
    let r = (radius + 6) * UNIT;
    Volume::from_fn(
        UNIT,
        Point::new(-r, -r, -r),
        Point::new(r, r, r),
        narrow_band_width,
        sphere(radius * UNIT),
    )
    .unwrap()
}

#[test]
fn engine_checks_its_parameters() {
    assert!(FastSweeping::new(UNIT, 3 * UNIT).is_some());
    assert!(FastSweeping::new(UNIT, -3 * UNIT).is_some());
    assert!(FastSweeping::new(0, 3 * UNIT).is_none());
    assert!(FastSweeping::new(-1, 3 * UNIT).is_none());
    assert!(FastSweeping::new(UNIT * UNIT * 2, 3 * UNIT).is_none());
    assert!(FastSweeping::new(UNIT, VALUE_MAX + 1).is_none());
    assert!(FastSweeping::new(UNIT, VALUE_MAX).is_some());
}

#[test]
fn sweeping_an_empty_grid_changes_nothing() {
    let mut g = Grid::empty();
    FastSweeping::new(UNIT, 3 * UNIT).unwrap().fast_sweep(&mut g);
    assert_eq!(g.leaf_count(), 0);
    assert!(g.active_voxels().is_empty());
}

#[test]
fn sweeping_extends_a_plane_exactly() {
    // the plane x = 0, known at x = 0 with distance 0
    let mut g = Grid::empty();
    for y in -6..=6i64 {
        for z in -6..=6i64 {
            g.insert(Point::new(0, y, z), 0);
        }
    }
    let mut out = g.clone();
    FastSweeping::new(100, 350).unwrap().fast_sweep(&mut out);
    for x in 1..=3i64 {
        assert_eq!(out.get(Point::new(x, 0, 0)), Cell::Active(100 * x));
        assert_eq!(out.get(Point::new(-x, 0, 0)), Cell::Active(100 * x));
    }
    assert_eq!(out.get(Point::new(4, 0, 0)), Cell::Empty);
    assert_eq!(out.get(Point::new(0, 0, 0)), Cell::Active(0));
    // the surface itself counts as outside: nothing grows inward from it
    let mut inner = g.clone();
    FastSweeping::new(100, -200).unwrap().fast_sweep(&mut inner);
    assert_eq!(inner.active_voxels().len(), g.active_voxels().len());
    assert_eq!(inner.get(Point::new(1, 0, 0)), Cell::Empty);
}

#[test]
fn sweeping_inward_stores_negative_distances() {
    let mut g = Grid::empty();
    for y in -6..=6i64 {
        for z in -6..=6i64 {
            g.insert(Point::new(0, y, z), -50);
        }
    }
    FastSweeping::new(100, -250).unwrap().fast_sweep(&mut g);
    assert_eq!(g.get(Point::new(0, 0, 0)), Cell::Active(-50));
    assert_eq!(g.get(Point::new(1, 0, 0)), Cell::Active(-150));
    assert_eq!(g.get(Point::new(-2, 0, 0)), Cell::Active(-250));
    assert_eq!(g.get(Point::new(3, 0, 0)), Cell::Empty);
    // the outward sweep finds no voxel to start from
    let mut h = Grid::empty();
    h.insert(Point::new(0, 0, 0), -50);
    FastSweeping::new(100, 250).unwrap().fast_sweep(&mut h);
    assert_eq!(h.active_voxels().len(), 1);
}

#[test]
fn sweeping_keeps_the_band_it_starts_from() {
    let mut g = Grid::empty();
    g.insert(Point::new(0, 0, 0), 900);
    g.insert(Point::new(1, 0, 0), 10);
    g.insert(Point::new(2, 0, 0), -40);
    FastSweeping::new(100, 300).unwrap().fast_sweep(&mut g);
    assert_eq!(g.get(Point::new(0, 0, 0)), Cell::Active(900));
    assert_eq!(g.get(Point::new(1, 0, 0)), Cell::Active(10));
    assert_eq!(g.get(Point::new(2, 0, 0)), Cell::Active(-40));
    // only the outside grows: from 10 upward, never from -40
    assert_eq!(g.get(Point::new(1, 1, 0)), Cell::Active(110));
    assert_eq!(g.get(Point::new(1, 2, 0)), Cell::Active(210));
    assert_eq!(g.get(Point::new(1, 3, 0)), Cell::Empty);
    assert_eq!(g.get(Point::new(2, 1, 0)), Cell::Active(210));
    assert_eq!(g.get(Point::new(1, 1, 1)), Cell::Active(180));
    assert_eq!(g.get(Point::new(3, 0, 0)), Cell::Empty);
}

#[test]
fn sweeping_a_sphere_band_stays_within_a_voxel_of_the_distance() {
    let f = sphere(6 * UNIT);
    let vol = ball(6, 1);
    let mut g = trim_to_band(vol.grid(), UNIT);
    let band = g.active_voxels().len();
    let reach = 4 * UNIT;
    FastSweeping::new(UNIT, reach).unwrap().fast_sweep(&mut g);
    let mut grown = 0usize;
    for v in g.active_voxels() {
        let p = v.point;
        let exact = f(Point::new(p.x * UNIT, p.y * UNIT, p.z * UNIT));
        assert!((v.value - exact).abs() <= UNIT, "{:?}: {} for {}", p, v.value, exact);
        assert!(v.value <= reach);
        if vol.grid().get(p) != Cell::Active(v.value) {
            grown += 1;
            assert!(v.value >= 0);
        }
    }
    assert!(grown > band);
    // every point up to three voxels outside the surface was reached
    for x in -11..=11i64 {
        for y in -11..=11i64 {
            for z in -11..=11i64 {
                let exact = f(Point::new(x * UNIT, y * UNIT, z * UNIT));
                if exact >= 0 && exact <= 3 * UNIT {
                    assert!(g.get(Point::new(x, y, z)).is_active(), "at {} {} {}", x, y, z);
                }
            }
        }
    }
}
