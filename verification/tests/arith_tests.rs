use voxel_sdf::arith::{div_ceil, div_floor, int_sqrt};
use voxel_sdf::eikonal::update;

#[test]
fn floor_division_rounds_down() {
    assert_eq!(div_floor(7, 2), 3);
    assert_eq!(div_floor(-7, 2), -4);
    assert_eq!(div_floor(-8, 2), -4);
    assert_eq!(div_floor(0, 5), 0);
    assert_eq!(div_floor(-1, 1024), -1);
    assert_eq!(div_floor(i64::MIN, 1), i64::MIN);
    assert_eq!(div_floor(i64::MIN, 2), i64::MIN / 2);
    assert_eq!(div_floor(i64::MAX, i64::MAX), 1);
}

#[test]
fn ceiling_division_rounds_up() {
    assert_eq!(div_ceil(7, 2), 4);
    assert_eq!(div_ceil(-7, 2), -3);
    assert_eq!(div_ceil(8, 2), 4);
    assert_eq!(div_ceil(0, 5), 0);
    assert_eq!(div_ceil(1, 1024), 1);
    assert_eq!(div_ceil(i64::MIN, 1), i64::MIN);
    assert_eq!(div_ceil(i64::MIN, 3), -3074457345618258602);
    assert_eq!(div_ceil(i64::MAX, 2), 4611686018427387904);
}

#[test]
fn integer_square_root_is_the_floor() {
    assert_eq!(int_sqrt(0), 0);
    assert_eq!(int_sqrt(1), 1);
    assert_eq!(int_sqrt(3), 1);
    assert_eq!(int_sqrt(4), 2);
    assert_eq!(int_sqrt(99), 9);
    assert_eq!(int_sqrt(100), 10);
    assert_eq!(int_sqrt(2 * 1024 * 1024), 1448);
    assert_eq!(int_sqrt(u64::MAX), 4294967295);
}

#[test]
fn upwind_update_without_neighbours_is_none() {
    assert_eq!(update(None, None, None, 1024), None);
}

#[test]
fn upwind_update_from_one_axis_adds_a_step() {
    assert_eq!(update(Some(0), None, None, 1024), Some(1024));
    assert_eq!(update(None, Some(300), None, 1024), Some(1324));
    assert_eq!(update(None, None, Some(7), 10), Some(17));
}

#[test]
fn upwind_update_from_two_axes() {
    // (0 + 0 + floor(sqrt(2 * 1024^2))) / 2 = 1448 / 2
    assert_eq!(update(Some(0), Some(0), None, 1024), Some(724));
    // neighbours a step or more apart: the nearer one decides alone
    assert_eq!(update(Some(0), None, Some(5000), 1024), Some(1024));
    assert_eq!(update(None, Some(1024), Some(0), 1024), Some(1024));
    // (100 + 400 + floor(sqrt(2 * 1000^2 - 300^2))) / 2 = (500 + 1382) / 2
    assert_eq!(update(Some(400), Some(100), None, 1000), Some(941));
}

#[test]
fn upwind_update_from_three_axes() {
    // (0 + 0 + 0 + floor(sqrt(3 * 1024^2))) / 3 = 1773 / 3
    assert_eq!(update(Some(0), Some(0), Some(0), 1024), Some(591));
    // the third neighbour lies beyond the two-axis update, which decides
    assert_eq!(update(Some(0), Some(0), Some(800), 1024), Some(724));
    // (0 + 0 + 700 + floor(sqrt(3 * 1024^2 - 2 * 700^2))) / 3 = (700 + 1471) / 3
    assert_eq!(update(Some(700), Some(0), Some(0), 1024), Some(723));
}
