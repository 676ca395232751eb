use voxel_sdf::cell::{Cell, Side};
use voxel_sdf::csg::Csg;

const IN: Cell = Cell::Filled(Side::Inside);
const OUT: Cell = Cell::Filled(Side::Outside);

#[test]
fn union_keeps_the_lesser_distance() {
    assert_eq!(Cell::Active(3).combine_union(&Cell::Active(-2)), Cell::Active(-2));
    assert_eq!(Cell::Active(-5).combine_union(&Cell::Active(-2)), Cell::Active(-5));
    assert_eq!(Cell::Active(3).combine_union(&OUT), Cell::Active(3));
    assert_eq!(Cell::Active(3).combine_union(&IN), IN);
    assert_eq!(OUT.combine_union(&Cell::Active(-1)), Cell::Active(-1));
    assert_eq!(OUT.combine_union(&OUT), OUT);
    assert_eq!(OUT.combine_union(&IN), IN);
    assert_eq!(IN.combine_union(&OUT), IN);
}

#[test]
fn intersection_keeps_the_greater_distance() {
    assert_eq!(Cell::Active(3).combine_intersect(&Cell::Active(-2)), Cell::Active(3));
    assert_eq!(Cell::Active(-5).combine_intersect(&Cell::Active(-2)), Cell::Active(-2));
    assert_eq!(Cell::Active(3).combine_intersect(&OUT), OUT);
    assert_eq!(Cell::Active(3).combine_intersect(&IN), Cell::Active(3));
    assert_eq!(IN.combine_intersect(&IN), IN);
    assert_eq!(OUT.combine_intersect(&IN), OUT);
}

#[test]
fn subtraction_intersects_with_the_complement() {
    assert_eq!(Cell::Active(-4).combine_subtract(&Cell::Active(-1)), Cell::Active(1));
    assert_eq!(Cell::Active(-4).combine_subtract(&Cell::Active(7)), Cell::Active(-4));
    assert_eq!(Cell::Active(2).combine_subtract(&Cell::Active(-9)), Cell::Active(9));
    assert_eq!(Cell::Active(-4).combine_subtract(&IN), OUT);
    assert_eq!(Cell::Active(-4).combine_subtract(&OUT), Cell::Active(-4));
    assert_eq!(IN.combine_subtract(&Cell::Active(3)), Cell::Active(-3));
}

#[test]
fn background_yields_to_the_other_operand() {
    assert_eq!(Cell::Empty.combine_union(&Cell::Active(3)), Cell::Active(3));
    assert_eq!(Cell::Active(3).combine_union(&Cell::Empty), Cell::Active(3));
    assert_eq!(Cell::Empty.combine_intersect(&IN), IN);
    assert_eq!(Cell::Empty.combine_union(&Cell::Empty), Cell::Empty);
    assert_eq!(Cell::Empty.negated(), Cell::Empty);
}

#[test]
fn negation_flips_sides_and_signs() {
    assert_eq!(IN.negated(), OUT);
    assert_eq!(OUT.negated(), IN);
    assert_eq!(Cell::Active(5).negated(), Cell::Active(-5));
    assert_eq!(Cell::Active(0).negated(), Cell::Active(0));
}

#[test]
fn sides_of_cells() {
    assert_eq!(Cell::Empty.side_of(), None);
    assert_eq!(IN.side_of(), Some(Side::Inside));
    assert_eq!(Cell::Active(-1).side_of(), Some(Side::Inside));
    assert_eq!(Cell::Active(0).side_of(), Some(Side::Outside));
    assert_eq!(Cell::Active(1).side_of(), Some(Side::Outside));
    assert!(Cell::Active(-1).is_opposite(&OUT));
    assert!(!Cell::Active(-1).is_opposite(&Cell::Empty));
    assert!(!Cell::Active(-1).is_opposite(&Cell::Active(-7)));
}

#[test]
fn operations_by_name() {
    assert_eq!(Csg::Union.combine(&Cell::Active(1), &Cell::Active(2)), Cell::Active(1));
    assert_eq!(Csg::Intersect.combine(&Cell::Active(1), &Cell::Active(2)), Cell::Active(2));
    assert_eq!(Csg::Subtract.combine(&Cell::Active(1), &Cell::Active(2)), Cell::Active(1));
    assert_eq!(Csg::Subtract.combine(&Cell::Active(1), &Cell::Active(-2)), Cell::Active(2));
}
