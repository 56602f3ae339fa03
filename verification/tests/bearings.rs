use gridless_pathfinding::bearings::{
    bisector, classify_gap, precedes, sort_by_angle, GapClass, UNIT_LENGTH,
};
use gridless_pathfinding::geometry::Direction;

fn dir(dx: i32, dy: i32) -> Direction {
    Direction::new(dx, dy)
}

#[test]
fn angles_are_ordered_around_the_full_turn() {
    // East, south-east, south, west, north, north-east by a hair: the angle
    // grows from the positive x axis towards the positive y axis.
    let east = dir(1, 0);
    let down = dir(0, 1);
    let west = dir(-1, 0);
    let up = dir(0, -1);
    assert!(precedes(&east, &down));
    assert!(precedes(&down, &west));
    assert!(precedes(&west, &up));
    assert!(precedes(&east, &up));
    assert!(!precedes(&up, &east));
    assert!(!precedes(&down, &east));
    assert!(precedes(&up, &dir(1000, -1)));
    assert!(precedes(&east, &dir(1000, 1)));
}

#[test]
fn equal_angles_do_not_precede_each_other() {
    assert!(!precedes(&dir(1, 1), &dir(5, 5)));
    assert!(!precedes(&dir(5, 5), &dir(1, 1)));
    assert!(!precedes(&dir(-2, 0), &dir(-7, 0)));
}

#[test]
fn sorting_by_angle() {
    let sorted = sort_by_angle(&vec![dir(0, -1), dir(1, 0), dir(-1, 0), dir(0, 1), dir(-1, -1)]);
    assert_eq!(sorted, vec![dir(1, 0), dir(0, 1), dir(-1, 0), dir(-1, -1), dir(0, -1)]);
    assert_eq!(sort_by_angle(&Vec::new()), Vec::new());
}

#[test]
fn sorting_keeps_the_order_of_equal_angles() {
    let sorted = sort_by_angle(&vec![dir(2, 2), dir(-1, 0), dir(1, 1), dir(3, 3)]);
    assert_eq!(sorted, vec![dir(2, 2), dir(1, 1), dir(3, 3), dir(-1, 0)]);
}

#[test]
fn gaps_of_at_most_half_a_turn_are_closed() {
    // A quarter turn, half a turn, and an empty gap.
    assert_eq!(classify_gap(&dir(1, 0), &dir(0, 1), false), GapClass::Closed);
    assert_eq!(classify_gap(&dir(1, 0), &dir(-1, 0), false), GapClass::Closed);
    assert_eq!(classify_gap(&dir(1, 0), &dir(-1, 0), true), GapClass::Closed);
    assert_eq!(classify_gap(&dir(1, 0), &dir(3, 0), false), GapClass::Closed);
}

#[test]
fn gaps_up_to_three_quarters_get_flanks() {
    // Just over half a turn, and exactly three quarters of a turn.
    assert_eq!(classify_gap(&dir(1, 0), &dir(-1000, -1), false), GapClass::Flanks);
    assert_eq!(classify_gap(&dir(1, 0), &dir(0, -1), false), GapClass::Flanks);
    assert_eq!(classify_gap(&dir(1, 0), &dir(0, -1), true), GapClass::Flanks);
}

#[test]
fn wider_gaps_get_a_bisector_too() {
    assert_eq!(classify_gap(&dir(1, 0), &dir(1000, -1), false), GapClass::FlanksAndBisector);
    assert_eq!(classify_gap(&dir(1, 0), &dir(1, -1000), false), GapClass::FlanksAndBisector);
    // The whole turn around the end of a single wall.
    assert_eq!(classify_gap(&dir(1, 0), &dir(1, 0), true), GapClass::FlanksAndBisector);
    assert_eq!(classify_gap(&dir(1, 0), &dir(5, 0), true), GapClass::FlanksAndBisector);
}

#[test]
fn vectors_are_given_a_length() {
    assert_eq!(dir(3, 4).scaled_norm(), 500_000);
    assert_eq!(dir(3, 4).scale_to(10), dir(6, 8));
    assert_eq!(dir(-3, 4).scale_to(10), dir(-6, 8));
    assert_eq!(dir(30, -40).scale_to(5), dir(3, -4));
    assert_eq!(dir(0, 100).scale_to(10), dir(0, 10));
    assert_eq!(dir(-100, 0).scale_to(10), dir(-10, 0));
}

#[test]
fn components_are_rounded_toward_zero() {
    // 10 / sqrt(2) = 7.07...
    assert_eq!(dir(1, 1).scale_to(10), dir(7, 7));
    assert_eq!(dir(-1, 1).scale_to(10), dir(-7, 7));
    assert_eq!(dir(-1, -1).scale_to(10), dir(-7, -7));
    assert_eq!(dir(1, 1).scale_to(1), dir(0, 0));
    assert_eq!(dir(1, 1).scale_to(0), dir(0, 0));
}

#[test]
fn zero_vector_stays_the_zero_vector() {
    assert_eq!(dir(0, 0).scale_to(10), dir(0, 0));
    assert_eq!(dir(0, 0).scaled_norm(), 0);
}

#[test]
fn bisector_of_a_free_wall_end_points_away_from_the_wall() {
    let b = bisector(&dir(100, 0), &dir(100, 0));
    assert_eq!(b, Direction { dx: -2 * UNIT_LENGTH as i64, dy: 0 });
    assert_eq!(b.scale_to(10), dir(-10, 0));
}

#[test]
fn bisector_between_two_walls() {
    // Walls towards the east and, a little short of a full turn on, towards
    // the north-east: the bisector points to the south-west of the pair.
    let b = bisector(&dir(10, 0), &dir(10, -10));
    assert!(b.dx < 0);
    assert!(b.dy > 0);
    // cos and sin of 22.5 degrees, times ten.
    assert_eq!(b.scale_to(10), dir(-9, 3));
}
