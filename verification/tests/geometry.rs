use gridless_pathfinding::geometry::{between, Direction, LineSegment, Point, Rectangle};
use gridless_pathfinding::line::Line;
use gridless_pathfinding::numeric::{floor_div, isqrt, product, sat_add};

fn seg(x1: i32, y1: i32, x2: i32, y2: i32) -> LineSegment {
    LineSegment::new(Point::new(x1, y1), Point::new(x2, y2))
}

#[test]
fn isqrt_rounds_down() {
    assert_eq!(isqrt(0), 0);
    assert_eq!(isqrt(1), 1);
    assert_eq!(isqrt(15), 3);
    assert_eq!(isqrt(16), 4);
    assert_eq!(isqrt(17), 4);
    assert_eq!(isqrt(u128::MAX), u64::MAX);
}

#[test]
fn sat_add_saturates() {
    assert_eq!(sat_add(2, 3), 5);
    assert_eq!(sat_add(u64::MAX, 1), u64::MAX);
    assert_eq!(sat_add(u64::MAX - 1, 1), u64::MAX);
    assert_eq!(sat_add(u64::MAX - 1, 5), u64::MAX);
}

#[test]
fn floor_div_rounds_toward_negative_infinity() {
    assert_eq!(floor_div(7, 2), 3);
    assert_eq!(floor_div(-7, 2), -4);
    assert_eq!(floor_div(-8, 2), -4);
    assert_eq!(floor_div(0, 5), 0);
    assert_eq!(product(-6, 7), -42);
}

#[test]
fn distance_is_measured_in_cost_units() {
    assert_eq!(Point::new(0, 0).distance_to(Point::new(3, 4)), 500_000);
    assert_eq!(Point::new(3, 4).distance_to(Point::new(0, 0)), 500_000);
    assert_eq!(Point::new(0, 0).distance_to(Point::new(1, 1)), 141_421);
    assert_eq!(Point::new(7, -2).distance_to(Point::new(7, -2)), 0);
    assert_eq!(Point::new(0, 0).distance_to(Point::new(100, 0)), 10_000_000);
}

#[test]
fn distance_fits_for_the_farthest_points() {
    let a = Point::new(i32::MIN, i32::MIN);
    let b = Point::new(i32::MAX, i32::MAX);
    // The diagonal of the whole lattice: (2^32 - 1) * sqrt(2) units.
    assert_eq!(a.distance_to(b), 607_400_099_853_788);
}

#[test]
fn points_are_the_same_only_if_they_coincide() {
    assert!(Point::new(1, 2).is_same_as(&Point::new(1, 2)));
    assert!(!Point::new(1, 2).is_same_as(&Point::new(1, 3)));
    assert!(!Point::new(1, 2).is_same_as(&Point::new(2, 2)));
}

#[test]
fn between_takes_the_bounds_in_either_order() {
    assert!(between(5, 0, 10));
    assert!(between(5, 10, 0));
    assert!(between(0, 0, 10));
    assert!(between(10, 0, 10));
    assert!(!between(11, 0, 10));
    assert!(!between(-1, 10, 0));
}

#[test]
fn crossing_segments_meet() {
    assert_eq!(seg(0, 0, 10, 10).intersection(&seg(0, 10, 10, 0)), Some(Point::new(5, 5)));
    assert_eq!(seg(0, 10, 10, 0).intersection(&seg(0, 0, 10, 10)), Some(Point::new(5, 5)));
}

#[test]
fn meeting_point_is_rounded_to_the_nearest() {
    // The segments meet at (1.5, 1.5); half way is rounded up.
    assert_eq!(seg(0, 0, 3, 3).intersection(&seg(0, 3, 3, 0)), Some(Point::new(2, 2)));
    // The segments meet at (-1.5, -1.5).
    assert_eq!(seg(0, 0, -3, -3).intersection(&seg(0, -3, -3, 0)), Some(Point::new(-1, -1)));
    // The segments meet at (2.25, 0) and at (2.75, 0).
    assert_eq!(seg(0, 0, 10, 0).intersection(&seg(2, 1, 3, -3)), Some(Point::new(2, 0)));
    assert_eq!(seg(0, 0, 10, 0).intersection(&seg(2, 3, 3, -1)), Some(Point::new(3, 0)));
}

#[test]
fn point_near_an_end_point_counts_as_on_the_segment() {
    // The lines meet at (10.0000001, 0), a ten-millionth beyond the end.
    let wall = seg(0, 0, 10, 0);
    let steep = seg(9, 10_000_001, 11, -9_999_999);
    assert_eq!(wall.intersection(&steep), Some(Point::new(10, 0)));
    assert_eq!(steep.intersection(&wall), Some(Point::new(10, 0)));
    // The lines meet at (-0.0000001, 0), as far before the start.
    let before = seg(-1, -9_999_999, 1, 10_000_001);
    assert_eq!(wall.intersection(&before), Some(Point::new(0, 0)));
    // The lines meet at (10.000002, 0), two millionths beyond the end.
    let farther = seg(9, 500_001, 11, -499_999);
    assert_eq!(wall.intersection(&farther), None);
    assert_eq!(farther.intersection(&wall), None);
    // The lines meet at (10.000001, 0): the tolerance itself is too far.
    let at_the_limit = seg(9, 1_000_001, 11, -999_999);
    assert_eq!(wall.intersection(&at_the_limit), None);
}

#[test]
fn nearly_parallel_segments_never_meet() {
    // The slopes differ by two parts in a hundred million.
    let flat = seg(0, 0, 100_000_000, 0);
    let rising = seg(0, -1, 100_000_000, 1);
    assert_eq!(flat.intersection(&rising), None);
    assert_eq!(rising.intersection(&flat), None);
    // The slopes differ by five parts in a hundred million.
    let steeper = seg(0, -2, 100_000_000, 3);
    assert_eq!(flat.intersection(&steeper), Some(Point::new(40_000_000, 0)));
    // A vertical segment is parallel to vertical segments only.
    let upright = seg(5, -1, 5, 1);
    let leaning = seg(4, -2_000_000_000, 6, 2_000_000_000);
    assert_eq!(upright.intersection(&leaning), Some(Point::new(5, 0)));
}

#[test]
fn touching_at_an_end_point_counts_as_meeting() {
    assert_eq!(seg(0, 0, 10, 0).intersection(&seg(10, 0, 10, 10)), Some(Point::new(10, 0)));
    assert_eq!(seg(0, 0, 10, 0).intersection(&seg(5, 0, 5, 10)), Some(Point::new(5, 0)));
}

#[test]
fn segments_that_miss_do_not_meet() {
    assert_eq!(seg(0, 0, 10, 0).intersection(&seg(5, 1, 5, 10)), None);
    assert_eq!(seg(0, 0, 4, 4).intersection(&seg(10, 0, 6, 5)), None);
}

#[test]
fn parallel_segments_never_meet() {
    assert_eq!(seg(0, 0, 10, 0).intersection(&seg(0, 1, 10, 1)), None);
    // Two vertical segments.
    assert_eq!(seg(0, 0, 0, 10).intersection(&seg(3, 0, 3, 10)), None);
    // Overlapping segments on one line.
    assert_eq!(seg(0, 0, 10, 0).intersection(&seg(5, 0, 15, 0)), None);
    assert_eq!(seg(0, 0, 10, 0).intersection(&seg(0, 0, 10, 0)), None);
}

#[test]
fn segment_without_length_meets_nothing() {
    assert_eq!(seg(5, 0, 5, 0).intersection(&seg(0, 0, 10, 0)), None);
    assert_eq!(seg(0, 0, 10, 0).intersection(&seg(5, 0, 5, 0)), None);
}

#[test]
fn rectangle_contains_its_sides() {
    let rect = Rectangle::new(0, 0, 10, 20);
    assert!(rect.contains(Point::new(0, 0)));
    assert!(rect.contains(Point::new(10, 20)));
    assert!(rect.contains(Point::new(5, 5)));
    assert!(!rect.contains(Point::new(11, 5)));
    assert!(!rect.contains(Point::new(5, -1)));
}

#[test]
fn segment_touches_rectangle() {
    let rect = Rectangle::new(40, -10, 60, 10);
    // Through the rectangle, both end points outside.
    assert!(seg(0, 0, 100, 0).intersects_rect(&rect));
    // Inside the rectangle.
    assert!(seg(45, 0, 55, 0).intersects_rect(&rect));
    // One end point inside.
    assert!(seg(50, 0, 50, 100).intersects_rect(&rect));
    // Past the rectangle.
    assert!(!seg(0, 0, 50, -20).intersects_rect(&rect));
    assert!(!seg(0, 20, 100, 20).intersects_rect(&rect));
}

#[test]
fn direction_between_points() {
    let d = Direction::between(Point::new(1, 2), Point::new(4, -2));
    assert_eq!(d, Direction { dx: 3, dy: -4 });
    assert_eq!(Direction::new(3, -4), d);
    let extreme = Direction::between(Point::new(i32::MIN, 0), Point::new(i32::MAX, 0));
    assert_eq!(extreme.dx, 4_294_967_295);
}

#[test]
fn cross_and_dot_products() {
    let u = Direction::new(1, 0);
    let v = Direction::new(0, 1);
    assert_eq!(u.cross_with(&v), 1);
    assert_eq!(v.cross_with(&u), -1);
    assert_eq!(u.dot_with(&v), 0);
    assert_eq!(Direction::new(2, 3).dot_with(&Direction::new(4, 5)), 23);
    assert_eq!(Direction::new(2, 3).cross_with(&Direction::new(4, 5)), -2);
}

#[test]
fn quarter_turns() {
    let u = Direction::new(3, 1);
    assert_eq!(u.quarter_turn(), Direction { dx: -1, dy: 3 });
    assert_eq!(u.quarter_turn_back(), Direction { dx: 1, dy: -3 });
    assert_eq!(u.quarter_turn().quarter_turn_back(), u);
}

#[test]
fn line_through_two_points() {
    let line = Line::from_points(Point::new(0, 0), Point::new(2, 1));
    assert_eq!(line.p1, Point::new(0, 0));
    assert_eq!(line.m, Direction { dx: -2, dy: -1 });
    assert!(!line.is_vertical());
    assert!(!line.is_horizontal());
    assert_eq!(line.calc_y(4), Some(2));
    assert_eq!(line.calc_y(3), Some(1));
    assert_eq!(line.calc_y(-3), Some(-2));
    assert_eq!(line.calc_x(2), Some(4));
}

#[test]
fn vertical_and_horizontal_lines() {
    let vertical = Line::from_points(Point::new(5, 0), Point::new(5, 9));
    assert!(vertical.is_vertical());
    assert!(!vertical.is_horizontal());
    assert_eq!(vertical.calc_y(5), None);
    assert_eq!(vertical.calc_x(100), Some(5));
    let horizontal = Line::from_points(Point::new(0, 7), Point::new(9, 7));
    assert!(horizontal.is_horizontal());
    assert!(!horizontal.is_vertical());
    assert_eq!(horizontal.calc_x(7), None);
    assert_eq!(horizontal.calc_y(-50), Some(7));
}

#[test]
fn line_without_direction() {
    let line = Line::from_points(Point::new(3, 3), Point::new(3, 3));
    assert!(!line.is_vertical());
    assert!(!line.is_horizontal());
    assert_eq!(line.calc_x(0), None);
    assert_eq!(line.calc_y(0), None);
    let other = Line::from_points(Point::new(0, 0), Point::new(1, 1));
    assert_eq!(line.intersection(&other), None);
    assert_eq!(other.intersection(&line), None);
}

#[test]
fn lines_meet_beyond_their_points() {
    let a = Line::from_points(Point::new(0, 0), Point::new(1, 1));
    let b = Line::from_points(Point::new(0, 10), Point::new(1, 9));
    assert_eq!(a.intersection(&b), Some(Point::new(5, 5)));
    assert_eq!(b.intersection(&a), Some(Point::new(5, 5)));
    // A vertical line and a sloped one.
    let vertical = Line::from_points(Point::new(4, 0), Point::new(4, 1));
    assert_eq!(a.intersection(&vertical), Some(Point::new(4, 4)));
    assert_eq!(vertical.intersection(&a), Some(Point::new(4, 4)));
}

#[test]
fn nearly_parallel_lines_do_not_meet() {
    let axis = Line::new(Direction::new(1, 0), Point::new(0, 0));
    // A slope of one part in a hundred million.
    let flat = Line::new(Direction::new(100_000_000, 1), Point::new(0, 0));
    assert_eq!(flat.intersection(&axis), None);
    assert_eq!(axis.intersection(&flat), None);
    // A slope of just under five parts in a hundred million.
    let under = Line::new(Direction::new(20_000_001, 1), Point::new(0, 0));
    assert_eq!(under.intersection(&axis), None);
    // A slope of five parts in a hundred million.
    let limit = Line::new(Direction::new(20_000_000, 1), Point::new(0, 0));
    assert_eq!(limit.intersection(&axis), Some(Point::new(0, 0)));
    assert_eq!(axis.intersection(&limit), Some(Point::new(0, 0)));
    // A vertical line and a very steep one are not parallel.
    let upright = Line::new(Direction::new(0, 1), Point::new(3, 0));
    let steep = Line::new(Direction::new(1, 1_000_000_000), Point::new(3, 7));
    assert_eq!(upright.intersection(&steep), Some(Point::new(3, 7)));
}

#[test]
fn parallel_lines_do_not_meet() {
    let a = Line::from_points(Point::new(0, 0), Point::new(1, 1));
    let b = Line::from_points(Point::new(0, 1), Point::new(1, 2));
    assert_eq!(a.intersection(&b), None);
    let v1 = Line::from_points(Point::new(0, 0), Point::new(0, 1));
    let v2 = Line::from_points(Point::new(1, 0), Point::new(1, 1));
    assert_eq!(v1.intersection(&v2), None);
}

#[test]
fn lines_that_meet_too_far_away_have_no_point() {
    let a = Line::from_points(Point::new(0, 0), Point::new(i32::MAX, 1));
    let b = Line::from_points(Point::new(0, 2), Point::new(i32::MAX, 2));
    // The lines meet at x = 2 * (2^31 - 1).
    assert_eq!(a.intersection(&b), None);
}

#[test]
fn perpendicular_through_a_point() {
    let line = Line::from_points(Point::new(0, 0), Point::new(2, 1));
    let across = line.get_perpendicular_through_point(Point::new(4, 2));
    assert_eq!(across.p1, Point::new(4, 2));
    assert_eq!(across.m.dot_with(&line.m), 0);
    assert_eq!(across.m, Direction { dx: 1, dy: -2 });
    let vertical = Line::from_points(Point::new(5, 0), Point::new(5, 9));
    assert!(vertical.get_perpendicular_through_point(Point::new(1, 1)).is_horizontal());
}

#[test]
fn line_from_point_and_angle() {
    let line = Line::from_point_and_angle(Point::new(1, 1), Direction::new(0, 5));
    assert!(line.is_vertical());
    assert_eq!(Line::new(Direction::new(0, 5), Point::new(1, 1)), line);
}

#[test]
fn point_on_a_line() {
    let line = Line::from_points(Point::new(0, 1), Point::new(2, 2));
    assert_eq!(Point::from_line_x(&line, 3), Some(Point::new(3, 2)));
    assert_eq!(Point::from_line_x(&line, 4), Some(Point::new(4, 3)));
    let vertical = Line::from_points(Point::new(5, 0), Point::new(5, 9));
    assert_eq!(Point::from_line_x(&vertical, 5), None);
}

#[test]
fn line_of_a_segment() {
    let segment = seg(1, 1, 4, 5);
    let line = segment.line();
    assert_eq!(line, Line::from_points(Point::new(1, 1), Point::new(4, 5)));
}
