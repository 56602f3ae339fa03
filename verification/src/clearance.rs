//! Waypoints keep clear of the walls of their corner.
//!
//! Every waypoint at a corner is set off into a gap between two walls that
//! are neighbors around the corner. This module says of the waypoints of a
//! built scene what [`bearings`](crate::bearings) says of one gap: the
//! waypoint does not lie on the side of the corner that the walls enclose.

use crate::bearings::{
    angle_before, ascending, gap_bearings, gap_class, in_first_half, in_wedge,
    lemma_bisector_lies_in_the_gap, lemma_flanks_lie_in_the_gap, lemma_sorted_by_angle,
    lemma_waypoints_lie_in_the_gap, sorted_by_angle, spec_scale_to, GapClass,
};
use crate::corners::{
    all_corner_placements, corner_at, corner_bearings, corner_placements, corners_of, corners_wf,
    has_corner, inner_bearings, lemma_corners_of, with_direction, CornerView, Placement,
};
use crate::generation::{
    blocking_segments, distance_from_walls, placed_point, placements, scene_of,
};
use crate::geometry::{Direction, LineSegment, Point};
use crate::terrain::{polygon_sides, TerrainView};
use crate::walls::Wall;
use vstd::prelude::*;
use vstd::seq_lib::to_multiset_contains;

verus! {

/// The wall from which gap `j` of a corner opens, where `sorted` holds the
/// directions of the walls of the corner by ascending angle: the wall before
/// wall `j`, and for the first wall the last one, around the corner.
pub open spec fn gap_from(sorted: Seq<Direction>, j: int) -> Direction {
    if j == 0 {
        sorted[sorted.len() - 1]
    } else {
        sorted[j - 1]
    }
}

/// Whether `x` lies along the wall that leaves the corner in the direction
/// `w`.
pub open spec fn along(w: Direction, x: Direction) -> bool {
    w.cross(x) == 0 && w.dot(x) >= 0
}

/// Whether the offset `x` from a corner lies on the side that the walls
/// along `u` and `v` enclose, where the gap opens from `u` to `v`: in the
/// closed wedge from `v` to `u`, or, where both walls leave the same way,
/// along one of them.
pub open spec fn on_wall_side(u: Direction, v: Direction, x: Direction) -> bool {
    if u.cross(v) < 0 {
        in_wedge(v, u, x)
    } else {
        along(u, x) || along(v, x)
    }
}

/// Whether the placement is waypoint `k` of gap `j` of the corner, the gap
/// is wider than half a turn, every wall of the corner lies on the side of
/// the corner that the two walls of the gap enclose, and the waypoint, set
/// off by `distance`, does not.
pub open spec fn placed_in_gap(
    corner: CornerView,
    place: Placement,
    distance: int,
    j: int,
    k: int,
) -> bool {
    let sorted = sorted_by_angle(corner.directions);
    let u = gap_from(sorted, j);
    let v = sorted[j];
    &&& 0 <= j < sorted.len()
    &&& place.anchor == corner.point
    &&& gap_class(u, v, j == 0) != GapClass::Closed
    &&& 0 <= k < gap_bearings(u, v, j == 0).len()
    &&& place.bearing == gap_bearings(u, v, j == 0)[k]
    &&& forall|w: int|
        0 <= w < corner.directions.len() ==> on_wall_side(u, v, #[trigger] corner.directions[w])
    &&& !on_wall_side(u, v, spec_scale_to(place.bearing, distance))
}

/// Whether the placement is a waypoint of a gap of one of the corners and
/// keeps clear of the walls of that corner.
pub open spec fn keeps_clear(corners: Seq<CornerView>, place: Placement, distance: int) -> bool {
    exists|c: int, j: int, k: int|
        0 <= c < corners.len() && #[trigger] placed_in_gap(corners[c], place, distance, j, k)
}

/// Whether no direction of the list is the zero vector.
pub open spec fn all_have_length(directions: Seq<Direction>) -> bool {
    forall|i: int| 0 <= i < directions.len() ==> !(#[trigger] directions[i]).is_zero()
}

/// For any three vectors, the cross products of the pairs, each times the
/// second component of the third vector, add up to nothing.
proof fn lemma_three_crosses(a: Direction, b: Direction, c: Direction)
    ensures
        a.cross(b) * c.dy + b.cross(c) * a.dy + c.cross(a) * b.dy == 0,
{
    let ax = a.dx as int;
    let ay = a.dy as int;
    let bx = b.dx as int;
    let by = b.dy as int;
    let cx = c.dx as int;
    let cy = c.dy as int;
    assert((ax * by - ay * bx) * cy == (ax * by) * cy - (ay * bx) * cy) by (nonlinear_arith);
    assert((bx * cy - by * cx) * ay == (bx * cy) * ay - (by * cx) * ay) by (nonlinear_arith);
    assert((cx * ay - cy * ax) * by == (cx * ay) * by - (cy * ax) * by) by (nonlinear_arith);
    assert((ax * by) * cy == (cy * ax) * by) by (nonlinear_arith);
    assert((ay * bx) * cy == (bx * cy) * ay) by (nonlinear_arith);
    assert((by * cx) * ay == (cx * ay) * by) by (nonlinear_arith);
}

/// The cross product changes its sign when the two vectors change places.
proof fn lemma_cross_flips(a: Direction, b: Direction)
    ensures
        b.cross(a) == -a.cross(b),
{
    assert(b.cross(a) == -a.cross(b)) by (nonlinear_arith)
        requires
            b.cross(a) == b.dx * a.dy - b.dy * a.dx,
            a.cross(b) == a.dx * b.dy - a.dy * b.dx,
    ;
}

/// A product of two numbers of known sign has the sign that follows.
proof fn lemma_signs(p: int, q: int)
    ensures
        p >= 0 && q >= 0 ==> p * q >= 0,
        p <= 0 && q <= 0 ==> p * q >= 0,
        p >= 0 && q <= 0 ==> p * q <= 0,
        p <= 0 && q >= 0 ==> p * q <= 0,
        p > 0 && q > 0 ==> p * q > 0,
        p < 0 && q < 0 ==> p * q > 0,
        p > 0 && q < 0 ==> p * q < 0,
        p < 0 && q > 0 ==> p * q < 0,
        p == 0 || q == 0 ==> p * q == 0,
{
    assert(p >= 0 && q >= 0 ==> p * q >= 0) by (nonlinear_arith);
    assert(p <= 0 && q <= 0 ==> p * q >= 0) by (nonlinear_arith);
    assert(p >= 0 && q <= 0 ==> p * q <= 0) by (nonlinear_arith);
    assert(p <= 0 && q >= 0 ==> p * q <= 0) by (nonlinear_arith);
    assert(p > 0 && q > 0 ==> p * q > 0) by (nonlinear_arith);
    assert(p < 0 && q < 0 ==> p * q > 0) by (nonlinear_arith);
    assert(p > 0 && q < 0 ==> p * q < 0) by (nonlinear_arith);
    assert(p < 0 && q > 0 ==> p * q < 0) by (nonlinear_arith);
    assert(p == 0 || q == 0 ==> p * q == 0) by (nonlinear_arith);
}

/// The order of angles carries over: if the angle of `a` is not beyond that
/// of `b`, and that of `b` not beyond that of `c`, then the angle of `a` is
/// not beyond that of `c`.
proof fn lemma_angle_order_carries(a: Direction, b: Direction, c: Direction)
    requires
        !a.is_zero(),
        !b.is_zero(),
        !c.is_zero(),
        !angle_before(b, a),
        !angle_before(c, b),
    ensures
        !angle_before(c, a),
{
    if in_first_half(a) == in_first_half(c) {
        // All three lie in one half turn.
        lemma_cross_flips(a, b);
        lemma_cross_flips(b, c);
        lemma_cross_flips(a, c);
        lemma_three_crosses(a, b, c);
        let ab = a.cross(b);
        let bc = b.cross(c);
        let ac = a.cross(c);
        assert(ab >= 0 && bc >= 0);
        lemma_signs(ab, c.dy as int);
        lemma_signs(bc, a.dy as int);
        lemma_signs(ac, b.dy as int);
        assert(ac * b.dy == ab * c.dy + bc * a.dy) by (nonlinear_arith)
            requires
                ab * c.dy + bc * a.dy + c.cross(a) * b.dy == 0,
                c.cross(a) == -ac,
        ;
        if b.dy == 0 {
            // `b` lies on the axis, and so does `a`.
            lemma_signs(a.dy as int, b.dx as int);
            lemma_signs(a.dx as int, c.dy as int);
            assert(ab == -(a.dy * b.dx)) by (nonlinear_arith)
                requires
                    ab == a.dx * b.dy - a.dy * b.dx,
                    b.dy == 0,
            ;
            assert(a.dy == 0);
            assert(ac == a.dx * c.dy) by (nonlinear_arith)
                requires
                    ac == a.dx * c.dy - a.dy * c.dx,
                    a.dy == 0,
            ;
        }
    }
}

/// In a list in ascending order, no direction has a smaller angle than a
/// direction before it.
proof fn lemma_ascending_pairs(s: Seq<Direction>, i: int, j: int)
    requires
        ascending(s),
        all_have_length(s),
        0 <= i <= j < s.len(),
    ensures
        !angle_before(s[j], s[i]),
    decreases j - i,
{
    if i == j {
        lemma_cross_flips(s[i], s[i]);
    } else {
        lemma_ascending_pairs(s, i, j - 1);
        assert(!angle_before(s[j - 1 + 1], s[j - 1]));
        lemma_angle_order_carries(s[i], s[j - 1], s[j]);
    }
}

/// What lies in the arc that leads counter-clockwise from `v` to `u`, an
/// arc of less than half a turn that passes the positive x axis, lies in
/// the wedge from `v` to `u`.
proof fn lemma_in_the_wedge_across_the_axis(u: Direction, v: Direction, w: Direction)
    requires
        !u.is_zero(),
        !v.is_zero(),
        !w.is_zero(),
        u.cross(v) < 0,
        !angle_before(v, u),
        !angle_before(u, w) || !angle_before(w, v),
    ensures
        in_wedge(v, u, w),
{
    lemma_cross_flips(u, v);
    lemma_cross_flips(u, w);
    lemma_cross_flips(v, w);
    lemma_three_crosses(u, v, w);
    let uv = u.cross(v);
    let vw = v.cross(w);
    let wu = w.cross(u);
    assert(in_first_half(u) && !in_first_half(v));
    lemma_signs(uv, w.dy as int);
    lemma_signs(vw, u.dy as int);
    lemma_signs(wu, v.dy as int);
    lemma_signs(u.dy as int, v.dx as int);
    lemma_signs(u.dx as int, v.dy as int);
    if !angle_before(u, w) {
        // `w` comes before `u`, in the first half turn.
        assert(in_first_half(w) && wu >= 0);
        if u.dy == 0 {
            lemma_signs(w.dy as int, u.dx as int);
            lemma_signs(v.dy as int, w.dx as int);
            assert(wu == -(w.dy * u.dx)) by (nonlinear_arith)
                requires
                    wu == w.dx * u.dy - w.dy * u.dx,
                    u.dy == 0,
            ;
            assert(w.dy == 0);
            assert(uv == u.dx * v.dy) by (nonlinear_arith)
                requires
                    uv == u.dx * v.dy - u.dy * v.dx,
                    u.dy == 0,
            ;
            assert(v.dy < 0);
            assert(vw == -(v.dy * w.dx)) by (nonlinear_arith)
                requires
                    vw == v.dx * w.dy - v.dy * w.dx,
                    w.dy == 0,
            ;
        }
    } else {
        // `w` comes behind `v`, in the second half turn.
        assert(!in_first_half(w) && vw >= 0);
        if v.dy == 0 {
            assert(uv == -(u.dy * v.dx)) by (nonlinear_arith)
                requires
                    uv == u.dx * v.dy - u.dy * v.dx,
                    v.dy == 0,
            ;
            assert(false);
        }
    }
}

/// What lies in the arc that leads counter-clockwise from `v` to `u`, an
/// arc of less than half a turn that does not pass the positive x axis,
/// lies in the wedge from `v` to `u`.
proof fn lemma_in_the_wedge_within_the_turn(u: Direction, v: Direction, w: Direction)
    requires
        !u.is_zero(),
        !v.is_zero(),
        !w.is_zero(),
        u.cross(v) < 0,
        !angle_before(w, v),
        !angle_before(u, w),
    ensures
        in_wedge(v, u, w),
{
    lemma_cross_flips(u, v);
    lemma_cross_flips(u, w);
    lemma_cross_flips(v, w);
    lemma_three_crosses(u, v, w);
    let uv = u.cross(v);
    let vw = v.cross(w);
    let wu = w.cross(u);
    lemma_signs(uv, w.dy as int);
    lemma_signs(vw, u.dy as int);
    lemma_signs(wu, v.dy as int);
    lemma_signs(v.dx as int, u.dy as int);
    lemma_signs(v.dy as int, u.dx as int);
    if in_first_half(v) != in_first_half(u) {
        assert(in_first_half(v) && !in_first_half(u));
        if in_first_half(w) {
            assert(vw >= 0);
            if v.dy == 0 {
                assert(uv == -(v.dx * u.dy)) by (nonlinear_arith)
                    requires
                        uv == u.dx * v.dy - u.dy * v.dx,
                        v.dy == 0,
                ;
                assert(false);
            }
        } else {
            assert(wu >= 0);
            if u.dy == 0 {
                lemma_signs(w.dy as int, u.dx as int);
                lemma_signs(v.dy as int, w.dx as int);
                assert(uv == u.dx * v.dy) by (nonlinear_arith)
                    requires
                        uv == u.dx * v.dy - u.dy * v.dx,
                        u.dy == 0,
                ;
                assert(v.dy > 0);
                assert(wu == -(w.dy * u.dx)) by (nonlinear_arith)
                    requires
                        wu == w.dx * u.dy - w.dy * u.dx,
                        u.dy == 0,
                ;
                assert(w.dy == 0);
                assert(vw == -(v.dy * w.dx)) by (nonlinear_arith)
                    requires
                        vw == v.dx * w.dy - v.dy * w.dx,
                        w.dy == 0,
                ;
            }
        }
    }
}

/// For parallel vectors, the dot product times a component of the second
/// vector is the like component of the first times the square of the length
/// of the second.
proof fn lemma_parallel_dot(a: Direction, b: Direction)
    requires
        a.cross(b) == 0,
    ensures
        a.dot(b) * b.dy == a.dy * (b.dx * b.dx + b.dy * b.dy),
        a.dot(b) * b.dx == a.dx * (b.dx * b.dx + b.dy * b.dy),
{
    let ax = a.dx as int;
    let ay = a.dy as int;
    let bx = b.dx as int;
    let by = b.dy as int;
    assert(ax * by == ay * bx);
    assert((ax * bx + ay * by) * by == bx * (ax * by) + ay * (by * by)) by (nonlinear_arith);
    assert(bx * (ay * bx) == ay * (bx * bx)) by (nonlinear_arith);
    assert(ay * (bx * bx + by * by) == ay * (bx * bx) + ay * (by * by)) by (nonlinear_arith);
    assert((ax * bx + ay * by) * bx == ax * (bx * bx) + by * (ay * bx)) by (nonlinear_arith);
    assert(by * (ax * by) == ax * (by * by)) by (nonlinear_arith);
    assert(ax * (bx * bx + by * by) == ax * (bx * bx) + ax * (by * by)) by (nonlinear_arith);
}

/// The square of the length of a vector with a direction is positive.
proof fn lemma_has_length(b: Direction)
    requires
        !b.is_zero(),
    ensures
        b.dx * b.dx + b.dy * b.dy > 0,
{
    assert(b.dx * b.dx + b.dy * b.dy > 0) by (nonlinear_arith)
        requires
            b.dx != 0 || b.dy != 0,
    ;
}

/// Vectors that point the same way have components of the same signs, and
/// so they lie in the same half turn.
proof fn lemma_same_way(u: Direction, v: Direction)
    requires
        u.cross(v) == 0,
        u.dot(v) > 0,
    ensures
        !u.is_zero(),
        !v.is_zero(),
        u.dy > 0 <==> v.dy > 0,
        u.dy < 0 <==> v.dy < 0,
        u.dx > 0 <==> v.dx > 0,
        u.dx < 0 <==> v.dx < 0,
        in_first_half(u) == in_first_half(v),
{
    assert(!u.is_zero() && !v.is_zero()) by (nonlinear_arith)
        requires
            u.dx * v.dx + u.dy * v.dy > 0,
    ;
    lemma_parallel_dot(u, v);
    lemma_has_length(v);
    let vv = v.dx * v.dx + v.dy * v.dy;
    lemma_signs(u.dot(v), v.dy as int);
    lemma_signs(u.dot(v), v.dx as int);
    lemma_signs(u.dy as int, vv);
    lemma_signs(u.dx as int, vv);
}

/// Vectors with a direction that are parallel and lie in the same half
/// turn point the same way.
proof fn lemma_same_angle(v: Direction, w: Direction)
    requires
        !v.is_zero(),
        !w.is_zero(),
        in_first_half(v) == in_first_half(w),
        v.cross(w) == 0,
    ensures
        v.dot(w) > 0,
{
    lemma_parallel_dot(v, w);
    lemma_has_length(w);
    let ww = w.dx * w.dx + w.dy * w.dy;
    lemma_signs(v.dot(w), w.dy as int);
    lemma_signs(v.dot(w), w.dx as int);
    lemma_signs(v.dy as int, ww);
    lemma_signs(v.dx as int, ww);
    if v.dy == 0 {
        lemma_signs(v.dx as int, w.dy as int);
        assert(v.cross(w) == v.dx * w.dy) by (nonlinear_arith)
            requires
                v.cross(w) == v.dx * w.dy - v.dy * w.dx,
                v.dy == 0,
        ;
        assert(w.dy == 0);
    }
}

/// Around walls that all leave a corner the same way, every wall lies
/// along the first.
proof fn lemma_along_the_wall(u: Direction, v: Direction, w: Direction)
    requires
        !w.is_zero(),
        u.cross(v) == 0,
        u.dot(v) > 0,
        !angle_before(w, v),
        !angle_before(u, w),
    ensures
        along(v, w),
{
    lemma_same_way(u, v);
    lemma_cross_flips(u, w);
    lemma_cross_flips(v, w);
    assert(in_first_half(w) == in_first_half(v));
    let uw = u.cross(w);
    let vw = v.cross(w);
    assert(vw >= 0 && uw <= 0);
    // `uw * v.dx == u.dx * vw` and `uw * v.dy == u.dy * vw`.
    assert(uw * v.dx == u.dx * vw) by (nonlinear_arith)
        requires
            uw == u.dx * w.dy - u.dy * w.dx,
            vw == v.dx * w.dy - v.dy * w.dx,
            u.dx * v.dy - u.dy * v.dx == 0,
    ;
    assert(uw * v.dy == u.dy * vw) by (nonlinear_arith)
        requires
            uw == u.dx * w.dy - u.dy * w.dx,
            vw == v.dx * w.dy - v.dy * w.dx,
            u.dx * v.dy - u.dy * v.dx == 0,
    ;
    lemma_signs(uw, v.dx as int);
    lemma_signs(uw, v.dy as int);
    lemma_signs(u.dx as int, vw);
    lemma_signs(u.dy as int, vw);
    assert(vw == 0);
    lemma_same_angle(v, w);
}

/// Every wall of a corner lies on the side of the corner that the two
/// walls of an open gap enclose.
proof fn lemma_walls_lie_on_the_wall_side(sorted: Seq<Direction>, j: int, k: int)
    requires
        ascending(sorted),
        all_have_length(sorted),
        0 <= j < sorted.len(),
        0 <= k < sorted.len(),
        gap_class(gap_from(sorted, j), sorted[j], j == 0) != GapClass::Closed,
    ensures
        on_wall_side(gap_from(sorted, j), sorted[j], sorted[k]),
{
    let u = gap_from(sorted, j);
    let v = sorted[j];
    let w = sorted[k];
    let last = sorted.len() - 1;
    if j >= 1 {
        assert(u.cross(v) < 0);
        lemma_ascending_pairs(sorted, j - 1, j);
        if k <= j - 1 {
            lemma_ascending_pairs(sorted, k, j - 1);
        } else {
            lemma_ascending_pairs(sorted, j, k);
        }
        lemma_in_the_wedge_across_the_axis(u, v, w);
    } else {
        lemma_ascending_pairs(sorted, 0, k);
        lemma_ascending_pairs(sorted, k, last);
        if u.cross(v) < 0 {
            lemma_in_the_wedge_within_the_turn(u, v, w);
        } else {
            lemma_along_the_wall(u, v, w);
        }
    }
}

/// Every direction that was sorted is one of the directions of the sorted
/// list.
proof fn lemma_member_sorted(directions: Seq<Direction>, i: int) -> (k: int)
    requires
        0 <= i < directions.len(),
    ensures
        0 <= k < sorted_by_angle(directions).len(),
        directions[i] == sorted_by_angle(directions)[k],
{
    let sorted = sorted_by_angle(directions);
    lemma_sorted_by_angle(directions);
    let d = directions[i];
    assert(directions.contains(d));
    to_multiset_contains(sorted, d);
    to_multiset_contains(directions, d);
    assert(sorted.contains(d));
    choose|k: int| 0 <= k < sorted.len() && sorted[k] == d
}

/// Whether no wall of a corner is without length.
pub open spec fn corners_have_length(corners: Seq<CornerView>) -> bool {
    forall|c: int| 0 <= c < corners.len() ==> all_have_length((#[trigger] corners[c]).directions)
}

/// Adding a wall with length keeps the walls of the corners with length.
proof fn lemma_with_direction_has_length(corners: Seq<CornerView>, p: Point, d: Direction)
    requires
        corners_have_length(corners),
        !d.is_zero(),
    ensures
        corners_have_length(with_direction(corners, p, d)),
{
    let after = with_direction(corners, p, d);
    assert forall|c: int| 0 <= c < after.len() implies all_have_length(
        (#[trigger] after[c]).directions,
    ) by {
        if c < corners.len() {
            if has_corner(corners, p) && c == corner_at(corners, p) {
                let former = corners[c].directions;
                assert(all_have_length(former));
                assert forall|i: int| 0 <= i < after[c].directions.len() implies !(
                #[trigger] after[c].directions[i]).is_zero() by {
                    if i < former.len() {
                        assert(after[c].directions[i] == former[i]);
                    }
                }
            } else {
                assert(after[c] == corners[c]);
            }
        }
    }
}

/// The walls of the corners of any segments have length.
proof fn lemma_corners_have_length(segments: Seq<LineSegment>)
    ensures
        corners_have_length(corners_of(segments)),
    decreases segments.len(),
{
    if segments.len() > 0 {
        let s = segments.last();
        lemma_corners_have_length(segments.drop_last());
        let before = corners_of(segments.drop_last());
        if s.p1 != s.p2 {
            let d1 = Direction::spec_between(s.p1, s.p2);
            let d2 = Direction::spec_between(s.p2, s.p1);
            lemma_with_direction_has_length(before, s.p1, d1);
            lemma_with_direction_has_length(with_direction(before, s.p1, d1), s.p2, d2);
        }
    }
}

/// Every bearing for the gaps between neighbors is a bearing of one of
/// these gaps.
proof fn lemma_bearing_of_an_inner_gap(sorted: Seq<Direction>, upto: int, i: int) -> (r: (int, int))
    requires
        1 <= upto <= sorted.len(),
        0 <= i < inner_bearings(sorted, upto).len(),
    ensures
        1 <= r.0 < upto,
        0 <= r.1 < gap_bearings(sorted[r.0 - 1], sorted[r.0], false).len(),
        inner_bearings(sorted, upto)[i] == gap_bearings(sorted[r.0 - 1], sorted[r.0], false)[r.1],
    decreases upto,
{
    let before = inner_bearings(sorted, upto - 1);
    if i < before.len() {
        lemma_bearing_of_an_inner_gap(sorted, upto - 1, i)
    } else {
        (upto - 1, i - before.len())
    }
}

/// Every placement at the corners is a placement at one of the corners.
proof fn lemma_placement_of_a_corner(corners: Seq<CornerView>, i: int) -> (r: (int, int))
    requires
        0 <= i < all_corner_placements(corners).len(),
    ensures
        0 <= r.0 < corners.len(),
        0 <= r.1 < corner_placements(corners[r.0]).len(),
        all_corner_placements(corners)[i] == corner_placements(corners[r.0])[r.1],
    decreases corners.len(),
{
    let before = all_corner_placements(corners.drop_last());
    if i < before.len() {
        let r = lemma_placement_of_a_corner(corners.drop_last(), i);
        assert(corners.drop_last()[r.0] == corners[r.0]);
        r
    } else {
        (corners.len() - 1, i - before.len())
    }
}

/// Every direction of the sorted list is one of the directions that were
/// sorted.
proof fn lemma_sorted_member(directions: Seq<Direction>, k: int) -> (i: int)
    requires
        0 <= k < sorted_by_angle(directions).len(),
    ensures
        0 <= i < directions.len(),
        directions[i] == sorted_by_angle(directions)[k],
{
    let sorted = sorted_by_angle(directions);
    lemma_sorted_by_angle(directions);
    let d = sorted[k];
    assert(sorted.contains(d));
    to_multiset_contains(sorted, d);
    to_multiset_contains(directions, d);
    assert(directions.contains(d));
    choose|i: int| 0 <= i < directions.len() && directions[i] == d
}

/// Where two walls leave a corner the same way, what lies strictly beside
/// one of them lies strictly beside the other.
proof fn lemma_beside_both(u: Direction, v: Direction, x: Direction)
    requires
        u.cross(v) == 0,
        u.dot(v) > 0,
        v.cross(x) != 0,
    ensures
        u.cross(x) != 0,
{
    let c = u.cross(x);
    assert(c * v.dx == u.dx * v.cross(x)) by (nonlinear_arith)
        requires
            c == u.dx * x.dy - u.dy * x.dx,
            v.cross(x) == v.dx * x.dy - v.dy * x.dx,
            u.dx * v.dy - u.dy * v.dx == 0,
    ;
    assert(c * v.dy == u.dy * v.cross(x)) by (nonlinear_arith)
        requires
            c == u.dx * x.dy - u.dy * x.dx,
            v.cross(x) == v.dx * x.dy - v.dy * x.dx,
            u.dx * v.dy - u.dy * v.dx == 0,
    ;
    if c == 0 {
        assert(u.dx * v.cross(x) == 0 && u.dy * v.cross(x) == 0) by (nonlinear_arith)
            requires
                c == 0,
                c * v.dx == u.dx * v.cross(x),
                c * v.dy == u.dy * v.cross(x),
        ;
        assert(u.dx == 0 && u.dy == 0) by (nonlinear_arith)
            requires
                u.dx * v.cross(x) == 0,
                u.dy * v.cross(x) == 0,
                v.cross(x) != 0,
        ;
        assert(u.dot(v) == 0) by (nonlinear_arith)
            requires
                u.dx == 0,
                u.dy == 0,
                u.dot(v) == u.dx * v.dx + u.dy * v.dy,
        ;
    }
}

/// The waypoints of a gap keep clear of the side of the corner that the two
/// walls of the gap enclose, from a distance of seven units on.
proof fn lemma_gap_keeps_clear(u: Direction, v: Direction, wrap: bool, distance: int, k: int)
    requires
        u.wf(),
        v.wf(),
        7 <= distance <= i32::MAX,
        0 <= k < gap_bearings(u, v, wrap).len(),
    ensures
        !on_wall_side(u, v, spec_scale_to(gap_bearings(u, v, wrap)[k], distance)),
{
    let bearing = gap_bearings(u, v, wrap)[k];
    let offset = spec_scale_to(bearing, distance);
    if u.cross(v) < 0 {
        lemma_waypoints_lie_in_the_gap(u, v, wrap, distance, k);
    } else {
        // The gap is the whole turn around walls that leave the same way.
        assert(gap_class(u, v, wrap) == GapClass::FlanksAndBisector);
        assert(u.cross(v) == 0 && u.dot(v) > 0);
        assert(!u.is_zero() && !v.is_zero()) by (nonlinear_arith)
            requires
                u.dx * v.dx + u.dy * v.dy > 0,
        ;
        assert(v.cross(u) == 0 && v.dot(u) > 0) by (nonlinear_arith)
            requires
                u.cross(v) == 0,
                u.dot(v) > 0,
                u.cross(v) == u.dx * v.dy - u.dy * v.dx,
                v.cross(u) == v.dx * u.dy - v.dy * u.dx,
                u.dot(v) == u.dx * v.dx + u.dy * v.dy,
                v.dot(u) == v.dx * u.dx + v.dy * u.dy,
        ;
        lemma_bisector_lies_in_the_gap(u, v, wrap, distance);
        lemma_flanks_lie_in_the_gap(u, v, distance);
        if k == 0 {
            assert(offset.dot(u) < 0 && offset.dot(v) < 0);
            assert(u.dot(offset) == offset.dot(u) && v.dot(offset) == offset.dot(v))
                by (nonlinear_arith)
                requires
                    u.dot(offset) == u.dx * offset.dx + u.dy * offset.dy,
                    offset.dot(u) == offset.dx * u.dx + offset.dy * u.dy,
                    v.dot(offset) == v.dx * offset.dx + v.dy * offset.dy,
                    offset.dot(v) == offset.dx * v.dx + offset.dy * v.dy,
            ;
        } else if k == 1 {
            assert(offset.cross(u) < 0);
            assert(u.cross(offset) == -offset.cross(u)) by (nonlinear_arith)
                requires
                    u.cross(offset) == u.dx * offset.dy - u.dy * offset.dx,
                    offset.cross(u) == offset.dx * u.dy - offset.dy * u.dx,
            ;
            lemma_beside_both(v, u, offset);
        } else {
            assert(v.cross(offset) < 0);
            lemma_beside_both(u, v, offset);
        }
    }
}

/// Every waypoint at the corners is a waypoint of a gap of its corner; all
/// walls of the corner lie on the side of the corner that the two walls of
/// the gap enclose, and the waypoint does not, from a distance of seven units
/// on.
pub proof fn lemma_waypoints_keep_clear(corners: Seq<CornerView>, distance: int, i: int)
    requires
        corners_wf(corners),
        corners_have_length(corners),
        7 <= distance <= i32::MAX,
        0 <= i < all_corner_placements(corners).len(),
    ensures
        keeps_clear(corners, all_corner_placements(corners)[i], distance),
{
    let place = all_corner_placements(corners)[i];
    let (c, m) = lemma_placement_of_a_corner(corners, i);
    let corner = corners[c];
    let sorted = sorted_by_angle(corner.directions);
    lemma_sorted_by_angle(corner.directions);
    assert(sorted.len() > 0);
    let bearings = corner_bearings(sorted);
    assert(place == Placement { anchor: corner.point, bearing: bearings[m] });
    let inner = inner_bearings(sorted, sorted.len() as int);
    let j: int;
    let k: int;
    if m < inner.len() {
        let r = lemma_bearing_of_an_inner_gap(sorted, sorted.len() as int, m);
        j = r.0;
        k = r.1;
    } else {
        j = 0;
        k = m - inner.len();
    }
    let u = gap_from(sorted, j);
    let v = sorted[j];
    assert(place.bearing == gap_bearings(u, v, j == 0)[k]);
    let iu = lemma_sorted_member(corner.directions, if j == 0 {
        sorted.len() - 1
    } else {
        j - 1
    });
    let iv = lemma_sorted_member(corner.directions, j);
    assert(corner.directions[iu].wf() && corner.directions[iv].wf());
    lemma_gap_keeps_clear(u, v, j == 0, distance, k);
    assert(all_have_length(sorted)) by {
        assert forall|n: int| 0 <= n < sorted.len() implies !(#[trigger] sorted[n]).is_zero() by {
            let from = lemma_sorted_member(corner.directions, n);
        }
    }
    assert forall|w: int| 0 <= w < corner.directions.len() implies on_wall_side(
        u,
        v,
        #[trigger] corner.directions[w],
    ) by {
        let n = lemma_member_sorted(corner.directions, w);
        lemma_walls_lie_on_the_wall_side(sorted, j, n);
    }
    assert(placed_in_gap(corners[c], place, distance, j, k));
}

/// The waypoints at the corners of a built scene keep clear of their walls:
/// the node is the waypoint of its placement, and the placement belongs to a
/// gap between two walls that are neighbors around its corner. These two
/// walls enclose a side of the corner, a wedge of less than half a turn or a
/// single ray. Every wall of the corner lies on that side, and the node does
/// not. This holds for waypoints that keep seven units or more from the
/// walls.
pub proof fn lemma_nodes_keep_clear(
    walls: Seq<Wall>,
    terrain: Seq<TerrainView>,
    token_size: i32,
    elevation: i32,
    i: int,
)
    requires
        distance_from_walls(token_size) >= 7,
        0 <= i < all_corner_placements(
            corners_of(blocking_segments(walls, elevation) + polygon_sides(terrain)),
        ).len(),
    ensures
        ({
            let corners = corners_of(
                blocking_segments(walls, elevation) + polygon_sides(terrain),
            );
            let place = all_corner_placements(corners)[i];
            let distance = distance_from_walls(token_size);
            &&& place == placements(walls, terrain, elevation)[i]
            &&& scene_of(walls, terrain, token_size, elevation).points[i] == placed_point(
                place,
                distance,
            )
            &&& keeps_clear(corners, place, distance)
        }),
{
    let segments = blocking_segments(walls, elevation) + polygon_sides(terrain);
    lemma_corners_of(segments);
    lemma_corners_have_length(segments);
    lemma_waypoints_keep_clear(corners_of(segments), distance_from_walls(token_size), i);
}

} // verus!
