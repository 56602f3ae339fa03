//! What paths cost: the cost of an edge, the cost of a route, and the
//! triangle inequality that makes the straight distance to the origin a safe
//! estimate of the cost that remains.

use crate::geometry::{Point, COST_SCALE};
use crate::numeric::{is_isqrt, isqrt_spec, lemma_square_monotone};
use crate::pathfinder::{Scene, HOP_PENALTY};
use vstd::prelude::*;

verus! {

/// A cost as far as it can be told: costs are added with saturation, so
/// every cost above the largest number counts as the largest number.
pub open spec fn capped(cost: int) -> int {
    if cost > u64::MAX {
        u64::MAX as int
    } else {
        cost
    }
}

/// Whether the terrain function has an answer for the pair of points.
pub open spec fn has_answer<F: Fn(Point, Point) -> u64>(oracle: F, a: Point, b: Point) -> bool {
    exists|c: u64| call_ensures(oracle, (a, b), c)
}

/// Whether the terrain function is fit for the search: it can be asked
/// about every pair of points, it never gives two answers for one pair, and
/// its answer is never below the straight distance.
pub open spec fn oracle_ok<F: Fn(Point, Point) -> u64>(oracle: F) -> bool {
    &&& forall|a: Point, b: Point| call_requires(oracle, (a, b))
    &&& forall|a: Point, b: Point, c1: u64, c2: u64|
        call_ensures(oracle, (a, b), c1) && call_ensures(oracle, (a, b), c2) ==> c1 == c2
    &&& forall|a: Point, b: Point, c: u64| #[trigger]
        call_ensures(oracle, (a, b), c) ==> c >= a.spec_distance_to(b)
}

/// The cost of moving straight from `a` to `b`: the Euclidean distance, or
/// the answer of the terrain function where the segment touches difficult
/// terrain. A pair for which the terrain function has no answer is never
/// measured; it counts with its Euclidean distance.
pub open spec fn edge_cost<F: Fn(Point, Point) -> u64>(
    scene: Scene,
    oracle: F,
    a: Point,
    b: Point,
) -> int {
    if scene.crosses_terrain(a, b) && has_answer(oracle, a, b) {
        (choose|c: u64| call_ensures(oracle, (a, b), c)) as int
    } else {
        a.spec_distance_to(b)
    }
}

/// The cost of a path: for every hop the cost of its edge and the flat
/// penalty.
pub open spec fn route_cost<F: Fn(Point, Point) -> u64>(
    scene: Scene,
    oracle: F,
    path: Seq<Point>,
) -> int
    decreases path.len(),
{
    if path.len() <= 1 {
        0
    } else {
        route_cost(scene, oracle, path.drop_last()) + edge_cost(
            scene,
            oracle,
            path[path.len() - 2],
            path[path.len() - 1],
        ) + HOP_PENALTY
    }
}

/// Every number that is not negative has an integer square root.
pub proof fn lemma_isqrt_exists(n: int)
    requires
        n >= 0,
    ensures
        is_isqrt(n, isqrt_spec(n)),
    decreases n,
{
    if n == 0 {
        assert(is_isqrt(0, 0));
    } else {
        lemma_isqrt_exists(n - 1);
        let r = isqrt_spec(n - 1);
        if n < (r + 1) * (r + 1) {
            assert(is_isqrt(n, r));
        } else {
            assert((r + 2) * (r + 2) == (r + 1) * (r + 1) + 2 * r + 3) by (nonlinear_arith);
            assert(is_isqrt(n, r + 1));
        }
    }
}

/// The straight distance is an integer square root, and it is not negative.
pub proof fn lemma_distance_is_root(a: Point, b: Point)
    ensures
        is_isqrt(
            COST_SCALE * COST_SCALE * ((a.x - b.x) * (a.x - b.x) + (a.y - b.y) * (a.y - b.y)),
            a.spec_distance_to(b),
        ),
        a.spec_distance_to(b) >= 0,
{
    let dx = a.x - b.x;
    let dy = a.y - b.y;
    assert(dx * dx >= 0) by (nonlinear_arith);
    assert(dy * dy >= 0) by (nonlinear_arith);
    assert(COST_SCALE * COST_SCALE * (dx * dx + dy * dy) >= 0) by (nonlinear_arith)
        requires
            dx * dx + dy * dy >= 0,
    ;
    lemma_isqrt_exists(COST_SCALE * COST_SCALE * (dx * dx + dy * dy));
}

/// The square of a sum of two products is at most the product of the sums
/// of the squares.
proof fn lemma_cauchy_schwarz(px: int, py: int, qx: int, qy: int)
    ensures
        (px * qx + py * qy) * (px * qx + py * qy) <= (px * px + py * py) * (qx * qx + qy * qy),
{
    let ac = px * qx;
    let ad = px * qy;
    let bc = py * qx;
    let bd = py * qy;
    let cross = ad - bc;
    assert((px * px) * (qx * qx) == ac * ac) by (nonlinear_arith)
        requires
            ac == px * qx,
    ;
    assert((px * px) * (qy * qy) == ad * ad) by (nonlinear_arith)
        requires
            ad == px * qy,
    ;
    assert((py * py) * (qx * qx) == bc * bc) by (nonlinear_arith)
        requires
            bc == py * qx,
    ;
    assert((py * py) * (qy * qy) == bd * bd) by (nonlinear_arith)
        requires
            bd == py * qy,
    ;
    assert((px * px + py * py) * (qx * qx + qy * qy) == (px * px) * (qx * qx) + (px * px) * (qy
        * qy) + (py * py) * (qx * qx) + (py * py) * (qy * qy)) by (nonlinear_arith);
    assert((ac + bd) * (ac + bd) == ac * ac + 2 * (ac * bd) + bd * bd) by (nonlinear_arith);
    assert(cross * cross == ad * ad - 2 * (ad * bc) + bc * bc) by (nonlinear_arith)
        requires
            cross == ad - bc,
    ;
    assert(ac * bd == ad * bc) by (nonlinear_arith)
        requires
            ac == px * qx,
            bd == py * qy,
            ad == px * qy,
            bc == py * qx,
    ;
    assert(cross * cross >= 0) by (nonlinear_arith);
}

/// The triangle inequality for roots that are rounded down: with
/// `big = |p + q|^2`, `left = |p|^2` and `right = |q|^2`, each times the same
/// square, the root of `big` exceeds the sum of the other two roots by at
/// most one.
proof fn lemma_rounded_triangle(
    s: int,
    px: int,
    py: int,
    qx: int,
    qy: int,
    ra: int,
    rb: int,
    rc: int,
)
    requires
        s >= 0,
        is_isqrt(s * ((px + qx) * (px + qx) + (py + qy) * (py + qy)), ra),
        is_isqrt(s * (px * px + py * py), rb),
        is_isqrt(s * (qx * qx + qy * qy), rc),
    ensures
        ra <= rb + rc + 1,
{
    if ra >= rb + rc + 2 {
        let pp = px * px + py * py;
        let qq = qx * qx + qy * qy;
        let dot = px * qx + py * qy;
        let big = s * ((px + qx) * (px + qx) + (py + qy) * (py + qy));
        let left = s * pp;
        let right = s * qq;
        let x = rb + 1;
        let y = rc + 1;
        assert(pp >= 0) by (nonlinear_arith)
            requires
                pp == px * px + py * py,
        ;
        assert(qq >= 0) by (nonlinear_arith)
            requires
                qq == qx * qx + qy * qy,
        ;
        assert(left >= 0 && right >= 0) by (nonlinear_arith)
            requires
                left == s * pp,
                right == s * qq,
                s >= 0,
                pp >= 0,
                qq >= 0,
        ;
        assert(big == left + right + 2 * (s * dot)) by (nonlinear_arith)
            requires
                big == s * ((px + qx) * (px + qx) + (py + qy) * (py + qy)),
                left == s * (px * px + py * py),
                right == s * (qx * qx + qy * qy),
                dot == px * qx + py * qy,
        ;
        // The root of `big` is at least `x + y`, so `big` is at least its square.
        assert((x + y) * (x + y) <= ra * ra) by {
            if x + y < ra {
                lemma_square_monotone(x + y, ra);
            }
        }
        assert((x + y) * (x + y) == x * x + 2 * (x * y) + y * y) by (nonlinear_arith);
        let d = s * dot;
        // Hence `2 * d = big - left - right` exceeds `2 * x * y`.
        assert(d > x * y);
        assert(x * y > 0) by (nonlinear_arith)
            requires
                x >= 1,
                y >= 1,
        ;
        assert(d * d > (x * y) * (x * y)) by (nonlinear_arith)
            requires
                d > x * y,
                x * y > 0,
        ;
        assert((x * y) * (x * y) == (x * x) * (y * y)) by (nonlinear_arith);
        assert((x * x) * (y * y) > left * right) by (nonlinear_arith)
            requires
                x * x > left,
                y * y > right,
                left >= 0,
                right >= 0,
        ;
        // But `d * d` is at most `left * right`.
        lemma_cauchy_schwarz(px, py, qx, qy);
        assert(d * d == (s * s) * (dot * dot)) by (nonlinear_arith)
            requires
                d == s * dot,
        ;
        assert(left * right == (s * s) * (pp * qq)) by (nonlinear_arith)
            requires
                left == s * pp,
                right == s * qq,
        ;
        assert((s * s) * (dot * dot) <= (s * s) * (pp * qq)) by (nonlinear_arith)
            requires
                dot * dot <= pp * qq,
        ;
        assert(false);
    }
}

/// The straight distance from `a` to `c` exceeds the distances from `a` to
/// `b` and from `b` to `c` together by at most one cost unit, which is what
/// rounding down can add.
pub proof fn lemma_triangle(a: Point, b: Point, c: Point)
    ensures
        a.spec_distance_to(c) <= a.spec_distance_to(b) + b.spec_distance_to(c) + 1,
{
    lemma_distance_is_root(a, c);
    lemma_distance_is_root(a, b);
    lemma_distance_is_root(b, c);
    let px = a.x - b.x;
    let py = a.y - b.y;
    let qx = b.x - c.x;
    let qy = b.y - c.y;
    assert(px + qx == a.x - c.x && py + qy == a.y - c.y);
    lemma_rounded_triangle(
        COST_SCALE * COST_SCALE,
        px,
        py,
        qx,
        qy,
        a.spec_distance_to(c),
        a.spec_distance_to(b),
        b.spec_distance_to(c),
    );
}

/// The cost of an edge is the cost that edge discovery found for it.
pub proof fn lemma_edge_cost_is_found<F: Fn(Point, Point) -> u64>(
    scene: Scene,
    oracle: F,
    a: Point,
    b: Point,
    cost: u64,
)
    requires
        oracle_ok(oracle),
        crate::pathfinder::Pathfinder::<F>::cost_ok(scene, oracle, a, b, cost),
    ensures
        edge_cost(scene, oracle, a, b) == cost,
{
    if scene.crosses_terrain(a, b) {
        assert(has_answer(oracle, a, b));
        let chosen = choose|c: u64| call_ensures(oracle, (a, b), c);
        assert(call_ensures(oracle, (a, b), chosen));
    }
}

/// The cost of an edge fits a cost and is at least the straight distance.
pub proof fn lemma_edge_cost_bounds<F: Fn(Point, Point) -> u64>(
    scene: Scene,
    oracle: F,
    a: Point,
    b: Point,
)
    requires
        oracle_ok(oracle),
    ensures
        a.spec_distance_to(b) <= edge_cost(scene, oracle, a, b),
        0 <= edge_cost(scene, oracle, a, b),
{
    lemma_distance_is_root(a, b);
    if scene.crosses_terrain(a, b) && has_answer(oracle, a, b) {
        let chosen = choose|c: u64| call_ensures(oracle, (a, b), c);
        assert(call_ensures(oracle, (a, b), chosen));
    }
}

/// The straight distance to the origin never overrates what remains: it
/// is at most the cost of a hop plus the straight distance from where the
/// hop ends.
pub proof fn lemma_estimate_is_consistent<F: Fn(Point, Point) -> u64>(
    scene: Scene,
    oracle: F,
    a: Point,
    b: Point,
    from: Point,
)
    requires
        oracle_ok(oracle),
    ensures
        a.spec_distance_to(from) <= edge_cost(scene, oracle, a, b) + HOP_PENALTY + b.spec_distance_to(
            from,
        ),
{
    lemma_triangle(a, b, from);
    lemma_edge_cost_bounds(scene, oracle, a, b);
}

/// A route costs nothing or more.
pub proof fn lemma_route_cost_not_negative<F: Fn(Point, Point) -> u64>(
    scene: Scene,
    oracle: F,
    path: Seq<Point>,
)
    requires
        oracle_ok(oracle),
    ensures
        route_cost(scene, oracle, path) >= 0,
    decreases path.len(),
{
    if path.len() > 1 {
        lemma_route_cost_not_negative(scene, oracle, path.drop_last());
        lemma_edge_cost_bounds(scene, oracle, path[path.len() - 2], path[path.len() - 1]);
    }
}

/// The terrain function for scenes in which difficult terrain costs what
/// open ground costs: the straight distance.
pub fn straight_distance(a: Point, b: Point) -> (cost: u64)
    ensures
        cost == a.spec_distance_to(b),
{
    a.distance_to(b)
}

/// The straight distance is fit to be the terrain function of a search.
pub proof fn lemma_straight_distance_is_fit()
    ensures
        oracle_ok(straight_distance),
{
}

} // verus!
