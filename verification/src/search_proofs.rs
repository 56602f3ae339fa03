//! Why the search is right: the path it returns is a route, no route is
//! cheaper, and if it returns none, there is none.

use crate::costs::{
    capped, lemma_distance_is_root, lemma_edge_cost_bounds, lemma_estimate_is_consistent,
    lemma_route_cost_not_negative, oracle_ok, route_cost,
};
use crate::geometry::Point;
use crate::model::{cheapest_place, expanded, path_to, search};
use crate::numeric::lemma_isqrt_unique;
use crate::pathfinder::{DiscoveredNode, NodeRef, Scene};
use crate::search_state::{
    closed_ok, cost_through, covered, entry_ok, estimate, frontier_ok, holds, is_trail,
    never_dearer, offered, offers_stay, search_ok, served, trail, walk_of, walk_ok, walk_points,
};
use vstd::prelude::*;

verus! {

/// The trail of an expanded entry walks from its node back to the
/// destination, and read backwards it costs what the entry says.
pub(crate) proof fn lemma_trail<F: Fn(Point, Point) -> u64>(
    scene: Scene,
    oracle: F,
    closed: Seq<DiscoveredNode>,
    c: int,
    from: Point,
    to: Point,
)
    requires
        oracle_ok(oracle),
        closed_ok(scene, oracle, closed, from, to),
        0 <= c < closed.len(),
    ensures
        is_trail(
            scene,
            trail(scene, closed, c, from, to),
            scene.point_of(closed[c].node, from, to),
            to,
        ),
        closed[c].cost == capped(
            route_cost(scene, oracle, trail(scene, closed, c, from, to).reverse()),
        ),
    decreases c,
{
    let entry = closed[c];
    assert(entry_ok(scene, oracle, entry, closed, c, from, to));
    let t = trail(scene, closed, c, from, to);
    match entry.previous {
        Some(p) => {
            lemma_trail(scene, oracle, closed, p as int, from, to);
            let rest = trail(scene, closed, p as int, from, to);
            let head = seq![scene.point_of(entry.node, from, to)];
            assert(t == head + rest);
            assert(entry.node is Regular);
            assert forall|k: int| 0 <= k < t.len() - 1 implies scene.free_edge(
                t[k + 1],
                #[trigger] t[k],
            ) && scene.points.contains(t[k]) by {
                if k == 0 {
                    assert(t[1] == rest[0]);
                    assert(scene.points[entry.node->Regular_0 as int] == t[0]);
                } else {
                    assert(t[k] == rest[k - 1]);
                    assert(t[k + 1] == rest[k]);
                }
            }
            let way = t.reverse();
            assert(way.drop_last() =~= rest.reverse());
            assert(way[way.len() - 1] == t[0]);
            assert(way[way.len() - 2] == rest[0]);
            lemma_route_cost_not_negative(scene, oracle, rest.reverse());
            lemma_edge_cost_bounds(scene, oracle, rest[0], t[0]);
        },
        None => {
            assert(t.reverse().len() == 1);
        },
    }
}

/// A trail, extended by the origin and read backwards, is a route.
pub(crate) proof fn lemma_reversed_trail_is_route(
    scene: Scene,
    t: Seq<Point>,
    from: Point,
    to: Point,
    walk: Seq<Point>,
)
    requires
        is_trail(scene, t, t[0], to),
        scene.free_edge(t[0], from),
        walk == seq![from] + t,
    ensures
        scene.is_route(from, to, walk.reverse()),
        walk.reverse().drop_last() == t.reverse(),
        walk.reverse().last() == from,
{
    let r = walk.reverse();
    let len = walk.len() as int;
    assert(r.len() == len);
    assert forall|i: int| 0 <= i < r.len() - 1 implies scene.free_edge(
        #[trigger] r[i],
        r[i + 1],
    ) by {
        let k = len - 2 - i;
        assert(r[i] == walk[k + 1]);
        assert(r[i + 1] == walk[k]);
        if k == 0 {
            assert(walk[1] == t[0]);
        } else {
            assert(walk[k] == t[k - 1]);
            assert(walk[k + 1] == t[k]);
        }
    }
    assert forall|i: int| 0 < i < r.len() - 1 implies scene.points.contains(#[trigger] r[i]) by {
        let m = len - 2 - i;
        assert(r[i] == walk[m + 1]);
        assert(walk[m + 1] == t[m]);
    }
    assert(r[0] == walk[len - 1]);
    assert(walk[len - 1] == t[t.len() - 1]);
    assert(r[len - 1] == walk[0]);
    assert(r.drop_last() =~= t.reverse()) by {
        assert forall|i: int| 0 <= i < len - 1 implies r.drop_last()[i] == t.reverse()[i] by {
            assert(r[i] == walk[len - 1 - i]);
            assert(walk[len - 1 - i] == t[len - 2 - i]);
        }
    }
}

/// Along a route, every point is the point of an expanded node, if the
/// destination was expanded and all neighbors of expanded nodes were
/// expanded too.
pub(crate) proof fn lemma_route_stays_closed<F: Fn(Point, Point) -> u64>(
    scene: Scene,
    oracle: F,
    closed: Seq<DiscoveredNode>,
    from: Point,
    to: Point,
    path: Seq<Point>,
    i: int,
)
    requires
        closed_ok(scene, oracle, closed, from, to),
        holds(closed, NodeRef::Destination),
        forall|c: int|
            0 <= c < closed.len() ==> covered(scene, oracle, closed, Seq::empty(), c, from, to),
        scene.is_route(from, to, path),
        scene.points.len() <= usize::MAX,
        0 <= i < path.len(),
    ensures
        exists|c: int|
            0 <= c < closed.len() && scene.point_of((#[trigger] closed[c]).node, from, to)
                == path[i],
    decreases i,
{
    if i == 0 {
        let c = choose|c: int|
            0 <= c < closed.len() && (#[trigger] closed[c]).node == NodeRef::Destination;
        assert(scene.point_of(closed[c].node, from, to) == path[0]);
    } else {
        lemma_route_stays_closed(scene, oracle, closed, from, to, path, i - 1);
        let c = choose|c: int|
            0 <= c < closed.len() && scene.point_of((#[trigger] closed[c]).node, from, to)
                == path[i - 1];
        assert(covered(scene, oracle, closed, Seq::empty(), c, from, to));
        assert(scene.free_edge(path[i - 1], path[i - 1 + 1]));
        let empty = Seq::<DiscoveredNode>::empty();
        if i == path.len() - 1 {
            assert(offered(empty, NodeRef::Final, cost_through(scene, oracle, closed[c], from, from, to)));
            assert(false);
        } else {
            assert(scene.points.contains(path[i]));
            let w = choose|w: int| 0 <= w < scene.points.len() && scene.points[w] == path[i];
            let wu = w as usize;
            if NodeRef::Regular(wu) == closed[c].node {
                assert(scene.point_of(closed[c].node, from, to) == path[i]);
            } else {
                let bound = cost_through(scene, oracle, closed[c], scene.points[wu as int], from, to);
                assert(served(closed, empty, NodeRef::Regular(wu), bound));
                assert(!offered(empty, NodeRef::Regular(wu), bound));
                let c2 = choose|c2: int|
                    0 <= c2 < closed.len() && (#[trigger] closed[c2]).node == NodeRef::Regular(
                        wu,
                    );
                assert(scene.point_of(closed[c2].node, from, to) == path[i]);
            }
        }
    }
}

/// There is no route once the destination and all neighbors of expanded
/// nodes have been expanded and the origin was not among them.
pub(crate) proof fn lemma_no_route<F: Fn(Point, Point) -> u64>(
    scene: Scene,
    oracle: F,
    closed: Seq<DiscoveredNode>,
    from: Point,
    to: Point,
    path: Seq<Point>,
)
    requires
        closed_ok(scene, oracle, closed, from, to),
        holds(closed, NodeRef::Destination),
        forall|c: int|
            0 <= c < closed.len() ==> covered(scene, oracle, closed, Seq::empty(), c, from, to),
        scene.points.len() <= usize::MAX,
    ensures
        !scene.is_route(from, to, path),
{
    if scene.is_route(from, to, path) {
        lemma_route_stays_closed(scene, oracle, closed, from, to, path, path.len() - 1);
    }
}

/// The part of a walk up to a node is a walk, and its points are the first
/// points of the walk.
pub(crate) proof fn lemma_walk_prefix(scene: Scene, walk: Seq<NodeRef>, k: int, from: Point, to: Point)
    requires
        walk_ok(scene, walk, from, to),
        1 <= k <= walk.len(),
    ensures
        walk_ok(scene, walk.take(k), from, to),
        walk_points(scene, walk.take(k), from, to) == walk_points(scene, walk, from, to).take(k),
{
    let part = walk.take(k);
    assert forall|i: int| 0 <= i < part.len() implies scene.ref_ok(#[trigger] part[i]) by {
        assert(part[i] == walk[i]);
    }
    assert forall|i: int| 0 <= i < part.len() - 1 implies (#[trigger] part[i]) == part[i + 1]
        || scene.free_edge(
        scene.point_of(part[i], from, to),
        scene.point_of(part[i + 1], from, to),
    ) by {
        assert(part[i] == walk[i]);
        assert(part[i + 1] == walk[i + 1]);
    }
    assert(walk_points(scene, part, from, to) =~= walk_points(scene, walk, from, to).take(k));
}

/// What a path costs up to a point, with the estimate from there, is at
/// most what the whole path costs, with the estimate from its end.
pub(crate) proof fn lemma_telescope<F: Fn(Point, Point) -> u64>(
    scene: Scene,
    oracle: F,
    points: Seq<Point>,
    j: int,
    from: Point,
)
    requires
        oracle_ok(oracle),
        0 <= j < points.len(),
    ensures
        route_cost(scene, oracle, points.take(j + 1)) + estimate(points[j], from) <= route_cost(
            scene,
            oracle,
            points,
        ) + estimate(points[points.len() - 1], from),
    decreases points.len() - j,
{
    if j == points.len() - 1 {
        assert(points.take(j + 1) == points);
    } else {
        lemma_telescope(scene, oracle, points, j + 1, from);
        let longer = points.take(j + 2);
        assert(longer.drop_last() == points.take(j + 1));
        assert(longer[longer.len() - 2] == points[j]);
        assert(longer[longer.len() - 1] == points[j + 1]);
        lemma_estimate_is_consistent(scene, oracle, points[j], points[j + 1], from);
    }
}

/// The first node of a walk that has not been expanded.
pub(crate) proof fn lemma_first_open(closed: Seq<DiscoveredNode>, walk: Seq<NodeRef>, k: int) -> (j: int)
    requires
        0 <= k < walk.len(),
        forall|i: int| 0 <= i < k ==> holds(closed, #[trigger] walk[i]),
        !holds(closed, walk[walk.len() - 1]),
    ensures
        k <= j < walk.len(),
        !holds(closed, walk[j]),
        forall|i: int| 0 <= i < j ==> holds(closed, #[trigger] walk[i]),
    decreases walk.len() - k,
{
    if !holds(closed, walk[k]) {
        k
    } else {
        lemma_first_open(closed, walk, k + 1)
    }
}

/// The entry with the least estimate in the frontier promises no more than
/// any walk costs that leaves the expanded nodes, with the estimate from the
/// end of the walk.
///
/// Such a walk has a first node that has not been expanded. That node
/// waits in the frontier, for no more than the walk costs up to it. From
/// there on the estimate never overrates what the walk still costs.
pub(crate) proof fn lemma_cheapest_bound<F: Fn(Point, Point) -> u64>(
    scene: Scene,
    oracle: F,
    closed: Seq<DiscoveredNode>,
    frontier: Seq<DiscoveredNode>,
    best: int,
    from: Point,
    to: Point,
    walk: Seq<NodeRef>,
)
    requires
        oracle_ok(oracle),
        closed_ok(scene, oracle, closed, from, to),
        frontier_ok(scene, oracle, frontier, closed, from, to),
        forall|c: int|
            0 <= c < closed.len() ==> covered(scene, oracle, closed, frontier, c, from, to),
        closed.len() == 0 ==> holds(frontier, NodeRef::Destination),
        closed.len() > 0 ==> closed[0].node == NodeRef::Destination,
        0 <= best < frontier.len(),
        forall|j: int|
            0 <= j < frontier.len() ==> frontier[best].estimated <= (
            #[trigger] frontier[j]).estimated,
        walk_ok(scene, walk, from, to),
        !holds(closed, walk[walk.len() - 1]),
    ensures
        frontier[best].estimated <= capped(
            route_cost(scene, oracle, walk_points(scene, walk, from, to)) + estimate(
                scene.point_of(walk[walk.len() - 1], from, to),
                from,
            ),
        ),
{
    let points = walk_points(scene, walk, from, to);
    let j = lemma_first_open(closed, walk, 0);
    lemma_telescope(scene, oracle, points, j, from);
    let upto = route_cost(scene, oracle, points.take(j + 1));
    let here = estimate(points[j], from);
    // Some entry of the frontier promises at most `upto + here`.
    let y: int;
    if j == 0 {
        assert(!holds(closed, NodeRef::Destination));
        if closed.len() > 0 {
            assert(closed[0].node == NodeRef::Destination);
        }
        y = choose|k: int|
            0 <= k < frontier.len() && (#[trigger] frontier[k]).node == NodeRef::Destination;
        assert(entry_ok(scene, oracle, frontier[y], closed, closed.len() as int, from, to));
        assert(points.take(1).len() == 1);
        assert(upto == 0);
    } else {
        let c = choose|c: int| 0 <= c < closed.len() && (#[trigger] closed[c]).node == walk[j - 1];
        let before = scene.point_of(walk[j - 1], from, to);
        let target = scene.point_of(walk[j], from, to);
        assert(walk[j - 1] != walk[j]);
        assert(scene.free_edge(before, target));
        assert(covered(scene, oracle, closed, frontier, c, from, to));
        let bound = cost_through(scene, oracle, closed[c], target, from, to);
        assert(closed[0].node == NodeRef::Destination);
        assert(scene.ref_ok(walk[j]));
        match walk[j] {
            NodeRef::Regular(w) => {
                assert(served(closed, frontier, NodeRef::Regular(w), bound));
            },
            NodeRef::Final => {},
            NodeRef::Destination => {
                assert(holds(closed, walk[j]));
            },
        }
        assert(offered(frontier, walk[j], bound));
        y = choose|k: int|
            0 <= k < frontier.len() && (#[trigger] frontier[k]).node == walk[j]
                && frontier[k].cost <= bound;
        assert(entry_ok(scene, oracle, frontier[y], closed, closed.len() as int, from, to));
        // The expanded node before it costs no more than the walk up to it.
        lemma_walk_prefix(scene, walk, j, from, to);
        let part = walk.take(j);
        assert(part[part.len() - 1] == walk[j - 1]);
        assert(never_dearer(scene, oracle, closed[c], from, to));
        assert(walk_ok(scene, part, from, to));
        let sofar = route_cost(scene, oracle, points.take(j));
        assert(entry_ok(scene, oracle, closed[c], closed, c, from, to));
        assert(closed[c].estimated <= capped(sofar + estimate(before, from)));
        let longer = points.take(j + 1);
        assert(longer.drop_last() == points.take(j));
        assert(longer[longer.len() - 2] == before);
        assert(longer[longer.len() - 1] == target);
        lemma_estimate_is_consistent(scene, oracle, before, target, from);
        lemma_edge_cost_bounds(scene, oracle, before, target);
        lemma_route_cost_not_negative(scene, oracle, points.take(j));
        lemma_distance_is_root(before, from);
        lemma_distance_is_root(target, from);
    }
    assert(frontier[y].estimated <= capped(upto + here));
}

/// The straight distance from a point to itself is nothing.
pub(crate) proof fn lemma_no_distance(p: Point)
    ensures
        estimate(p, p) == 0,
{
    lemma_distance_is_root(p, p);
    assert(crate::numeric::is_isqrt(0, 0));
    assert(crate::geometry::COST_SCALE * crate::geometry::COST_SCALE * ((p.x - p.x) * (p.x - p.x)
        + (p.y - p.y) * (p.y - p.y)) == 0);
    lemma_isqrt_unique(0, 0, estimate(p, p));
}

/// The walk that a route of two or more points stands for is a walk to
/// the origin with the points of the route.
pub(crate) proof fn lemma_walk_of(scene: Scene, path: Seq<Point>, from: Point, to: Point)
    requires
        scene.is_route(from, to, path),
        path.len() >= 2,
        scene.points.len() <= usize::MAX,
    ensures
        walk_ok(scene, walk_of(scene, path), from, to),
        walk_of(scene, path)[path.len() - 1] == NodeRef::Final,
        walk_points(scene, walk_of(scene, path), from, to) == path,
{
    let walk = walk_of(scene, path);
    assert forall|i: int| 0 <= i < walk.len() implies scene.ref_ok(#[trigger] walk[i])
        && scene.point_of(walk[i], from, to) == path[i] by {
        if 0 < i < path.len() - 1 {
            assert(scene.points.contains(path[i]));
            let k = choose|k: int| 0 <= k < scene.points.len() && scene.points[k] == path[i];
            let ku = k as usize;
            assert(ku < scene.points.len() && scene.points[ku as int] == path[i]);
        }
    }
    assert forall|i: int| 0 <= i < walk.len() - 1 implies (#[trigger] walk[i]) == walk[i + 1]
        || scene.free_edge(
        scene.point_of(walk[i], from, to),
        scene.point_of(walk[i + 1], from, to),
    ) by {
        assert(scene.ref_ok(walk[i + 1]));
        assert(scene.free_edge(path[i], path[i + 1]));
    }
    assert(walk_points(scene, walk, from, to) =~= path);
}

/// A node that was covered stays covered while the frontier keeps its
/// offers.
pub(crate) proof fn lemma_covered_stays<F: Fn(Point, Point) -> u64>(
    scene: Scene,
    oracle: F,
    closed: Seq<DiscoveredNode>,
    before: Seq<DiscoveredNode>,
    after: Seq<DiscoveredNode>,
    c: int,
    from: Point,
    to: Point,
)
    requires
        covered(scene, oracle, closed, before, c, from, to),
        offers_stay(before, after),
    ensures
        covered(scene, oracle, closed, after, c, from, to),
{
    let p = scene.point_of(closed[c].node, from, to);
    assert forall|w: usize|
        w < scene.points.len() && NodeRef::Regular(w) != closed[c].node && scene.free_edge(
            p,
            scene.points[w as int],
        ) implies #[trigger] served(
        closed,
        after,
        NodeRef::Regular(w),
        cost_through(scene, oracle, closed[c], scene.points[w as int], from, to),
    ) by {
        assert(served(
            closed,
            before,
            NodeRef::Regular(w),
            cost_through(scene, oracle, closed[c], scene.points[w as int], from, to),
        ));
    }
}

/// Taking the entry with the least estimate out of the frontier and putting
/// it behind the expanded entries keeps the lists sound, and every node that
/// was covered stays covered.
pub(crate) proof fn lemma_extract<F: Fn(Point, Point) -> u64>(
    scene: Scene,
    oracle: F,
    old_closed: Seq<DiscoveredNode>,
    old_frontier: Seq<DiscoveredNode>,
    best: int,
    from: Point,
    to: Point,
)
    requires
        oracle_ok(oracle),
        search_ok(scene, oracle, old_closed, old_frontier, from, to),
        0 <= best < old_frontier.len(),
        forall|j: int|
            0 <= j < old_frontier.len() ==> old_frontier[best].estimated <= (
            #[trigger] old_frontier[j]).estimated,
        scene.point_of(old_frontier[best].node, from, to) != from,
    ensures
        ({
            let current = old_frontier[best];
            let closed = old_closed.push(current);
            let frontier = old_frontier.remove(best);
            &&& closed_ok(scene, oracle, closed, from, to)
            &&& frontier_ok(scene, oracle, frontier, closed, from, to)
            &&& closed[0].node == NodeRef::Destination
            &&& old_closed.len() == 0 ==> frontier.len() == 0
            &&& current.node != NodeRef::Final
            &&& forall|r: NodeRef| #[trigger]
                holds(closed, r) <==> (holds(old_closed, r) || r == current.node)
            &&& forall|c: int|
                0 <= c < old_closed.len() ==> covered(scene, oracle, closed, frontier, c, from, to)
        }),
{
    let current = old_frontier[best];
    let closed = old_closed.push(current);
    let frontier = old_frontier.remove(best);
    let c = old_closed.len() as int;
    assert(entry_ok(scene, oracle, current, old_closed, c, from, to));
    // No walk reaches the node of the entry for less.
    assert forall|walk: Seq<NodeRef>|
        #![trigger walk_ok(scene, walk, from, to)]
        walk_ok(scene, walk, from, to) && walk[walk.len() - 1]
            == current.node implies current.estimated <= capped(
        route_cost(scene, oracle, walk_points(scene, walk, from, to)) + estimate(
            scene.point_of(current.node, from, to),
            from,
        ),
    ) by {
        if old_closed.len() == 0 {
            assert(old_frontier[0].node == NodeRef::Destination);
        }
        lemma_cheapest_bound(scene, oracle, old_closed, old_frontier, best, from, to, walk);
    }
    assert(never_dearer(scene, oracle, current, from, to));
    assert forall|k: int| 0 <= k < closed.len() implies {
        &&& entry_ok(scene, oracle, #[trigger] closed[k], closed, k, from, to)
        &&& closed[k].node != NodeRef::Final
        &&& scene.point_of(closed[k].node, from, to) != from
        &&& never_dearer(scene, oracle, closed[k], from, to)
    } by {
        if k < c {
            assert(closed[k] == old_closed[k]);
            assert(entry_ok(scene, oracle, old_closed[k], old_closed, k, from, to));
            if old_closed[k].previous.is_some() {
                assert(closed[old_closed[k].previous.unwrap() as int]
                    == old_closed[old_closed[k].previous.unwrap() as int]);
            }
        } else {
            if current.previous.is_some() {
                assert(closed[current.previous.unwrap() as int]
                    == old_closed[current.previous.unwrap() as int]);
            }
        }
    }
    assert forall|r: NodeRef| #[trigger]
        holds(closed, r) <==> (holds(old_closed, r) || r == current.node) by {
        if holds(old_closed, r) {
            let k = choose|k: int| 0 <= k < old_closed.len() && (#[trigger] old_closed[k]).node == r;
            assert(closed[k].node == r);
        }
        if r == current.node {
            assert(closed[c].node == r);
        }
        if holds(closed, r) {
            let k = choose|k: int| 0 <= k < closed.len() && (#[trigger] closed[k]).node == r;
            if k < c {
                assert(old_closed[k].node == r);
            }
        }
    }
    assert forall|j: int| 0 <= j < frontier.len() implies {
        &&& entry_ok(scene, oracle, #[trigger] frontier[j], closed, closed.len() as int, from, to)
        &&& !holds(closed, frontier[j].node)
    } by {
        let k = if j < best {
            j
        } else {
            j + 1
        };
        assert(frontier[j] == old_frontier[k]);
        assert(entry_ok(scene, oracle, old_frontier[k], old_closed, c, from, to));
        assert(old_frontier[k].node != old_frontier[best].node);
        if old_frontier[k].previous.is_some() {
            assert(closed[old_frontier[k].previous.unwrap() as int]
                == old_closed[old_frontier[k].previous.unwrap() as int]);
        }
    }
    assert forall|j1: int, j2: int| 0 <= j1 < j2 < frontier.len() implies (
    #[trigger] frontier[j1]).node != (#[trigger] frontier[j2]).node by {
        let k1 = if j1 < best {
            j1
        } else {
            j1 + 1
        };
        let k2 = if j2 < best {
            j2
        } else {
            j2 + 1
        };
        assert(frontier[j1] == old_frontier[k1]);
        assert(frontier[j2] == old_frontier[k2]);
    }
    assert forall|r: NodeRef, bound: int|
        offered(old_frontier, r, bound) && r != current.node implies #[trigger] offered(
        frontier,
        r,
        bound,
    ) by {
        let k = choose|k: int|
            0 <= k < old_frontier.len() && (#[trigger] old_frontier[k]).node == r
                && old_frontier[k].cost <= bound;
        if k < best {
            assert(frontier[k] == old_frontier[k]);
        } else {
            assert(frontier[k - 1] == old_frontier[k]);
        }
    }
    assert forall|k: int| 0 <= k < c implies covered(
        scene,
        oracle,
        closed,
        frontier,
        k,
        from,
        to,
    ) by {
        assert(covered(scene, oracle, old_closed, old_frontier, k, from, to));
        assert(closed[k] == old_closed[k]);
        let p = scene.point_of(closed[k].node, from, to);
        assert forall|w: usize|
            w < scene.points.len() && NodeRef::Regular(w) != closed[k].node && scene.free_edge(
                p,
                scene.points[w as int],
            ) implies #[trigger] served(
            closed,
            frontier,
            NodeRef::Regular(w),
            cost_through(scene, oracle, closed[k], scene.points[w as int], from, to),
        ) by {
            assert(served(
                old_closed,
                old_frontier,
                NodeRef::Regular(w),
                cost_through(scene, oracle, old_closed[k], scene.points[w as int], from, to),
            ));
        }
        if scene.free_edge(p, from) {
            assert(offered(
                old_frontier,
                NodeRef::Final,
                cost_through(scene, oracle, old_closed[k], from, from, to),
            ));
        }
    }
    if old_closed.len() == 0 {
        assert(closed[0] == current);
    } else {
        assert(closed[0] == old_closed[0]);
    }
}

/// The entry with the least estimate that stands at the origin costs no
/// more than any route.
pub(crate) proof fn lemma_goal_is_cheapest<F: Fn(Point, Point) -> u64>(
    scene: Scene,
    oracle: F,
    closed: Seq<DiscoveredNode>,
    frontier: Seq<DiscoveredNode>,
    best: int,
    from: Point,
    to: Point,
    other: Seq<Point>,
)
    requires
        oracle_ok(oracle),
        search_ok(scene, oracle, closed, frontier, from, to),
        0 <= best < frontier.len(),
        forall|j: int|
            0 <= j < frontier.len() ==> frontier[best].estimated <= (
            #[trigger] frontier[j]).estimated,
        scene.point_of(frontier[best].node, from, to) == from,
        scene.is_route(from, to, other),
        scene.points.len() <= usize::MAX,
    ensures
        frontier[best].cost <= capped(route_cost(scene, oracle, other)),
{
    let current = frontier[best];
    assert(entry_ok(scene, oracle, current, closed, closed.len() as int, from, to));
    lemma_no_distance(from);
    assert(current.estimated == current.cost);
    lemma_route_cost_not_negative(scene, oracle, other);
    if other.len() >= 2 {
        lemma_walk_of(scene, other, from, to);
        let walk = walk_of(scene, other);
        if closed.len() == 0 {
            assert(frontier[0].node == NodeRef::Destination);
        }
        lemma_cheapest_bound(scene, oracle, closed, frontier, best, from, to, walk);
    } else {
        if closed.len() > 0 {
            assert(scene.point_of(closed[0].node, from, to) != from);
        }
        assert(current == frontier[0]);
    }
}

/// One step of the search, by its definition.
pub(crate) proof fn lemma_search_step<F: Fn(Point, Point) -> u64>(
    scene: Scene,
    oracle: F,
    closed: Seq<DiscoveredNode>,
    frontier: Seq<DiscoveredNode>,
    from: Point,
    to: Point,
    fuel: nat,
)
    requires
        frontier.len() > 0,
        fuel > 0,
    ensures
        ({
            let best = cheapest_place(frontier);
            let current = frontier[best];
            let wider = closed.push(current);
            search(scene, oracle, closed, frontier, from, to, fuel) == (if scene.point_of(
                current.node,
                from,
                to,
            ) == from {
                Some(path_to(scene, closed, current, from, to))
            } else {
                search(
                    scene,
                    oracle,
                    wider,
                    expanded(scene, oracle, frontier.remove(best), wider, from, to),
                    from,
                    to,
                    (fuel - 1) as nat,
                )
            })
        }),
{
    reveal(search);
}

/// There are `n` handles below `n`.
pub(crate) proof fn lemma_handles_finite(n: usize)
    ensures
        Set::new(|i: usize| i < n).finite(),
        Set::new(|i: usize| i < n).len() == n,
    decreases n,
{
    if n == 0 {
        assert(Set::new(|i: usize| i < n) =~= Set::<usize>::empty());
    } else {
        let m = (n - 1) as usize;
        lemma_handles_finite(m);
        assert(Set::new(|i: usize| i < n) =~= Set::new(|i: usize| i < m).insert(m));
    }
}

} // verus!
