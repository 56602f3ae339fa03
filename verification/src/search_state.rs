//! What the search knows between two expansions: its two lists of entries
//! and the invariants that tie them to the scene.

use crate::costs::{capped, edge_cost, route_cost};
use crate::geometry::Point;
use crate::pathfinder::{DiscoveredNode, NodeRef, Scene, HOP_PENALTY};
use vstd::prelude::*;

verus! {

/// Whether one of the entries is for the node `r`.
pub open spec fn holds(entries: Seq<DiscoveredNode>, r: NodeRef) -> bool {
    exists|k: int| 0 <= k < entries.len() && (#[trigger] entries[k]).node == r
}

/// Whether one of the entries is for the node `r` and has a cost of at most
/// `bound`.
pub open spec fn offered(entries: Seq<DiscoveredNode>, r: NodeRef, bound: int) -> bool {
    exists|k: int|
        0 <= k < entries.len() && (#[trigger] entries[k]).node == r && entries[k].cost <= bound
}

/// Whether the node `r` has been taken care of: it was expanded, or it
/// waits in the frontier with a cost of at most `bound`.
pub open spec fn served(
    closed: Seq<DiscoveredNode>,
    frontier: Seq<DiscoveredNode>,
    r: NodeRef,
    bound: int,
) -> bool {
    holds(closed, r) || offered(frontier, r, bound)
}

/// The estimate of the cost that remains from `p`: the straight distance to
/// the origin.
pub open spec fn estimate(p: Point, from: Point) -> int {
    p.spec_distance_to(from)
}

/// The cost of reaching the point `target` by one hop from the node of
/// `entry`.
pub open spec fn cost_through<F: Fn(Point, Point) -> u64>(
    scene: Scene,
    oracle: F,
    entry: DiscoveredNode,
    target: Point,
    from: Point,
    to: Point,
) -> int {
    capped(
        entry.cost + edge_cost(scene, oracle, scene.point_of(entry.node, from, to), target)
            + HOP_PENALTY,
    )
}

/// Whether `e` is a sound entry when its predecessor must stand before place
/// `limit` of the expanded list: only the destination has no predecessor,
/// and it costs nothing; a token can move straight from the predecessor's
/// node to the entry's, and the entry costs what that hop costs more than the
/// predecessor; the estimate adds the straight distance to the origin.
pub open spec fn entry_ok<F: Fn(Point, Point) -> u64>(
    scene: Scene,
    oracle: F,
    e: DiscoveredNode,
    closed: Seq<DiscoveredNode>,
    limit: int,
    from: Point,
    to: Point,
) -> bool {
    &&& scene.ref_ok(e.node)
    &&& e.estimated == capped(e.cost + estimate(scene.point_of(e.node, from, to), from))
    &&& match e.previous {
        None => e.node == NodeRef::Destination && e.cost == 0,
        Some(p) => {
            &&& p < limit <= closed.len()
            &&& e.node != NodeRef::Destination
            &&& scene.free_edge(
                scene.point_of(closed[p as int].node, from, to),
                scene.point_of(e.node, from, to),
            )
            &&& e.cost == cost_through(
                scene,
                oracle,
                closed[p as int],
                scene.point_of(e.node, from, to),
                from,
                to,
            )
        },
    }
}

/// Whether `walk` is a walk through the graph that starts at the
/// destination: from each node to the next a token can move straight, or the
/// two are the same node.
pub open spec fn walk_ok(scene: Scene, walk: Seq<NodeRef>, from: Point, to: Point) -> bool {
    &&& walk.len() >= 1
    &&& walk[0] == NodeRef::Destination
    &&& forall|i: int| 0 <= i < walk.len() ==> scene.ref_ok(#[trigger] walk[i])
    &&& forall|i: int|
        0 <= i < walk.len() - 1 ==> (#[trigger] walk[i]) == walk[i + 1] || scene.free_edge(
            scene.point_of(walk[i], from, to),
            scene.point_of(walk[i + 1], from, to),
        )
}

/// The points of the nodes of a walk, in order.
pub open spec fn walk_points(scene: Scene, walk: Seq<NodeRef>, from: Point, to: Point) -> Seq<
    Point,
> {
    Seq::new(walk.len(), |i: int| scene.point_of(walk[i], from, to))
}

/// Whether the estimate of the entry is at most the cost of any walk to its
/// node and the straight distance from there to the origin.
pub open spec fn never_dearer<F: Fn(Point, Point) -> u64>(
    scene: Scene,
    oracle: F,
    e: DiscoveredNode,
    from: Point,
    to: Point,
) -> bool {
    forall|walk: Seq<NodeRef>|
        #![trigger walk_ok(scene, walk, from, to)]
        walk_ok(scene, walk, from, to) && walk[walk.len() - 1] == e.node ==> e.estimated <= capped(
            route_cost(scene, oracle, walk_points(scene, walk, from, to)) + estimate(
                scene.point_of(e.node, from, to),
                from,
            ),
        )
}

/// The invariant of the expanded list: every entry is sound with respect to
/// the entries before it, none of them is at the origin, and no walk reaches
/// the node of an entry for less than the entry says.
pub open spec fn closed_ok<F: Fn(Point, Point) -> u64>(
    scene: Scene,
    oracle: F,
    closed: Seq<DiscoveredNode>,
    from: Point,
    to: Point,
) -> bool {
    forall|c: int|
        0 <= c < closed.len() ==> {
            &&& entry_ok(scene, oracle, #[trigger] closed[c], closed, c, from, to)
            &&& closed[c].node != NodeRef::Final
            &&& scene.point_of(closed[c].node, from, to) != from
            &&& never_dearer(scene, oracle, closed[c], from, to)
        }
}

/// The invariant of the frontier: every entry is sound, no node has two
/// entries, and no node in it has been expanded.
pub open spec fn frontier_ok<F: Fn(Point, Point) -> u64>(
    scene: Scene,
    oracle: F,
    frontier: Seq<DiscoveredNode>,
    closed: Seq<DiscoveredNode>,
    from: Point,
    to: Point,
) -> bool {
    &&& forall|j: int|
        0 <= j < frontier.len() ==> {
            &&& entry_ok(
                scene,
                oracle,
                #[trigger] frontier[j],
                closed,
                closed.len() as int,
                from,
                to,
            )
            &&& !holds(closed, frontier[j].node)
        }
    &&& forall|j1: int, j2: int|
        0 <= j1 < j2 < frontier.len() ==> (#[trigger] frontier[j1]).node != (
        #[trigger] frontier[j2]).node
}

/// Whether the set of marked handles is the set of regular nodes that have
/// been expanded.
pub open spec fn marks_ok(marks: Set<usize>, closed: Seq<DiscoveredNode>) -> bool {
    forall|i: usize| marks.contains(i) <==> #[trigger] holds(closed, NodeRef::Regular(i))
}

/// Whether every neighbor of the node expanded at place `c` has been taken
/// care of: it was expanded, or it waits in the frontier and costs no more
/// there than by the hop from this node.
pub open spec fn covered<F: Fn(Point, Point) -> u64>(
    scene: Scene,
    oracle: F,
    closed: Seq<DiscoveredNode>,
    frontier: Seq<DiscoveredNode>,
    c: int,
    from: Point,
    to: Point,
) -> bool {
    let p = scene.point_of(closed[c].node, from, to);
    &&& forall|w: usize|
        w < scene.points.len() && NodeRef::Regular(w) != closed[c].node && scene.free_edge(
            p,
            scene.points[w as int],
        ) ==> #[trigger] served(
            closed,
            frontier,
            NodeRef::Regular(w),
            cost_through(scene, oracle, closed[c], scene.points[w as int], from, to),
        )
    &&& scene.free_edge(p, from) ==> offered(
        frontier,
        NodeRef::Final,
        cost_through(scene, oracle, closed[c], from, from, to),
    )
}

/// The points from the entry at place `c` of the expanded list back to the
/// destination, in the order of the walk.
pub open spec fn trail(
    scene: Scene,
    closed: Seq<DiscoveredNode>,
    c: int,
    from: Point,
    to: Point,
) -> Seq<Point>
    decreases c,
{
    if 0 <= c < closed.len() {
        let head = seq![scene.point_of(closed[c].node, from, to)];
        match closed[c].previous {
            Some(p) => if p < c {
                head + trail(scene, closed, p as int, from, to)
            } else {
                head
            },
            None => head,
        }
    } else {
        Seq::empty()
    }
}

/// The trail from the entry that `cursor` names, or nothing.
pub open spec fn trail_from(
    scene: Scene,
    closed: Seq<DiscoveredNode>,
    cursor: Option<usize>,
    from: Point,
    to: Point,
) -> Seq<Point> {
    match cursor {
        Some(p) => trail(scene, closed, p as int, from, to),
        None => Seq::empty(),
    }
}

/// Whether `t` walks from `start` back to the destination `to`: each step
/// can be taken in the forward direction, and every point but the last is
/// the point of a regular node.
pub open spec fn is_trail(scene: Scene, t: Seq<Point>, start: Point, to: Point) -> bool {
    &&& t.len() >= 1
    &&& t[0] == start
    &&& t[t.len() - 1] == to
    &&& forall|k: int|
        0 <= k < t.len() - 1 ==> scene.free_edge(t[k + 1], #[trigger] t[k])
            && scene.points.contains(t[k])
}

/// The walk through the graph that a route stands for: its first node is
/// the destination, its last the origin, and each point between the two
/// stands for a regular node at that point.
pub open spec fn walk_of(scene: Scene, path: Seq<Point>) -> Seq<NodeRef> {
    Seq::new(
        path.len(),
        |i: int|
            if i == 0 {
                NodeRef::Destination
            } else if i == path.len() - 1 {
                NodeRef::Final
            } else {
                NodeRef::Regular(
                    choose|w: usize| w < scene.points.len() && scene.points[w as int] == path[i],
                )
            },
    )
}

/// The invariant of the search between two expansions.
pub open spec fn search_ok<F: Fn(Point, Point) -> u64>(
    scene: Scene,
    oracle: F,
    closed: Seq<DiscoveredNode>,
    frontier: Seq<DiscoveredNode>,
    from: Point,
    to: Point,
) -> bool {
    &&& closed_ok(scene, oracle, closed, from, to)
    &&& frontier_ok(scene, oracle, frontier, closed, from, to)
    &&& closed.len() == 0 ==> frontier.len() == 1 && frontier[0].node == NodeRef::Destination
    &&& closed.len() > 0 ==> closed[0].node == NodeRef::Destination
    &&& forall|c: int|
        0 <= c < closed.len() ==> covered(scene, oracle, closed, frontier, c, from, to)
}

/// Whether every offer that `before` holds is held by `after` too.
pub open spec fn offers_stay(before: Seq<DiscoveredNode>, after: Seq<DiscoveredNode>) -> bool {
    forall|r: NodeRef, bound: int|
        offered(before, r, bound) ==> #[trigger] offered(after, r, bound)
}

/// Whether `path` is a route that no route undercuts. Costs are added with
/// saturation, so all costs above the largest number count alike.
pub open spec fn is_cheapest_route<F: Fn(Point, Point) -> u64>(
    scene: Scene,
    oracle: F,
    from: Point,
    to: Point,
    path: Seq<Point>,
) -> bool {
    &&& scene.is_route(from, to, path)
    &&& forall|other: Seq<Point>| #[trigger]
        scene.is_route(from, to, other) ==> capped(route_cost(scene, oracle, path)) <= capped(
            route_cost(scene, oracle, other),
        )
}

} // verus!
