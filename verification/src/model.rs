//! The search as a function of the scene.
//!
//! The functions of this module say, step by step, which entries the search
//! holds after each expansion and which path it returns in the end. They pin
//! the answer of a query down to the last point: two graphs that stand for
//! the same scene return the same path.

use crate::costs::{capped, edge_cost, lemma_edge_cost_is_found, oracle_ok};
use crate::geometry::Point;
use crate::pathfinder::{has_target, DiscoveredNode, Edge, NodeRef, Pathfinder, Scene};
use crate::search_state::{cost_through, estimate, holds, trail_from};
use crate::walls::EdgeClass;
use vstd::prelude::*;

verus! {

/// The edges of class `class` that leave a node at `origin` for the regular
/// nodes with a handle below `limit`, in the order of the nodes.
#[verifier::opaque]
pub open spec fn edges_upto<F: Fn(Point, Point) -> u64>(
    scene: Scene,
    oracle: F,
    origin: Point,
    origin_id: Option<usize>,
    class: EdgeClass,
    limit: int,
) -> Seq<Edge>
    decreases limit,
{
    if limit <= 0 {
        Seq::empty()
    } else {
        let rest = edges_upto(scene, oracle, origin, origin_id, class, limit - 1);
        let w = (limit - 1) as usize;
        if Some(w) != origin_id && scene.edge_class(origin, scene.points[limit - 1]) == class {
            rest.push(
                Edge {
                    target: w,
                    cost: edge_cost(scene, oracle, origin, scene.points[limit - 1]) as u64,
                },
            )
        } else {
            rest
        }
    }
}

/// There is one list of edges of a class for a node: a list that is right
/// is the list of `edges_upto`.
pub proof fn lemma_edges_are_determined<F: Fn(Point, Point) -> u64>(
    scene: Scene,
    oracle: F,
    origin: Point,
    origin_id: Option<usize>,
    edges: Seq<Edge>,
    class: EdgeClass,
    limit: int,
)
    requires
        oracle_ok(oracle),
        0 <= limit <= scene.points.len() <= usize::MAX,
        Pathfinder::<F>::partial_edges_ok(scene, oracle, origin, origin_id, edges, class, limit),
    ensures
        edges == edges_upto(scene, oracle, origin, origin_id, class, limit),
    decreases limit,
{
    reveal(edges_upto);
    if limit == 0 {
        assert(edges.len() == 0) by {
            if edges.len() > 0 {
                assert(edges[0].target < 0);
            }
        }
        assert(edges =~= Seq::<Edge>::empty());
    } else {
        let w = (limit - 1) as usize;
        let wanted = Some(w) != origin_id && scene.edge_class(origin, scene.points[limit - 1])
            == class;
        if wanted {
            assert(has_target(edges, w));
            let k = choose|k: int| 0 <= k < edges.len() && (#[trigger] edges[k]).target == w;
            assert(k == edges.len() - 1) by {
                if k < edges.len() - 1 {
                    assert(edges[k].target < edges[edges.len() - 1].target);
                }
            }
            let front = edges.drop_last();
            assert forall|j: int| 0 <= j < front.len() implies {
                &&& (#[trigger] front[j]).target < limit - 1
                &&& Some(front[j].target) != origin_id
                &&& scene.edge_class(origin, scene.points[front[j].target as int]) == class
                &&& Pathfinder::<F>::cost_ok(
                    scene,
                    oracle,
                    origin,
                    scene.points[front[j].target as int],
                    front[j].cost,
                )
            } by {
                assert(front[j] == edges[j]);
                assert(edges[j].target < edges[k].target);
            }
            assert forall|j1: int, j2: int| 0 <= j1 < j2 < front.len() implies (
            #[trigger] front[j1]).target < (#[trigger] front[j2]).target by {
                assert(front[j1] == edges[j1] && front[j2] == edges[j2]);
            }
            assert forall|v: usize|
                v < limit - 1 && Some(v) != origin_id && scene.edge_class(
                    origin,
                    scene.points[v as int],
                ) == class implies #[trigger] has_target(front, v) by {
                assert(has_target(edges, v));
                let j = choose|j: int| 0 <= j < edges.len() && (#[trigger] edges[j]).target == v;
                assert(front[j] == edges[j]);
            }
            lemma_edges_are_determined(scene, oracle, origin, origin_id, front, class, limit - 1);
            lemma_edge_cost_is_found(scene, oracle, origin, scene.points[limit - 1], edges[k].cost);
            assert(edges =~= front.push(edges[k]));
        } else {
            assert forall|j: int| 0 <= j < edges.len() implies (#[trigger] edges[j]).target < limit
                - 1 by {
                if edges[j].target == w {
                    assert(scene.edge_class(origin, scene.points[edges[j].target as int])
                        == class);
                }
            }
            lemma_edges_are_determined(scene, oracle, origin, origin_id, edges, class, limit - 1);
        }
    }
}

/// The place of the entry to expand next: the entry with the least
/// estimate, and among several of these the one that stands last.
#[verifier::opaque]
pub open spec fn cheapest_place(frontier: Seq<DiscoveredNode>) -> int
    decreases frontier.len(),
{
    if frontier.len() <= 1 {
        0
    } else {
        let rest = cheapest_place(frontier.drop_last());
        if frontier.last().estimated <= frontier[rest].estimated {
            frontier.len() - 1
        } else {
            rest
        }
    }
}

/// The entry that reaches the node `target` by one hop from the entry
/// expanded last.
pub open spec fn entry_through<F: Fn(Point, Point) -> u64>(
    scene: Scene,
    oracle: F,
    closed: Seq<DiscoveredNode>,
    target: NodeRef,
    from: Point,
    to: Point,
) -> DiscoveredNode {
    let point = scene.point_of(target, from, to);
    let cost = cost_through(scene, oracle, closed[closed.len() - 1], point, from, to);
    DiscoveredNode {
        node: target,
        cost: cost as u64,
        estimated: capped(cost + estimate(point, from)) as u64,
        previous: Some((closed.len() - 1) as usize),
    }
}

/// The place of the entry for the node `r`.
pub open spec fn place_of(frontier: Seq<DiscoveredNode>, r: NodeRef) -> int {
    choose|j: int| 0 <= j < frontier.len() && (#[trigger] frontier[j]).node == r
}

/// The frontier after the node of `entry` was offered the way of `entry`:
/// a node without an entry gets this one; an entry that is dearer is
/// replaced in place; a cheaper entry stays.
#[verifier::opaque]
pub open spec fn relaxed(frontier: Seq<DiscoveredNode>, entry: DiscoveredNode) -> Seq<
    DiscoveredNode,
> {
    if holds(frontier, entry.node) {
        let j = place_of(frontier, entry.node);
        if frontier[j].cost > entry.cost {
            frontier.update(j, entry)
        } else {
            frontier
        }
    } else {
        frontier.push(entry)
    }
}

/// The frontier after the targets of the edges were offered a way through
/// the entry expanded last, one after the other; targets that have been
/// expanded are passed over.
#[verifier::opaque]
pub open spec fn relaxed_edges<F: Fn(Point, Point) -> u64>(
    scene: Scene,
    oracle: F,
    frontier: Seq<DiscoveredNode>,
    closed: Seq<DiscoveredNode>,
    edges: Seq<Edge>,
    from: Point,
    to: Point,
) -> Seq<DiscoveredNode>
    decreases edges.len(),
{
    if edges.len() == 0 {
        frontier
    } else {
        let before = relaxed_edges(scene, oracle, frontier, closed, edges.drop_last(), from, to);
        let target = NodeRef::Regular(edges.last().target);
        if holds(closed, target) {
            before
        } else {
            relaxed(before, entry_through(scene, oracle, closed, target, from, to))
        }
    }
}

/// The frontier after the entry expanded last was expanded: first its
/// persistent edges are followed, then its dynamic edges, then the edge to
/// the origin.
#[verifier::opaque]
pub open spec fn expanded<F: Fn(Point, Point) -> u64>(
    scene: Scene,
    oracle: F,
    frontier: Seq<DiscoveredNode>,
    closed: Seq<DiscoveredNode>,
    from: Point,
    to: Point,
) -> Seq<DiscoveredNode> {
    let node = closed[closed.len() - 1].node;
    let origin = scene.point_of(node, from, to);
    let id = match node {
        NodeRef::Regular(i) => Some(i),
        _ => None,
    };
    let count = scene.points.len() as int;
    let first = relaxed_edges(
        scene,
        oracle,
        frontier,
        closed,
        edges_upto(scene, oracle, origin, id, EdgeClass::Persistent, count),
        from,
        to,
    );
    let second = relaxed_edges(
        scene,
        oracle,
        first,
        closed,
        edges_upto(scene, oracle, origin, id, EdgeClass::Dynamic, count),
        from,
        to,
    );
    if scene.free_edge(origin, from) {
        relaxed(second, entry_through(scene, oracle, closed, NodeRef::Final, from, to))
    } else {
        second
    }
}

/// The path that ends with the entry `goal`: the points from the
/// destination to the node of the entry.
pub open spec fn path_to(
    scene: Scene,
    closed: Seq<DiscoveredNode>,
    goal: DiscoveredNode,
    from: Point,
    to: Point,
) -> Seq<Point> {
    (seq![scene.point_of(goal.node, from, to)] + trail_from(
        scene,
        closed,
        goal.previous,
        from,
        to,
    )).reverse()
}

/// What the search returns when it goes on from the given lists, if it
/// may expand `fuel` entries more: the path to the first entry taken from
/// the frontier that stands at the origin, or nothing if the frontier runs
/// empty.
#[verifier::opaque]
pub open spec fn search<F: Fn(Point, Point) -> u64>(
    scene: Scene,
    oracle: F,
    closed: Seq<DiscoveredNode>,
    frontier: Seq<DiscoveredNode>,
    from: Point,
    to: Point,
    fuel: nat,
) -> Option<Seq<Point>>
    decreases fuel,
{
    if frontier.len() == 0 || fuel == 0 {
        None
    } else {
        let best = cheapest_place(frontier);
        let current = frontier[best];
        if scene.point_of(current.node, from, to) == from {
            Some(path_to(scene, closed, current, from, to))
        } else {
            let wider = closed.push(current);
            search(
                scene,
                oracle,
                wider,
                expanded(scene, oracle, frontier.remove(best), wider, from, to),
                from,
                to,
                (fuel - 1) as nat,
            )
        }
    }
}

/// The entry with which the search starts: the destination, reached for
/// nothing.
pub open spec fn first_entry(from: Point, to: Point) -> DiscoveredNode {
    DiscoveredNode {
        node: NodeRef::Destination,
        cost: 0,
        estimated: estimate(to, from) as u64,
        previous: None,
    }
}

/// The path that a query from `from` to `to` returns over the scene, or
/// nothing if it returns none. Every node is expanded once at most, so the
/// search never runs out of fuel.
pub open spec fn found_path<F: Fn(Point, Point) -> u64>(
    scene: Scene,
    oracle: F,
    from: Point,
    to: Point,
) -> Option<Seq<Point>> {
    search(
        scene,
        oracle,
        Seq::empty(),
        seq![first_entry(from, to)],
        from,
        to,
        scene.points.len() + 2,
    )
}

} // verus!
