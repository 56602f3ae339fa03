//! The best-first search from the destination of a query back to its origin.
//!
//! The search keeps two lists of entries. The frontier holds one entry for
//! each node that has been discovered and not yet expanded. The expanded list
//! holds the entries taken out of the frontier, in the order in which they
//! were taken; an entry names its predecessor by its place in that list, so
//! predecessors always come earlier and a path can be read by walking back.

use crate::costs::{
    capped, lemma_edge_cost_bounds, lemma_edge_cost_is_found, lemma_route_cost_not_negative,
    oracle_ok, route_cost,
};
use crate::geometry::Point;
use crate::model::{
    cheapest_place, entry_through, expanded, first_entry, found_path, lemma_edges_are_determined,
    path_to, place_of, relaxed, relaxed_edges, search,
};
use crate::numeric::sat_add;
use crate::pathfinder::{has_target, DiscoveredNode, Edge, Node, NodeRef, Pathfinder, HOP_PENALTY};
use crate::ptr_indexed_hash_set::PtrIndexedHashSet;
use crate::search_proofs::{
    lemma_covered_stays, lemma_extract, lemma_goal_is_cheapest, lemma_handles_finite,
    lemma_no_route, lemma_reversed_trail_is_route, lemma_search_step, lemma_trail,
};
use crate::search_state::{
    closed_ok, cost_through, covered, entry_ok, frontier_ok, holds, is_cheapest_route, marks_ok,
    offered, offers_stay, search_ok, served, trail, trail_from,
};
use crate::walls::EdgeClass;
use vstd::prelude::*;

verus! {

/// The points of `v` in the opposite order.
pub fn reversed(v: &Vec<Point>) -> (r: Vec<Point>)
    ensures
        r@ == v@.reverse(),
{
    let mut r: Vec<Point> = Vec::new();
    let mut i: usize = v.len();
    while i > 0
        invariant
            i <= v@.len(),
            r@.len() == v@.len() - i,
            forall|k: int| 0 <= k < r@.len() ==> r@[k] == v@[v@.len() - 1 - k],
        decreases i,
    {
        i -= 1;
        r.push(v[i]);
    }
    assert(r@ =~= v@.reverse());
    r
}

/// The place of the entry to expand next: the entry with the least estimate,
/// and among several of these the one that stands last.
pub fn cheapest(frontier: &Vec<DiscoveredNode>) -> (best: usize)
    requires
        frontier@.len() > 0,
    ensures
        best < frontier@.len(),
        forall|j: int|
            0 <= j < frontier@.len() ==> frontier@[best as int].estimated <= (
            #[trigger] frontier@[j]).estimated,
        forall|j: int|
            best < j < frontier@.len() ==> frontier@[best as int].estimated < (
            #[trigger] frontier@[j]).estimated,
        best == cheapest_place(frontier@),
{
    let mut best: usize = 0;
    let mut j: usize = 1;
    proof {
        reveal(cheapest_place);
        assert(frontier@.take(1).len() == 1);
    }
    while j < frontier.len()
        invariant
            best < j <= frontier@.len(),
            best == cheapest_place(frontier@.take(j as int)),
            forall|k: int|
                0 <= k < j ==> frontier@[best as int].estimated <= (
                #[trigger] frontier@[k]).estimated,
            forall|k: int|
                best < k < j ==> frontier@[best as int].estimated < (
                #[trigger] frontier@[k]).estimated,
        decreases frontier@.len() - j,
    {
        proof {
            reveal(cheapest_place);
            let longer = frontier@.take(j + 1);
            assert(longer.drop_last() == frontier@.take(j as int));
            assert(longer[longer.len() - 1] == frontier@[j as int]);
            assert(longer[best as int] == frontier@[best as int]);
        }
        if frontier[j].estimated <= frontier[best].estimated {
            best = j;
        }
        j += 1;
    }
    assert(frontier@.take(frontier@.len() as int) == frontier@);
    best
}

impl<F: Fn(Point, Point) -> u64> Pathfinder<F> {
    /// The point of the node that `r` names.
    fn locate(&self, r: NodeRef, from: Point, to: Point) -> (p: Point)
        requires
            self@.ref_ok(r),
        ensures
            p == self@.point_of(r, from, to),
    {
        match r {
            NodeRef::Regular(i) => self.nodes.regular_nodes[i].point,
            NodeRef::Final => from,
            NodeRef::Destination => to,
        }
    }

    /// Offers the node `target` a way through the entry expanded last, along
    /// an edge of cost `edge_cost`. A node without an entry in the frontier
    /// gets one; an entry that is dearer than the new way is replaced in
    /// place; a cheaper entry stays.
    fn relax(
        &self,
        frontier: &mut Vec<DiscoveredNode>,
        closed: &Vec<DiscoveredNode>,
        target: NodeRef,
        edge_cost: u64,
        from: Point,
        to: Point,
    )
        requires
            oracle_ok(self.oracle),
            closed@.len() > 0,
            frontier_ok(self@, self.oracle, old(frontier)@, closed@, from, to),
            self@.ref_ok(target),
            target != NodeRef::Destination,
            !holds(closed@, target),
            self@.free_edge(
                self@.point_of(closed@[closed@.len() - 1].node, from, to),
                self@.point_of(target, from, to),
            ),
            Self::cost_ok(
                self@,
                self.oracle,
                self@.point_of(closed@[closed@.len() - 1].node, from, to),
                self@.point_of(target, from, to),
                edge_cost,
            ),
        ensures
            frontier_ok(self@, self.oracle, final(frontier)@, closed@, from, to),
            offered(
                final(frontier)@,
                target,
                cost_through(
                    self@,
                    self.oracle,
                    closed@[closed@.len() - 1],
                    self@.point_of(target, from, to),
                    from,
                    to,
                ),
            ),
            forall|r: NodeRef, bound: int|
                offered(old(frontier)@, r, bound) ==> #[trigger] offered(final(frontier)@, r, bound),
            final(frontier)@ == relaxed(
                old(frontier)@,
                entry_through(self@, self.oracle, closed@, target, from, to),
            ),
    {
        let last = closed.len() - 1;
        let current = closed[last];
        let cost = sat_add(sat_add(current.cost, edge_cost), HOP_PENALTY);
        let estimated = sat_add(cost, self.locate(target, from, to).distance_to(from));
        let entry = DiscoveredNode { node: target, cost, estimated, previous: Some(last) };
        proof {
            lemma_edge_cost_is_found(
                self@,
                self.oracle,
                self@.point_of(current.node, from, to),
                self@.point_of(target, from, to),
                edge_cost,
            );
            assert(entry_ok(self@, self.oracle, entry, closed@, closed@.len() as int, from, to));
            assert(entry == entry_through(self@, self.oracle, closed@, target, from, to));
            reveal(relaxed);
        }
        let mut j: usize = 0;
        while j < frontier.len() && frontier[j].node != target
            invariant
                j <= frontier@.len(),
                frontier@ == old(frontier)@,
                forall|k: int| 0 <= k < j ==> (#[trigger] frontier@[k]).node != target,
            decreases frontier@.len() - j,
        {
            j += 1;
        }
        if j < frontier.len() {
            proof {
                let before = old(frontier)@;
                assert(before[j as int].node == target);
                let place = place_of(before, target);
                assert(place == j) by {
                    if place < j {
                        assert(before[place].node != before[j as int].node);
                    } else if place > j {
                        assert(before[j as int].node != before[place].node);
                    }
                }
            }
            if frontier[j].cost > cost {
                frontier[j] = entry;
                assert(frontier@ =~= old(frontier)@.update(j as int, entry));
            }
            proof {
                let before = old(frontier)@;
                let after = frontier@;
                assert(after[j as int].node == target);
                assert(after[j as int].cost <= cost);
                assert forall|k: int| 0 <= k < after.len() implies (#[trigger] after[k]).node
                    == before[k].node && after[k].cost <= before[k].cost by {}
                assert forall|r: NodeRef, bound: int| offered(before, r, bound) implies #[trigger] offered(
                    after,
                    r,
                    bound,
                ) by {
                    let k = choose|k: int|
                        0 <= k < before.len() && (#[trigger] before[k]).node == r && before[k].cost
                            <= bound;
                    assert(after[k].node == r && after[k].cost <= bound);
                }
                assert forall|k: int| 0 <= k < after.len() implies entry_ok(
                    self@,
                    self.oracle,
                    #[trigger] after[k],
                    closed@,
                    closed@.len() as int,
                    from,
                    to,
                ) && !holds(closed@, after[k].node) by {
                    if k != j {
                        assert(after[k] == before[k]);
                    }
                }
            }
        } else {
            assert(!holds(old(frontier)@, target));
            frontier.push(entry);
            proof {
                let before = old(frontier)@;
                let after = frontier@;
                assert(after[after.len() - 1] == entry);
                assert forall|r: NodeRef, bound: int| offered(before, r, bound) implies #[trigger] offered(
                    after,
                    r,
                    bound,
                ) by {
                    let k = choose|k: int|
                        0 <= k < before.len() && (#[trigger] before[k]).node == r && before[k].cost
                            <= bound;
                    assert(after[k] == before[k]);
                }
                assert forall|k: int| 0 <= k < after.len() implies entry_ok(
                    self@,
                    self.oracle,
                    #[trigger] after[k],
                    closed@,
                    closed@.len() as int,
                    from,
                    to,
                ) && !holds(closed@, after[k].node) by {
                    if k < before.len() {
                        assert(after[k] == before[k]);
                    }
                }
                assert forall|j1: int, j2: int| 0 <= j1 < j2 < after.len() implies (
                #[trigger] after[j1]).node != (#[trigger] after[j2]).node by {
                    assert(after[j1] == before[j1]);
                    if j2 < before.len() {
                        assert(after[j2] == before[j2]);
                    }
                }
            }
        }
    }

    /// Offers a way through the entry expanded last to the target of each
    /// edge, unless the target has been expanded already.
    fn relax_edges(
        &self,
        frontier: &mut Vec<DiscoveredNode>,
        closed: &Vec<DiscoveredNode>,
        visited: &PtrIndexedHashSet,
        edges: &Vec<Edge>,
        from: Point,
        to: Point,
    )
        requires
            oracle_ok(self.oracle),
            closed@.len() > 0,
            frontier_ok(self@, self.oracle, old(frontier)@, closed@, from, to),
            marks_ok(visited@, closed@),
            forall|k: int|
                0 <= k < edges@.len() ==> {
                    &&& (#[trigger] edges@[k]).target < self@.points.len()
                    &&& self@.free_edge(
                        self@.point_of(closed@[closed@.len() - 1].node, from, to),
                        self@.points[edges@[k].target as int],
                    )
                    &&& Self::cost_ok(
                        self@,
                        self.oracle,
                        self@.point_of(closed@[closed@.len() - 1].node, from, to),
                        self@.points[edges@[k].target as int],
                        edges@[k].cost,
                    )
                },
        ensures
            frontier_ok(self@, self.oracle, final(frontier)@, closed@, from, to),
            forall|r: NodeRef, bound: int|
                offered(old(frontier)@, r, bound) ==> #[trigger] offered(final(frontier)@, r, bound),
            forall|k: int|
                0 <= k < edges@.len() ==> served(
                    closed@,
                    final(frontier)@,
                    NodeRef::Regular((#[trigger] edges@[k]).target),
                    cost_through(
                        self@,
                        self.oracle,
                        closed@[closed@.len() - 1],
                        self@.points[edges@[k].target as int],
                        from,
                        to,
                    ),
                ),
            final(frontier)@ == relaxed_edges(
                self@,
                self.oracle,
                old(frontier)@,
                closed@,
                edges@,
                from,
                to,
            ),
    {
        let ghost current = closed@[closed@.len() - 1];
        let mut k: usize = 0;
        proof {
            reveal(relaxed_edges);
            assert(edges@.take(0).len() == 0);
        }
        while k < edges.len()
            invariant
                k <= edges@.len(),
                frontier@ == relaxed_edges(
                    self@,
                    self.oracle,
                    old(frontier)@,
                    closed@,
                    edges@.take(k as int),
                    from,
                    to,
                ),
                oracle_ok(self.oracle),
                closed@.len() > 0,
                current == closed@[closed@.len() - 1],
                frontier_ok(self@, self.oracle, frontier@, closed@, from, to),
                marks_ok(visited@, closed@),
                forall|k: int|
                    0 <= k < edges@.len() ==> {
                        &&& (#[trigger] edges@[k]).target < self@.points.len()
                        &&& self@.free_edge(
                            self@.point_of(current.node, from, to),
                            self@.points[edges@[k].target as int],
                        )
                        &&& Self::cost_ok(
                            self@,
                            self.oracle,
                            self@.point_of(current.node, from, to),
                            self@.points[edges@[k].target as int],
                            edges@[k].cost,
                        )
                    },
                forall|r: NodeRef, bound: int|
                    offered(old(frontier)@, r, bound) ==> #[trigger] offered(frontier@, r, bound),
                forall|done: int|
                    0 <= done < k ==> served(
                        closed@,
                        frontier@,
                        NodeRef::Regular((#[trigger] edges@[done]).target),
                        cost_through(
                            self@,
                            self.oracle,
                            current,
                            self@.points[edges@[done].target as int],
                            from,
                            to,
                        ),
                    ),
            decreases edges@.len() - k,
        {
            let edge = edges[k];
            let ghost before = frontier@;
            proof {
                reveal(relaxed_edges);
                let longer = edges@.take(k + 1);
                assert(longer.drop_last() == edges@.take(k as int));
                assert(longer[longer.len() - 1] == edge);
            }
            if !visited.contains(edge.target) {
                self.relax(frontier, closed, NodeRef::Regular(edge.target), edge.cost, from, to);
            }
            proof {
                assert forall|r: NodeRef, bound: int| offered(old(frontier)@, r, bound) implies #[trigger] offered(
                    frontier@,
                    r,
                    bound,
                ) by {
                    assert(offered(before, r, bound));
                }
                assert forall|done: int| 0 <= done < k + 1 implies served(
                    closed@,
                    frontier@,
                    NodeRef::Regular((#[trigger] edges@[done]).target),
                    cost_through(
                        self@,
                        self.oracle,
                        current,
                        self@.points[edges@[done].target as int],
                        from,
                        to,
                    ),
                ) by {
                    let r = NodeRef::Regular(edges@[done].target);
                    let bound = cost_through(
                        self@,
                        self.oracle,
                        current,
                        self@.points[edges@[done].target as int],
                        from,
                        to,
                    );
                    if done < k {
                        assert(served(closed@, before, r, bound));
                        if offered(before, r, bound) {
                            assert(offered(frontier@, r, bound));
                        }
                    } else {
                        if visited@.contains(edge.target) {
                            assert(holds(closed@, r));
                        }
                    }
                }
            }
            k += 1;
        }
        assert(edges@.take(edges@.len() as int) == edges@);
    }

    /// Expands the entry taken from the frontier last: offers a way through
    /// it to every neighbor of its node that has not been expanded.
    fn expand(
        &self,
        node: &Node,
        id: Option<usize>,
        frontier: &mut Vec<DiscoveredNode>,
        closed: &Vec<DiscoveredNode>,
        visited: &PtrIndexedHashSet,
        from: Point,
        to: Point,
    )
        requires
            oracle_ok(self.oracle),
            closed@.len() > 0,
            closed_ok(self@, self.oracle, closed@, from, to),
            frontier_ok(self@, self.oracle, old(frontier)@, closed@, from, to),
            marks_ok(visited@, closed@),
            node.point == self@.point_of(closed@[closed@.len() - 1].node, from, to),
            id == (match closed@[closed@.len() - 1].node {
                NodeRef::Regular(i) => Some(i),
                _ => None,
            }),
            node.persistent_edges.is_some(),
            node.dynamic_edges.is_some(),
            node.final_edge.is_some(),
            Self::cache_ok(self@, self.oracle, *node, id),
            Self::final_edge_ok(self@, self.oracle, node.point, from, node.final_edge.unwrap()),
        ensures
            frontier_ok(self@, self.oracle, final(frontier)@, closed@, from, to),
            forall|r: NodeRef, bound: int|
                offered(old(frontier)@, r, bound) ==> #[trigger] offered(final(frontier)@, r, bound),
            covered(self@, self.oracle, closed@, final(frontier)@, closed@.len() - 1, from, to),
            final(frontier)@ == expanded(self@, self.oracle, old(frontier)@, closed@, from, to),
    {
        let ghost scene = self@;
        let ghost c = closed@.len() - 1;
        let ghost f0 = frontier@;
        let count = self.nodes.regular_nodes.len();
        proof {
            reveal(expanded);
            assert(scene.points.len() == count);
            lemma_edges_are_determined(
                scene,
                self.oracle,
                node.point,
                id,
                node.persistent_edges.unwrap()@,
                EdgeClass::Persistent,
                count as int,
            );
            lemma_edges_are_determined(
                scene,
                self.oracle,
                node.point,
                id,
                node.dynamic_edges.unwrap()@,
                EdgeClass::Dynamic,
                count as int,
            );
        }
        match &node.persistent_edges {
            Some(edges) => {
                self.relax_edges(frontier, closed, visited, edges, from, to);
            },
            None => {},
        }
        let ghost f1 = frontier@;
        match &node.dynamic_edges {
            Some(edges) => {
                self.relax_edges(frontier, closed, visited, edges, from, to);
            },
            None => {},
        }
        let ghost f2 = frontier@;
        match &node.final_edge {
            Some(Some(edge)) => {
                assert(!holds(closed@, NodeRef::Final));
                self.relax(frontier, closed, NodeRef::Final, edge.cost, from, to);
            },
            _ => {},
        }
        proof {
            let f3 = frontier@;
            let pe = node.persistent_edges.unwrap()@;
            let de = node.dynamic_edges.unwrap()@;
            assert forall|r: NodeRef, bound: int| offered(f0, r, bound) implies #[trigger] offered(
                f3,
                r,
                bound,
            ) by {
                assert(offered(f1, r, bound));
                assert(offered(f2, r, bound));
            }
            assert forall|w: usize|
                w < scene.points.len() && NodeRef::Regular(w) != closed@[c].node
                    && scene.free_edge(node.point, scene.points[w as int]) implies #[trigger] served(
                closed@,
                f3,
                NodeRef::Regular(w),
                cost_through(scene, self.oracle, closed@[c], scene.points[w as int], from, to),
            ) by {
                let r = NodeRef::Regular(w);
                let bound = cost_through(
                    scene,
                    self.oracle,
                    closed@[c],
                    scene.points[w as int],
                    from,
                    to,
                );
                let class = scene.edge_class(node.point, scene.points[w as int]);
                assert(class != EdgeClass::Blocked);
                assert(Some(w) != id);
                if class == EdgeClass::Persistent {
                    assert(has_target(pe, w));
                    let k = choose|k: int| 0 <= k < pe.len() && (#[trigger] pe[k]).target == w;
                    assert(served(closed@, f1, NodeRef::Regular(pe[k].target), bound));
                    if offered(f1, r, bound) {
                        assert(offered(f2, r, bound));
                        assert(offered(f3, r, bound));
                    }
                } else {
                    assert(has_target(de, w));
                    let k = choose|k: int| 0 <= k < de.len() && (#[trigger] de[k]).target == w;
                    assert(served(closed@, f2, NodeRef::Regular(de[k].target), bound));
                    if offered(f2, r, bound) {
                        assert(offered(f3, r, bound));
                    }
                }
            }
        }
    }

    /// Reads the path that ends with the entry `goal` at the origin: the
    /// points from the destination to the origin.
    fn trace(&self, closed: &Vec<DiscoveredNode>, goal: &DiscoveredNode, from: Point, to: Point) -> (path:
        Vec<Point>)
        requires
            oracle_ok(self.oracle),
            closed_ok(self@, self.oracle, closed@, from, to),
            entry_ok(self@, self.oracle, *goal, closed@, closed@.len() as int, from, to),
            self@.point_of(goal.node, from, to) == from,
        ensures
            self@.is_route(from, to, path@),
            goal.previous.is_none() ==> path@ == seq![to],
            goal.cost == capped(route_cost(self@, self.oracle, path@)),
            path@ == path_to(self@, closed@, *goal, from, to),
    {
        let ghost scene = self@;
        let mut walk: Vec<Point> = Vec::new();
        walk.push(from);
        let mut cursor = goal.previous;
        while cursor.is_some()
            invariant
                scene == self@,
                closed_ok(scene, self.oracle, closed@, from, to),
                cursor matches Some(p) ==> p < closed@.len(),
                walk@ + trail_from(scene, closed@, cursor, from, to) == seq![from] + trail_from(
                    scene,
                    closed@,
                    goal.previous,
                    from,
                    to,
                ),
            decreases
                    (match cursor {
                        Some(p) => p + 1,
                        None => 0,
                    }),
        {
            let p = cursor.unwrap();
            let entry = closed[p];
            let ghost before = walk@;
            assert(entry_ok(scene, self.oracle, closed@[p as int], closed@, p as int, from, to));
            walk.push(self.locate(entry.node, from, to));
            cursor = entry.previous;
            proof {
                let head = seq![scene.point_of(entry.node, from, to)];
                let rest = trail_from(scene, closed@, entry.previous, from, to);
                assert(trail(scene, closed@, p as int, from, to) == head + rest) by {
                    if entry.previous.is_none() {
                        assert(head + rest =~= head);
                    }
                }
                assert(walk@ + rest =~= before + (head + rest));
            }
        }
        let path = reversed(&walk);
        proof {
            assert(walk@ + Seq::<Point>::empty() =~= walk@);
            match goal.previous {
                Some(p) => {
                    let t = trail(scene, closed@, p as int, from, to);
                    lemma_trail(scene, self.oracle, closed@, p as int, from, to);
                    lemma_reversed_trail_is_route(scene, t, from, to, walk@);
                    assert(path@[path@.len() - 2] == t[0]) by {
                        assert(path@.drop_last()[path@.len() - 2] == t.reverse()[t.len() - 1]);
                    }
                    lemma_route_cost_not_negative(scene, self.oracle, t.reverse());
                    lemma_edge_cost_bounds(scene, self.oracle, t[0], from);
                },
                None => {
                    assert(walk@ =~= seq![from]);
                    assert(path@ =~= seq![to]);
                },
            }
        }
        path
    }

    /// Ends the search with the entry `current`, which stands at the origin:
    /// reads its path.
    fn conclude(
        &self,
        closed: &Vec<DiscoveredNode>,
        current: &DiscoveredNode,
        Ghost(before): Ghost<Seq<DiscoveredNode>>,
        Ghost(best): Ghost<int>,
        from: Point,
        to: Point,
    ) -> (path: Vec<Point>)
        requires
            oracle_ok(self.oracle),
            self@.points.len() <= usize::MAX,
            search_ok(self@, self.oracle, closed@, before, from, to),
            0 <= best < before.len(),
            forall|j: int|
                0 <= j < before.len() ==> before[best].estimated <= (#[trigger] before[j]).estimated,
            *current == before[best],
            self@.point_of(current.node, from, to) == from,
        ensures
            is_cheapest_route(self@, self.oracle, from, to, path@),
            path@ == path_to(self@, closed@, *current, from, to),
            from == to ==> path@ == seq![to],
    {
        assert(entry_ok(self@, self.oracle, *current, closed@, closed@.len() as int, from, to));
        let path = self.trace(closed, current, from, to);
        proof {
            let scene = self@;
            if from == to {
                if closed@.len() > 0 {
                    assert(scene.point_of(closed@[0].node, from, to) != from);
                }
                assert(*current == before[0]);
            }
            assert forall|other: Seq<Point>| #[trigger]
                scene.is_route(from, to, other) implies capped(
                route_cost(scene, self.oracle, path@),
            ) <= capped(route_cost(scene, self.oracle, other)) by {
                lemma_goal_is_cheapest(
                    scene,
                    self.oracle,
                    closed@,
                    before,
                    best,
                    from,
                    to,
                    other,
                );
            }
        }
        path
    }

    /// Goes on with the search from the entry `current`, which was taken
    /// from the frontier and does not stand at the origin: puts it behind the
    /// expanded entries, marks its node, and expands it.
    fn settle(
        &mut self,
        to_node: &Node,
        frontier: &mut Vec<DiscoveredNode>,
        closed: &mut Vec<DiscoveredNode>,
        visited: &mut PtrIndexedHashSet,
        current: DiscoveredNode,
        Ghost(before): Ghost<Seq<DiscoveredNode>>,
        Ghost(best): Ghost<int>,
        from: Point,
        to: Point,
    )
        requires
            old(self).wf(),
            old(self).finals_ok(from),
            to_node.point == to,
            to_node.persistent_edges.is_some(),
            to_node.dynamic_edges.is_some(),
            to_node.final_edge.is_some(),
            Self::cache_ok(old(self)@, old(self).oracle, *to_node, None),
            Self::final_edge_ok(
                old(self)@,
                old(self).oracle,
                to,
                from,
                to_node.final_edge.unwrap(),
            ),
            search_ok(old(self)@, old(self).oracle, old(closed)@, before, from, to),
            marks_ok(old(visited)@, old(closed)@),
            0 <= best < before.len(),
            forall|j: int|
                0 <= j < before.len() ==> before[best].estimated <= (#[trigger] before[j]).estimated,
            current == before[best],
            old(frontier)@ == before.remove(best),
            old(self)@.point_of(current.node, from, to) != from,
        ensures
            final(self).wf(),
            final(self).finals_ok(from),
            final(self)@ == old(self)@,
            final(self).oracle == old(self).oracle,
            final(self).nodes.final_node == old(self).nodes.final_node,
            final(self).keeps_edges_of(old(self)),
            final(closed)@ == old(closed)@.push(current),
            final(frontier)@ == expanded(
                old(self)@,
                old(self).oracle,
                old(frontier)@,
                final(closed)@,
                from,
                to,
            ),
            search_ok(old(self)@, old(self).oracle, final(closed)@, final(frontier)@, from, to),
            marks_ok(final(visited)@, final(closed)@),
            match current.node {
                NodeRef::Regular(i) => i < old(self)@.points.len() && !old(visited)@.contains(i)
                    && final(visited)@ == old(visited)@.insert(i) && old(closed)@.len() > 0,
                NodeRef::Destination => final(visited)@ == old(visited)@ && old(closed)@.len()
                    == 0,
                NodeRef::Final => false,
            },
    {
        let ghost scene = self@;
        let ghost oracle = self.oracle;
        let ghost old_closed = closed@;
        proof {
            lemma_extract(scene, oracle, old_closed, before, best, from, to);
            assert(entry_ok(scene, oracle, current, old_closed, old_closed.len() as int, from, to));
        }
        match current.node {
            NodeRef::Regular(i) => {
                assert(!holds(old_closed, NodeRef::Regular(i)));
                visited.insert(i);
            },
            _ => {},
        }
        closed.push(current);
        let ghost mid_frontier = frontier@;
        match current.node {
            NodeRef::Regular(i) => {
                self.initialize_edges(i, from);
                let node = &self.nodes.regular_nodes[i];
                self.expand(node, Some(i), frontier, closed, visited, from, to);
            },
            NodeRef::Destination => {
                self.expand(to_node, None, frontier, closed, visited, from, to);
            },
            NodeRef::Final => {
                assert(false);
            },
        }
        proof {
            assert(offers_stay(mid_frontier, frontier@));
            assert forall|k: int| 0 <= k < closed@.len() implies covered(
                scene,
                oracle,
                closed@,
                frontier@,
                k,
                from,
                to,
            ) by {
                if k < old_closed.len() {
                    lemma_covered_stays(scene, oracle, closed@, mid_frontier, frontier@, k, from, to);
                }
            }
            if current.node == NodeRef::Destination && old_closed.len() > 0 {
                assert(old_closed[0].node == NodeRef::Destination);
                assert(holds(old_closed, NodeRef::Destination));
            }
            if old_closed.len() == 0 {
                assert(before[0].node == NodeRef::Destination);
            }
        }
    }

    /// Finds a cheapest path for a token that is to move from `from` to
    /// `to`.
    ///
    /// The path is returned from its far end: it starts at `to` and ends at
    /// `from`. Every point between the two is a waypoint of the graph, and a
    /// token can move straight from each point to the next without meeting a
    /// wall or a closed door. There is a path exactly if the waypoints
    /// connect the two points at all, and no route costs less than the path
    /// that is returned, where every hop costs what its edge costs and a
    /// small flat penalty. Costs are added with saturation, so all costs
    /// above the largest number count alike. Which of several cheapest routes
    /// is returned is told by [`found_path`], which follows the search step by
    /// step.
    pub fn find_path(&mut self, from: Point, to: Point) -> (r: Option<Vec<Point>>)
        requires
            old(self).wf(),
        ensures
            final(self).wf(),
            final(self)@ == old(self)@,
            final(self).oracle == old(self).oracle,
            final(self).nodes.final_node.is_none(),
            final(self).keeps_edges_of(old(self)),
            match r {
                Some(path) => is_cheapest_route(old(self)@, old(self).oracle, from, to, path@),
                None => forall|path: Seq<Point>| !old(self)@.is_route(from, to, path),
            },
            from == to ==> r.is_some() && r.unwrap()@ == seq![to],
            found_path(old(self)@, old(self).oracle, from, to) == (match r {
                Some(path) => Some(path@),
                None => None,
            }),
    {
        let ghost scene = self@;
        let ghost oracle = self.oracle;
        let n = self.nodes.regular_nodes.len();
        self.nodes.cleanup_final_edges();
        self.nodes.final_node = Some(Node::new(from));
        assert(self@ =~= scene) by {
            assert(self@.points =~= scene.points);
        }
        assert(self.keeps_edges_of(old(self)));
        let mut to_node = Node::new(to);
        let (persistent, dynamic) = self.discover_edges(to, None);
        to_node.persistent_edges = Some(persistent);
        to_node.dynamic_edges = Some(dynamic);
        to_node.final_edge = Some(self.discover_final_edge(to, from));
        let start = DiscoveredNode {
            node: NodeRef::Destination,
            cost: 0,
            estimated: to.distance_to(from),
            previous: None,
        };
        let mut frontier: Vec<DiscoveredNode> = Vec::new();
        frontier.push(start);
        let mut closed: Vec<DiscoveredNode> = Vec::new();
        let mut visited = PtrIndexedHashSet::new();
        let ghost mut unvisited: Set<usize> = Set::new(|i: usize| i < n);
        let ghost answer = found_path(scene, oracle, from, to);
        proof {
            lemma_handles_finite(n);
            assert(frontier@ =~= seq![start]);
            assert(start == first_entry(from, to));
            assert forall|i: usize| visited@.contains(i) <==> #[trigger] holds(
                closed@,
                NodeRef::Regular(i),
            ) by {}
            assert(search_ok(scene, oracle, closed@, frontier@, from, to));
        }
        while frontier.len() > 0
            invariant
                self@ == scene,
                scene == old(self)@,
                self.oracle == oracle,
                oracle == old(self).oracle,
                self.wf(),
                self.finals_ok(from),
                self.nodes.regular_nodes@.len() == n,
                scene.points.len() == n,
                to_node.point == to,
                to_node.persistent_edges.is_some(),
                to_node.dynamic_edges.is_some(),
                to_node.final_edge.is_some(),
                Self::cache_ok(scene, oracle, to_node, None),
                Self::final_edge_ok(scene, oracle, to, from, to_node.final_edge.unwrap()),
                search_ok(scene, oracle, closed@, frontier@, from, to),
                self.keeps_edges_of(old(self)),
                marks_ok(visited@, closed@),
                unvisited.finite(),
                forall|i: usize| i < n ==> (unvisited.contains(i) <==> !visited@.contains(i)),
                closed@.len() + unvisited.len() == n + (if closed@.len() == 0 {
                    0int
                } else {
                    1int
                }),
                answer == found_path(scene, oracle, from, to),
                answer == search(
                    scene,
                    oracle,
                    closed@,
                    frontier@,
                    from,
                    to,
                    (n + 2 - closed@.len()) as nat,
                ),
            decreases unvisited.len() + (if closed@.len() == 0 {
                1int
            } else {
                0int
            }),
        {
            let best = cheapest(&frontier);
            let ghost before = frontier@;
            let ghost old_closed = closed@;
            proof {
                lemma_search_step(
                    scene,
                    oracle,
                    old_closed,
                    before,
                    from,
                    to,
                    (n + 2 - old_closed.len()) as nat,
                );
            }
            let current = frontier.remove(best);
            assert(entry_ok(scene, oracle, current, old_closed, old_closed.len() as int, from, to));
            let point = self.locate(current.node, from, to);
            if point.x == from.x && point.y == from.y {
                let path = self.conclude(
                    &closed,
                    &current,
                    Ghost(before),
                    Ghost(best as int),
                    from,
                    to,
                );
                self.nodes.final_node = None;
                assert(self@ =~= scene) by {
                    assert(self@.points =~= scene.points);
                }
                return Some(path);
            }
            self.settle(
                &to_node,
                &mut frontier,
                &mut closed,
                &mut visited,
                current,
                Ghost(before),
                Ghost(best as int),
                from,
                to,
            );
            proof {
                match current.node {
                    NodeRef::Regular(i) => {
                        unvisited = unvisited.remove(i);
                    },
                    _ => {},
                }
            }
        }
        self.nodes.final_node = None;
        assert(self@ =~= scene) by {
            assert(self@.points =~= scene.points);
        }
        proof {
            reveal(search);
            assert(closed@.len() > 0);
            assert(closed@[0].node == NodeRef::Destination);
            assert(holds(closed@, NodeRef::Destination));
            assert(frontier@ =~= Seq::<DiscoveredNode>::empty());
            assert(closed_ok(scene, oracle, closed@, from, to));
            assert(scene.point_of(closed@[0].node, from, to) != from);
            assert forall|path: Seq<Point>| !scene.is_route(from, to, path) by {
                lemma_no_route(scene, oracle, closed@, from, to, path);
            }
        }
        None
    }
}

} // verus!
