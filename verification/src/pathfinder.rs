//! The visibility graph and the search over it.
//!
//! A [`Pathfinder`] holds the waypoints of one snapshot of the scene, the wall
//! segments and the bounding boxes of the difficult terrain. Edges between
//! waypoints are found lazily, when the search first expands a node, and are
//! kept for later queries.

use crate::costs::oracle_ok;
use crate::geometry::{LineSegment, Point, Rectangle};
use crate::walls::{
    blocked, edge_class, hits_dynamic, spec_collides_with_wall, DynamicWall, EdgeClass,
    WallStorage,
};
use vstd::prelude::*;

verus! {

/// The flat cost added for every hop, in cost units. It makes the search
/// prefer the path with fewer waypoints among paths of equal length.
pub const HOP_PENALTY: u64 = 1;

/// An edge of the visibility graph. The target is a handle of a regular node,
/// or the number of regular nodes for the origin of the query.
#[derive(Debug, Clone, Copy, PartialEq, Eq, Structural)]
pub struct Edge {
    pub target: usize,
    pub cost: u64,
}

/// A waypoint with its lazily discovered edges. An edge collection that is
/// `None` has not been computed yet.
#[derive(Debug, Clone)]
pub struct Node {
    pub point: Point,
    /// Edges to regular nodes that meet no wall and no door.
    pub persistent_edges: Option<Vec<Edge>>,
    /// Edges to regular nodes that are free only because a door stands open.
    pub dynamic_edges: Option<Vec<Edge>>,
    /// The edge to the origin of the present query, if there is one.
    pub final_edge: Option<Option<Edge>>,
}

impl Node {
    pub fn new(point: Point) -> (node: Self)
        ensures
            node.point == point,
            node.persistent_edges.is_none(),
            node.dynamic_edges.is_none(),
            node.final_edge.is_none(),
    {
        Self { point, persistent_edges: None, dynamic_edges: None, final_edge: None }
    }
}

/// Names a node during one query: a regular node by its handle, the origin of
/// the query, or its destination.
#[derive(Debug, Clone, Copy, PartialEq, Eq, Structural)]
pub enum NodeRef {
    Regular(usize),
    Final,
    Destination,
}

/// An entry of the search tree: a node, the cost of reaching it from the
/// destination, the estimated cost of a whole path through it, and the entry
/// from which it was reached, as an index into the list of expanded entries.
#[derive(Debug, Clone, Copy, PartialEq, Eq, Structural)]
pub struct DiscoveredNode {
    pub node: NodeRef,
    pub cost: u64,
    pub estimated: u64,
    pub previous: Option<usize>,
}

/// The regular nodes, in the order in which they were generated, and the
/// origin of the query at hand.
#[derive(Debug, Clone)]
pub struct NodeStorage {
    pub regular_nodes: Vec<Node>,
    pub final_node: Option<Node>,
}

impl NodeStorage {
    pub fn new() -> (s: Self)
        ensures
            s.regular_nodes@.len() == 0,
            s.final_node.is_none(),
    {
        Self { regular_nodes: Vec::new(), final_node: None }
    }

    /// The points of the regular nodes, in order.
    pub open spec fn points(&self) -> Seq<Point> {
        Seq::new(self.regular_nodes@.len(), |i: int| self.regular_nodes@[i].point)
    }

    /// Appends a regular node.
    pub fn push(&mut self, node: Node)
        ensures
            final(self).regular_nodes@ == old(self).regular_nodes@.push(node),
            final(self).final_node == old(self).final_node,
            final(self).points() == old(self).points().push(node.point),
    {
        self.regular_nodes.push(node);
        assert(self.points() =~= old(self).points().push(node.point));
    }

    /// Forgets every edge to the origin of the last query. Nothing else
    /// changes.
    pub fn cleanup_final_edges(&mut self)
        ensures
            final(self).regular_nodes@.len() == old(self).regular_nodes@.len(),
            final(self).final_node == old(self).final_node,
            forall|i: int|
                0 <= i < old(self).regular_nodes@.len() ==> {
                    &&& (#[trigger] final(self).regular_nodes@[i]).final_edge.is_none()
                    &&& final(self).regular_nodes@[i].point == old(self).regular_nodes@[i].point
                    &&& final(self).regular_nodes@[i].persistent_edges == old(
                        self,
                    ).regular_nodes@[i].persistent_edges
                    &&& final(self).regular_nodes@[i].dynamic_edges == old(
                        self,
                    ).regular_nodes@[i].dynamic_edges
                },
    {
        let mut i: usize = 0;
        while i < self.regular_nodes.len()
            invariant
                i <= self.regular_nodes@.len(),
                self.regular_nodes@.len() == old(self).regular_nodes@.len(),
                self.final_node == old(self).final_node,
                forall|j: int|
                    0 <= j < i ==> (#[trigger] self.regular_nodes@[j]).final_edge.is_none(),
                forall|j: int|
                    0 <= j < self.regular_nodes@.len() ==> {
                        &&& (#[trigger] self.regular_nodes@[j]).point == old(
                            self,
                        ).regular_nodes@[j].point
                        &&& self.regular_nodes@[j].persistent_edges == old(
                            self,
                        ).regular_nodes@[j].persistent_edges
                        &&& self.regular_nodes@[j].dynamic_edges == old(
                            self,
                        ).regular_nodes@[j].dynamic_edges
                    },
            decreases self.regular_nodes@.len() - i,
        {
            self.regular_nodes[i].final_edge = None;
            i += 1;
        }
    }

    /// The points of all nodes: the regular nodes in order, then the origin
    /// of the query at hand, if one is set.
    pub fn iter(&self) -> (r: Vec<Point>)
        ensures
            r@ == match self.final_node {
                Some(node) => self.points().push(node.point),
                None => self.points(),
            },
    {
        let mut r: Vec<Point> = Vec::new();
        let mut i: usize = 0;
        while i < self.regular_nodes.len()
            invariant
                i <= self.regular_nodes@.len(),
                r@ == self.points().take(i as int),
            decreases self.regular_nodes@.len() - i,
        {
            r.push(self.regular_nodes[i].point);
            assert(self.points().take(i + 1) =~= self.points().take(i as int).push(
                self.regular_nodes@[i as int].point,
            ));
            i += 1;
        }
        assert(self.points().take(self.regular_nodes@.len() as int) =~= self.points());
        match &self.final_node {
            Some(node) => {
                r.push(node.point);
            },
            None => {},
        }
        r
    }
}

/// What a graph is to a query: the points of its regular nodes, the wall
/// segments, and the bounding boxes of the difficult terrain.
pub struct Scene {
    pub points: Seq<Point>,
    pub persistent: Seq<LineSegment>,
    pub dynamic: Seq<DynamicWall>,
    pub terrain: Seq<Rectangle>,
}

impl Scene {
    /// Whether a token can move straight from `a` to `b`: nothing that blocks
    /// stands on the segment between them.
    pub open spec fn free_edge(self, a: Point, b: Point) -> bool {
        !blocked(self.persistent, self.dynamic, LineSegment { p1: a, p2: b })
    }

    /// The class of the candidate edge from `a` to `b`.
    pub open spec fn edge_class(self, a: Point, b: Point) -> EdgeClass {
        edge_class(self.persistent, self.dynamic, LineSegment { p1: a, p2: b })
    }

    /// Whether the segment from `a` to `b` touches the bounding box of some
    /// difficult terrain.
    pub open spec fn crosses_terrain(self, a: Point, b: Point) -> bool {
        exists|i: int|
            0 <= i < self.terrain.len() && (LineSegment { p1: a, p2: b }).spec_intersects_rect(
                #[trigger] self.terrain[i],
            )
    }

    /// Whether `path` leads from `to` back to `from`: it starts at `to` and
    /// ends at `from`, every point between the two is the point of a regular
    /// node, and a token can move straight from each point to the next.
    pub open spec fn is_route(self, from: Point, to: Point, path: Seq<Point>) -> bool {
        &&& path.len() >= 1
        &&& path[0] == to
        &&& path[path.len() - 1] == from
        &&& forall|i: int|
            0 <= i < path.len() - 1 ==> self.free_edge(#[trigger] path[i], path[i + 1])
        &&& forall|i: int| 0 < i < path.len() - 1 ==> self.points.contains(#[trigger] path[i])
    }

    /// Whether `r` names a node of the scene.
    pub open spec fn ref_ok(self, r: NodeRef) -> bool {
        r matches NodeRef::Regular(i) ==> i < self.points.len()
    }

    /// The point of the node that `r` names in a query from `from` to `to`.
    pub open spec fn point_of(self, r: NodeRef, from: Point, to: Point) -> Point {
        match r {
            NodeRef::Regular(i) => self.points[i as int],
            NodeRef::Final => from,
            NodeRef::Destination => to,
        }
    }
}

/// Whether the edge list holds an edge to the node with handle `target`.
pub open spec fn has_target(edges: Seq<Edge>, target: usize) -> bool {
    exists|k: int| 0 <= k < edges.len() && (#[trigger] edges[k]).target == target
}

/// The visibility graph of one snapshot of the scene, with the function that
/// measures distances through difficult terrain.
pub struct Pathfinder<F: Fn(Point, Point) -> u64> {
    pub nodes: NodeStorage,
    pub walls: WallStorage,
    pub terrain: Vec<Rectangle>,
    pub oracle: F,
}

impl<F: Fn(Point, Point) -> u64> Pathfinder<F> {
    /// The scene that the graph stands for.
    pub open spec fn view(&self) -> Scene {
        Scene {
            points: self.nodes.points(),
            persistent: self.walls.persistent@,
            dynamic: self.walls.dynamic@,
            terrain: self.terrain@,
        }
    }

    /// The points of the regular nodes, in order.
    pub open spec fn points(&self) -> Seq<Point> {
        self.nodes.points()
    }

    /// Whether `cost` is a cost of the edge from `a` to `b`: what the terrain
    /// function returns for the pair where the segment touches difficult
    /// terrain, and the Euclidean distance elsewhere.
    pub open spec fn cost_ok(scene: Scene, oracle: F, a: Point, b: Point, cost: u64) -> bool {
        if scene.crosses_terrain(a, b) {
            call_ensures(oracle, (a, b), cost)
        } else {
            cost == a.spec_distance_to(b)
        }
    }

    /// Whether `edges` is the list of the edges of class `class` that leave
    /// the node at `origin` for the regular nodes with a handle below
    /// `limit`: one edge for each such node other than the node itself to
    /// which the candidate edge has that class, in the order of the nodes,
    /// each with a cost of that edge.
    pub open spec fn partial_edges_ok(
        scene: Scene,
        oracle: F,
        origin: Point,
        origin_id: Option<usize>,
        edges: Seq<Edge>,
        class: EdgeClass,
        limit: int,
    ) -> bool {
        &&& forall|k: int|
            0 <= k < edges.len() ==> {
                &&& (#[trigger] edges[k]).target < limit
                &&& Some(edges[k].target) != origin_id
                &&& scene.edge_class(origin, scene.points[edges[k].target as int]) == class
                &&& Self::cost_ok(
                    scene,
                    oracle,
                    origin,
                    scene.points[edges[k].target as int],
                    edges[k].cost,
                )
            }
        &&& forall|k1: int, k2: int|
            0 <= k1 < k2 < edges.len() ==> (#[trigger] edges[k1]).target < (
            #[trigger] edges[k2]).target
        &&& forall|w: usize|
            w < limit && Some(w) != origin_id && scene.edge_class(origin, scene.points[w as int])
                == class ==> #[trigger] has_target(edges, w)
    }

    /// Whether `edges` is the list of all edges of class `class` that leave
    /// the node at `origin`.
    pub open spec fn edges_ok(
        scene: Scene,
        oracle: F,
        origin: Point,
        origin_id: Option<usize>,
        edges: Seq<Edge>,
        class: EdgeClass,
    ) -> bool {
        Self::partial_edges_ok(
            scene,
            oracle,
            origin,
            origin_id,
            edges,
            class,
            scene.points.len() as int,
        )
    }

    /// Whether the two collections of edges to regular nodes, as far as they
    /// are computed, are right for a node with handle `id`.
    pub open spec fn cache_ok(scene: Scene, oracle: F, node: Node, id: Option<usize>) -> bool {
        &&& node.persistent_edges matches Some(edges) ==> Self::edges_ok(
            scene,
            oracle,
            node.point,
            id,
            edges@,
            EdgeClass::Persistent,
        )
        &&& node.dynamic_edges matches Some(edges) ==> Self::edges_ok(
            scene,
            oracle,
            node.point,
            id,
            edges@,
            EdgeClass::Dynamic,
        )
    }

    /// Whether `edge` is what the slot for the edge to the origin `from` has
    /// to hold for a node at `origin`: an edge exactly if the way is free,
    /// with a cost of that edge.
    pub open spec fn final_edge_ok(
        scene: Scene,
        oracle: F,
        origin: Point,
        from: Point,
        edge: Option<Edge>,
    ) -> bool {
        &&& edge.is_some() == scene.free_edge(origin, from)
        &&& edge matches Some(e) ==> e.target == scene.points.len() && Self::cost_ok(
            scene,
            oracle,
            origin,
            from,
            e.cost,
        )
    }

    /// The invariant of the graph: the terrain function is fit for the
    /// search, and every collection of edges to regular nodes that has been
    /// computed is right for the walls and nodes of the graph.
    /// Edges to the origin of an earlier query may be stale; each query
    /// forgets them first.
    pub open spec fn wf(&self) -> bool {
        &&& oracle_ok(self.oracle)
        &&& forall|i: int|
            0 <= i < self.nodes.regular_nodes@.len() ==> Self::cache_ok(
                self@,
                self.oracle,
                #[trigger] self.nodes.regular_nodes@[i],
                Some(i as usize),
            )
    }

    /// Whether every collection of edges to regular nodes that `earlier` had
    /// computed is still there, unchanged.
    pub open spec fn keeps_edges_of(&self, earlier: &Self) -> bool {
        &&& self.nodes.regular_nodes@.len() == earlier.nodes.regular_nodes@.len()
        &&& forall|i: int|
            0 <= i < earlier.nodes.regular_nodes@.len() ==> {
                &&& (#[trigger] earlier.nodes.regular_nodes@[i]).persistent_edges.is_some()
                    ==> self.nodes.regular_nodes@[i].persistent_edges
                    == earlier.nodes.regular_nodes@[i].persistent_edges
                &&& earlier.nodes.regular_nodes@[i].dynamic_edges.is_some()
                    ==> self.nodes.regular_nodes@[i].dynamic_edges
                    == earlier.nodes.regular_nodes@[i].dynamic_edges
            }
    }

    /// Whether every edge to the origin that a regular node holds is right
    /// for a query with the origin `from`.
    pub open spec fn finals_ok(&self, from: Point) -> bool {
        forall|i: int|
            0 <= i < self.nodes.regular_nodes@.len() ==> (
            (#[trigger] self.nodes.regular_nodes@[i]).final_edge matches Some(edge)
                ==> Self::final_edge_ok(
                self@,
                self.oracle,
                self.nodes.regular_nodes@[i].point,
                from,
                edge,
            ))
    }

    /// The cost of moving from `a` to `b`: the Euclidean distance, or what
    /// the terrain function returns where the segment touches the bounding
    /// box of difficult terrain.
    pub fn measure_distance(&self, a: Point, b: Point) -> (cost: u64)
        requires
            call_requires(self.oracle, (a, b)),
        ensures
            Self::cost_ok(self@, self.oracle, a, b, cost),
    {
        let segment = LineSegment::new(a, b);
        let mut i: usize = 0;
        while i < self.terrain.len()
            invariant
                i <= self.terrain@.len(),
                segment == (LineSegment { p1: a, p2: b }),
                call_requires(self.oracle, (a, b)),
                forall|j: int|
                    0 <= j < i ==> !segment.spec_intersects_rect(#[trigger] self.terrain@[j]),
            decreases self.terrain@.len() - i,
        {
            if segment.intersects_rect(&self.terrain[i]) {
                assert(segment.spec_intersects_rect(self@.terrain[i as int]));
                return (self.oracle)(a, b);
            }
            i += 1;
        }
        a.distance_to(b)
    }

    /// Finds the edges that leave a node at `origin` for the regular nodes:
    /// first those that meet no wall and no door, then those that are free
    /// only because a door stands open. `origin_id` is the handle of the node
    /// itself if it is a regular node; a node has no edge to itself.
    pub fn discover_edges(&self, origin: Point, origin_id: Option<usize>) -> (r: (
        Vec<Edge>,
        Vec<Edge>,
    ))
        requires
            forall|a: Point, b: Point| call_requires(self.oracle, (a, b)),
        ensures
            Self::edges_ok(self@, self.oracle, origin, origin_id, r.0@, EdgeClass::Persistent),
            Self::edges_ok(self@, self.oracle, origin, origin_id, r.1@, EdgeClass::Dynamic),
    {
        let mut persistent: Vec<Edge> = Vec::new();
        let mut dynamic: Vec<Edge> = Vec::new();
        let n = self.nodes.regular_nodes.len();
        let mut w: usize = 0;
        while w < n
            invariant
                w <= n,
                n == self@.points.len(),
                n == self.nodes.regular_nodes@.len(),
                forall|a: Point, b: Point| call_requires(self.oracle, (a, b)),
                Self::partial_edges_ok(
                    self@,
                    self.oracle,
                    origin,
                    origin_id,
                    persistent@,
                    EdgeClass::Persistent,
                    w as int,
                ),
                Self::partial_edges_ok(
                    self@,
                    self.oracle,
                    origin,
                    origin_id,
                    dynamic@,
                    EdgeClass::Dynamic,
                    w as int,
                ),
            decreases n - w,
        {
            let ghost old_persistent = persistent@;
            let ghost old_dynamic = dynamic@;
            let skip = match origin_id {
                Some(id) => id == w,
                None => false,
            };
            let neighbor = self.nodes.regular_nodes[w].point;
            assert(neighbor == self@.points[w as int]);
            if !skip {
                let class = self.walls.classify(&LineSegment::new(origin, neighbor));
                match class {
                    EdgeClass::Blocked => {},
                    EdgeClass::Dynamic => {
                        let cost = self.measure_distance(origin, neighbor);
                        dynamic.push(Edge { target: w, cost });
                    },
                    EdgeClass::Persistent => {
                        let cost = self.measure_distance(origin, neighbor);
                        persistent.push(Edge { target: w, cost });
                    },
                }
            }
            proof {
                Self::lemma_partial_edges_step(
                    self@,
                    self.oracle,
                    origin,
                    origin_id,
                    old_persistent,
                    persistent@,
                    EdgeClass::Persistent,
                    w,
                );
                Self::lemma_partial_edges_step(
                    self@,
                    self.oracle,
                    origin,
                    origin_id,
                    old_dynamic,
                    dynamic@,
                    EdgeClass::Dynamic,
                    w,
                );
            }
            w += 1;
        }
        (persistent, dynamic)
    }

    /// One step of edge discovery keeps the partial list right: the list
    /// grows by the edge to node `w` exactly if that edge has the class.
    proof fn lemma_partial_edges_step(
        scene: Scene,
        oracle: F,
        origin: Point,
        origin_id: Option<usize>,
        before: Seq<Edge>,
        after: Seq<Edge>,
        class: EdgeClass,
        w: usize,
    )
        requires
            w < scene.points.len(),
            Self::partial_edges_ok(scene, oracle, origin, origin_id, before, class, w as int),
            ({
                let wanted = Some(w) != origin_id && scene.edge_class(
                    origin,
                    scene.points[w as int],
                ) == class;
                if wanted {
                    exists|cost: u64|
                        after == before.push(Edge { target: w, cost }) && Self::cost_ok(
                            scene,
                            oracle,
                            origin,
                            scene.points[w as int],
                            cost,
                        )
                } else {
                    after == before
                }
            }),
        ensures
            Self::partial_edges_ok(scene, oracle, origin, origin_id, after, class, w + 1),
    {
        let wanted = Some(w) != origin_id && scene.edge_class(origin, scene.points[w as int])
            == class;
        assert forall|k: int| 0 <= k < after.len() implies {
            &&& (#[trigger] after[k]).target < w + 1
            &&& Some(after[k].target) != origin_id
            &&& scene.edge_class(origin, scene.points[after[k].target as int]) == class
            &&& Self::cost_ok(
                scene,
                oracle,
                origin,
                scene.points[after[k].target as int],
                after[k].cost,
            )
        } by {
            if k < before.len() {
                assert(after[k] == before[k]);
            }
        }
        assert forall|k1: int, k2: int| 0 <= k1 < k2 < after.len() implies (
        #[trigger] after[k1]).target < (#[trigger] after[k2]).target by {
            assert(after[k1] == before[k1]);
            if k2 < before.len() {
                assert(after[k2] == before[k2]);
            }
        }
        assert forall|v: usize|
            v < w + 1 && Some(v) != origin_id && scene.edge_class(origin, scene.points[v as int])
                == class implies #[trigger] has_target(after, v) by {
            if v < w {
                assert(has_target(before, v));
                let k = choose|k: int| 0 <= k < before.len() && (#[trigger] before[k]).target == v;
                assert(after[k].target == v);
            } else {
                assert(v == w);
                assert(wanted);
                assert(after[after.len() - 1].target == w);
            }
        }
    }

    /// The edge from a node at `origin` to the origin `from` of the query, if
    /// the way is free.
    pub fn discover_final_edge(&self, origin: Point, from: Point) -> (edge: Option<Edge>)
        requires
            forall|a: Point, b: Point| call_requires(self.oracle, (a, b)),
        ensures
            Self::final_edge_ok(self@, self.oracle, origin, from, edge),
    {
        if self.walls.is_blocked(&LineSegment::new(origin, from)) {
            None
        } else {
            let cost = self.measure_distance(origin, from);
            Some(Edge { target: self.nodes.regular_nodes.len(), cost })
        }
    }

    /// Makes sure that the regular node with handle `i` has all its edges:
    /// each collection that has not been computed yet is computed now, for a
    /// query with the origin `from`. What has been computed stays as it is.
    pub fn initialize_edges(&mut self, i: usize, from: Point)
        requires
            old(self).wf(),
            old(self).finals_ok(from),
            i < old(self).nodes.regular_nodes@.len(),
        ensures
            final(self).wf(),
            final(self).finals_ok(from),
            final(self)@ == old(self)@,
            final(self).oracle == old(self).oracle,
            final(self).nodes.final_node == old(self).nodes.final_node,
            final(self).nodes.regular_nodes@.len() == old(self).nodes.regular_nodes@.len(),
            final(self).nodes.regular_nodes@[i as int].persistent_edges.is_some(),
            final(self).nodes.regular_nodes@[i as int].dynamic_edges.is_some(),
            final(self).nodes.regular_nodes@[i as int].final_edge.is_some(),
            final(self).keeps_edges_of(old(self)),
            forall|j: int|
                0 <= j < old(self).nodes.regular_nodes@.len() && j != i
                    ==> final(self).nodes.regular_nodes@[j] == old(self).nodes.regular_nodes@[j],
    {
        let ghost scene = self@;
        let point = self.nodes.regular_nodes[i].point;
        if self.nodes.regular_nodes[i].final_edge.is_none() {
            let edge = self.discover_final_edge(point, from);
            self.nodes.regular_nodes[i].final_edge = Some(edge);
            assert(self@ =~= scene) by {
                assert(self@.points =~= scene.points);
            }
        }
        let need_persistent = self.nodes.regular_nodes[i].persistent_edges.is_none();
        let need_dynamic = self.nodes.regular_nodes[i].dynamic_edges.is_none();
        if need_persistent || need_dynamic {
            let (persistent, dynamic) = self.discover_edges(point, Some(i));
            if need_persistent {
                self.nodes.regular_nodes[i].persistent_edges = Some(persistent);
            }
            if need_dynamic {
                self.nodes.regular_nodes[i].dynamic_edges = Some(dynamic);
            }
            assert(self@ =~= scene) by {
                assert(self@.points =~= scene.points);
            }
        }
    }
}

/// No wall and no door stands on a persistent edge: the segment from a
/// node to the target of one of its persistent edges meets no segment that
/// always blocks and no door, whatever the state of the door.
pub proof fn lemma_persistent_edges_are_clear<F: Fn(Point, Point) -> u64>(
    pf: Pathfinder<F>,
    i: int,
    k: int,
)
    requires
        pf.wf(),
        0 <= i < pf.nodes.regular_nodes@.len(),
        pf.nodes.regular_nodes@[i].persistent_edges.is_some(),
        0 <= k < pf.nodes.regular_nodes@[i].persistent_edges.unwrap()@.len(),
    ensures
        ({
            let edge = pf.nodes.regular_nodes@[i].persistent_edges.unwrap()@[k];
            let line = LineSegment { p1: pf@.points[i], p2: pf@.points[edge.target as int] };
            &&& edge.target < pf@.points.len()
            &&& edge.target != i
            &&& !spec_collides_with_wall(line, pf@.persistent)
            &&& !hits_dynamic(pf@.dynamic, line, true)
            &&& !hits_dynamic(pf@.dynamic, line, false)
        }),
{
    let node = pf.nodes.regular_nodes@[i];
    assert(Pathfinder::<F>::cache_ok(pf@, pf.oracle, node, Some(i as usize)));
    let edges = node.persistent_edges.unwrap()@;
    assert(edges[k].target < pf@.points.len());
}

/// Nothing that blocks stands on a dynamic edge, but an open door does.
pub proof fn lemma_dynamic_edges_pass_open_doors<F: Fn(Point, Point) -> u64>(
    pf: Pathfinder<F>,
    i: int,
    k: int,
)
    requires
        pf.wf(),
        0 <= i < pf.nodes.regular_nodes@.len(),
        pf.nodes.regular_nodes@[i].dynamic_edges.is_some(),
        0 <= k < pf.nodes.regular_nodes@[i].dynamic_edges.unwrap()@.len(),
    ensures
        ({
            let edge = pf.nodes.regular_nodes@[i].dynamic_edges.unwrap()@[k];
            let line = LineSegment { p1: pf@.points[i], p2: pf@.points[edge.target as int] };
            &&& edge.target < pf@.points.len()
            &&& edge.target != i
            &&& !spec_collides_with_wall(line, pf@.persistent)
            &&& !hits_dynamic(pf@.dynamic, line, true)
            &&& hits_dynamic(pf@.dynamic, line, false)
        }),
{
    let node = pf.nodes.regular_nodes@[i];
    assert(Pathfinder::<F>::cache_ok(pf@, pf.oracle, node, Some(i as usize)));
    let edges = node.dynamic_edges.unwrap()@;
    assert(edges[k].target < pf@.points.len());
}

} // verus!
