//! Building the graph: which walls count, where the waypoints go, and the
//! short wall that keeps paths from cutting each corner.

use crate::bearings::{spec_scale_to, trunc_div};
use crate::corners::{
    all_corner_placements, collect_corners, corners_of, lemma_corners_in_bounds, lemma_corners_of,
    place_at_corners, placements_wf, Placement,
};
use crate::costs::oracle_ok;
use crate::geometry::{Circle, Direction, LineSegment, Point, Rectangle};
use crate::pathfinder::{Node, NodeStorage, Pathfinder, Scene};
use crate::terrain::{
    bounding_boxes, in_bounds, points_in_bounds, polygon_sides, segments_in_bounds, terrain_views,
    CircleView, ShapeView, Terrain, TerrainShape, TerrainView,
};
use crate::walls::{hits_dynamic, DynamicWall, Wall, WallSenseType, WallStorage};
use vstd::prelude::*;

verus! {

/// The segments of the walls that stop a token at the given elevation, in
/// the order of the walls.
pub open spec fn blocking_segments(walls: Seq<Wall>, elevation: i32) -> Seq<LineSegment>
    decreases walls.len(),
{
    if walls.len() == 0 {
        Seq::empty()
    } else {
        let rest = blocking_segments(walls.drop_last(), elevation);
        if walls.last().spec_is_blocking(elevation) {
            rest.push(walls.last().segment())
        } else {
            rest
        }
    }
}

/// The segments of the walls that concern a token at the given elevation
/// and are not doors, in the order of the walls.
pub open spec fn persistent_segments(walls: Seq<Wall>, elevation: i32) -> Seq<LineSegment>
    decreases walls.len(),
{
    if walls.len() == 0 {
        Seq::empty()
    } else {
        let rest = persistent_segments(walls.drop_last(), elevation);
        if walls.last().spec_is_relevant(elevation) && !walls.last().spec_is_door() {
            rest.push(walls.last().segment())
        } else {
            rest
        }
    }
}

/// The doors among the walls that concern a token at the given elevation,
/// in the order of the walls. A door is active unless it stands open.
pub open spec fn door_segments(walls: Seq<Wall>, elevation: i32) -> Seq<DynamicWall>
    decreases walls.len(),
{
    if walls.len() == 0 {
        Seq::empty()
    } else {
        let rest = door_segments(walls.drop_last(), elevation);
        if walls.last().spec_is_relevant(elevation) && walls.last().spec_is_door() {
            rest.push(
                DynamicWall {
                    segment: walls.last().segment(),
                    active: !walls.last().spec_is_open(),
                },
            )
        } else {
            rest
        }
    }
}

/// The placements of the waypoints around a circle: one at each rim point,
/// set off away from the center.
pub open spec fn circle_placements(circle: CircleView) -> Seq<Placement> {
    Seq::new(
        circle.rim.len(),
        |i: int|
            Placement {
                anchor: circle.rim[i],
                bearing: Direction::spec_between(circle.center, circle.rim[i]),
            },
    )
}

/// The placements of the waypoints around the circles among the terrain, in
/// order.
pub open spec fn all_circle_placements(terrain: Seq<TerrainView>) -> Seq<Placement>
    decreases terrain.len(),
{
    if terrain.len() == 0 {
        Seq::empty()
    } else {
        all_circle_placements(terrain.drop_last()) + match terrain.last().shape {
            ShapeView::Circle(circle) => circle_placements(circle),
            ShapeView::Polygon(_) => Seq::empty(),
        }
    }
}

/// The placements of all waypoints: those at the corners of the blocking
/// walls and of the polygons, corner by corner, then those around the
/// circles.
pub open spec fn placements(walls: Seq<Wall>, terrain: Seq<TerrainView>, elevation: i32) -> Seq<
    Placement,
> {
    all_corner_placements(
        corners_of(blocking_segments(walls, elevation) + polygon_sides(terrain)),
    ) + all_circle_placements(terrain)
}

/// The distance that waypoints keep from the walls: half the size of the
/// token.
pub open spec fn distance_from_walls(token_size: i32) -> int {
    token_size as int / 2
}

/// The point of the waypoint of a placement: the anchor, set off in the
/// direction of the bearing by `distance`.
pub open spec fn placed_point(placement: Placement, distance: int) -> Point {
    let offset = spec_scale_to(placement.bearing, distance);
    Point {
        x: (placement.anchor.x + offset.dx) as i32,
        y: (placement.anchor.y + offset.dy) as i32,
    }
}

/// A length, shortened by a hundredth and rounded toward zero.
pub open spec fn shrink(c: int) -> int {
    trunc_div(c * 99, 100)
}

/// The short wall of a placement: from the anchor towards the waypoint, but
/// a hundredth short of it. It keeps edges from passing between the corner
/// and its waypoint.
pub open spec fn stub(placement: Placement, distance: int) -> LineSegment {
    let offset = spec_scale_to(placement.bearing, distance);
    LineSegment {
        p1: placement.anchor,
        p2: Point {
            x: (placement.anchor.x + shrink(offset.dx as int)) as i32,
            y: (placement.anchor.y + shrink(offset.dy as int)) as i32,
        },
    }
}

/// The points of the waypoints of the placements, in order.
pub open spec fn placed_points(placements: Seq<Placement>, distance: int) -> Seq<Point> {
    Seq::new(placements.len(), |i: int| placed_point(placements[i], distance))
}

/// The short walls of the placements, in order.
pub open spec fn stubs(placements: Seq<Placement>, distance: int) -> Seq<LineSegment> {
    Seq::new(placements.len(), |i: int| stub(placements[i], distance))
}

/// The scene that is built from the walls and the terrain for a token of
/// the given size at the given elevation.
pub open spec fn scene_of(
    walls: Seq<Wall>,
    terrain: Seq<TerrainView>,
    token_size: i32,
    elevation: i32,
) -> Scene {
    let places = placements(walls, terrain, elevation);
    let distance = distance_from_walls(token_size);
    Scene {
        points: placed_points(places, distance),
        persistent: persistent_segments(walls, elevation) + stubs(places, distance),
        dynamic: door_segments(walls, elevation),
        terrain: bounding_boxes(terrain),
    }
}

/// Whether a graph can be built: the token has a size, and every point
/// from which a waypoint is set off is in bounds.
pub open spec fn fits(
    walls: Seq<Wall>,
    terrain: Seq<TerrainView>,
    token_size: i32,
    elevation: i32,
) -> bool {
    &&& token_size >= 0
    &&& segments_in_bounds(blocking_segments(walls, elevation))
    &&& forall|i: int| 0 <= i < terrain.len() ==> (#[trigger] terrain[i]).anchors_in_bounds()
}

/// A length, shortened by a hundredth and rounded toward zero.
fn shrunk(c: i64) -> (r: i64)
    requires
        -0x4000_0000 <= c <= 0x4000_0000,
    ensures
        r == shrink(c as int),
        c >= 0 ==> 0 <= r <= c,
        c <= 0 ==> c <= r <= 0,
{
    if c >= 0 {
        (c * 99) / 100
    } else {
        -(((-c) * 99) / 100)
    }
}

/// Places the waypoint for the corner `p` in the direction `angle`, at the
/// distance `distance_from_walls`, and appends the short wall that goes with
/// it to `walls`.
pub fn calc_pathfinding_node(
    p: Point,
    angle: Direction,
    distance_from_walls: i32,
    walls: &mut Vec<LineSegment>,
) -> (node: Node)
    requires
        angle.wf(),
        in_bounds(p),
        0 <= distance_from_walls <= 0x3fff_ffff,
    ensures
        node.point == placed_point(
            Placement { anchor: p, bearing: angle },
            distance_from_walls as int,
        ),
        node.persistent_edges.is_none(),
        node.dynamic_edges.is_none(),
        node.final_edge.is_none(),
        final(walls)@ == old(walls)@.push(
            stub(Placement { anchor: p, bearing: angle }, distance_from_walls as int),
        ),
{
    let offset = angle.scale_to(distance_from_walls);
    let end = Point {
        x: (p.x as i64 + shrunk(offset.dx)) as i32,
        y: (p.y as i64 + shrunk(offset.dy)) as i32,
    };
    walls.push(LineSegment::new(p, end));
    Node::new(Point { x: (p.x as i64 + offset.dx) as i32, y: (p.y as i64 + offset.dy) as i32 })
}

/// Whether every wall that stops a token at the given elevation has both
/// end points in bounds.
pub fn walls_fit(walls: &Vec<Wall>, elevation: i32) -> (r: bool)
    ensures
        r == segments_in_bounds(blocking_segments(walls@, elevation)),
{
    let mut i: usize = 0;
    assert(blocking_segments(walls@.take(0), elevation) =~= Seq::<LineSegment>::empty());
    while i < walls.len()
        invariant
            i <= walls@.len(),
            segments_in_bounds(blocking_segments(walls@.take(i as int), elevation)),
        decreases walls@.len() - i,
    {
        let wall = &walls[i];
        let ghost before = blocking_segments(walls@.take(i as int), elevation);
        let ghost after = blocking_segments(walls@.take(i + 1), elevation);
        proof {
            assert(walls@.take(i + 1).drop_last() == walls@.take(i as int));
        }
        if wall.is_blocking(elevation) {
            if !crate::terrain::is_in_bounds(wall.p1) || !crate::terrain::is_in_bounds(wall.p2) {
                proof {
                    lemma_blocking_prefix(walls@, elevation, i + 1);
                    let all = blocking_segments(walls@, elevation);
                    assert(all[before.len() as int] == after[before.len() as int]);
                    assert(after[before.len() as int] == walls@[i as int].segment());
                }
                return false;
            }
            assert forall|k: int| 0 <= k < after.len() implies in_bounds((#[trigger] after[k]).p1)
                && in_bounds(after[k].p2) by {
                if k < before.len() {
                    assert(after[k] == before[k]);
                }
            }
        }
        i += 1;
    }
    assert(walls@.take(walls@.len() as int) == walls@);
    true
}

/// The blocking segments of the first `n` walls are the first of the
/// blocking segments of all walls.
pub proof fn lemma_blocking_prefix(walls: Seq<Wall>, elevation: i32, n: int)
    requires
        0 <= n <= walls.len(),
    ensures
        blocking_segments(walls.take(n), elevation).len() <= blocking_segments(
            walls,
            elevation,
        ).len(),
        forall|k: int|
            0 <= k < blocking_segments(walls.take(n), elevation).len() ==> blocking_segments(
                walls,
                elevation,
            )[k] == #[trigger] blocking_segments(walls.take(n), elevation)[k],
    decreases walls.len() - n,
{
    if n == walls.len() {
        assert(walls.take(n) == walls);
    } else {
        lemma_blocking_prefix(walls, elevation, n + 1);
        assert(walls.take(n + 1).drop_last() == walls.take(n));
        let short = blocking_segments(walls.take(n), elevation);
        let long = blocking_segments(walls.take(n + 1), elevation);
        let all = blocking_segments(walls, elevation);
        assert forall|k: int| 0 <= k < short.len() implies all[k] == #[trigger] short[k] by {
            assert(long[k] == short[k]);
            assert(all[k] == long[k]);
        }
    }
}

/// Whether a graph can be built from the walls and the terrain.
pub fn check_fits(walls: &Vec<Wall>, terrain: &Vec<Terrain>, token_size: i32, elevation: i32) -> (r:
    bool)
    ensures
        r == fits(walls@, terrain_views(terrain@), token_size, elevation),
{
    if token_size < 0 {
        return false;
    }
    if !walls_fit(walls, elevation) {
        return false;
    }
    let mut i: usize = 0;
    let ghost views = terrain_views(terrain@);
    while i < terrain.len()
        invariant
            i <= terrain@.len(),
            views == terrain_views(terrain@),
            forall|j: int| 0 <= j < i ==> (#[trigger] views[j]).anchors_in_bounds(),
        decreases terrain@.len() - i,
    {
        if !terrain[i].has_anchors_in_bounds() {
            assert(!views[i as int].anchors_in_bounds());
            return false;
        }
        assert(views[i as int].anchors_in_bounds());
        i += 1;
    }
    true
}

/// The polygon sides of terrain in bounds are in bounds.
proof fn lemma_polygon_sides_in_bounds(terrain: Seq<TerrainView>)
    requires
        forall|i: int| 0 <= i < terrain.len() ==> (#[trigger] terrain[i]).anchors_in_bounds(),
    ensures
        segments_in_bounds(polygon_sides(terrain)),
    decreases terrain.len(),
{
    if terrain.len() > 0 {
        let front = terrain.drop_last();
        assert forall|i: int| 0 <= i < front.len() implies (
        #[trigger] front[i]).anchors_in_bounds() by {
            assert(front[i] == terrain[i]);
        }
        lemma_polygon_sides_in_bounds(front);
        let last = terrain.last();
        assert(last.anchors_in_bounds());
        let all = polygon_sides(terrain);
        let head = polygon_sides(front);
        assert forall|k: int| 0 <= k < all.len() implies in_bounds((#[trigger] all[k]).p1)
            && in_bounds(all[k].p2) by {
            if k < head.len() {
                assert(all[k] == head[k]);
            } else {
                assert(all[k] == last.shape.sides()[k - head.len()]);
            }
        }
    }
}

impl<F: Fn(Point, Point) -> u64> Pathfinder<F> {
    /// Builds the graph for one snapshot of the scene.
    ///
    /// A wall counts if it restricts movement and its vertical extent
    /// contains the elevation of the token. Of these, the plain walls always
    /// block; the doors block unless they stand open. Waypoints are placed at
    /// the corners of the blocking walls and of the polygons of difficult
    /// terrain, and around its circles, half the size of the token away; each
    /// waypoint comes with a short wall between it and its corner. No edge
    /// is computed yet.
    pub fn initialize(
        walls: Vec<Wall>,
        terrain: Vec<Terrain>,
        token_size: i32,
        token_elevation: i32,
        oracle: F,
    ) -> (pf: Self)
        requires
            oracle_ok(oracle),
            fits(walls@, terrain_views(terrain@), token_size, token_elevation),
        ensures
            pf.wf(),
            pf@ == scene_of(walls@, terrain_views(terrain@), token_size, token_elevation),
            pf.oracle == oracle,
            pf.nodes.final_node.is_none(),
            forall|i: int|
                0 <= i < pf.nodes.regular_nodes@.len() ==> {
                    &&& (#[trigger] pf.nodes.regular_nodes@[i]).persistent_edges.is_none()
                    &&& pf.nodes.regular_nodes@[i].dynamic_edges.is_none()
                    &&& pf.nodes.regular_nodes@[i].final_edge.is_none()
                },
    {
        let distance = token_size / 2;
        let ghost views = terrain_views(terrain@);
        let mut storage = WallStorage::new();
        let mut generating: Vec<LineSegment> = Vec::new();
        let mut i: usize = 0;
        proof {
            assert(walls@.take(0) =~= Seq::<Wall>::empty());
            assert(storage.persistent@ =~= persistent_segments(walls@.take(0), token_elevation));
            assert(storage.dynamic@ =~= door_segments(walls@.take(0), token_elevation));
            assert(generating@ =~= blocking_segments(walls@.take(0), token_elevation));
        }
        while i < walls.len()
            invariant
                i <= walls@.len(),
                storage.persistent@ == persistent_segments(walls@.take(i as int), token_elevation),
                storage.dynamic@ == door_segments(walls@.take(i as int), token_elevation),
                generating@ == blocking_segments(walls@.take(i as int), token_elevation),
            decreases walls@.len() - i,
        {
            let wall = &walls[i];
            proof {
                assert(walls@.take(i + 1).drop_last() == walls@.take(i as int));
            }
            if wall.is_relevant(token_elevation) {
                let segment = LineSegment::new(wall.p1, wall.p2);
                if wall.is_door() {
                    let active = !wall.is_open();
                    storage.dynamic.push(DynamicWall { segment, active });
                    if active {
                        generating.push(segment);
                    }
                } else {
                    storage.persistent.push(segment);
                    generating.push(segment);
                }
            }
            i += 1;
        }
        proof {
            assert(walls@.take(walls@.len() as int) == walls@);
        }
        let ghost blocking = generating@;
        let mut boxes: Vec<Rectangle> = Vec::new();
        let mut t: usize = 0;
        proof {
            assert(views.take(0) =~= Seq::<TerrainView>::empty());
            assert(generating@ =~= blocking + polygon_sides(views.take(0)));
        }
        while t < terrain.len()
            invariant
                t <= terrain@.len(),
                views == terrain_views(terrain@),
                generating@ == blocking + polygon_sides(views.take(t as int)),
                boxes@ == bounding_boxes(views).take(t as int),
            decreases terrain@.len() - t,
        {
            proof {
                assert(views.take(t + 1).drop_last() == views.take(t as int));
                assert(views.take(t + 1).last() == terrain@[t as int]@);
            }
            let ghost before = generating@;
            match &terrain[t].shape {
                TerrainShape::Polygon(sides) => {
                    let mut k: usize = 0;
                    while k < sides.len()
                        invariant
                            k <= sides@.len(),
                            generating@ == before + sides@.take(k as int),
                        decreases sides@.len() - k,
                    {
                        generating.push(sides[k]);
                        assert(sides@.take(k + 1) == sides@.take(k as int).push(sides@[k as int]));
                        k += 1;
                    }
                    assert(sides@.take(sides@.len() as int) == sides@);
                },
                TerrainShape::Circle(_) => {
                    assert(generating@ =~= before + Seq::<LineSegment>::empty());
                },
            }
            assert(generating@ =~= blocking + polygon_sides(views.take(t + 1)));
            boxes.push(terrain[t].bounding_box);
            assert(boxes@ =~= bounding_boxes(views).take(t + 1));
            t += 1;
        }
        proof {
            assert(views.take(views.len() as int) == views);
            assert(boxes@ =~= bounding_boxes(views));
            lemma_polygon_sides_in_bounds(views);
            lemma_corners_of(generating@);
            lemma_corners_in_bounds(generating@);
        }
        let corners = collect_corners(&generating);
        let mut places = place_at_corners(&corners);
        let ghost at_corners = places@;
        let mut c: usize = 0;
        proof {
            assert(places@ =~= at_corners + all_circle_placements(views.take(0)));
        }
        while c < terrain.len()
            invariant
                c <= terrain@.len(),
                views == terrain_views(terrain@),
                forall|i: int| 0 <= i < views.len() ==> (#[trigger] views[i]).anchors_in_bounds(),
                places@ == at_corners + all_circle_placements(views.take(c as int)),
                placements_wf(places@),
            decreases terrain@.len() - c,
        {
            proof {
                assert(views.take(c + 1).drop_last() == views.take(c as int));
                assert(views.take(c + 1).last() == terrain@[c as int]@);
                assert(views[c as int].anchors_in_bounds());
            }
            let ghost before = places@;
            match &terrain[c].shape {
                TerrainShape::Circle(circle) => {
                    let ghost round = CircleView {
                        center: circle.center,
                        radius: circle.radius,
                        rim: circle.rim@,
                    };
                    let mut k: usize = 0;
                    while k < circle.rim.len()
                        invariant
                            k <= circle.rim@.len(),
                            round == (CircleView {
                                center: circle.center,
                                radius: circle.radius,
                                rim: circle.rim@,
                            }),
                            points_in_bounds(circle.rim@),
                            places@ == before + circle_placements(round).take(k as int),
                            placements_wf(places@),
                        decreases circle.rim@.len() - k,
                    {
                        let anchor = circle.rim[k];
                        let bearing = Direction::between(circle.center, anchor);
                        places.push(Placement { anchor, bearing });
                        assert(circle_placements(round).take(k + 1) =~= circle_placements(
                            round,
                        ).take(k as int).push(Placement { anchor, bearing }));
                        k += 1;
                    }
                    assert(circle_placements(round).take(circle.rim@.len() as int)
                        =~= circle_placements(round));
                },
                TerrainShape::Polygon(_) => {
                    assert(places@ =~= before + Seq::<Placement>::empty());
                },
            }
            assert(places@ =~= at_corners + all_circle_placements(views.take(c + 1)));
            c += 1;
        }
        proof {
            assert(views.take(views.len() as int) == views);
            assert(places@ == placements(walls@, views, token_elevation));
        }
        let mut nodes = NodeStorage::new();
        let ghost admitted = storage.persistent@;
        let mut p: usize = 0;
        proof {
            assert(nodes.points() =~= placed_points(places@, distance as int).take(0));
            assert(storage.persistent@ =~= admitted + stubs(places@, distance as int).take(0));
        }
        while p < places.len()
            invariant
                p <= places@.len(),
                0 <= distance <= 0x3fff_ffff,
                placements_wf(places@),
                nodes.final_node.is_none(),
                nodes.regular_nodes@.len() == p,
                nodes.points() == placed_points(places@, distance as int).take(p as int),
                storage.persistent@ == admitted + stubs(places@, distance as int).take(p as int),
                storage.dynamic@ == door_segments(walls@, token_elevation),
                forall|i: int|
                    0 <= i < nodes.regular_nodes@.len() ==> {
                        &&& (#[trigger] nodes.regular_nodes@[i]).persistent_edges.is_none()
                        &&& nodes.regular_nodes@[i].dynamic_edges.is_none()
                        &&& nodes.regular_nodes@[i].final_edge.is_none()
                    },
            decreases places@.len() - p,
        {
            let place = places[p];
            let node = calc_pathfinding_node(
                place.anchor,
                place.bearing,
                distance,
                &mut storage.persistent,
            );
            let ghost before = nodes.regular_nodes@;
            nodes.push(node);
            proof {
                assert(stubs(places@, distance as int).take(p + 1) =~= stubs(
                    places@,
                    distance as int,
                ).take(p as int).push(stub(place, distance as int)));
                assert(placed_points(places@, distance as int).take(p + 1) =~= placed_points(
                    places@,
                    distance as int,
                ).take(p as int).push(placed_point(place, distance as int)));
                assert(storage.persistent@ =~= admitted + stubs(places@, distance as int).take(
                    p + 1,
                ));
                assert forall|i: int| 0 <= i < nodes.regular_nodes@.len() implies {
                    &&& (#[trigger] nodes.regular_nodes@[i]).persistent_edges.is_none()
                    &&& nodes.regular_nodes@[i].dynamic_edges.is_none()
                    &&& nodes.regular_nodes@[i].final_edge.is_none()
                } by {
                    if i < before.len() {
                        assert(nodes.regular_nodes@[i] == before[i]);
                    }
                }
            }
            p += 1;
        }
        proof {
            assert(placed_points(places@, distance as int).take(places@.len() as int)
                =~= placed_points(places@, distance as int));
            assert(stubs(places@, distance as int).take(places@.len() as int) =~= stubs(
                places@,
                distance as int,
            ));
        }
        let pf = Pathfinder { nodes, walls: storage, terrain: boxes, oracle };
        proof {
            assert(pf@ =~= scene_of(walls@, views, token_size, token_elevation));
        }
        pf
    }
}

/// Takes a wall out of a list that does not count towards the blocking
/// segments: the blocking segments stay the same.
proof fn lemma_blocking_without(walls: Seq<Wall>, elevation: i32, i: int)
    requires
        0 <= i < walls.len(),
        !walls[i].spec_is_blocking(elevation),
    ensures
        blocking_segments(walls.remove(i), elevation) == blocking_segments(walls, elevation),
    decreases walls.len(),
{
    if i == walls.len() - 1 {
        assert(walls.remove(i) == walls.drop_last());
    } else {
        assert(walls.remove(i).drop_last() == walls.drop_last().remove(i));
        assert(walls.remove(i).last() == walls.last());
        lemma_blocking_without(walls.drop_last(), elevation, i);
    }
}

/// Takes a wall out of a list that does not count towards the persistent
/// segments: the persistent segments stay the same.
proof fn lemma_persistent_without(walls: Seq<Wall>, elevation: i32, i: int)
    requires
        0 <= i < walls.len(),
        !(walls[i].spec_is_relevant(elevation) && !walls[i].spec_is_door()),
    ensures
        persistent_segments(walls.remove(i), elevation) == persistent_segments(walls, elevation),
    decreases walls.len(),
{
    if i == walls.len() - 1 {
        assert(walls.remove(i) == walls.drop_last());
    } else {
        assert(walls.remove(i).drop_last() == walls.drop_last().remove(i));
        assert(walls.remove(i).last() == walls.last());
        lemma_persistent_without(walls.drop_last(), elevation, i);
    }
}

/// Takes a wall out of a list that does not count towards the doors: the
/// doors stay the same.
proof fn lemma_doors_without(walls: Seq<Wall>, elevation: i32, i: int)
    requires
        0 <= i < walls.len(),
        !(walls[i].spec_is_relevant(elevation) && walls[i].spec_is_door()),
    ensures
        door_segments(walls.remove(i), elevation) == door_segments(walls, elevation),
    decreases walls.len(),
{
    if i == walls.len() - 1 {
        assert(walls.remove(i) == walls.drop_last());
    } else {
        assert(walls.remove(i).drop_last() == walls.drop_last().remove(i));
        assert(walls.remove(i).last() == walls.last());
        lemma_doors_without(walls.drop_last(), elevation, i);
    }
}

/// Takes an open door out of a list: the same lines meet an active door as
/// before.
proof fn lemma_active_doors_without(walls: Seq<Wall>, elevation: i32, i: int, line: LineSegment)
    requires
        0 <= i < walls.len(),
        walls[i].spec_is_door(),
        walls[i].spec_is_open(),
    ensures
        hits_dynamic(door_segments(walls.remove(i), elevation), line, true) == hits_dynamic(
            door_segments(walls, elevation),
            line,
            true,
        ),
    decreases walls.len(),
{
    let all = door_segments(walls, elevation);
    let less = door_segments(walls.remove(i), elevation);
    let front = door_segments(walls.drop_last(), elevation);
    if i == walls.len() - 1 {
        assert(walls.remove(i) == walls.drop_last());
        if walls[i].spec_is_relevant(elevation) {
            assert(all == front.push(all.last()));
            if hits_dynamic(all, line, true) {
                let k = choose|k: int|
                    0 <= k < all.len() && (#[trigger] all[k]).active == true && line.crosses(
                        all[k].segment,
                    );
                assert(front[k] == all[k]);
            }
            if hits_dynamic(front, line, true) {
                let k = choose|k: int|
                    0 <= k < front.len() && (#[trigger] front[k]).active == true && line.crosses(
                        front[k].segment,
                    );
                assert(all[k] == front[k]);
            }
        }
    } else {
        assert(walls.remove(i).drop_last() == walls.drop_last().remove(i));
        assert(walls.remove(i).last() == walls.last());
        lemma_active_doors_without(walls.drop_last(), elevation, i, line);
        let less_front = door_segments(walls.drop_last().remove(i), elevation);
        let last = walls.last();
        if last.spec_is_relevant(elevation) && last.spec_is_door() {
            let entry = DynamicWall { segment: last.segment(), active: !last.spec_is_open() };
            assert(all == front.push(entry));
            assert(less == less_front.push(entry));
            let hit = entry.active == true && line.crosses(entry.segment);
            assert(hits_dynamic(all, line, true) == (hits_dynamic(front, line, true) || hit)) by {
                if hits_dynamic(all, line, true) {
                    let k = choose|k: int|
                        0 <= k < all.len() && (#[trigger] all[k]).active == true && line.crosses(
                            all[k].segment,
                        );
                    if k < front.len() {
                        assert(front[k] == all[k]);
                    }
                }
                if hits_dynamic(front, line, true) {
                    let k = choose|k: int|
                        0 <= k < front.len() && (#[trigger] front[k]).active == true
                            && line.crosses(front[k].segment);
                    assert(all[k] == front[k]);
                }
                if hit {
                    assert(all[all.len() - 1] == entry);
                }
            }
            assert(hits_dynamic(less, line, true) == (hits_dynamic(less_front, line, true) || hit))
                by {
                if hits_dynamic(less, line, true) {
                    let k = choose|k: int|
                        0 <= k < less.len() && (#[trigger] less[k]).active == true
                            && line.crosses(less[k].segment);
                    if k < less_front.len() {
                        assert(less_front[k] == less[k]);
                    }
                }
                if hits_dynamic(less_front, line, true) {
                    let k = choose|k: int|
                        0 <= k < less_front.len() && (#[trigger] less_front[k]).active == true
                            && line.crosses(less_front[k].segment);
                    assert(less[k] == less_front[k]);
                }
                if hit {
                    assert(less[less.len() - 1] == entry);
                }
            }
        }
    }
}

/// A wall that does not restrict movement might as well not be there: the
/// scene that is built is the same with the wall and without it.
pub proof fn lemma_wall_without_sense_is_absent(
    walls: Seq<Wall>,
    terrain: Seq<TerrainView>,
    token_size: i32,
    elevation: i32,
    i: int,
)
    requires
        0 <= i < walls.len(),
        walls[i].move_type == WallSenseType::NONE,
    ensures
        scene_of(walls.remove(i), terrain, token_size, elevation) == scene_of(
            walls,
            terrain,
            token_size,
            elevation,
        ),
{
    lemma_blocking_without(walls, elevation, i);
    lemma_persistent_without(walls, elevation, i);
    lemma_doors_without(walls, elevation, i);
}

/// A wall whose vertical extent does not contain the elevation of the
/// token might as well not be there: the scene that is built is the same
/// with the wall and without it.
pub proof fn lemma_wall_at_other_height_is_absent(
    walls: Seq<Wall>,
    terrain: Seq<TerrainView>,
    token_size: i32,
    elevation: i32,
    i: int,
)
    requires
        0 <= i < walls.len(),
        !walls[i].height.spec_contains(elevation),
    ensures
        scene_of(walls.remove(i), terrain, token_size, elevation) == scene_of(
            walls,
            terrain,
            token_size,
            elevation,
        ),
{
    lemma_blocking_without(walls, elevation, i);
    lemma_persistent_without(walls, elevation, i);
    lemma_doors_without(walls, elevation, i);
}

/// An open door admits the edges that would be there without it: the scene
/// has the same waypoints and the same walls that always block, with the
/// door and without it; a token can move straight between the same pairs of
/// points; and the same paths are routes.
pub proof fn lemma_open_door_is_absent(
    walls: Seq<Wall>,
    terrain: Seq<TerrainView>,
    token_size: i32,
    elevation: i32,
    i: int,
)
    requires
        0 <= i < walls.len(),
        walls[i].spec_is_door(),
        walls[i].spec_is_open(),
    ensures
        ({
            let with = scene_of(walls, terrain, token_size, elevation);
            let without = scene_of(walls.remove(i), terrain, token_size, elevation);
            &&& without.points == with.points
            &&& without.persistent == with.persistent
            &&& without.terrain == with.terrain
            &&& forall|a: Point, b: Point| without.free_edge(a, b) == with.free_edge(a, b)
            &&& forall|from: Point, to: Point, path: Seq<Point>|
                without.is_route(from, to, path) == with.is_route(from, to, path)
        }),
{
    let with = scene_of(walls, terrain, token_size, elevation);
    let without = scene_of(walls.remove(i), terrain, token_size, elevation);
    lemma_blocking_without(walls, elevation, i);
    lemma_persistent_without(walls, elevation, i);
    assert forall|a: Point, b: Point| without.free_edge(a, b) == with.free_edge(a, b) by {
        lemma_active_doors_without(walls, elevation, i, LineSegment { p1: a, p2: b });
    }
}

/// Building twice gives the same answers: two scenes that are built from
/// the same walls and terrain for the same token are one scene, and a query
/// returns the same path over both of them, point for point.
pub proof fn lemma_built_alike_answer_alike<F: Fn(Point, Point) -> u64>(
    walls: Seq<Wall>,
    terrain: Seq<TerrainView>,
    token_size: i32,
    elevation: i32,
    oracle: F,
    first: Scene,
    second: Scene,
    from: Point,
    to: Point,
)
    requires
        first == scene_of(walls, terrain, token_size, elevation),
        second == scene_of(walls, terrain, token_size, elevation),
    ensures
        first == second,
        crate::model::found_path(first, oracle, from, to) == crate::model::found_path(
            second,
            oracle,
            from,
            to,
        ),
{
}

} // verus!
