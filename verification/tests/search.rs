use gridless_pathfinding::costs::straight_distance;
use gridless_pathfinding::geometry::{LineSegment, Point, Rectangle};
use gridless_pathfinding::pathfinder::{Edge, Node, NodeStorage, Pathfinder, HOP_PENALTY};
use gridless_pathfinding::search::{cheapest, reversed};
use gridless_pathfinding::pathfinder::{DiscoveredNode, NodeRef};
use gridless_pathfinding::terrain::{Terrain, TerrainShape};
use gridless_pathfinding::walls::{DoorState, DoorType, Wall, WallHeight, WallSenseType};

fn straight(a: Point, b: Point) -> u64 {
    a.distance_to(b)
}

fn tenfold(a: Point, b: Point) -> u64 {
    10 * a.distance_to(b)
}

fn seg(x1: i32, y1: i32, x2: i32, y2: i32) -> LineSegment {
    LineSegment::new(Point::new(x1, y1), Point::new(x2, y2))
}

fn wall_of(x1: i32, y1: i32, x2: i32, y2: i32, sense: WallSenseType) -> Wall {
    Wall::new(
        Point::new(x1, y1),
        Point::new(x2, y2),
        DoorType::NONE,
        DoorState::CLOSED,
        sense,
        WallHeight::default(),
    )
}

fn door_of(x1: i32, y1: i32, x2: i32, y2: i32, state: DoorState) -> Wall {
    Wall::new(
        Point::new(x1, y1),
        Point::new(x2, y2),
        DoorType::DOOR,
        state,
        WallSenseType::NORMAL,
        WallHeight::default(),
    )
}

fn room() -> Vec<Wall> {
    vec![
        wall_of(0, 0, 200, 0, WallSenseType::NORMAL),
        wall_of(200, 0, 200, 200, WallSenseType::NORMAL),
        wall_of(200, 200, 0, 200, WallSenseType::NORMAL),
        wall_of(0, 200, 0, 120, WallSenseType::NORMAL),
        door_of(0, 120, 0, 80, DoorState::CLOSED),
        wall_of(0, 80, 0, 0, WallSenseType::NORMAL),
        wall_of(100, 0, 100, 150, WallSenseType::LIMITED),
    ]
}

type Graph = Pathfinder<fn(Point, Point) -> u64>;

fn graph(walls: Vec<Wall>) -> Graph {
    Pathfinder::initialize(walls, Vec::new(), 10, 0, straight as fn(Point, Point) -> u64)
}

fn clear_of_walls(pf: &Graph, path: &[Point]) -> bool {
    let blocking = pf.walls.blocking();
    path.windows(2).all(|pair| {
        let hop = LineSegment::new(pair[0], pair[1]);
        blocking.iter().all(|wall| hop.intersection(wall).is_none())
    })
}

#[test]
fn hop_penalty_is_one_cost_unit() {
    assert_eq!(HOP_PENALTY, 1);
}

#[test]
fn straight_distance_is_the_distance() {
    assert_eq!(straight_distance(Point::new(0, 0), Point::new(3, 4)), 500_000);
    assert_eq!(straight_distance(Point::new(-6, 8), Point::new(0, 0)), 1_000_000);
    let mut pf = Pathfinder::initialize(room(), Vec::new(), 10, 0, straight_distance);
    assert!(pf.find_path(Point::new(50, 50), Point::new(150, 50)).is_some());
}

#[test]
fn path_to_the_own_position_has_one_point() {
    let mut pf = graph(room());
    for p in [Point::new(50, 50), Point::new(-30, 7), Point::new(100, 10), Point::new(0, 0)] {
        assert_eq!(pf.find_path(p, p), Some(vec![p]));
    }
}

#[test]
fn paths_stay_clear_of_walls() {
    let mut pf = graph(room());
    let queries = [
        (Point::new(50, 50), Point::new(150, 50)),
        (Point::new(150, 50), Point::new(50, 50)),
        (Point::new(50, 20), Point::new(150, 180)),
        (Point::new(20, 180), Point::new(180, 20)),
    ];
    for (from, to) in queries {
        let path = pf.find_path(from, to).unwrap();
        assert_eq!(path[0], to);
        assert_eq!(path[path.len() - 1], from);
        assert!(path.len() >= 3);
        assert!(clear_of_walls(&pf, &path));
        let waypoints = pf.nodes.iter();
        for p in &path[1..path.len() - 1] {
            assert!(waypoints.contains(p));
        }
    }
}

#[test]
fn closed_room_cannot_be_left() {
    let mut pf = graph(room());
    assert_eq!(pf.find_path(Point::new(50, 50), Point::new(-50, 100)), None);
    assert_eq!(pf.find_path(Point::new(-50, 100), Point::new(50, 50)), None);
    // Outside the room the way is free.
    assert_eq!(
        pf.find_path(Point::new(-50, 100), Point::new(-50, -100)),
        Some(vec![Point::new(-50, -100), Point::new(-50, 100)])
    );
}

#[test]
fn open_door_lets_the_token_out() {
    let mut walls = room();
    walls[4] = door_of(0, 120, 0, 80, DoorState::OPEN);
    let mut pf = graph(walls);
    assert_eq!(
        pf.find_path(Point::new(50, 100), Point::new(-50, 100)),
        Some(vec![Point::new(-50, 100), Point::new(50, 100)])
    );
}

#[test]
fn graph_answers_again_after_a_query() {
    let mut pf = graph(room());
    let first = pf.find_path(Point::new(50, 50), Point::new(150, 50));
    let other = pf.find_path(Point::new(20, 180), Point::new(180, 20));
    let again = pf.find_path(Point::new(50, 50), Point::new(150, 50));
    assert!(first.is_some());
    assert!(other.is_some());
    assert_eq!(first, again);
    assert!(pf.nodes.final_node.is_none());
}

#[test]
fn graphs_built_alike_answer_alike() {
    let mut one = graph(room());
    let mut two = graph(room());
    assert_eq!(one.nodes.iter(), two.nodes.iter());
    assert_eq!(one.walls.persistent, two.walls.persistent);
    assert_eq!(one.walls.dynamic, two.walls.dynamic);
    let queries = [
        (Point::new(50, 50), Point::new(150, 50)),
        (Point::new(50, 20), Point::new(150, 180)),
        (Point::new(50, 50), Point::new(-50, 100)),
        (Point::new(-50, 100), Point::new(300, 100)),
    ];
    for (from, to) in queries {
        assert_eq!(one.find_path(from, to), two.find_path(from, to));
    }
}

#[test]
fn wall_without_sense_changes_nothing() {
    let with = {
        let mut walls = room();
        walls.insert(3, wall_of(50, 0, 150, 200, WallSenseType::NONE));
        walls
    };
    let mut one = graph(with);
    let mut two = graph(room());
    assert_eq!(one.nodes.iter(), two.nodes.iter());
    assert_eq!(one.walls.persistent, two.walls.persistent);
    assert_eq!(one.walls.dynamic, two.walls.dynamic);
    let from = Point::new(50, 50);
    let to = Point::new(150, 50);
    assert_eq!(one.find_path(from, to), two.find_path(from, to));
}

#[test]
fn open_door_changes_no_path() {
    let with = {
        let mut walls = room();
        walls.push(door_of(50, 0, 150, 200, DoorState::OPEN));
        walls
    };
    let mut one = graph(with);
    let mut two = graph(room());
    assert_eq!(one.nodes.iter(), two.nodes.iter());
    assert_eq!(one.walls.persistent, two.walls.persistent);
    assert_eq!(one.walls.dynamic.len(), two.walls.dynamic.len() + 1);
    for (from, to) in [
        (Point::new(50, 50), Point::new(150, 50)),
        (Point::new(20, 180), Point::new(180, 20)),
        (Point::new(50, 50), Point::new(-50, 100)),
    ] {
        assert_eq!(one.find_path(from, to), two.find_path(from, to));
    }
}

#[test]
fn persistent_edges_meet_no_wall_and_no_door() {
    let mut walls = room();
    walls[4] = door_of(0, 120, 0, 80, DoorState::OPEN);
    let mut pf = graph(walls);
    pf.find_path(Point::new(50, 50), Point::new(-50, 100)).unwrap();
    let door = seg(0, 120, 0, 80);
    let mut computed = 0;
    let mut through_the_door = 0;
    for (id, node) in pf.nodes.regular_nodes.iter().enumerate() {
        if let Some(edges) = &node.persistent_edges {
            computed += 1;
            for edge in edges {
                assert_ne!(edge.target, id);
                let target = pf.nodes.regular_nodes[edge.target].point;
                let line = LineSegment::new(node.point, target);
                for wall in &pf.walls.persistent {
                    assert!(line.intersection(wall).is_none());
                }
                assert!(line.intersection(&door).is_none());
                assert_eq!(edge.cost, node.point.distance_to(target));
            }
        }
        if let Some(edges) = &node.dynamic_edges {
            for edge in edges {
                let target = pf.nodes.regular_nodes[edge.target].point;
                let line = LineSegment::new(node.point, target);
                for wall in &pf.walls.persistent {
                    assert!(line.intersection(wall).is_none());
                }
                assert!(line.intersection(&door).is_some());
                through_the_door += 1;
            }
        }
    }
    assert!(computed > 0);
    assert!(through_the_door > 0);
}

#[test]
fn edges_are_found_lazily_and_kept() {
    let mut pf = graph(room());
    assert!(pf.nodes.regular_nodes.iter().all(|node| node.persistent_edges.is_none()));
    pf.find_path(Point::new(50, 50), Point::new(60, 50)).unwrap();
    // The straight way needs no waypoint.
    assert!(pf.nodes.regular_nodes.iter().all(|node| node.persistent_edges.is_none()));
    pf.find_path(Point::new(50, 50), Point::new(150, 50)).unwrap();
    let known: Vec<Option<Vec<Edge>>> =
        pf.nodes.regular_nodes.iter().map(|node| node.persistent_edges.clone()).collect();
    assert!(known.iter().any(|edges| edges.is_some()));
    pf.find_path(Point::new(50, 50), Point::new(150, 50)).unwrap();
    for (node, before) in pf.nodes.regular_nodes.iter().zip(&known) {
        if before.is_some() {
            assert_eq!(&node.persistent_edges, before);
        }
    }
}

#[test]
fn edges_to_the_origin_are_forgotten() {
    let mut storage = NodeStorage::new();
    let mut node = Node::new(Point::new(1, 2));
    node.final_edge = Some(Some(Edge { target: 1, cost: 5 }));
    node.persistent_edges = Some(vec![Edge { target: 0, cost: 7 }]);
    storage.push(node);
    storage.push(Node::new(Point::new(3, 4)));
    storage.cleanup_final_edges();
    assert!(storage.regular_nodes[0].final_edge.is_none());
    assert!(storage.regular_nodes[1].final_edge.is_none());
    assert_eq!(storage.regular_nodes[0].persistent_edges, Some(vec![Edge { target: 0, cost: 7 }]));
    assert_eq!(storage.iter(), vec![Point::new(1, 2), Point::new(3, 4)]);
    storage.final_node = Some(Node::new(Point::new(9, 9)));
    assert_eq!(storage.iter(), vec![Point::new(1, 2), Point::new(3, 4), Point::new(9, 9)]);
}

#[test]
fn edge_discovery_for_one_node() {
    let mut pf = Pathfinder::initialize(
        vec![wall_of(0, 0, 100, 0, WallSenseType::NORMAL)],
        Vec::new(),
        20,
        0,
        straight,
    );
    // Waypoints: (-10,0), (0,10), (0,-10), (110,0), (100,-10), (100,10).
    let (persistent, dynamic) = pf.discover_edges(Point::new(0, 10), Some(1));
    let targets: Vec<usize> = persistent.iter().map(|edge| edge.target).collect();
    // The wall and the short walls hide the waypoints on the other side and
    // the one beyond the far end.
    assert_eq!(targets, vec![0, 5]);
    assert_eq!(persistent[1].cost, 10_000_000);
    assert!(dynamic.is_empty());
    let to_origin = pf.discover_final_edge(Point::new(0, 10), Point::new(0, 50)).unwrap();
    assert_eq!(to_origin, Edge { target: 6, cost: 4_000_000 });
    assert!(pf.discover_final_edge(Point::new(0, 10), Point::new(50, -50)).is_none());
    assert_eq!(pf.measure_distance(Point::new(0, 0), Point::new(3, 4)), 500_000);
    pf.initialize_edges(1, Point::new(0, 50));
    assert_eq!(pf.nodes.regular_nodes[1].persistent_edges, Some(persistent));
    assert_eq!(pf.nodes.regular_nodes[1].dynamic_edges, Some(Vec::new()));
    assert_eq!(
        pf.nodes.regular_nodes[1].final_edge,
        Some(Some(Edge { target: 6, cost: 4_000_000 }))
    );
}

#[test]
fn difficult_terrain_is_measured_by_the_terrain_function() {
    let walls = vec![wall_of(50, -40, 50, -30, WallSenseType::NORMAL)];
    let terrain = || {
        vec![Terrain {
            shape: TerrainShape::Polygon(Vec::new()),
            bounding_box: Rectangle::new(40, -10, 60, 10),
        }]
    };
    let from = Point::new(0, 0);
    let to = Point::new(100, 0);
    // Where the terrain costs as much as open ground, the straight way is
    // the cheapest.
    let mut easy = Pathfinder::initialize(walls.clone(), terrain(), 20, 0, straight);
    assert_eq!(easy.find_path(from, to), Some(vec![to, from]));
    assert_eq!(easy.measure_distance(from, to), 10_000_000);
    // Where it costs ten times as much, the way around it is cheaper.
    let mut hard = Pathfinder::initialize(walls, terrain(), 20, 0, tenfold);
    assert_eq!(hard.measure_distance(from, to), 100_000_000);
    assert_eq!(hard.measure_distance(from, Point::new(50, -20)), 5_385_164);
    assert_eq!(hard.find_path(from, to), Some(vec![to, Point::new(50, -20), from]));
}

#[test]
fn fewer_waypoints_win_among_paths_of_equal_length() {
    // The waypoint beyond the end of the wall lies at (0,0), on the straight
    // way from (-50,0) to (50,0). The way over the waypoint is as long as the
    // straight way, but it has one hop more.
    let walls = vec![wall_of(0, 10, 0, 110, WallSenseType::NORMAL)];
    let mut pf = Pathfinder::initialize(walls, Vec::new(), 20, 0, straight);
    assert!(pf.nodes.iter().contains(&Point::new(0, 0)));
    let from = Point::new(-50, 0);
    let to = Point::new(50, 0);
    assert_eq!(pf.find_path(from, to), Some(vec![to, from]));
    assert_eq!(pf.find_path(to, from), Some(vec![from, to]));
}

#[test]
fn cheapest_entry_is_the_last_among_equals() {
    let entry = |estimated: u64| DiscoveredNode {
        node: NodeRef::Final,
        cost: 0,
        estimated,
        previous: None,
    };
    assert_eq!(cheapest(&vec![entry(5)]), 0);
    assert_eq!(cheapest(&vec![entry(5), entry(3), entry(4)]), 1);
    assert_eq!(cheapest(&vec![entry(3), entry(5), entry(3), entry(4)]), 2);
    assert_eq!(cheapest(&vec![entry(3), entry(3), entry(3)]), 2);
}

#[test]
fn reversed_points() {
    let points = vec![Point::new(1, 1), Point::new(2, 2), Point::new(3, 3)];
    assert_eq!(reversed(&points), vec![Point::new(3, 3), Point::new(2, 2), Point::new(1, 1)]);
    assert_eq!(reversed(&Vec::new()), Vec::new());
}
