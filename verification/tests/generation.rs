use gridless_pathfinding::corners::{
    collect_corners, place_at_corners, point_key, Corner, Placement,
};
use gridless_pathfinding::generation::{calc_pathfinding_node, check_fits, walls_fit};
use gridless_pathfinding::geometry::{Circle, Direction, LineSegment, Point, Rectangle};
use gridless_pathfinding::pathfinder::Pathfinder;
use gridless_pathfinding::terrain::{
    are_points_in_bounds, are_segments_in_bounds, is_in_bounds, Terrain, TerrainShape,
};
use gridless_pathfinding::walls::{
    DoorState, DoorType, DynamicWall, Wall, WallHeight, WallSenseType,
};

fn euclid(a: Point, b: Point) -> u64 {
    a.distance_to(b)
}

fn seg(x1: i32, y1: i32, x2: i32, y2: i32) -> LineSegment {
    LineSegment::new(Point::new(x1, y1), Point::new(x2, y2))
}

fn plain_wall(x1: i32, y1: i32, x2: i32, y2: i32) -> Wall {
    Wall::new(
        Point::new(x1, y1),
        Point::new(x2, y2),
        DoorType::NONE,
        DoorState::CLOSED,
        WallSenseType::NORMAL,
        WallHeight::default(),
    )
}

fn door(x1: i32, y1: i32, x2: i32, y2: i32, state: DoorState) -> Wall {
    Wall::new(
        Point::new(x1, y1),
        Point::new(x2, y2),
        DoorType::DOOR,
        state,
        WallSenseType::NORMAL,
        WallHeight::default(),
    )
}

#[test]
fn point_keys_tell_points_apart() {
    assert_eq!(point_key(Point::new(i32::MIN, i32::MIN)), 0);
    assert_eq!(point_key(Point::new(i32::MIN, i32::MIN + 1)), 1);
    assert_eq!(point_key(Point::new(i32::MAX, i32::MAX)), u64::MAX);
    assert_eq!(point_key(Point::new(0, 0)), 0x8000_0000_8000_0000);
    assert_ne!(point_key(Point::new(1, 2)), point_key(Point::new(2, 1)));
}

#[test]
fn shared_end_points_make_one_corner() {
    let corners = collect_corners(&vec![seg(50, -100, 50, 0), seg(50, 0, 150, 0)]);
    assert_eq!(corners.len(), 3);
    assert_eq!(corners[0].point, Point::new(50, -100));
    assert_eq!(corners[0].directions, vec![Direction::new(0, 100)]);
    assert_eq!(corners[1].point, Point::new(50, 0));
    assert_eq!(corners[1].directions, vec![Direction::new(0, -100), Direction::new(100, 0)]);
    assert_eq!(corners[2].point, Point::new(150, 0));
    assert_eq!(corners[2].directions, vec![Direction::new(-100, 0)]);
}

#[test]
fn walls_without_length_make_no_corner() {
    let corners = collect_corners(&vec![seg(5, 5, 5, 5)]);
    assert!(corners.is_empty());
    let corners = collect_corners(&vec![seg(5, 5, 5, 5), seg(0, 0, 5, 5)]);
    assert_eq!(corners.len(), 2);
    assert_eq!(corners[1].point, Point::new(5, 5));
    assert_eq!(corners[1].directions, vec![Direction::new(-5, -5)]);
}

#[test]
fn free_wall_end_gets_three_waypoints() {
    let corner = Corner { point: Point::new(0, 0), directions: vec![Direction::new(100, 0)] };
    let places = place_at_corners(&vec![corner]);
    let anchor = Point::new(0, 0);
    assert_eq!(
        places,
        vec![
            Placement { anchor, bearing: Direction { dx: -2_097_152, dy: 0 } },
            Placement { anchor, bearing: Direction::new(0, 100) },
            Placement { anchor, bearing: Direction::new(0, -100) },
        ]
    );
}

#[test]
fn right_angle_gets_two_flanking_waypoints() {
    let corner = Corner {
        point: Point::new(50, 0),
        directions: vec![Direction::new(0, -100), Direction::new(100, 0)],
    };
    let places = place_at_corners(&vec![corner]);
    let anchor = Point::new(50, 0);
    assert_eq!(
        places,
        vec![
            Placement { anchor, bearing: Direction::new(0, 100) },
            Placement { anchor, bearing: Direction::new(-100, 0) },
        ]
    );
}

#[test]
fn straight_wall_through_a_corner_gets_no_waypoint() {
    let corner = Corner {
        point: Point::new(0, 0),
        directions: vec![Direction::new(10, 0), Direction::new(-10, 0)],
    };
    assert!(place_at_corners(&vec![corner]).is_empty());
}

#[test]
fn crossing_walls_get_no_waypoint() {
    let corner = Corner {
        point: Point::new(0, 0),
        directions: vec![
            Direction::new(10, 0),
            Direction::new(0, 10),
            Direction::new(-10, 0),
            Direction::new(0, -10),
        ],
    };
    assert!(place_at_corners(&vec![corner]).is_empty());
}

#[test]
fn waypoint_and_short_wall() {
    let mut walls = Vec::new();
    let node = calc_pathfinding_node(Point::new(50, 0), Direction::new(0, 100), 10, &mut walls);
    assert_eq!(node.point, Point::new(50, 10));
    assert!(node.persistent_edges.is_none());
    assert!(node.dynamic_edges.is_none());
    assert!(node.final_edge.is_none());
    // Ninety-nine hundredths of ten units, rounded toward zero.
    assert_eq!(walls, vec![seg(50, 0, 50, 9)]);
    let node = calc_pathfinding_node(Point::new(0, 0), Direction::new(-3, -4), 1000, &mut walls);
    assert_eq!(node.point, Point::new(-600, -800));
    assert_eq!(walls[1], seg(0, 0, -594, -792));
}

#[test]
fn single_wall_is_surrounded_by_six_waypoints() {
    let pf = Pathfinder::initialize(vec![plain_wall(0, 0, 100, 0)], Vec::new(), 20, 0, euclid);
    assert_eq!(
        pf.nodes.iter(),
        vec![
            Point::new(-10, 0),
            Point::new(0, 10),
            Point::new(0, -10),
            Point::new(110, 0),
            Point::new(100, -10),
            Point::new(100, 10),
        ]
    );
    assert_eq!(
        pf.walls.persistent,
        vec![
            seg(0, 0, 100, 0),
            seg(0, 0, -9, 0),
            seg(0, 0, 0, 9),
            seg(0, 0, 0, -9),
            seg(100, 0, 109, 0),
            seg(100, 0, 100, -9),
            seg(100, 0, 100, 9),
        ]
    );
    assert!(pf.walls.dynamic.is_empty());
    assert!(pf.terrain.is_empty());
    assert!(pf.nodes.final_node.is_none());
}

#[test]
fn distance_from_walls_is_half_the_token_size() {
    let pf = Pathfinder::initialize(vec![plain_wall(0, 0, 100, 0)], Vec::new(), 7, 0, euclid);
    assert_eq!(pf.nodes.iter()[0], Point::new(-3, 0));
    let pf = Pathfinder::initialize(vec![plain_wall(0, 0, 100, 0)], Vec::new(), 0, 0, euclid);
    assert_eq!(pf.nodes.iter()[0], Point::new(0, 0));
}

#[test]
fn doors_are_kept_apart_from_walls() {
    let walls = vec![
        plain_wall(0, 0, 100, 0),
        door(200, 0, 300, 0, DoorState::CLOSED),
        door(400, 0, 500, 0, DoorState::OPEN),
        door(600, 0, 700, 0, DoorState::LOCKED),
    ];
    let pf = Pathfinder::initialize(walls, Vec::new(), 20, 0, euclid);
    assert_eq!(pf.walls.persistent[0], seg(0, 0, 100, 0));
    assert_eq!(
        pf.walls.dynamic,
        vec![
            DynamicWall { segment: seg(200, 0, 300, 0), active: true },
            DynamicWall { segment: seg(400, 0, 500, 0), active: false },
            DynamicWall { segment: seg(600, 0, 700, 0), active: true },
        ]
    );
    // Six waypoints each around the wall and the two doors that block; none
    // around the open door.
    let points = pf.nodes.iter();
    assert_eq!(points.len(), 18);
    assert!(points.contains(&Point::new(190, 0)));
    assert!(points.contains(&Point::new(710, 0)));
    assert!(!points.iter().any(|p| p.x > 310 && p.x < 590));
    // One short wall for each waypoint.
    assert_eq!(pf.walls.persistent.len(), 1 + 18);
}

#[test]
fn polygon_terrain_gets_waypoints_at_its_corners() {
    let square = vec![seg(10, 0, 0, 0), seg(10, 10, 10, 0), seg(0, 10, 10, 10), seg(0, 0, 0, 10)];
    let terrain = vec![Terrain {
        shape: TerrainShape::Polygon(square),
        bounding_box: Rectangle::new(0, 0, 10, 10),
    }];
    let pf = Pathfinder::initialize(Vec::new(), terrain, 4, 0, euclid);
    // The sides of the polygon are no walls.
    assert_eq!(pf.walls.persistent.len(), 8);
    assert!(!pf.walls.persistent.contains(&seg(10, 0, 0, 0)));
    assert_eq!(pf.terrain, vec![Rectangle::new(0, 0, 10, 10)]);
    // Two flanking waypoints at each of the four corners, outside the square.
    let points = pf.nodes.iter();
    assert_eq!(points.len(), 8);
    for corner in [(0, 0), (10, 0), (10, 10), (0, 10)] {
        let near: Vec<&Point> = points
            .iter()
            .filter(|p| (p.x - corner.0).abs() + (p.y - corner.1).abs() == 2)
            .collect();
        assert_eq!(near.len(), 2);
        for p in near {
            assert!(p.x < 0 || p.x > 10 || p.y < 0 || p.y > 10);
        }
    }
}

#[test]
fn circle_terrain_gets_waypoints_beside_its_rim() {
    let circle = Circle {
        center: Point::new(100, 100),
        radius: 50,
        rim: vec![Point::new(150, 100), Point::new(100, 150), Point::new(70, 60)],
    };
    let terrain = vec![Terrain {
        shape: TerrainShape::Circle(circle),
        bounding_box: Rectangle::new(50, 50, 150, 150),
    }];
    let pf = Pathfinder::initialize(Vec::new(), terrain, 20, 0, euclid);
    assert_eq!(
        pf.nodes.iter(),
        vec![Point::new(160, 100), Point::new(100, 160), Point::new(64, 52)]
    );
    assert_eq!(
        pf.walls.persistent,
        vec![seg(150, 100, 159, 100), seg(100, 150, 100, 159), seg(70, 60, 65, 53)]
    );
}

#[test]
fn bounds_of_the_lattice() {
    assert!(is_in_bounds(Point::new(0x4000_0000, -0x4000_0000)));
    assert!(!is_in_bounds(Point::new(0x4000_0001, 0)));
    assert!(!is_in_bounds(Point::new(0, -0x4000_0001)));
    assert!(are_points_in_bounds(&vec![Point::new(0, 0), Point::new(5, 5)]));
    assert!(!are_points_in_bounds(&vec![Point::new(0, 0), Point::new(i32::MAX, 5)]));
    assert!(are_segments_in_bounds(&vec![seg(0, 0, 1, 1)]));
    assert!(!are_segments_in_bounds(&vec![seg(0, 0, 1, 1), seg(0, 0, 1, i32::MIN)]));
}

#[test]
fn only_walls_that_block_have_to_fit() {
    let far = plain_wall(0, 0, i32::MAX, 0);
    assert!(!walls_fit(&vec![far], 0));
    let mut far_but_low = far;
    far_but_low.height = WallHeight { top: 10, bottom: 0 };
    assert!(walls_fit(&vec![far_but_low], 20));
    let mut far_but_open = far;
    far_but_open.door_type = DoorType::DOOR;
    far_but_open.door_state = DoorState::OPEN;
    assert!(walls_fit(&vec![far_but_open], 0));
    assert!(check_fits(&vec![plain_wall(0, 0, 10, 0)], &Vec::new(), 10, 0));
    assert!(!check_fits(&vec![plain_wall(0, 0, 10, 0)], &Vec::new(), -1, 0));
    assert!(!check_fits(&vec![far], &Vec::new(), 10, 0));
    let circle = Circle { center: Point::new(0, 0), radius: 5, rim: vec![Point::new(i32::MAX, 0)] };
    let terrain = vec![Terrain {
        shape: TerrainShape::Circle(circle),
        bounding_box: Rectangle::new(0, 0, 1, 1),
    }];
    assert!(!check_fits(&Vec::new(), &terrain, 10, 0));
}

#[test]
fn waypoints_of_a_graph_lie_outside_the_wedge_of_their_corner() {
    let walls = vec![plain_wall(0, 0, 100, 0), plain_wall(0, 0, 60, 100)];
    let pf = Pathfinder::initialize(walls, Vec::new(), 20, 0, euclid);
    let nodes = pf.nodes.iter();
    assert_eq!(nodes.len(), 9);
    let at_the_corner: Vec<Point> =
        nodes.iter().filter(|n| n.x.abs() <= 10 && n.y.abs() <= 10).copied().collect();
    assert_eq!(at_the_corner.len(), 3);
    for n in at_the_corner {
        let past_the_first = 100 * i64::from(n.y) >= 0;
        let before_the_second = i64::from(n.x) * 100 - i64::from(n.y) * 60 >= 0;
        assert!(!(past_the_first && before_the_second), "{:?} lies between the walls", n);
    }
}
