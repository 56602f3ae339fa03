use gridless_pathfinding::geometry::{LineSegment, Point};
use gridless_pathfinding::pathfinder::Pathfinder;
use gridless_pathfinding::terrain::Terrain;
use gridless_pathfinding::walls::{DoorState, DoorType, Wall, WallHeight, WallSenseType};

fn euclid(a: Point, b: Point) -> u64 {
    a.distance_to(b)
}

fn plain_wall(x1: i32, y1: i32, x2: i32, y2: i32) -> Wall {
    Wall::new(
        Point::new(x1, y1),
        Point::new(x2, y2),
        DoorType::NONE,
        DoorState::CLOSED,
        WallSenseType::NORMAL,
        WallHeight::default(),
    )
}

fn door(x1: i32, y1: i32, x2: i32, y2: i32, state: DoorState) -> Wall {
    Wall::new(
        Point::new(x1, y1),
        Point::new(x2, y2),
        DoorType::DOOR,
        state,
        WallSenseType::NORMAL,
        WallHeight::default(),
    )
}

fn avoids(path: &[Point], wall: &LineSegment) -> bool {
    path.windows(2)
        .all(|pair| LineSegment::new(pair[0], pair[1]).intersection(wall).is_none())
}

#[test]
fn empty_world_gives_the_straight_path() {
    let terrain: Vec<Terrain> = Vec::new();
    let mut pf = Pathfinder::initialize(Vec::new(), terrain, 10, 0, euclid);
    let path = pf.find_path(Point::new(0, 0), Point::new(100, 0));
    assert_eq!(path, Some(vec![Point::new(100, 0), Point::new(0, 0)]));
}

#[test]
fn open_door_is_passed_straight() {
    let walls = vec![door(50, -100, 50, 100, DoorState::OPEN)];
    let mut pf = Pathfinder::initialize(walls, Vec::new(), 10, 0, euclid);
    let path = pf.find_path(Point::new(0, 0), Point::new(100, 0));
    assert_eq!(path, Some(vec![Point::new(100, 0), Point::new(0, 0)]));
}

#[test]
fn closed_door_forces_a_detour() {
    let walls = vec![door(50, -100, 50, 100, DoorState::CLOSED)];
    let mut pf = Pathfinder::initialize(walls, Vec::new(), 10, 0, euclid);
    let path = pf.find_path(Point::new(0, 0), Point::new(100, 0)).unwrap();
    assert!(path.len() >= 3);
    assert_eq!(path[0], Point::new(100, 0));
    assert_eq!(path[path.len() - 1], Point::new(0, 0));
    let wall = LineSegment::new(Point::new(50, -100), Point::new(50, 100));
    assert!(avoids(&path, &wall));
}

#[test]
fn corner_routing_keeps_the_token_radius() {
    let walls = vec![plain_wall(50, -100, 50, 0), plain_wall(50, 0, 150, 0)];
    let mut pf = Pathfinder::initialize(walls, Vec::new(), 20, 0, euclid);
    let points = pf.nodes.iter();
    // The two walls leave the corner towards the north and the east. The gap
    // between them on the southern and western side is three quarters of a
    // turn wide, so a waypoint flanks each wall, ten units from the corner.
    assert!(points.contains(&Point::new(50, 10)));
    assert!(points.contains(&Point::new(40, 0)));
    let path = pf.find_path(Point::new(0, -50), Point::new(100, -50)).unwrap();
    assert_eq!(
        path,
        vec![
            Point::new(100, -50),
            Point::new(60, -100),
            Point::new(50, -110),
            Point::new(40, -100),
            Point::new(0, -50),
        ]
    );
    assert!(avoids(&path, &LineSegment::new(Point::new(50, -100), Point::new(50, 0))));
    assert!(avoids(&path, &LineSegment::new(Point::new(50, 0), Point::new(150, 0))));
}

#[test]
fn enclosed_destination_has_no_path() {
    let walls = vec![
        plain_wall(40, 40, 60, 40),
        plain_wall(60, 40, 60, 60),
        plain_wall(60, 60, 40, 60),
        plain_wall(40, 60, 40, 40),
    ];
    let mut pf = Pathfinder::initialize(walls, Vec::new(), 4, 0, euclid);
    let path = pf.find_path(Point::new(0, 0), Point::new(50, 50));
    assert_eq!(path, None);
}

#[test]
fn wall_below_the_token_is_ignored() {
    let mut wall = plain_wall(50, -100, 50, 100);
    wall.height = WallHeight { top: 10, bottom: 0 };
    let mut pf = Pathfinder::initialize(vec![wall], Vec::new(), 10, 20, euclid);
    let path = pf.find_path(Point::new(0, 0), Point::new(100, 0));
    assert_eq!(path, Some(vec![Point::new(100, 0), Point::new(0, 0)]));
}

#[test]
fn waypoints_at_a_corner_lie_outside_the_walls() {
    let walls = vec![plain_wall(50, -100, 50, 0), plain_wall(50, 0, 150, 0)];
    let pf = Pathfinder::initialize(walls, Vec::new(), 20, 0, euclid);
    let corner = Point::new(50, 0);
    let near: Vec<Point> = pf
        .nodes
        .iter()
        .into_iter()
        .filter(|p| corner.distance_to(*p) <= 1_000_000)
        .collect();
    assert_eq!(near, vec![Point::new(50, 10), Point::new(40, 0)]);
    // The walls enclose the quarter with x >= 50 and y <= 0.
    for p in near {
        assert!(!(p.x >= 50 && p.y <= 0));
    }
}
