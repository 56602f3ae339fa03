use gridless_pathfinding::geometry::{LineSegment, Point, Rectangle};
use gridless_pathfinding::host::{
    add_coordinates, debug_get_pathfinding_points, find_path, free, initialize, sha1, InitError,
    TerrainRecord, WallRecord, SHAPE_CIRCLE, SHAPE_POLYGON,
};
use gridless_pathfinding::terrain::{Terrain, TerrainShape};
use gridless_pathfinding::walls::{DoorState, DoorType, Wall, WallHeight, WallSenseType};

fn straight(a: Point, b: Point) -> u64 {
    a.distance_to(b)
}

fn wall_record(c: [i32; 4], height: Option<(Option<i32>, Option<i32>)>) -> WallRecord {
    WallRecord {
        c: c.to_vec(),
        door_type: DoorType::NONE,
        door_state: DoorState::CLOSED,
        move_type: WallSenseType::NORMAL,
        height,
    }
}

fn polygon_record(x: i32, y: i32, points: Vec<i32>) -> TerrainRecord {
    TerrainRecord {
        x,
        y,
        width: 20,
        height: 30,
        shape_type: SHAPE_POLYGON,
        shape_x: 0,
        shape_y: 0,
        radius: 0,
        points,
        rim: Vec::new(),
    }
}

fn circle_record(x: i32, y: i32, radius: i32, rim: Vec<Point>) -> TerrainRecord {
    TerrainRecord {
        x,
        y,
        width: 2 * radius,
        height: 2 * radius,
        shape_type: SHAPE_CIRCLE,
        shape_x: radius,
        shape_y: radius,
        radius,
        points: Vec::new(),
        rim,
    }
}

#[test]
fn sha1_of_known_texts() {
    assert_eq!(sha1("hello world"), "2aae6c35c94fcfb415dbe95f408b9ce91ee846ed");
    assert_eq!(sha1(""), "da39a3ee5e6b4b0d3255bfef95601890afd80709");
    assert_eq!(sha1("abc"), "a9993e364706816aba3e25717850c26c9cd0d89d");
    assert_eq!(sha1("abc").len(), 40);
}

#[test]
fn wall_from_a_record() {
    let record = WallRecord {
        c: vec![1, 2, 3, 4],
        door_type: DoorType::DOOR,
        door_state: DoorState::LOCKED,
        move_type: WallSenseType::LIMITED,
        height: Some((Some(10), None)),
    };
    let wall = Wall::from_record(&record, true);
    assert_eq!(wall.p1, Point::new(1, 2));
    assert_eq!(wall.p2, Point::new(3, 4));
    assert_eq!(wall.door_type, DoorType::DOOR);
    assert_eq!(wall.door_state, DoorState::LOCKED);
    assert_eq!(wall.move_type, WallSenseType::LIMITED);
    assert_eq!(wall.height, WallHeight { top: 10, bottom: i32::MIN });
    // Without heights, the wall is unbounded.
    assert_eq!(Wall::from_record(&record, false).height, WallHeight::default());
}

#[test]
fn coordinates_add_up_within_their_range() {
    assert_eq!(add_coordinates(1, 2), Some(3));
    assert_eq!(add_coordinates(i32::MAX, 0), Some(i32::MAX));
    assert_eq!(add_coordinates(i32::MAX, 1), None);
    assert_eq!(add_coordinates(i32::MIN, -1), None);
    assert_eq!(add_coordinates(i32::MIN, i32::MAX), Some(-1));
}

#[test]
fn bounding_box_of_a_record() {
    let record = polygon_record(5, 7, Vec::new());
    assert_eq!(record.to_bounding_rect(), Some(Rectangle::new(5, 7, 25, 37)));
    let far = polygon_record(i32::MAX, 0, Vec::new());
    assert_eq!(far.to_bounding_rect(), None);
}

#[test]
fn polygon_sides_run_from_each_corner_to_the_one_before() {
    let record = polygon_record(5, 5, vec![0, 0, 10, 0, 10, 10]);
    let sides = record.to_segments().unwrap();
    assert_eq!(
        sides,
        vec![
            LineSegment::new(Point::new(15, 5), Point::new(5, 5)),
            LineSegment::new(Point::new(15, 15), Point::new(15, 5)),
        ]
    );
    assert_eq!(polygon_record(5, 5, Vec::new()).to_segments(), Some(Vec::new()));
    assert_eq!(polygon_record(5, 5, vec![1, 1]).to_segments(), Some(Vec::new()));
    assert_eq!(polygon_record(5, 5, vec![0, 0, i32::MAX, 0]).to_segments(), None);
}

#[test]
fn circle_of_a_record() {
    let record = circle_record(100, 200, 50, vec![Point::new(200, 250)]);
    let circle = record.to_circle().unwrap();
    assert_eq!(circle.center, Point::new(150, 250));
    assert_eq!(circle.radius, 50);
    assert_eq!(circle.rim, vec![Point::new(200, 250)]);
    let mut far = circle_record(100, 200, 50, Vec::new());
    far.shape_y = i32::MAX;
    assert!(far.to_circle().is_none());
}

#[test]
fn terrain_from_a_record() {
    let polygon = Terrain::from_record(&polygon_record(5, 5, vec![0, 0, 10, 0])).unwrap();
    assert_eq!(polygon.bounding_box, Rectangle::new(5, 5, 25, 35));
    match polygon.shape {
        TerrainShape::Polygon(sides) => {
            assert_eq!(sides, vec![LineSegment::new(Point::new(15, 5), Point::new(5, 5))])
        },
        TerrainShape::Circle(_) => panic!("a polygon was expected"),
    }
    let circle = Terrain::from_record(&circle_record(0, 0, 50, Vec::new())).unwrap();
    assert!(matches!(circle.shape, TerrainShape::Circle(_)));
    assert!(matches!(
        TerrainShape::from_record(&circle_record(0, 0, 50, Vec::new())),
        Ok(TerrainShape::Circle(_))
    ));
}

#[test]
fn unknown_shapes_are_rejected() {
    let mut record = polygon_record(0, 0, Vec::new());
    record.shape_type = 1;
    assert_eq!(Terrain::from_record(&record).err(), Some(InitError::UnsupportedShape(1)));
    assert_eq!(TerrainShape::from_record(&record).err(), Some(InitError::UnsupportedShape(1)));
    record.shape_type = 3;
    let built = initialize(Vec::new(), vec![record], 10, 0, false, straight);
    assert_eq!(built.err(), Some(InitError::UnsupportedShape(3)));
}

#[test]
fn unknown_shape_comes_before_the_range() {
    let mut odd = polygon_record(i32::MAX, i32::MAX, Vec::new());
    odd.shape_type = 7;
    assert_eq!(Terrain::from_record(&odd).err(), Some(InitError::UnsupportedShape(7)));
    // The first record with something wrong decides.
    let far = polygon_record(i32::MAX, 0, Vec::new());
    let built = initialize(Vec::new(), vec![far.clone(), odd.clone()], 10, 0, false, straight);
    assert_eq!(built.err(), Some(InitError::OutOfRange));
    let built = initialize(Vec::new(), vec![odd, far], 10, 0, false, straight);
    assert_eq!(built.err(), Some(InitError::UnsupportedShape(7)));
}

#[test]
fn scenes_that_do_not_fit_are_rejected() {
    let built = initialize(Vec::new(), Vec::new(), -1, 0, false, straight);
    assert_eq!(built.err(), Some(InitError::OutOfRange));
    let far = wall_record([0, 0, i32::MAX, 0], None);
    let built = initialize(vec![far], Vec::new(), 10, 0, false, straight);
    assert_eq!(built.err(), Some(InitError::OutOfRange));
    let record = polygon_record(i32::MAX - 10, 0, Vec::new());
    let built = initialize(Vec::new(), vec![record], 10, 0, false, straight);
    assert_eq!(built.err(), Some(InitError::OutOfRange));
    let record = polygon_record(0x4000_0000, 0, vec![0, 0, 1, 0]);
    let built = initialize(Vec::new(), vec![record], 10, 0, false, straight);
    assert_eq!(built.err(), Some(InitError::OutOfRange));
}

#[test]
fn heights_count_only_when_enabled() {
    let walls = || vec![wall_record([50, -100, 50, 100], Some((Some(10), Some(0))))];
    let from = Point::new(0, 0);
    let to = Point::new(100, 0);
    let mut with_heights = initialize(walls(), Vec::new(), 10, 20, true, straight).unwrap();
    assert_eq!(find_path(&mut with_heights, from, to), Some(vec![to, from]));
    assert!(debug_get_pathfinding_points(&with_heights).is_empty());
    let mut without = initialize(walls(), Vec::new(), 10, 20, false, straight).unwrap();
    let path = find_path(&mut without, from, to).unwrap();
    assert_eq!(path.len(), 5);
    assert_eq!(debug_get_pathfinding_points(&without).len(), 6);
    free(with_heights);
    free(without);
}

#[test]
fn scene_from_records() {
    let walls = vec![wall_record([0, 0, 100, 0], None)];
    let terrain = vec![
        polygon_record(200, 200, vec![0, 0, 10, 0]),
        circle_record(300, 300, 50, vec![Point::new(400, 350)]),
    ];
    let pf = initialize(walls, terrain, 20, 0, true, straight).unwrap();
    let points = debug_get_pathfinding_points(&pf);
    // Six waypoints around the wall, six around the one side of the polygon,
    // one beside the circle.
    assert_eq!(points.len(), 13);
    assert_eq!(points[0], Point::new(-10, 0));
    assert_eq!(points[12], Point::new(410, 350));
    assert_eq!(
        pf.terrain,
        vec![Rectangle::new(200, 200, 220, 230), Rectangle::new(300, 300, 400, 400)]
    );
}
