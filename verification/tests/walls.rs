use gridless_pathfinding::geometry::{LineSegment, Point};
use gridless_pathfinding::walls::{
    collides_with_wall, DoorState, DoorType, DynamicWall, EdgeClass, Wall, WallHeight,
    WallSenseType, WallStorage,
};

fn seg(x1: i32, y1: i32, x2: i32, y2: i32) -> LineSegment {
    LineSegment::new(Point::new(x1, y1), Point::new(x2, y2))
}

fn wall(door_type: DoorType, door_state: DoorState, sense: WallSenseType) -> Wall {
    Wall::new(
        Point::new(0, 0),
        Point::new(10, 0),
        door_type,
        door_state,
        sense,
        WallHeight::default(),
    )
}

#[test]
fn door_state_codes() {
    assert_eq!(DoorState::try_from(0), Ok(DoorState::CLOSED));
    assert_eq!(DoorState::try_from(1), Ok(DoorState::OPEN));
    assert_eq!(DoorState::try_from(2), Ok(DoorState::LOCKED));
    assert_eq!(DoorState::try_from(3), Err(()));
    assert_eq!(DoorState::LOCKED.code(), 2);
}

#[test]
fn door_type_codes() {
    assert_eq!(DoorType::try_from(0), Ok(DoorType::NONE));
    assert_eq!(DoorType::try_from(1), Ok(DoorType::DOOR));
    assert_eq!(DoorType::try_from(2), Ok(DoorType::SECRET));
    assert_eq!(DoorType::try_from(10), Err(()));
    assert_eq!(DoorType::SECRET.code(), 2);
}

#[test]
fn sense_type_codes() {
    assert_eq!(WallSenseType::try_from(0), Ok(WallSenseType::NONE));
    assert_eq!(WallSenseType::try_from(10), Ok(WallSenseType::LIMITED));
    assert_eq!(WallSenseType::try_from(20), Ok(WallSenseType::NORMAL));
    assert_eq!(WallSenseType::try_from(1), Err(()));
    assert_eq!(WallSenseType::try_from(2), Err(()));
    assert_eq!(WallSenseType::LIMITED.code(), 10);
    assert_eq!(WallSenseType::NORMAL.code(), 20);
}

#[test]
fn default_height_contains_every_elevation() {
    let height = WallHeight::default();
    assert_eq!(height, WallHeight { top: i32::MAX, bottom: i32::MIN });
    assert!(height.contains(0));
    assert!(height.contains(i32::MAX));
    assert!(height.contains(i32::MIN));
}

#[test]
fn height_contains_its_bounds() {
    let height = WallHeight { top: 10, bottom: 0 };
    assert!(height.contains(0));
    assert!(height.contains(10));
    assert!(height.contains(5));
    assert!(!height.contains(11));
    assert!(!height.contains(-1));
}

#[test]
fn missing_bounds_are_unbounded() {
    assert_eq!(WallHeight::from_bounds(None), WallHeight::default());
    assert_eq!(WallHeight::from_bounds(Some((None, None))), WallHeight::default());
    assert_eq!(
        WallHeight::from_bounds(Some((Some(10), None))),
        WallHeight { top: 10, bottom: i32::MIN }
    );
    assert_eq!(
        WallHeight::from_bounds(Some((None, Some(-5)))),
        WallHeight { top: i32::MAX, bottom: -5 }
    );
    assert_eq!(
        WallHeight::from_bounds(Some((Some(10), Some(0)))),
        WallHeight { top: 10, bottom: 0 }
    );
}

#[test]
fn doors_and_open_doors() {
    assert!(!wall(DoorType::NONE, DoorState::CLOSED, WallSenseType::NORMAL).is_door());
    assert!(wall(DoorType::DOOR, DoorState::CLOSED, WallSenseType::NORMAL).is_door());
    assert!(wall(DoorType::SECRET, DoorState::CLOSED, WallSenseType::NORMAL).is_door());
    assert!(wall(DoorType::DOOR, DoorState::OPEN, WallSenseType::NORMAL).is_open());
    assert!(!wall(DoorType::DOOR, DoorState::LOCKED, WallSenseType::NORMAL).is_open());
    assert!(!wall(DoorType::DOOR, DoorState::CLOSED, WallSenseType::NORMAL).is_open());
}

#[test]
fn which_walls_block() {
    assert!(wall(DoorType::NONE, DoorState::CLOSED, WallSenseType::NORMAL).is_blocking(0));
    assert!(wall(DoorType::NONE, DoorState::CLOSED, WallSenseType::LIMITED).is_blocking(0));
    assert!(!wall(DoorType::NONE, DoorState::CLOSED, WallSenseType::NONE).is_blocking(0));
    assert!(wall(DoorType::DOOR, DoorState::CLOSED, WallSenseType::NORMAL).is_blocking(0));
    assert!(wall(DoorType::DOOR, DoorState::LOCKED, WallSenseType::NORMAL).is_blocking(0));
    assert!(wall(DoorType::SECRET, DoorState::CLOSED, WallSenseType::NORMAL).is_blocking(0));
    assert!(!wall(DoorType::DOOR, DoorState::OPEN, WallSenseType::NORMAL).is_blocking(0));
    assert!(!wall(DoorType::SECRET, DoorState::OPEN, WallSenseType::NORMAL).is_blocking(0));
    // A wall that is marked open but is no door blocks all the same.
    assert!(wall(DoorType::NONE, DoorState::OPEN, WallSenseType::NORMAL).is_blocking(0));
    let mut low = wall(DoorType::NONE, DoorState::CLOSED, WallSenseType::NORMAL);
    low.height = WallHeight { top: 10, bottom: 0 };
    assert!(low.is_blocking(10));
    assert!(!low.is_blocking(20));
    assert!(low.is_relevant(0));
    assert!(!low.is_relevant(-1));
}

#[test]
fn collision_with_a_list_of_walls() {
    let walls = vec![seg(50, -10, 50, 10), seg(80, -10, 80, 10)];
    assert!(collides_with_wall(&seg(0, 0, 60, 0), &walls));
    assert!(collides_with_wall(&seg(70, 0, 90, 0), &walls));
    assert!(!collides_with_wall(&seg(0, 0, 40, 0), &walls));
    assert!(!collides_with_wall(&seg(0, 0, 40, 0), &Vec::new()));
}

fn storage() -> WallStorage {
    let mut storage = WallStorage::new();
    storage.persistent.push(seg(10, -10, 10, 10));
    storage.dynamic.push(DynamicWall { segment: seg(20, -10, 20, 10), active: true });
    storage.dynamic.push(DynamicWall { segment: seg(30, -10, 30, 10), active: false });
    storage
}

#[test]
fn edges_are_sorted_into_three_classes() {
    let storage = storage();
    // Past everything.
    assert_eq!(storage.classify(&seg(0, 20, 40, 20)), EdgeClass::Persistent);
    // Through the open door only.
    assert_eq!(storage.classify(&seg(25, 0, 40, 0)), EdgeClass::Dynamic);
    // Through the closed door.
    assert_eq!(storage.classify(&seg(15, 0, 25, 0)), EdgeClass::Blocked);
    // Through the closed and the open door.
    assert_eq!(storage.classify(&seg(15, 0, 40, 0)), EdgeClass::Blocked);
    // Through the wall.
    assert_eq!(storage.classify(&seg(0, 0, 15, 0)), EdgeClass::Blocked);
    assert!(storage.is_blocked(&seg(0, 0, 15, 0)));
    assert!(!storage.is_blocked(&seg(25, 0, 40, 0)));
    assert!(storage.collides_with_dynamic(&seg(25, 0, 40, 0), false));
    assert!(!storage.collides_with_dynamic(&seg(25, 0, 40, 0), true));
}

#[test]
fn views_of_the_wall_storage() {
    let storage = storage();
    assert_eq!(storage.active_dynamic(), vec![seg(20, -10, 20, 10)]);
    assert_eq!(storage.inactive_dynamic(), vec![seg(30, -10, 30, 10)]);
    assert_eq!(storage.blocking(), vec![seg(10, -10, 10, 10), seg(20, -10, 20, 10)]);
    let empty = WallStorage::new();
    assert!(empty.blocking().is_empty());
    assert!(empty.active_dynamic().is_empty());
    assert!(empty.inactive_dynamic().is_empty());
}
