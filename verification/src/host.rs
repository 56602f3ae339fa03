//! The boundary to the host: scene objects come in as plain records, paths
//! go out as lists of points, and scene states are fingerprinted.

use crate::costs::oracle_ok;
use crate::generation::{check_fits, fits, scene_of};
use crate::geometry::{Circle, LineSegment, Point, Rectangle};
use crate::line::is_coordinate;
use crate::model::found_path;
use crate::pathfinder::Pathfinder;
use crate::search_state::is_cheapest_route;
use crate::terrain::{
    terrain_views, CircleView, ShapeView, Terrain, TerrainShape, TerrainView,
};
use crate::util::{windows_of, Windows};
use crate::walls::{DoorState, DoorType, Wall, WallHeight, WallSenseType};
use sha1::{Digest, Sha1};
use vstd::prelude::*;

verus! {

/// Why a graph could not be built.
#[derive(Debug, Clone, Copy, PartialEq, Eq, Structural)]
pub enum InitError {
    /// A piece of terrain has a shape of a kind that is not known. The code
    /// of the kind is given.
    UnsupportedShape(u32),
    /// A coordinate is too large for waypoints to be placed, or the token
    /// has a negative size.
    OutOfRange,
}

/// The shape code of a polygon.
pub const SHAPE_POLYGON: u32 = 0;

/// The shape code of a circle.
pub const SHAPE_CIRCLE: u32 = 2;

/// A wall as the host hands it over: the coordinates of the two end points,
/// rounded to the lattice, the kind and state of the door, the sense type for
/// movement, and the vertical extent `(top, bottom)` where the host knows
/// one.
#[derive(Debug, Clone)]
pub struct WallRecord {
    pub c: Vec<i32>,
    pub door_type: DoorType,
    pub door_state: DoorState,
    pub move_type: WallSenseType,
    pub height: Option<(Option<i32>, Option<i32>)>,
}

impl WallRecord {
    /// The wall that the record describes. Without heights, every wall
    /// reaches from below everything to above everything.
    pub open spec fn wall(self, enable_height: bool) -> Wall
        recommends
            self.c@.len() >= 4,
    {
        Wall {
            p1: Point { x: self.c@[0], y: self.c@[1] },
            p2: Point { x: self.c@[2], y: self.c@[3] },
            door_type: self.door_type,
            door_state: self.door_state,
            move_type: self.move_type,
            height: if enable_height {
                WallHeight::spec_from_bounds(self.height)
            } else {
                WallHeight::unbounded()
            },
        }
    }
}

/// The walls that the records describe, in order.
pub open spec fn walls_of(records: Seq<WallRecord>, enable_height: bool) -> Seq<Wall> {
    Seq::new(records.len(), |i: int| records[i].wall(enable_height))
}

impl Wall {
    /// The wall that a record of the host describes.
    pub fn from_record(record: &WallRecord, enable_height: bool) -> (wall: Wall)
        requires
            record.c@.len() >= 4,
        ensures
            wall == record.wall(enable_height),
    {
        let height = if enable_height {
            WallHeight::from_bounds(record.height)
        } else {
            WallHeight::default()
        };
        Wall::new(
            Point::new(record.c[0], record.c[1]),
            Point::new(record.c[2], record.c[3]),
            record.door_type,
            record.door_state,
            record.move_type,
            height,
        )
    }
}

/// A piece of difficult terrain as the host hands it over: the position and
/// the size of the object, and its shape. The points of a polygon are given
/// as a flat list of coordinates relative to the object; the center of a
/// circle is given relative to the object too. The rim points of a circle
/// are given as they lie in the scene.
#[derive(Debug, Clone)]
pub struct TerrainRecord {
    pub x: i32,
    pub y: i32,
    pub width: i32,
    pub height: i32,
    pub shape_type: u32,
    pub shape_x: i32,
    pub shape_y: i32,
    pub radius: i32,
    pub points: Vec<i32>,
    pub rim: Vec<Point>,
}

/// The sum of two coordinates, if it is a coordinate.
pub fn add_coordinates(a: i32, b: i32) -> (r: Option<i32>)
    ensures
        r.is_some() == is_coordinate(a + b),
        r.is_some() ==> r.unwrap() == a + b,
{
    let sum: i64 = a as i64 + b as i64;
    if sum < i32::MIN as i64 || sum > i32::MAX as i64 {
        None
    } else {
        Some(sum as i32)
    }
}

impl TerrainRecord {
    /// Whether the shape is of a known kind.
    pub open spec fn is_supported(self) -> bool {
        self.shape_type == SHAPE_POLYGON || self.shape_type == SHAPE_CIRCLE
    }

    /// The number of corners of the polygon.
    pub open spec fn corner_count(self) -> nat {
        (self.points@.len() / 2) as nat
    }

    /// Whether the box of the object lies in the scene's range of
    /// coordinates.
    pub open spec fn box_in_range(self) -> bool {
        is_coordinate(self.x + self.width) && is_coordinate(self.y + self.height)
    }

    /// Whether everything that the shape is built from lies in the scene's
    /// range of coordinates.
    pub open spec fn shape_in_range(self) -> bool {
        if self.shape_type == SHAPE_POLYGON {
            forall|i: int|
                0 <= i < self.corner_count() ==> is_coordinate(#[trigger] self.points@[2 * i] + self.x)
                    && is_coordinate(self.points@[2 * i + 1] + self.y)
        } else {
            is_coordinate(self.shape_x + self.x) && is_coordinate(self.shape_y + self.y)
        }
    }

    /// What is wrong with the record, if anything: a shape of an unknown
    /// kind, or else a coordinate out of range.
    pub open spec fn error(self) -> Option<InitError> {
        if !self.is_supported() {
            Some(InitError::UnsupportedShape(self.shape_type))
        } else if !self.box_in_range() || !self.shape_in_range() {
            Some(InitError::OutOfRange)
        } else {
            None
        }
    }

    /// The bounding box of the object.
    pub open spec fn bounding_rect(self) -> Rectangle {
        Rectangle {
            left: self.x,
            top: self.y,
            right: (self.x + self.width) as i32,
            bottom: (self.y + self.height) as i32,
        }
    }

    /// The corners of the polygon as they lie in the scene, in order.
    pub open spec fn corners(self) -> Seq<Point> {
        Seq::new(
            self.corner_count(),
            |i: int|
                Point {
                    x: (self.points@[2 * i] + self.x) as i32,
                    y: (self.points@[2 * i + 1] + self.y) as i32,
                },
        )
    }

    /// The sides of the polygon: one from each corner but the first to
    /// the corner before it. The polygon is closed only if the list of points
    /// ends with the corner it started with.
    pub open spec fn sides(self) -> Seq<LineSegment> {
        let pairs = windows_of(self.corners());
        Seq::new(pairs.len(), |i: int| LineSegment { p1: pairs[i].0, p2: pairs[i].1 })
    }

    /// The circle as it lies in the scene.
    pub open spec fn circle(self) -> CircleView {
        CircleView {
            center: Point {
                x: (self.shape_x + self.x) as i32,
                y: (self.shape_y + self.y) as i32,
            },
            radius: self.radius,
            rim: self.rim@,
        }
    }

    /// The piece of terrain that the record describes.
    pub open spec fn terrain(self) -> TerrainView {
        TerrainView {
            shape: if self.shape_type == SHAPE_POLYGON {
                ShapeView::Polygon(self.sides())
            } else {
                ShapeView::Circle(self.circle())
            },
            bounding_box: self.bounding_rect(),
        }
    }

    /// The bounding box of the object, if it lies in range.
    pub fn to_bounding_rect(&self) -> (r: Option<Rectangle>)
        ensures
            r.is_some() == self.box_in_range(),
            r.is_some() ==> r.unwrap() == self.bounding_rect(),
    {
        let right = add_coordinates(self.x, self.width);
        let bottom = add_coordinates(self.y, self.height);
        match (right, bottom) {
            (Some(right), Some(bottom)) => Some(Rectangle::new(self.x, self.y, right, bottom)),
            _ => None,
        }
    }

    /// The corners of the polygon as they lie in the scene, if they lie in
    /// range.
    fn to_corners(&self) -> (r: Option<Vec<Point>>)
        requires
            self.shape_type == SHAPE_POLYGON,
            self.points@.len() % 2 == 0,
        ensures
            r.is_some() == self.shape_in_range(),
            r.is_some() ==> r.unwrap()@ == self.corners(),
    {
        let mut corners: Vec<Point> = Vec::new();
        let count = self.points.len() / 2;
        let mut i: usize = 0;
        while i < count
            invariant
                i <= count,
                count == self.corner_count(),
                self.shape_type == SHAPE_POLYGON,
                self.points@.len() % 2 == 0,
                self.points@.len() <= usize::MAX,
                corners@.len() == i,
                forall|k: int|
                    0 <= k < i ==> is_coordinate(#[trigger] self.points@[2 * k] + self.x)
                        && is_coordinate(self.points@[2 * k + 1] + self.y),
                forall|k: int| 0 <= k < i ==> corners@[k] == self.corners()[k],
            decreases count - i,
        {
            assert(2 * i + 1 < self.points@.len());
            let x = add_coordinates(self.points[2 * i], self.x);
            let y = add_coordinates(self.points[2 * i + 1], self.y);
            match (x, y) {
                (Some(x), Some(y)) => {
                    corners.push(Point::new(x, y));
                },
                _ => {
                    proof {
                        let k = i as int;
                        assert(0 <= k < self.corner_count());
                        assert(!(is_coordinate(self.points@[2 * k] + self.x) && is_coordinate(
                            self.points@[2 * k + 1] + self.y,
                        )));
                    }
                    return None;
                },
            }
            i += 1;
        }
        assert(corners@ =~= self.corners());
        Some(corners)
    }

    /// The sides of the polygon, if its corners lie in range.
    pub fn to_segments(&self) -> (r: Option<Vec<LineSegment>>)
        requires
            self.shape_type == SHAPE_POLYGON,
            self.points@.len() % 2 == 0,
        ensures
            r.is_some() == self.shape_in_range(),
            r.is_some() ==> r.unwrap()@ == self.sides(),
    {
        match self.to_corners() {
            None => None,
            Some(corners) => {
                let ghost pairs = windows_of(corners@);
                let mut walk = corners.windows();
                let mut sides: Vec<LineSegment> = Vec::new();
                loop
                    invariant
                        walk.wf(),
                        pairs == windows_of(self.corners()),
                        sides@.len() + walk.remaining().len() == pairs.len(),
                        walk.remaining() == pairs.skip(sides@.len() as int),
                        forall|k: int|
                            0 <= k < sides@.len() ==> sides@[k] == (LineSegment {
                                p1: pairs[k].0,
                                p2: pairs[k].1,
                            }),
                    ensures
                        sides@.len() == pairs.len(),
                    decreases walk.remaining().len(),
                {
                    match walk.next() {
                        Some((p1, p2)) => {
                            assert(pairs.skip(sides@.len() as int)[0] == pairs[sides@.len() as int]);
                            sides.push(LineSegment::new(p1, p2));
                            assert(walk.remaining() =~= pairs.skip(sides@.len() as int));
                        },
                        None => {
                            break ;
                        },
                    }
                }
                assert(sides@ =~= self.sides());
                Some(sides)
            },
        }
    }

    /// The circle as it lies in the scene, if its center lies in range.
    pub fn to_circle(&self) -> (r: Option<Circle>)
        requires
            self.shape_type != SHAPE_POLYGON,
        ensures
            r.is_some() == self.shape_in_range(),
            r matches Some(circle) ==> (CircleView {
                center: circle.center,
                radius: circle.radius,
                rim: circle.rim@,
            }) == self.circle(),
    {
        let x = add_coordinates(self.shape_x, self.x);
        let y = add_coordinates(self.shape_y, self.y);
        match (x, y) {
            (Some(x), Some(y)) => Some(
                Circle { center: Point::new(x, y), radius: self.radius, rim: self.rim.clone() },
            ),
            _ => None,
        }
    }
}

impl TerrainShape {
    /// The shape that a record of the host describes. A shape of an
    /// unknown kind is an error.
    pub fn from_record(record: &TerrainRecord) -> (r: Result<TerrainShape, InitError>)
        requires
            record.shape_type == SHAPE_POLYGON ==> record.points@.len() % 2 == 0,
        ensures
            match r {
                Ok(shape) => record.is_supported() && record.shape_in_range() && shape@
                    == record.terrain().shape,
                Err(e) => e == (if !record.is_supported() {
                    InitError::UnsupportedShape(record.shape_type)
                } else {
                    InitError::OutOfRange
                }) && !(record.is_supported() && record.shape_in_range()),
            },
    {
        if record.shape_type == SHAPE_POLYGON {
            match record.to_segments() {
                Some(sides) => Ok(TerrainShape::Polygon(sides)),
                None => Err(InitError::OutOfRange),
            }
        } else if record.shape_type == SHAPE_CIRCLE {
            match record.to_circle() {
                Some(circle) => Ok(TerrainShape::Circle(circle)),
                None => Err(InitError::OutOfRange),
            }
        } else {
            Err(InitError::UnsupportedShape(record.shape_type))
        }
    }
}

impl Terrain {
    /// The piece of terrain that a record of the host describes.
    pub fn from_record(record: &TerrainRecord) -> (r: Result<Terrain, InitError>)
        requires
            record.shape_type == SHAPE_POLYGON ==> record.points@.len() % 2 == 0,
        ensures
            match r {
                Ok(terrain) => record.error().is_none() && terrain@ == record.terrain(),
                Err(e) => record.error() == Some(e),
            },
    {
        if record.shape_type != SHAPE_POLYGON && record.shape_type != SHAPE_CIRCLE {
            return Err(InitError::UnsupportedShape(record.shape_type));
        }
        let bounding_box = match record.to_bounding_rect() {
            Some(rect) => rect,
            None => {
                return Err(InitError::OutOfRange);
            },
        };
        match TerrainShape::from_record(record) {
            Ok(shape) => Ok(Terrain { shape, bounding_box }),
            Err(e) => Err(e),
        }
    }
}

/// The pieces of terrain that the records describe, in order.
pub open spec fn terrain_of(records: Seq<TerrainRecord>) -> Seq<TerrainView> {
    Seq::new(records.len(), |i: int| records[i].terrain())
}

/// What is wrong with the first record that has something wrong, if any
/// has.
pub open spec fn first_error(records: Seq<TerrainRecord>) -> Option<InitError>
    decreases records.len(),
{
    if records.len() == 0 {
        None
    } else {
        match first_error(records.drop_last()) {
            Some(e) => Some(e),
            None => records.last().error(),
        }
    }
}

/// What is wrong with the request to build a graph, if anything: the first
/// error among the terrain records, or else that the scene does not fit.
pub open spec fn init_error(
    walls: Seq<WallRecord>,
    terrain: Seq<TerrainRecord>,
    token_size: i32,
    token_elevation: i32,
    enable_height: bool,
) -> Option<InitError> {
    match first_error(terrain) {
        Some(e) => Some(e),
        None => if fits(
            walls_of(walls, enable_height),
            terrain_of(terrain),
            token_size,
            token_elevation,
        ) {
            None
        } else {
            Some(InitError::OutOfRange)
        },
    }
}

/// Builds the graph for one snapshot of the scene from what the host hands
/// over. Without `enable_height`, every wall concerns every token, whatever
/// the elevation.
///
/// A graph is built unless a piece of terrain has a shape of an unknown kind
/// or a coordinate is out of range; see [`init_error`].
pub fn initialize<F: Fn(Point, Point) -> u64>(
    walls: Vec<WallRecord>,
    terrain: Vec<TerrainRecord>,
    token_size: i32,
    token_elevation: i32,
    enable_height: bool,
    oracle: F,
) -> (r: Result<Pathfinder<F>, InitError>)
    requires
        oracle_ok(oracle),
        forall|i: int| 0 <= i < walls@.len() ==> (#[trigger] walls@[i]).c@.len() >= 4,
        forall|i: int|
            0 <= i < terrain@.len() && (#[trigger] terrain@[i]).shape_type == SHAPE_POLYGON
                ==> terrain@[i].points@.len() % 2 == 0,
    ensures
        match r {
            Ok(pf) => {
                &&& init_error(walls@, terrain@, token_size, token_elevation, enable_height)
                    .is_none()
                &&& pf.wf()
                &&& pf@ == scene_of(
                    walls_of(walls@, enable_height),
                    terrain_of(terrain@),
                    token_size,
                    token_elevation,
                )
                &&& pf.oracle == oracle
                &&& pf.nodes.final_node.is_none()
            },
            Err(e) => init_error(walls@, terrain@, token_size, token_elevation, enable_height)
                == Some(e),
        },
{
    let mut converted: Vec<Wall> = Vec::with_capacity(walls.len());
    let mut i: usize = 0;
    while i < walls.len()
        invariant
            i <= walls@.len(),
            forall|k: int| 0 <= k < walls@.len() ==> (#[trigger] walls@[k]).c@.len() >= 4,
            converted@ == walls_of(walls@, enable_height).take(i as int),
        decreases walls@.len() - i,
    {
        converted.push(Wall::from_record(&walls[i], enable_height));
        assert(converted@ =~= walls_of(walls@, enable_height).take(i + 1));
        i += 1;
    }
    assert(converted@ =~= walls_of(walls@, enable_height));
    let mut pieces: Vec<Terrain> = Vec::new();
    let mut t: usize = 0;
    assert(terrain@.take(0) =~= Seq::<TerrainRecord>::empty());
    while t < terrain.len()
        invariant
            t <= terrain@.len(),
            forall|k: int|
                0 <= k < terrain@.len() && (#[trigger] terrain@[k]).shape_type == SHAPE_POLYGON
                    ==> terrain@[k].points@.len() % 2 == 0,
            first_error(terrain@.take(t as int)).is_none(),
            pieces@.len() == t,
            terrain_views(pieces@) == terrain_of(terrain@).take(t as int),
        decreases terrain@.len() - t,
    {
        proof {
            assert(terrain@.take(t + 1).drop_last() == terrain@.take(t as int));
            assert(terrain@.take(t + 1).last() == terrain@[t as int]);
        }
        let ghost before = pieces@;
        match Terrain::from_record(&terrain[t]) {
            Ok(piece) => {
                pieces.push(piece);
                proof {
                    let now = terrain_views(pieces@);
                    let want = terrain_of(terrain@).take(t + 1);
                    assert(now.len() == want.len());
                    assert forall|k: int| 0 <= k < now.len() implies now[k] == want[k] by {
                        if k < t {
                            assert(pieces@[k] == before[k]);
                            assert(terrain_views(before)[k] == terrain_of(terrain@).take(
                                t as int,
                            )[k]);
                        }
                    }
                    assert(now =~= want);
                }
            },
            Err(e) => {
                proof {
                    lemma_first_error_stays(terrain@, t + 1);
                }
                return Err(e);
            },
        }
        t += 1;
    }
    proof {
        assert(terrain@.take(terrain@.len() as int) == terrain@);
        assert(terrain_views(pieces@) =~= terrain_of(terrain@));
    }
    if !check_fits(&converted, &pieces, token_size, token_elevation) {
        return Err(InitError::OutOfRange);
    }
    Ok(Pathfinder::initialize(converted, pieces, token_size, token_elevation, oracle))
}

/// An error among the first records is the first error among all of them.
proof fn lemma_first_error_stays(records: Seq<TerrainRecord>, n: int)
    requires
        0 <= n <= records.len(),
        first_error(records.take(n)).is_some(),
    ensures
        first_error(records) == first_error(records.take(n)),
    decreases records.len() - n,
{
    if n == records.len() {
        assert(records.take(n) == records);
    } else {
        assert(records.take(n + 1).drop_last() == records.take(n));
        lemma_first_error_stays(records, n + 1);
    }
}

/// Finds a path for a token that is to move from `from` to `to`; see
/// [`Pathfinder::find_path`].
pub fn find_path<F: Fn(Point, Point) -> u64>(
    pathfinder: &mut Pathfinder<F>,
    from: Point,
    to: Point,
) -> (r: Option<Vec<Point>>)
    requires
        old(pathfinder).wf(),
    ensures
        final(pathfinder).wf(),
        final(pathfinder)@ == old(pathfinder)@,
        final(pathfinder).oracle == old(pathfinder).oracle,
        final(pathfinder).keeps_edges_of(old(pathfinder)),
        match r {
            Some(path) => is_cheapest_route(
                old(pathfinder)@,
                old(pathfinder).oracle,
                from,
                to,
                path@,
            ),
            None => forall|path: Seq<Point>| !old(pathfinder)@.is_route(from, to, path),
        },
        from == to ==> r.is_some() && r.unwrap()@ == seq![to],
        found_path(old(pathfinder)@, old(pathfinder).oracle, from, to) == (match r {
            Some(path) => Some(path@),
            None => None,
        }),
{
    pathfinder.find_path(from, to)
}

/// Releases the graph.
pub fn free<F: Fn(Point, Point) -> u64>(pathfinder: Pathfinder<F>) {
    let _ = pathfinder;
}

/// The points of all waypoints of the graph, in the order in which they
/// were generated.
pub fn debug_get_pathfinding_points<F: Fn(Point, Point) -> u64>(pathfinder: &Pathfinder<F>) -> (r:
    Vec<Point>)
    ensures
        r@ == match pathfinder.nodes.final_node {
            Some(node) => pathfinder@.points.push(node.point),
            None => pathfinder@.points,
        },
{
    pathfinder.nodes.iter()
}

/// The SHA-1 digest of a text, written as forty hexadecimal digits.
pub uninterp spec fn sha1_hex(input: Seq<char>) -> Seq<char>;

/// The fingerprint of a scene state: the SHA-1 digest of the text, in
/// lower-case hexadecimal. Calls `Sha1::digest` of the `sha1` crate and
/// formats the twenty bytes of the digest with two digits each. The digest
/// depends on the text alone.
#[verifier::external_body]
pub fn sha1(input: &str) -> (digest: String)
    ensures
        digest@ == sha1_hex(input@),
        digest@.len() == 40,
{
    format!("{:x}", Sha1::digest(input))
}

} // verus!
