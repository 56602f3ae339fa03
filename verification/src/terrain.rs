//! Difficult terrain: a polygon or a circle, with the box that bounds it.

use crate::geometry::{Circle, LineSegment, Point, Rectangle};
use vstd::prelude::*;

verus! {

/// The outline of a piece of difficult terrain.
#[derive(Debug, Clone)]
pub enum TerrainShape {
    /// The sides of a polygon, in order.
    Polygon(Vec<LineSegment>),
    Circle(Circle),
}

/// A piece of difficult terrain. The bounding box is expected to contain the
/// shape; edges that touch the box are measured by the terrain function.
#[derive(Debug, Clone)]
pub struct Terrain {
    pub shape: TerrainShape,
    pub bounding_box: Rectangle,
}

/// A circle as the generation of waypoints sees it.
pub struct CircleView {
    pub center: Point,
    pub radius: i32,
    pub rim: Seq<Point>,
}

/// The outline of a piece of terrain as the generation of waypoints sees
/// it.
pub enum ShapeView {
    Polygon(Seq<LineSegment>),
    Circle(CircleView),
}

/// A piece of terrain as the generation of waypoints sees it.
pub struct TerrainView {
    pub shape: ShapeView,
    pub bounding_box: Rectangle,
}

impl ShapeView {
    /// The sides of the shape if it is a polygon, and nothing for a circle.
    pub open spec fn sides(self) -> Seq<LineSegment> {
        match self {
            ShapeView::Polygon(sides) => sides,
            ShapeView::Circle(_) => Seq::empty(),
        }
    }

    /// The rim points of the shape if it is a circle, and nothing for a
    /// polygon.
    pub open spec fn rim(self) -> Seq<Point> {
        match self {
            ShapeView::Polygon(_) => Seq::empty(),
            ShapeView::Circle(circle) => circle.rim,
        }
    }
}

impl TerrainShape {
    pub open spec fn view(&self) -> ShapeView {
        match self {
            TerrainShape::Polygon(sides) => ShapeView::Polygon(sides@),
            TerrainShape::Circle(circle) => ShapeView::Circle(
                CircleView { center: circle.center, radius: circle.radius, rim: circle.rim@ },
            ),
        }
    }
}

impl Terrain {
    pub open spec fn view(&self) -> TerrainView {
        TerrainView { shape: self.shape@, bounding_box: self.bounding_box }
    }
}

/// The views of the pieces of terrain, in order.
pub open spec fn terrain_views(terrain: Seq<Terrain>) -> Seq<TerrainView> {
    Seq::new(terrain.len(), |i: int| terrain[i]@)
}

/// The sides of all polygons among the terrain, in order.
pub open spec fn polygon_sides(terrain: Seq<TerrainView>) -> Seq<LineSegment>
    decreases terrain.len(),
{
    if terrain.len() == 0 {
        Seq::empty()
    } else {
        polygon_sides(terrain.drop_last()) + terrain.last().shape.sides()
    }
}

/// The bounding boxes of the terrain, in order.
pub open spec fn bounding_boxes(terrain: Seq<TerrainView>) -> Seq<Rectangle> {
    Seq::new(terrain.len(), |i: int| terrain[i].bounding_box)
}

/// The largest magnitude of a coordinate at which waypoints can be placed.
pub const COORD_LIMIT: i32 = 0x4000_0000;

/// Whether both coordinates of the point are small enough for a waypoint to
/// be set off from it.
pub open spec fn in_bounds(p: Point) -> bool {
    &&& -COORD_LIMIT <= p.x <= COORD_LIMIT
    &&& -COORD_LIMIT <= p.y <= COORD_LIMIT
}

/// Whether both coordinates of the point are small enough for a waypoint to
/// be set off from it.
pub fn is_in_bounds(p: Point) -> (r: bool)
    ensures
        r == in_bounds(p),
{
    -COORD_LIMIT <= p.x && p.x <= COORD_LIMIT && -COORD_LIMIT <= p.y && p.y <= COORD_LIMIT
}

/// Whether both end points of every segment are in bounds.
pub open spec fn segments_in_bounds(segments: Seq<LineSegment>) -> bool {
    forall|i: int|
        0 <= i < segments.len() ==> in_bounds((#[trigger] segments[i]).p1) && in_bounds(
            segments[i].p2,
        )
}

/// Whether both end points of every segment are in bounds.
pub fn are_segments_in_bounds(segments: &Vec<LineSegment>) -> (r: bool)
    ensures
        r == segments_in_bounds(segments@),
{
    let mut i: usize = 0;
    while i < segments.len()
        invariant
            i <= segments@.len(),
            forall|j: int|
                0 <= j < i ==> in_bounds((#[trigger] segments@[j]).p1) && in_bounds(
                    segments@[j].p2,
                ),
        decreases segments@.len() - i,
    {
        if !is_in_bounds(segments[i].p1) || !is_in_bounds(segments[i].p2) {
            return false;
        }
        i += 1;
    }
    true
}

/// Whether every point is in bounds.
pub open spec fn points_in_bounds(points: Seq<Point>) -> bool {
    forall|i: int| 0 <= i < points.len() ==> in_bounds(#[trigger] points[i])
}

/// Whether every point is in bounds.
pub fn are_points_in_bounds(points: &Vec<Point>) -> (r: bool)
    ensures
        r == points_in_bounds(points@),
{
    let mut i: usize = 0;
    while i < points.len()
        invariant
            i <= points@.len(),
            forall|j: int| 0 <= j < i ==> in_bounds(#[trigger] points@[j]),
        decreases points@.len() - i,
    {
        if !is_in_bounds(points[i]) {
            return false;
        }
        i += 1;
    }
    true
}

impl TerrainView {
    /// Whether every point of the shape from which a waypoint is set off is
    /// in bounds: the corners of a polygon, the rim points of a circle.
    pub open spec fn anchors_in_bounds(self) -> bool {
        match self.shape {
            ShapeView::Polygon(sides) => segments_in_bounds(sides),
            ShapeView::Circle(circle) => points_in_bounds(circle.rim),
        }
    }
}

impl Terrain {
    /// Whether every point of the shape from which a waypoint is set off is
    /// in bounds.
    pub fn has_anchors_in_bounds(&self) -> (r: bool)
        ensures
            r == self@.anchors_in_bounds(),
    {
        match &self.shape {
            TerrainShape::Polygon(sides) => are_segments_in_bounds(sides),
            TerrainShape::Circle(circle) => are_points_in_bounds(&circle.rim),
        }
    }
}

} // verus!
