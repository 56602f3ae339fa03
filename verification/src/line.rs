//! Infinite lines.
//!
//! A line is kept as a point on it and a vector along it. The vector is the
//! slope as a fraction that is never divided out: its `dy` over its `dx`. A
//! vertical line is a line whose vector has no `dx`.

use crate::geometry::{
    directions_nearly_parallel, nearly_parallel, Direction, LineSegment, Point, SPAN_LIMIT,
};
use crate::numeric::{floor_div, lemma_product_bound, product};
use vstd::prelude::*;

verus! {

/// The line through `p1` along `m`. A line whose `m` is the zero vector has
/// no direction; it meets nothing.
#[derive(Debug, Clone, Copy, PartialEq, Eq, Structural)]
pub struct Line {
    pub m: Direction,
    pub p1: Point,
}

/// The quotient of `n` by `d`, rounded toward negative infinity, for a `d`
/// of either sign.
pub open spec fn floor_ratio(n: int, d: int) -> int
    recommends
        d != 0,
{
    if d > 0 {
        n / d
    } else {
        (-n) / (-d)
    }
}

/// Whether the number is a coordinate.
pub open spec fn is_coordinate(v: int) -> bool {
    i32::MIN <= v <= i32::MAX
}

/// `n / d` rounded toward negative infinity, for a `d` of either sign that
/// is not zero.
fn floor_of_ratio(n: i128, d: i128) -> (r: i128)
    requires
        d != 0,
        -0x4000_0000_0000_0000_0000_0000_0000_0000 < n < 0x4000_0000_0000_0000_0000_0000_0000_0000,
        -0x4000_0000_0000_0000_0000_0000_0000_0000 < d < 0x4000_0000_0000_0000_0000_0000_0000_0000,
    ensures
        r == floor_ratio(n as int, d as int),
{
    if d > 0 {
        floor_div(n, d)
    } else {
        floor_div(-n, -d)
    }
}

impl Line {
    /// The vector along the line is small enough for exact arithmetic.
    pub open spec fn wf(self) -> bool {
        self.m.wf()
    }

    pub fn new(m: Direction, p1: Point) -> (line: Self)
        ensures
            line.m == m,
            line.p1 == p1,
    {
        Self { m, p1 }
    }

    /// The line through two points. Its vector leads from the second point
    /// to the first; where the two points coincide, the line has no
    /// direction.
    pub fn from_points(p1: Point, p2: Point) -> (line: Self)
        ensures
            line.m == Direction::spec_between(p2, p1),
            line.p1 == p1,
            line.wf(),
            line.passes(p1.x as int, p1.y as int),
            line.passes(p2.x as int, p2.y as int),
    {
        let line = Self { m: Direction::between(p2, p1), p1 };
        assert(line.passes(p2.x as int, p2.y as int)) by (nonlinear_arith)
            requires
                line.m.dx == p1.x - p2.x,
                line.m.dy == p1.y - p2.y,
                line.p1 == p1,
                line.passes(p2.x as int, p2.y as int) == ((p2.y - line.p1.y) * line.m.dx == (p2.x
                    - line.p1.x) * line.m.dy),
        ;
        line
    }

    /// The line through a point in a given direction.
    pub fn from_point_and_angle(p1: Point, angle: Direction) -> (line: Self)
        ensures
            line.m == angle,
            line.p1 == p1,
    {
        Self { m: angle, p1 }
    }

    pub open spec fn spec_is_vertical(self) -> bool {
        self.m.dx == 0 && self.m.dy != 0
    }

    pub open spec fn spec_is_horizontal(self) -> bool {
        self.m.dy == 0 && self.m.dx != 0
    }

    /// Whether the line runs straight up and down: its slope is infinite.
    pub fn is_vertical(&self) -> (r: bool)
        ensures
            r == self.spec_is_vertical(),
    {
        self.m.dx == 0 && self.m.dy != 0
    }

    /// Whether the line runs straight left and right: its slope is zero.
    pub fn is_horizontal(&self) -> (r: bool)
        ensures
            r == self.spec_is_horizontal(),
    {
        self.m.dy == 0 && self.m.dx != 0
    }

    /// Whether the point `(x, y)` lies on the line.
    pub open spec fn passes(self, x: int, y: int) -> bool {
        (y - self.p1.y) * self.m.dx == (x - self.p1.x) * self.m.dy
    }

    /// The `y` at which the line passes `x`, rounded down. A vertical line
    /// and a line without direction pass no `x` at one `y`.
    pub open spec fn spec_calc_y(self, x: int) -> int
        recommends
            self.m.dx != 0,
    {
        self.p1.y + floor_ratio((x - self.p1.x) * self.m.dy, self.m.dx as int)
    }

    /// The `x` at which the line passes `y`, rounded down. A horizontal
    /// line and a line without direction pass no `y` at one `x`.
    pub open spec fn spec_calc_x(self, y: int) -> int
        recommends
            self.m.dy != 0,
    {
        self.p1.x + floor_ratio((y - self.p1.y) * self.m.dx, self.m.dy as int)
    }

    /// One coordinate at which the line passes the other coordinate `at`:
    /// `from + floor((at - base) * num / den)`.
    fn pass(from: i32, base: i32, at: i32, num: i64, den: i64) -> (r: Option<i32>)
        requires
            -SPAN_LIMIT <= num <= SPAN_LIMIT,
            -SPAN_LIMIT <= den <= SPAN_LIMIT,
        ensures
            r.is_some() == (den != 0 && is_coordinate(
                from + floor_ratio((at - base) * num, den as int),
            )),
            r.is_some() ==> r.unwrap() == from + floor_ratio((at - base) * num, den as int),
    {
        if den == 0 {
            return None;
        }
        let step: i128 = at as i128 - base as i128;
        proof {
            lemma_product_bound(step as int, num as int, 0x1_0000_0000, 0x1_0000_0000);
            assert(0x1_0000_0000int * 0x1_0000_0000int == 0x1_0000_0000_0000_0000int);
        }
        let q = floor_of_ratio(product(step, num as i128), den as i128);
        Self::shifted(from, q)
    }

    /// `from + q`, if it is a coordinate.
    fn shifted(from: i32, q: i128) -> (r: Option<i32>)
        ensures
            r.is_some() == is_coordinate(from + q),
            r.is_some() ==> r.unwrap() == from + q,
    {
        if q < -0x1_0000_0000 || q > 0x1_0000_0000 {
            return None;
        }
        let v: i128 = from as i128 + q;
        if v < i32::MIN as i128 || v > i32::MAX as i128 {
            None
        } else {
            Some(v as i32)
        }
    }

    /// The `x` at which the line passes `y`, rounded down, if there is one
    /// such `x` and it is a coordinate.
    pub fn calc_x(&self, y: i32) -> (r: Option<i32>)
        requires
            self.wf(),
        ensures
            r.is_some() == (self.m.dy != 0 && is_coordinate(self.spec_calc_x(y as int))),
            r.is_some() ==> r.unwrap() == self.spec_calc_x(y as int),
    {
        Self::pass(self.p1.x, self.p1.y, y, self.m.dx, self.m.dy)
    }

    /// The `y` at which the line passes `x`, rounded down, if there is one
    /// such `y` and it is a coordinate.
    pub fn calc_y(&self, x: i32) -> (r: Option<i32>)
        requires
            self.wf(),
        ensures
            r.is_some() == (self.m.dx != 0 && is_coordinate(self.spec_calc_y(x as int))),
            r.is_some() ==> r.unwrap() == self.spec_calc_y(x as int),
    {
        Self::pass(self.p1.y, self.p1.x, x, self.m.dy, self.m.dx)
    }

    /// Whether the two lines count as parallel: both are vertical, or one of
    /// them has no direction, or their slopes differ by less than one part
    /// in [`PARALLEL_LIMIT`](crate::geometry::PARALLEL_LIMIT).
    pub open spec fn parallel(self, other: Line) -> bool {
        nearly_parallel(self.m, other.m)
    }

    /// The first coordinate of the point where the two lines meet, rounded
    /// down. The exact point is `p1 + (n / d) * m`, where `d` is the cross
    /// product of the two vectors and `n` the cross product of the vector
    /// from `self.p1` to `other.p1` with the vector of `other`.
    pub open spec fn meet_x(self, other: Line) -> int
        recommends
            !self.parallel(other),
    {
        self.p1.x + floor_ratio(
            Direction::spec_between(self.p1, other.p1).cross(other.m) * self.m.dx,
            self.m.cross(other.m),
        )
    }

    /// The second coordinate of the point where the two lines meet, rounded
    /// down.
    pub open spec fn meet_y(self, other: Line) -> int
        recommends
            !self.parallel(other),
    {
        self.p1.y + floor_ratio(
            Direction::spec_between(self.p1, other.p1).cross(other.m) * self.m.dy,
            self.m.cross(other.m),
        )
    }

    /// The lattice point at or just below and left of the point where the
    /// two lines meet. There is none if the lines count as parallel, if one
    /// of them has no direction, or if the point lies outside the range of
    /// coordinates.
    pub fn intersection(&self, other: &Line) -> (r: Option<Point>)
        requires
            self.wf(),
            other.wf(),
        ensures
            r.is_some() == (!self.parallel(*other) && is_coordinate(self.meet_x(*other))
                && is_coordinate(self.meet_y(*other))),
            r matches Some(p) ==> p.x == self.meet_x(*other) && p.y == self.meet_y(*other),
    {
        if directions_nearly_parallel(&self.m, &other.m) {
            return None;
        }
        let den = self.m.cross_with(&other.m);
        let w = Direction::between(self.p1, other.p1);
        let n = w.cross_with(&other.m);
        proof {
            lemma_product_bound(
                n as int,
                self.m.dx as int,
                0x2_0000_0000_0000_0000,
                0x1_0000_0000,
            );
            lemma_product_bound(
                n as int,
                self.m.dy as int,
                0x2_0000_0000_0000_0000,
                0x1_0000_0000,
            );
            assert(0x2_0000_0000_0000_0000int * 0x1_0000_0000int
                == 0x2_0000_0000_0000_0000_0000_0000int);
        }
        let qx = floor_of_ratio(product(n, self.m.dx as i128), den);
        let qy = floor_of_ratio(product(n, self.m.dy as i128), den);
        match (Self::shifted(self.p1.x, qx), Self::shifted(self.p1.y, qy)) {
            (Some(x), Some(y)) => Some(Point { x, y }),
            _ => None,
        }
    }

    /// The line through `p` that stands at a right angle to this line.
    pub fn get_perpendicular_through_point(&self, p: Point) -> (line: Self)
        requires
            self.wf(),
        ensures
            line.m == self.m.spec_quarter_turn(),
            line.p1 == p,
            line.m.dot(self.m) == 0,
            line.wf(),
            line.passes(p.x as int, p.y as int),
    {
        let m = self.m.quarter_turn();
        assert(m.dot(self.m) == 0) by (nonlinear_arith)
            requires
                m.dx == -self.m.dy,
                m.dy == self.m.dx,
                m.dot(self.m) == m.dx * self.m.dx + m.dy * self.m.dy,
        ;
        assert(0 * m.dx == 0 * m.dy) by (nonlinear_arith);
        Self { m, p1: p }
    }
}

impl Point {
    /// The point at which the line passes `x`, with `y` rounded down, if
    /// there is one such point on the lattice.
    pub fn from_line_x(line: &Line, x: i32) -> (r: Option<Point>)
        requires
            line.wf(),
        ensures
            r.is_some() == (line.m.dx != 0 && is_coordinate(line.spec_calc_y(x as int))),
            r matches Some(p) ==> p.x == x && p.y == line.spec_calc_y(x as int),
    {
        match line.calc_y(x) {
            Some(y) => Some(Point { x, y }),
            None => None,
        }
    }
}

impl LineSegment {
    /// The line that carries the segment.
    pub fn line(&self) -> (line: Line)
        ensures
            line.m == Direction::spec_between(self.p2, self.p1),
            line.p1 == self.p1,
            line.wf(),
            line.passes(self.p1.x as int, self.p1.y as int),
            line.passes(self.p2.x as int, self.p2.y as int),
    {
        Line::from_points(self.p1, self.p2)
    }
}

} // verus!
