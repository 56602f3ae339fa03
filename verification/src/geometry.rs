//! The geometry kernel: lattice points, directions, segments, rectangles and
//! circles, with intersection and containment tests.
//!
//! All coordinates are integers in a fixed-point unit chosen by the caller.
//! The point where two lines meet is kept as a pair of fractions, so every
//! test is decided without rounding. Two tolerances are part of the tests:
//! lines whose slopes differ by less than one part in [`PARALLEL_LIMIT`] count
//! as parallel, and a meeting point that lies within one part in
//! [`POINT_TOLERANCE_DIVISOR`] of a lattice unit of an end point of a segment
//! counts as lying on the segment.

use crate::numeric::{
    floor_div, is_isqrt, isqrt, isqrt_spec, lemma_product_bound, magnitude, product,
};
use vstd::prelude::*;

verus! {

/// Distances and costs are measured in units of `1 / COST_SCALE` of a
/// coordinate unit.
pub const COST_SCALE: u64 = 100_000;

/// The largest magnitude of a component of a well-formed direction: the
/// widest difference between two coordinates, rounded up to a power of two.
pub const SPAN_LIMIT: i64 = 0x1_0000_0000;

/// Two lines count as parallel where their slopes differ by less than one
/// part in this number.
pub const PARALLEL_LIMIT: i64 = 20_000_000;

/// A point that is nearer to an end point of a segment than one part in this
/// number of a lattice unit, in both coordinates, counts as the end point.
pub const POINT_TOLERANCE_DIVISOR: i64 = 1_000_000;

/// A point of the lattice.
#[derive(Clone, Copy, PartialEq, Eq, Structural, Debug, Hash)]
pub struct Point {
    pub x: i32,
    pub y: i32,
}

/// The length of the vector `(dx, dy)` in cost units, rounded down.
pub open spec fn scaled_length(dx: int, dy: int) -> int {
    isqrt_spec(COST_SCALE * COST_SCALE * (dx * dx + dy * dy))
}

impl Point {
    pub fn new(x: i32, y: i32) -> (p: Self)
        ensures
            p.x == x,
            p.y == y,
    {
        Self { x, y }
    }

    /// The Euclidean distance to `to` in cost units, rounded down.
    pub open spec fn spec_distance_to(self, to: Point) -> int {
        scaled_length(self.x - to.x, self.y - to.y)
    }

    /// The Euclidean distance to `to` in cost units, rounded down.
    pub fn distance_to(&self, to: Point) -> (r: u64)
        ensures
            r == self.spec_distance_to(to),
            is_isqrt(
                COST_SCALE * COST_SCALE * ((self.x - to.x) * (self.x - to.x) + (self.y - to.y) * (
                self.y - to.y)),
                r as int,
            ),
    {
        let dx: i128 = self.x as i128 - to.x as i128;
        let dy: i128 = self.y as i128 - to.y as i128;
        proof {
            lemma_product_bound(dx as int, dx as int, 0x1_0000_0000, 0x1_0000_0000);
            lemma_product_bound(dy as int, dy as int, 0x1_0000_0000, 0x1_0000_0000);
            assert(dx * dx >= 0) by (nonlinear_arith);
            assert(dy * dy >= 0) by (nonlinear_arith);
            assert(0x1_0000_0000int * 0x1_0000_0000int == 0x1_0000_0000_0000_0000int);
        }
        let sq: u128 = (dx * dx + dy * dy) as u128;
        proof {
            assert(COST_SCALE * COST_SCALE == 10_000_000_000int);
            assert(10_000_000_000int * sq <= 10_000_000_000int * 0x2_0000_0000_0000_0000int)
                by (nonlinear_arith)
                requires
                    sq <= 0x2_0000_0000_0000_0000int,
            ;
        }
        let scaled: u128 = 10_000_000_000u128 * sq;
        isqrt(scaled)
    }

    /// Whether the two points are the same within the tolerance for points.
    /// Lattice points that differ differ by a whole unit, so these are the
    /// points that coincide.
    pub fn is_same_as(&self, other: &Self) -> (r: bool)
        ensures
            r == (*self == *other),
    {
        self.x == other.x && self.y == other.y
    }
}

/// The direction of a ray, given by a vector along it. The zero vector
/// stands for "no direction".
#[derive(Clone, Copy, PartialEq, Eq, Structural, Debug)]
pub struct Direction {
    pub dx: i64,
    pub dy: i64,
}

impl Direction {
    /// Both components are small enough for exact arithmetic.
    pub open spec fn wf(self) -> bool {
        &&& -SPAN_LIMIT <= self.dx <= SPAN_LIMIT
        &&& -SPAN_LIMIT <= self.dy <= SPAN_LIMIT
    }

    pub open spec fn is_zero(self) -> bool {
        self.dx == 0 && self.dy == 0
    }

    /// The cross product with `other`: positive when `other` lies strictly
    /// counter-clockwise of `self` by less than half a turn.
    pub open spec fn cross(self, other: Direction) -> int {
        self.dx * other.dy - self.dy * other.dx
    }

    /// The dot product with `other`.
    pub open spec fn dot(self, other: Direction) -> int {
        self.dx * other.dx + self.dy * other.dy
    }

    /// The direction from `from` towards `to`.
    pub open spec fn spec_between(from: Point, to: Point) -> Direction {
        Direction { dx: (to.x - from.x) as i64, dy: (to.y - from.y) as i64 }
    }

    /// This direction turned counter-clockwise by a quarter turn.
    pub open spec fn spec_quarter_turn(self) -> Direction {
        Direction { dx: (-self.dy) as i64, dy: self.dx }
    }

    /// This direction turned clockwise by a quarter turn.
    pub open spec fn spec_quarter_turn_back(self) -> Direction {
        Direction { dx: self.dy, dy: (-self.dx) as i64 }
    }

    pub fn new(dx: i32, dy: i32) -> (d: Self)
        ensures
            d.dx == dx,
            d.dy == dy,
            d.wf(),
    {
        Self { dx: dx as i64, dy: dy as i64 }
    }

    /// The direction from `from` towards `to`.
    pub fn between(from: Point, to: Point) -> (d: Self)
        ensures
            d == Self::spec_between(from, to),
            d.dx == to.x - from.x,
            d.dy == to.y - from.y,
            d.wf(),
    {
        Self { dx: to.x as i64 - from.x as i64, dy: to.y as i64 - from.y as i64 }
    }

    /// The cross product with `other`.
    pub fn cross_with(&self, other: &Direction) -> (r: i128)
        requires
            self.wf(),
            other.wf(),
        ensures
            r == self.cross(*other),
            -0x2_0000_0000_0000_0000 <= r <= 0x2_0000_0000_0000_0000,
    {
        proof {
            lemma_product_bound(self.dx as int, other.dy as int, 0x1_0000_0000, 0x1_0000_0000);
            lemma_product_bound(self.dy as int, other.dx as int, 0x1_0000_0000, 0x1_0000_0000);
            assert(0x1_0000_0000int * 0x1_0000_0000int == 0x1_0000_0000_0000_0000int);
        }
        (self.dx as i128) * (other.dy as i128) - (self.dy as i128) * (other.dx as i128)
    }

    /// The dot product with `other`.
    pub fn dot_with(&self, other: &Direction) -> (r: i128)
        requires
            self.wf(),
            other.wf(),
        ensures
            r == self.dot(*other),
            -0x2_0000_0000_0000_0000 <= r <= 0x2_0000_0000_0000_0000,
    {
        proof {
            lemma_product_bound(self.dx as int, other.dx as int, 0x1_0000_0000, 0x1_0000_0000);
            lemma_product_bound(self.dy as int, other.dy as int, 0x1_0000_0000, 0x1_0000_0000);
            assert(0x1_0000_0000int * 0x1_0000_0000int == 0x1_0000_0000_0000_0000int);
        }
        (self.dx as i128) * (other.dx as i128) + (self.dy as i128) * (other.dy as i128)
    }

    /// This direction turned counter-clockwise by a quarter turn.
    pub fn quarter_turn(&self) -> (d: Self)
        requires
            self.wf(),
        ensures
            d == self.spec_quarter_turn(),
            d.wf(),
    {
        Self { dx: -self.dy, dy: self.dx }
    }

    /// This direction turned clockwise by a quarter turn.
    pub fn quarter_turn_back(&self) -> (d: Self)
        requires
            self.wf(),
        ensures
            d == self.spec_quarter_turn_back(),
            d.wf(),
    {
        Self { dx: self.dy, dy: -self.dx }
    }
}

/// The closed segment between two lattice points. The line that carries it
/// is always the one through its end points.
#[derive(Clone, Copy, PartialEq, Eq, Structural, Debug)]
pub struct LineSegment {
    pub p1: Point,
    pub p2: Point,
}

/// Whether lines along the two directions count as parallel: they are
/// parallel, or one of the directions is the zero vector, or neither line is
/// vertical and their slopes differ by less than one part in
/// [`PARALLEL_LIMIT`].
pub open spec fn nearly_parallel(d1: Direction, d2: Direction) -> bool {
    ||| d1.cross(d2) == 0
    ||| d1.dx != 0 && d2.dx != 0 && PARALLEL_LIMIT * magnitude(d1.cross(d2)) < magnitude(
        d1.dx * d2.dx,
    )
}

/// Whether lines along the two directions count as parallel.
pub fn directions_nearly_parallel(d1: &Direction, d2: &Direction) -> (r: bool)
    requires
        d1.wf(),
        d2.wf(),
    ensures
        r == nearly_parallel(*d1, *d2),
{
    let c = d1.cross_with(d2);
    if c == 0 {
        return true;
    }
    if d1.dx == 0 || d2.dx == 0 {
        return false;
    }
    let spread: i128 = if c > 0 {
        c
    } else {
        -c
    };
    proof {
        lemma_product_bound(d1.dx as int, d2.dx as int, 0x1_0000_0000, 0x1_0000_0000);
        assert(0x1_0000_0000int * 0x1_0000_0000int == 0x1_0000_0000_0000_0000int);
    }
    let run: i128 = (d1.dx as i128) * (d2.dx as i128);
    let run: i128 = if run > 0 {
        run
    } else {
        -run
    };
    product(spread, 20_000_000) < run
}

/// Whether the fraction `n / d`, with a positive `d`, lies within the
/// tolerance for points of the whole number `e`.
pub open spec fn near(n: int, d: int, e: int) -> bool {
    -d < POINT_TOLERANCE_DIVISOR * (n - e * d) < d
}

/// Whether the fraction `n / d`, with a positive `d`, lies between the
/// whole numbers `a` and `b`, in either order, bounds included.
pub open spec fn within(n: int, d: int, a: int, b: int) -> bool {
    (a * d <= n <= b * d) || (b * d <= n <= a * d)
}

/// Whether the fraction `n / d` lies within the tolerance for points of
/// `e`.
fn is_near(n: i128, d: i128, e: i32) -> (r: bool)
    requires
        0 < d <= 0x2_0000_0000_0000_0000,
        -0x10_0000_0000_0000_0000_0000_0000 <= n <= 0x10_0000_0000_0000_0000_0000_0000,
    ensures
        r == near(n as int, d as int, e as int),
{
    proof {
        lemma_product_bound(d as int, e as int, 0x2_0000_0000_0000_0000, 0x8000_0000);
        assert(0x2_0000_0000_0000_0000int * 0x8000_0000int == 0x1_0000_0000_0000_0000_0000_0000int);
        assert(d * e == e * d) by (nonlinear_arith);
    }
    let gap: i128 = n - product(d, e as i128);
    if gap >= d || gap <= -d {
        proof {
            let g = gap as int;
            let di = d as int;
            if g >= di {
                assert(POINT_TOLERANCE_DIVISOR * g >= di) by (nonlinear_arith)
                    requires
                        g >= di,
                        di > 0,
                        POINT_TOLERANCE_DIVISOR == 1_000_000,
                ;
            } else {
                assert(POINT_TOLERANCE_DIVISOR * g <= -di) by (nonlinear_arith)
                    requires
                        g <= -di,
                        di > 0,
                        POINT_TOLERANCE_DIVISOR == 1_000_000,
                ;
            }
        }
        return false;
    }
    let wide = product(gap, 1_000_000);
    proof {
        assert(gap * 1_000_000 == POINT_TOLERANCE_DIVISOR * (n - e * d)) by (nonlinear_arith)
            requires
                gap == n - e * d,
                POINT_TOLERANCE_DIVISOR == 1_000_000,
        ;
    }
    -d < wide && wide < d
}

/// Whether the fraction `n / d` lies between `a` and `b`, in either order.
fn is_within(n: i128, d: i128, a: i32, b: i32) -> (r: bool)
    requires
        0 < d <= 0x2_0000_0000_0000_0000,
    ensures
        r == within(n as int, d as int, a as int, b as int),
{
    proof {
        lemma_product_bound(d as int, a as int, 0x2_0000_0000_0000_0000, 0x8000_0000);
        lemma_product_bound(d as int, b as int, 0x2_0000_0000_0000_0000, 0x8000_0000);
        assert(0x2_0000_0000_0000_0000int * 0x8000_0000int == 0x1_0000_0000_0000_0000_0000_0000int);
        assert(d * a == a * d) by (nonlinear_arith);
        assert(d * b == b * d) by (nonlinear_arith);
    }
    let low = product(d, a as i128);
    let high = product(d, b as i128);
    (low <= n && n <= high) || (high <= n && n <= low)
}

impl LineSegment {
    pub fn new(p1: Point, p2: Point) -> (s: Self)
        ensures
            s.p1 == p1,
            s.p2 == p2,
    {
        Self { p1, p2 }
    }

    /// The direction from the first end point to the second.
    pub open spec fn direction(self) -> Direction {
        Direction::spec_between(self.p1, self.p2)
    }

    /// Whether the segment is steeper than the diagonal: it is vertical or
    /// the magnitude of its slope is more than one.
    pub open spec fn is_steep(self) -> bool {
        magnitude(self.direction().dy as int) > magnitude(self.direction().dx as int)
    }

    /// The denominator of the point where the carrying lines of the two
    /// segments meet: the magnitude of the cross product of their
    /// directions. The lines meet at
    /// `(meet_x / meet_den, meet_y / meet_den)`.
    pub open spec fn meet_den(self, other: LineSegment) -> int {
        magnitude(self.direction().cross(other.direction()))
    }

    /// How far along `self` the carrying lines meet, as a numerator over
    /// `meet_den`: the lines meet at `p1 + (meet_along / meet_den) *
    /// direction`.
    pub open spec fn meet_along(self, other: LineSegment) -> int {
        let n = Direction::spec_between(self.p1, other.p1).cross(other.direction());
        if self.direction().cross(other.direction()) > 0 {
            n
        } else {
            -n
        }
    }

    /// The numerator of the first coordinate of the point where the
    /// carrying lines meet.
    pub open spec fn meet_x(self, other: LineSegment) -> int {
        self.p1.x * self.meet_den(other) + self.meet_along(other) * self.direction().dx
    }

    /// The numerator of the second coordinate of the point where the
    /// carrying lines meet.
    pub open spec fn meet_y(self, other: LineSegment) -> int {
        self.p1.y * self.meet_den(other) + self.meet_along(other) * self.direction().dy
    }

    /// Whether the point `(xn / d, yn / d)` of the carrying line counts as
    /// lying on the segment: it lies within the tolerance for points of an end
    /// point, or it lies between the end points. The latter is decided by the
    /// second coordinate for a steep segment and by the first coordinate else.
    pub open spec fn holds(self, xn: int, yn: int, d: int) -> bool {
        ||| near(xn, d, self.p1.x as int) && near(yn, d, self.p1.y as int)
        ||| near(xn, d, self.p2.x as int) && near(yn, d, self.p2.y as int)
        ||| if self.is_steep() {
            within(yn, d, self.p1.y as int, self.p2.y as int)
        } else {
            within(xn, d, self.p1.x as int, self.p2.x as int)
        }
    }

    /// Whether the two segments meet: their carrying lines do not count as
    /// parallel, and the point where the lines meet counts as lying on both
    /// segments. Segments that count as parallel never meet, even when they
    /// overlap, and a segment without length meets nothing.
    pub open spec fn crosses(self, other: LineSegment) -> bool {
        &&& !nearly_parallel(self.direction(), other.direction())
        &&& self.holds(self.meet_x(other), self.meet_y(other), self.meet_den(other))
        &&& other.holds(self.meet_x(other), self.meet_y(other), self.meet_den(other))
    }

    /// The lattice point nearest to the point where the carrying lines of the
    /// two segments meet; a coordinate half way between two lattice points is
    /// rounded up.
    pub open spec fn meeting_point(self, other: LineSegment) -> Point
        recommends
            self.crosses(other),
    {
        let d = self.meet_den(other);
        Point {
            x: ((2 * self.meet_x(other) + d) / (2 * d)) as i32,
            y: ((2 * self.meet_y(other) + d) / (2 * d)) as i32,
        }
    }

    /// Whether the point `(xn / d, yn / d)` counts as lying on the segment.
    fn holds_point(&self, xn: i128, yn: i128, d: i128) -> (r: bool)
        requires
            0 < d <= 0x2_0000_0000_0000_0000,
            -0x10_0000_0000_0000_0000_0000_0000 <= xn <= 0x10_0000_0000_0000_0000_0000_0000,
            -0x10_0000_0000_0000_0000_0000_0000 <= yn <= 0x10_0000_0000_0000_0000_0000_0000,
        ensures
            r == self.holds(xn as int, yn as int, d as int),
    {
        if is_near(xn, d, self.p1.x) && is_near(yn, d, self.p1.y) {
            return true;
        }
        if is_near(xn, d, self.p2.x) && is_near(yn, d, self.p2.y) {
            return true;
        }
        let dir = Direction::between(self.p1, self.p2);
        let rise: i64 = if dir.dy >= 0 {
            dir.dy
        } else {
            -dir.dy
        };
        let run: i64 = if dir.dx >= 0 {
            dir.dx
        } else {
            -dir.dx
        };
        if rise > run {
            is_within(yn, d, self.p1.y, self.p2.y)
        } else {
            is_within(xn, d, self.p1.x, self.p2.x)
        }
    }

    /// The point where the two segments meet, rounded to the nearest lattice
    /// point, or nothing when they do not meet.
    pub fn intersection(&self, other: &LineSegment) -> (r: Option<Point>)
        ensures
            r.is_some() == self.crosses(*other),
            r.is_some() ==> r.unwrap() == self.meeting_point(*other),
    {
        let d1 = Direction::between(self.p1, self.p2);
        let d2 = Direction::between(other.p1, other.p2);
        if directions_nearly_parallel(&d1, &d2) {
            return None;
        }
        let w = Direction::between(self.p1, other.p1);
        let c = d1.cross_with(&d2);
        let n = w.cross_with(&d2);
        let (d, t) = if c > 0 {
            (c, n)
        } else {
            (-c, -n)
        };
        proof {
            lemma_product_bound(d as int, self.p1.x as int, 0x2_0000_0000_0000_0000, 0x8000_0000);
            lemma_product_bound(d as int, self.p1.y as int, 0x2_0000_0000_0000_0000, 0x8000_0000);
            lemma_product_bound(t as int, d1.dx as int, 0x2_0000_0000_0000_0000, 0x1_0000_0000);
            lemma_product_bound(t as int, d1.dy as int, 0x2_0000_0000_0000_0000, 0x1_0000_0000);
            assert(0x2_0000_0000_0000_0000int * 0x8000_0000int == 0x1_0000_0000_0000_0000_0000_0000int);
            assert(0x2_0000_0000_0000_0000int * 0x1_0000_0000int
                == 0x2_0000_0000_0000_0000_0000_0000int);
            assert(d * self.p1.x == self.p1.x * d) by (nonlinear_arith);
            assert(d * self.p1.y == self.p1.y * d) by (nonlinear_arith);
        }
        let xn: i128 = product(d, self.p1.x as i128) + product(t, d1.dx as i128);
        let yn: i128 = product(d, self.p1.y as i128) + product(t, d1.dy as i128);
        assert(xn == self.meet_x(*other) && yn == self.meet_y(*other) && d == self.meet_den(*other));
        if !self.holds_point(xn, yn, d) || !other.holds_point(xn, yn, d) {
            return None;
        }
        proof {
            assert(!d1.is_zero()) by (nonlinear_arith)
                requires
                    d1.dx * d2.dy - d1.dy * d2.dx != 0,
            ;
            lemma_meeting_point_in_box(*self, t as int, d as int);
        }
        let x = floor_div(2 * xn + d, 2 * d);
        let y = floor_div(2 * yn + d, 2 * d);
        Some(Point { x: x as i32, y: y as i32 })
    }
}

/// A point of the carrying line that counts as lying on a segment with
/// length is rounded to a lattice point of the box that the two end points
/// span.
proof fn lemma_meeting_point_in_box(s: LineSegment, t: int, d: int)
    requires
        d > 0,
        !s.direction().is_zero(),
        s.holds(s.p1.x * d + t * s.direction().dx, s.p1.y * d + t * s.direction().dy, d),
    ensures
        ({
            let xn = s.p1.x * d + t * s.direction().dx;
            let yn = s.p1.y * d + t * s.direction().dy;
            &&& i32::MIN <= (2 * xn + d) / (2 * d) <= i32::MAX
            &&& i32::MIN <= (2 * yn + d) / (2 * d) <= i32::MAX
        }),
{
    let dx = s.direction().dx as int;
    let dy = s.direction().dy as int;
    let xn = s.p1.x * d + t * dx;
    let yn = s.p1.y * d + t * dy;
    let x1 = s.p1.x as int;
    let y1 = s.p1.y as int;
    let x2 = s.p2.x as int;
    let y2 = s.p2.y as int;
    assert(x2 == x1 + dx && y2 == y1 + dy);
    if near(xn, d, x1) && near(yn, d, y1) {
        lemma_rounds_to(xn, d, x1, x1);
        lemma_rounds_to(yn, d, y1, y1);
    } else if near(xn, d, x2) && near(yn, d, y2) {
        lemma_rounds_to(xn, d, x2, x2);
        lemma_rounds_to(yn, d, y2, y2);
    } else {
        // The point lies between the end points in the coordinate in which
        // the segment has an extent, so it lies between them along the
        // segment.
        if s.is_steep() {
            lemma_along_the_segment(yn, d, y1, dy, t);
        } else {
            lemma_along_the_segment(xn, d, x1, dx, t);
        }
        lemma_between_the_ends(xn, d, x1, dx, t);
        lemma_between_the_ends(yn, d, y1, dy, t);
        if dx >= 0 {
            lemma_rounds_to(xn, d, x1, x2);
        } else {
            lemma_rounds_to(xn, d, x2, x1);
        }
        if dy >= 0 {
            lemma_rounds_to(yn, d, y1, y2);
        } else {
            lemma_rounds_to(yn, d, y2, y1);
        }
    }
}

/// A fraction that lies between two whole numbers, or within the tolerance
/// for points of them, is rounded to a whole number between them.
proof fn lemma_rounds_to(n: int, d: int, low: int, high: int)
    requires
        d > 0,
        low <= high,
        -d < POINT_TOLERANCE_DIVISOR * (n - low * d),
        POINT_TOLERANCE_DIVISOR * (n - high * d) < d,
    ensures
        low <= (2 * n + d) / (2 * d) <= high,
{
    let q = (2 * n + d) / (2 * d);
    vstd::arithmetic::div_mod::lemma_fundamental_div_mod(2 * n + d, 2 * d);
    vstd::arithmetic::div_mod::lemma_mod_bound(2 * n + d, 2 * d);
    let below = n - low * d;
    let above = n - high * d;
    assert(2 * below > -d) by (nonlinear_arith)
        requires
            -d < POINT_TOLERANCE_DIVISOR * below,
            d > 0,
            POINT_TOLERANCE_DIVISOR == 1_000_000,
    ;
    assert(2 * above < d) by (nonlinear_arith)
        requires
            POINT_TOLERANCE_DIVISOR * above < d,
            d > 0,
            POINT_TOLERANCE_DIVISOR == 1_000_000,
    ;
    assert(low <= q <= high) by (nonlinear_arith)
        requires
            2 * n + d == (2 * d) * q + (2 * n + d) % (2 * d),
            0 <= (2 * n + d) % (2 * d) < 2 * d,
            2 * (n - low * d) > -d,
            2 * (n - high * d) < d,
            d > 0,
    ;
}

/// A point of the line that lies between the end points of a segment in a
/// coordinate in which the segment has an extent lies between them along
/// the segment.
proof fn lemma_along_the_segment(n: int, d: int, start: int, extent: int, t: int)
    requires
        d > 0,
        extent != 0,
        n == start * d + t * extent,
        within(n, d, start, start + extent),
    ensures
        0 <= t <= d,
{
    assert((start + extent) * d == start * d + extent * d) by (nonlinear_arith);
    if extent > 0 {
        assert(extent * d > 0) by (nonlinear_arith)
            requires
                extent > 0,
                d > 0,
        ;
        assert(0 <= t <= d) by (nonlinear_arith)
            requires
                0 <= t * extent <= extent * d,
                extent > 0,
        ;
    } else {
        assert(extent * d < 0) by (nonlinear_arith)
            requires
                extent < 0,
                d > 0,
        ;
        assert(0 <= t <= d) by (nonlinear_arith)
            requires
                extent * d <= t * extent <= 0,
                extent < 0,
        ;
    }
}

/// A point that lies between the end points along a segment lies between
/// them in each coordinate.
proof fn lemma_between_the_ends(n: int, d: int, start: int, extent: int, t: int)
    requires
        d > 0,
        0 <= t <= d,
        n == start * d + t * extent,
    ensures
        extent >= 0 ==> POINT_TOLERANCE_DIVISOR * (n - start * d) >= 0 && POINT_TOLERANCE_DIVISOR
            * (n - (start + extent) * d) <= 0,
        extent <= 0 ==> POINT_TOLERANCE_DIVISOR * (n - (start + extent) * d) >= 0
            && POINT_TOLERANCE_DIVISOR * (n - start * d) <= 0,
{
    assert((start + extent) * d == start * d + extent * d) by (nonlinear_arith);
    if extent >= 0 {
        assert(0 <= t * extent <= extent * d) by (nonlinear_arith)
            requires
                0 <= t <= d,
                extent >= 0,
        ;
    }
    if extent <= 0 {
        assert(extent * d <= t * extent <= 0) by (nonlinear_arith)
            requires
                0 <= t <= d,
                extent <= 0,
        ;
    }
    assert(forall|v: int| v >= 0 ==> #[trigger] (POINT_TOLERANCE_DIVISOR * v) >= 0);
    assert(forall|v: int| v <= 0 ==> #[trigger] (POINT_TOLERANCE_DIVISOR * v) <= 0);
}

/// Counting as parallel is mutual and does not depend on the way in which
/// a direction points.
proof fn lemma_nearly_parallel_either_way(d1: Direction, d2: Direction, e1: Direction)
    requires
        e1.dx == -d1.dx,
        e1.dy == -d1.dy,
    ensures
        nearly_parallel(d2, d1) == nearly_parallel(d1, d2),
        nearly_parallel(e1, d2) == nearly_parallel(d1, d2),
{
    assert(d2.cross(d1) == -d1.cross(d2)) by (nonlinear_arith)
        requires
            d2.cross(d1) == d2.dx * d1.dy - d2.dy * d1.dx,
            d1.cross(d2) == d1.dx * d2.dy - d1.dy * d2.dx,
    ;
    assert(e1.cross(d2) == -d1.cross(d2)) by (nonlinear_arith)
        requires
            e1.dx == -d1.dx,
            e1.dy == -d1.dy,
            e1.cross(d2) == e1.dx * d2.dy - e1.dy * d2.dx,
            d1.cross(d2) == d1.dx * d2.dy - d1.dy * d2.dx,
    ;
    assert(d2.dx * d1.dx == d1.dx * d2.dx) by (nonlinear_arith);
    assert(e1.dx * d2.dx == -(d1.dx * d2.dx)) by (nonlinear_arith)
        requires
            e1.dx == -d1.dx,
    ;
}

/// Meeting is mutual: the first segment meets the second exactly if the
/// second meets the first.
pub proof fn lemma_crosses_is_mutual(a: LineSegment, b: LineSegment)
    ensures
        a.crosses(b) == b.crosses(a),
{
    let d1 = a.direction();
    let d2 = b.direction();
    let w = Direction::spec_between(a.p1, b.p1);
    let back = Direction::spec_between(b.p1, a.p1);
    let c = d1.cross(d2);
    let n = w.cross(d2);
    let m = w.cross(d1);
    lemma_nearly_parallel_either_way(d1, d2, d1.spec_quarter_turn().spec_quarter_turn());
    assert(back.dx == -w.dx && back.dy == -w.dy);
    assert(d2.cross(d1) == -c) by (nonlinear_arith)
        requires
            d2.cross(d1) == d2.dx * d1.dy - d2.dy * d1.dx,
            c == d1.dx * d2.dy - d1.dy * d2.dx,
    ;
    assert(back.cross(d1) == -m) by (nonlinear_arith)
        requires
            back.dx == -w.dx,
            back.dy == -w.dy,
            back.cross(d1) == back.dx * d1.dy - back.dy * d1.dx,
            m == w.dx * d1.dy - w.dy * d1.dx,
    ;
    // The point of the line of `a` is the point of the line of `b`:
    // `c * w == n * d1 - m * d2`.
    assert(w.dx * c == n * d1.dx - m * d2.dx) by (nonlinear_arith)
        requires
            c == d1.dx * d2.dy - d1.dy * d2.dx,
            n == w.dx * d2.dy - w.dy * d2.dx,
            m == w.dx * d1.dy - w.dy * d1.dx,
    ;
    assert(w.dy * c == n * d1.dy - m * d2.dy) by (nonlinear_arith)
        requires
            c == d1.dx * d2.dy - d1.dy * d2.dx,
            n == w.dx * d2.dy - w.dy * d2.dx,
            m == w.dx * d1.dy - w.dy * d1.dx,
    ;
    assert(b.p1.x == a.p1.x + w.dx && b.p1.y == a.p1.y + w.dy);
    assert(b.p1.x * c == a.p1.x * c + w.dx * c) by (nonlinear_arith)
        requires
            b.p1.x == a.p1.x + w.dx,
    ;
    assert(b.p1.y * c == a.p1.y * c + w.dy * c) by (nonlinear_arith)
        requires
            b.p1.y == a.p1.y + w.dy,
    ;
    assert(b.p1.x * (-c) == -(b.p1.x * c) && b.p1.y * (-c) == -(b.p1.y * c) && a.p1.x * (-c) == -(
    a.p1.x * c) && a.p1.y * (-c) == -(a.p1.y * c)) by (nonlinear_arith);
    assert((-n) * d1.dx == -(n * d1.dx) && (-n) * d1.dy == -(n * d1.dy) && (-m) * d2.dx == -(m
        * d2.dx) && (-m) * d2.dy == -(m * d2.dy)) by (nonlinear_arith);
    if c != 0 {
        assert(b.meet_den(a) == a.meet_den(b));
        assert(b.meet_along(a) == if c > 0 {
            m
        } else {
            -m
        });
        assert(b.meet_x(a) == a.meet_x(b));
        assert(b.meet_y(a) == a.meet_y(b));
    }
}

/// Meeting does not depend on the direction in which a segment is given.
pub proof fn lemma_crosses_either_way(a: LineSegment, b: LineSegment)
    ensures
        (LineSegment { p1: a.p2, p2: a.p1 }).crosses(b) == a.crosses(b),
{
    let turned = LineSegment { p1: a.p2, p2: a.p1 };
    let d1 = a.direction();
    let d2 = b.direction();
    let e1 = turned.direction();
    let w = Direction::spec_between(a.p1, b.p1);
    let z = Direction::spec_between(a.p2, b.p1);
    let c = d1.cross(d2);
    let n = w.cross(d2);
    assert(e1.dx == -d1.dx && e1.dy == -d1.dy);
    assert(z.dx == w.dx - d1.dx && z.dy == w.dy - d1.dy);
    lemma_nearly_parallel_either_way(d1, d2, e1);
    assert(e1.cross(d2) == -c) by (nonlinear_arith)
        requires
            e1.dx == -d1.dx,
            e1.dy == -d1.dy,
            e1.cross(d2) == e1.dx * d2.dy - e1.dy * d2.dx,
            c == d1.dx * d2.dy - d1.dy * d2.dx,
    ;
    assert(z.cross(d2) == n - c) by (nonlinear_arith)
        requires
            z.dx == w.dx - d1.dx,
            z.dy == w.dy - d1.dy,
            z.cross(d2) == z.dx * d2.dy - z.dy * d2.dx,
            n == w.dx * d2.dy - w.dy * d2.dx,
            c == d1.dx * d2.dy - d1.dy * d2.dx,
    ;
    assert(a.p2.x == a.p1.x + d1.dx && a.p2.y == a.p1.y + d1.dy);
    if c == 0 {
        return ;
    }
    let den = a.meet_den(b);
    assert(turned.meet_den(b) == den);
    let t = a.meet_along(b);
    let s = turned.meet_along(b);
    assert(s == den - t);
    assert(a.p2.x * den + s * e1.dx == a.p1.x * den + t * d1.dx) by (nonlinear_arith)
        requires
            a.p2.x == a.p1.x + d1.dx,
            s == den - t,
            e1.dx == -d1.dx,
    ;
    assert(a.p2.y * den + s * e1.dy == a.p1.y * den + t * d1.dy) by (nonlinear_arith)
        requires
            a.p2.y == a.p1.y + d1.dy,
            s == den - t,
            e1.dy == -d1.dy,
    ;
    assert(turned.meet_x(b) == a.meet_x(b));
    assert(turned.meet_y(b) == a.meet_y(b));
    assert(turned.is_steep() == a.is_steep());
}

/// An axis-aligned rectangle given by its four sides.
#[derive(Clone, Copy, PartialEq, Eq, Structural, Debug)]
pub struct Rectangle {
    pub left: i32,
    pub top: i32,
    pub right: i32,
    pub bottom: i32,
}

impl Rectangle {
    pub fn new(left: i32, top: i32, right: i32, bottom: i32) -> (r: Self)
        ensures
            r == (Rectangle { left, top, right, bottom }),
    {
        Self { left, top, right, bottom }
    }

    /// Whether the point lies in the rectangle, sides included.
    pub open spec fn spec_contains(self, p: Point) -> bool {
        spec_between(p.x, self.left, self.right) && spec_between(p.y, self.top, self.bottom)
    }

    /// Whether the point lies in the rectangle, sides included.
    pub fn contains(&self, p: Point) -> (r: bool)
        ensures
            r == self.spec_contains(p),
    {
        between(p.x, self.left, self.right) && between(p.y, self.top, self.bottom)
    }

    /// The four sides: top, right, bottom, left.
    pub open spec fn spec_sides(self) -> Seq<LineSegment> {
        seq![
            LineSegment {
                p1: Point { x: self.left, y: self.top },
                p2: Point { x: self.right, y: self.top },
            },
            LineSegment {
                p1: Point { x: self.right, y: self.top },
                p2: Point { x: self.right, y: self.bottom },
            },
            LineSegment {
                p1: Point { x: self.right, y: self.bottom },
                p2: Point { x: self.left, y: self.bottom },
            },
            LineSegment {
                p1: Point { x: self.left, y: self.bottom },
                p2: Point { x: self.left, y: self.top },
            },
        ]
    }
}

impl LineSegment {
    /// Whether the segment touches the rectangle: one of its end points lies
    /// in it, or it meets one of the four sides.
    pub open spec fn spec_intersects_rect(self, rect: Rectangle) -> bool {
        ||| rect.spec_contains(self.p1)
        ||| rect.spec_contains(self.p2)
        ||| exists|k: int| 0 <= k < 4 && self.crosses(#[trigger] rect.spec_sides()[k])
    }

    /// Whether the segment touches the rectangle.
    pub fn intersects_rect(&self, rect: &Rectangle) -> (r: bool)
        ensures
            r == self.spec_intersects_rect(*rect),
    {
        if rect.contains(self.p1) || rect.contains(self.p2) {
            return true;
        }
        let a = Point { x: rect.left, y: rect.top };
        let b = Point { x: rect.right, y: rect.top };
        let c = Point { x: rect.right, y: rect.bottom };
        let d = Point { x: rect.left, y: rect.bottom };
        let ghost sides = rect.spec_sides();
        let top = LineSegment::new(a, b);
        let right = LineSegment::new(b, c);
        let bottom = LineSegment::new(c, d);
        let left = LineSegment::new(d, a);
        assert(sides[0] == top && sides[1] == right && sides[2] == bottom && sides[3] == left);
        let hit = self.intersection(&top).is_some() || self.intersection(&right).is_some()
            || self.intersection(&bottom).is_some() || self.intersection(&left).is_some();
        hit
    }
}

/// A circle, with the points on its rim beside which waypoints are placed.
///
/// Spacing points evenly around a circle takes trigonometry, which has no
/// exact form on the lattice; whoever builds the circle supplies them.
#[derive(Clone, Debug)]
pub struct Circle {
    pub center: Point,
    pub radius: i32,
    pub rim: Vec<Point>,
}

/// Whether `num` lies between `a` and `b`, in either order, bounds included.
pub fn between(num: i32, a: i32, b: i32) -> (r: bool)
    ensures
        r == spec_between(num, a, b),
{
    let (min, max) = if a < b {
        (a, b)
    } else {
        (b, a)
    };
    num >= min && num <= max
}

/// Whether `num` lies between `a` and `b`, in either order, bounds included.
pub open spec fn spec_between(num: i32, a: i32, b: i32) -> bool {
    (a <= num <= b) || (b <= num <= a)
}

} // verus!
