//! Directions as angles: their order around a point, the rule that decides
//! which gaps between walls get waypoints, and vectors of a given length.
//!
//! An angle is never computed. A direction is a vector with integer
//! components, and every comparison of angles is a sign test on a cross or a
//! dot product.

use crate::geometry::{scaled_length, Direction, COST_SCALE, SPAN_LIMIT};
use crate::numeric::{is_isqrt, isqrt, lemma_product_bound, magnitude};
use vstd::prelude::*;
use vstd::seq_lib::to_multiset_insert;

verus! {

/// The length of the unit vectors from which a bisector is formed.
pub const UNIT_LENGTH: i32 = 0x10_0000;

/// Whether the angle of `d` lies in the first half turn, from the positive
/// x axis up to but not including the negative x axis.
pub open spec fn in_first_half(d: Direction) -> bool {
    d.dy > 0 || (d.dy == 0 && d.dx > 0)
}

/// Whether the angle of `u`, taken in the full turn that starts at the
/// positive x axis, is strictly smaller than the angle of `v`.
pub open spec fn angle_before(u: Direction, v: Direction) -> bool {
    if in_first_half(u) == in_first_half(v) {
        u.cross(v) > 0
    } else {
        in_first_half(u)
    }
}

/// Whether the angle of `u` is strictly smaller than the angle of `v`.
pub fn precedes(u: &Direction, v: &Direction) -> (r: bool)
    requires
        u.wf(),
        v.wf(),
    ensures
        r == angle_before(*u, *v),
{
    let first_u = u.dy > 0 || (u.dy == 0 && u.dx > 0);
    let first_v = v.dy > 0 || (v.dy == 0 && v.dx > 0);
    if first_u == first_v {
        u.cross_with(v) > 0
    } else {
        first_u
    }
}

/// Of two directions, at most one comes before the other.
pub proof fn lemma_angle_before_asymmetric(u: Direction, v: Direction)
    requires
        angle_before(u, v),
    ensures
        !angle_before(v, u),
{
    assert(u.cross(v) == -v.cross(u)) by (nonlinear_arith)
        requires
            u.cross(v) == u.dx * v.dy - u.dy * v.dx,
            v.cross(u) == v.dx * u.dy - v.dy * u.dx,
    ;
}

/// Where `d` goes into a list sorted by angle: behind every direction whose
/// angle is not greater, so that directions of equal angle keep their order.
pub open spec fn insert_position(sorted: Seq<Direction>, d: Direction) -> int
    decreases sorted.len(),
{
    if sorted.len() == 0 {
        0
    } else if angle_before(d, sorted.last()) {
        insert_position(sorted.drop_last(), d)
    } else {
        sorted.len() as int
    }
}

/// The directions sorted by ascending angle. Directions of equal angle stay
/// in the order in which they were given.
pub open spec fn sorted_by_angle(s: Seq<Direction>) -> Seq<Direction>
    decreases s.len(),
{
    if s.len() == 0 {
        Seq::empty()
    } else {
        let rest = sorted_by_angle(s.drop_last());
        rest.insert(insert_position(rest, s.last()), s.last())
    }
}

/// The position at which a direction is inserted lies within the list, every
/// direction behind it has a greater angle, and the direction before it has
/// not.
pub proof fn lemma_insert_position(sorted: Seq<Direction>, d: Direction)
    ensures
        0 <= insert_position(sorted, d) <= sorted.len(),
        forall|k: int|
            insert_position(sorted, d) <= k < sorted.len() ==> angle_before(
                d,
                #[trigger] sorted[k],
            ),
        insert_position(sorted, d) > 0 ==> !angle_before(
            d,
            sorted[insert_position(sorted, d) - 1],
        ),
    decreases sorted.len(),
{
    if sorted.len() > 0 && angle_before(d, sorted.last()) {
        let front = sorted.drop_last();
        lemma_insert_position(front, d);
        assert forall|k: int| insert_position(sorted, d) <= k < sorted.len() implies angle_before(
            d,
            #[trigger] sorted[k],
        ) by {
            if k < front.len() {
                assert(sorted[k] == front[k]);
            }
        }
        if insert_position(sorted, d) > 0 {
            assert(sorted[insert_position(sorted, d) - 1] == front[insert_position(front, d) - 1]);
        }
    }
}

/// Whether no direction of the list has a smaller angle than the one before
/// it.
pub open spec fn ascending(s: Seq<Direction>) -> bool {
    forall|i: int| 0 <= i < s.len() - 1 ==> !angle_before(s[i + 1], #[trigger] s[i])
}

/// Sorting keeps the length and the directions, each as often as it was
/// given, and puts them in ascending order.
pub proof fn lemma_sorted_by_angle(s: Seq<Direction>)
    ensures
        sorted_by_angle(s).len() == s.len(),
        sorted_by_angle(s).to_multiset() == s.to_multiset(),
        ascending(sorted_by_angle(s)),
    decreases s.len(),
{
    if s.len() == 0 {
        assert(sorted_by_angle(s) =~= s);
    } else {
        let rest = sorted_by_angle(s.drop_last());
        let d = s.last();
        let j = insert_position(rest, d);
        lemma_sorted_by_angle(s.drop_last());
        lemma_insert_position(rest, d);
        let r = rest.insert(j, d);
        to_multiset_insert(rest, j, d);
        assert(s =~= s.drop_last().push(d));
        vstd::seq_lib::to_multiset_build(s.drop_last(), d);
        assert forall|i: int| 0 <= i < r.len() - 1 implies !angle_before(
            r[i + 1],
            #[trigger] r[i],
        ) by {
            if i + 1 < j {
                assert(r[i] == rest[i] && r[i + 1] == rest[i + 1]);
            } else if i + 1 == j {
                assert(r[i] == rest[j - 1]);
            } else if i == j {
                assert(r[i + 1] == rest[j]);
                lemma_angle_before_asymmetric(d, rest[j]);
            } else {
                assert(r[i] == rest[i - 1] && r[i + 1] == rest[i]);
            }
        }
    }
}

/// Sorts the directions by ascending angle. Directions of equal angle stay
/// in the order in which they were given.
pub fn sort_by_angle(v: &Vec<Direction>) -> (r: Vec<Direction>)
    requires
        forall|i: int| 0 <= i < v@.len() ==> (#[trigger] v@[i]).wf(),
    ensures
        r@ == sorted_by_angle(v@),
        forall|i: int| 0 <= i < r@.len() ==> (#[trigger] r@[i]).wf(),
{
    let mut sorted: Vec<Direction> = Vec::new();
    let mut i: usize = 0;
    while i < v.len()
        invariant
            i <= v@.len(),
            forall|k: int| 0 <= k < v@.len() ==> (#[trigger] v@[k]).wf(),
            forall|k: int| 0 <= k < sorted@.len() ==> (#[trigger] sorted@[k]).wf(),
            sorted@ == sorted_by_angle(v@.take(i as int)),
        decreases v@.len() - i,
    {
        let d = v[i];
        let mut j: usize = sorted.len();
        assert(sorted@.take(sorted@.len() as int) == sorted@);
        while j > 0 && precedes(&d, &sorted[j - 1])
            invariant
                j <= sorted@.len(),
                d.wf(),
                forall|k: int| 0 <= k < sorted@.len() ==> (#[trigger] sorted@[k]).wf(),
                insert_position(sorted@, d) == insert_position(sorted@.take(j as int), d),
            decreases j,
        {
            assert(sorted@.take(j as int).drop_last() == sorted@.take(j - 1));
            j -= 1;
        }
        proof {
            assert(v@.take(i + 1).drop_last() == v@.take(i as int));
        }
        let ghost before = sorted@;
        sorted.insert(j, d);
        assert forall|k: int| 0 <= k < sorted@.len() implies (#[trigger] sorted@[k]).wf() by {
            if k < j {
                assert(sorted@[k] == before[k]);
            } else if k > j {
                assert(sorted@[k] == before[k - 1]);
            }
        }
        i += 1;
    }
    assert(v@.take(v@.len() as int) == v@);
    sorted
}

/// How the waypoints of a gap are placed.
#[derive(Debug, Clone, Copy, PartialEq, Eq, Structural)]
pub enum GapClass {
    /// At most half a turn: no waypoint.
    Closed,
    /// More than half a turn and at most three quarters: a waypoint beside
    /// each of the two walls.
    Flanks,
    /// More than three quarters of a turn: a waypoint on the bisector and one
    /// beside each wall.
    FlanksAndBisector,
}

/// The class of the gap that opens counter-clockwise from the wall along `u`
/// to the wall along `v`. Where the two walls point the same way, the gap is
/// empty, unless `wrap` says that it is the gap from the last wall around the
/// corner back to the first, which is then the whole turn.
///
/// The cross product of `u` and `v` is negative exactly for gaps of more
/// than half and less than a whole turn; among these the dot product is
/// positive exactly for gaps of more than three quarters of a turn.
pub open spec fn gap_class(u: Direction, v: Direction, wrap: bool) -> GapClass {
    let c = u.cross(v);
    let d = u.dot(v);
    if c < 0 {
        if d > 0 {
            GapClass::FlanksAndBisector
        } else {
            GapClass::Flanks
        }
    } else if c == 0 && d > 0 && wrap {
        GapClass::FlanksAndBisector
    } else {
        GapClass::Closed
    }
}

/// Classifies the gap from the wall along `u` to the wall along `v`.
pub fn classify_gap(u: &Direction, v: &Direction, wrap: bool) -> (r: GapClass)
    requires
        u.wf(),
        v.wf(),
    ensures
        r == gap_class(*u, *v, wrap),
{
    let c = u.cross_with(v);
    let d = u.dot_with(v);
    if c < 0 {
        if d > 0 {
            GapClass::FlanksAndBisector
        } else {
            GapClass::Flanks
        }
    } else if c == 0 && d > 0 && wrap {
        GapClass::FlanksAndBisector
    } else {
        GapClass::Closed
    }
}

/// The quotient of `n` by a positive `d`, rounded toward zero.
pub open spec fn trunc_div(n: int, d: int) -> int {
    if n >= 0 {
        n / d
    } else {
        -((-n) / d)
    }
}

/// The component `c` of a vector of length `norm / COST_SCALE`, after the
/// vector was given the length `length`; rounded toward zero. A vector
/// without length stays as it is.
pub open spec fn stretch(c: int, length: int, norm: int) -> int {
    if norm <= 0 {
        0
    } else {
        trunc_div(length * c * COST_SCALE, norm)
    }
}

/// The vector along `d` of length `length`, each component rounded toward
/// zero. The zero vector stays the zero vector.
pub open spec fn spec_scale_to(d: Direction, length: int) -> Direction {
    let norm = scaled_length(d.dx as int, d.dy as int);
    Direction {
        dx: stretch(d.dx as int, length, norm) as i64,
        dy: stretch(d.dy as int, length, norm) as i64,
    }
}

/// One component of `scale_to`.
fn stretch_component(c: i64, length: i32, norm: u64) -> (r: i64)
    requires
        -SPAN_LIMIT <= c <= SPAN_LIMIT,
        0 <= length,
        norm >= COST_SCALE * c,
        norm >= COST_SCALE * (-c),
    ensures
        r == stretch(c as int, length as int, norm as int),
        -length <= r <= length,
        c >= 0 ==> r >= 0,
        c <= 0 ==> r <= 0,
{
    if norm == 0 {
        return 0;
    }
    let magnitude: u128 = if c >= 0 {
        c as u128
    } else {
        (-c) as u128
    };
    proof {
        lemma_product_bound(length as int, magnitude as int, 0x8000_0000, 0x1_0000_0000);
        assert(0x8000_0000int * 0x1_0000_0000int == 0x8000_0000_0000_0000int);
        assert(length * magnitude >= 0) by (nonlinear_arith)
            requires
                length >= 0,
                magnitude >= 0,
        ;
        assert(length * magnitude * 100_000 <= 0x8000_0000_0000_0000int * 100_000)
            by (nonlinear_arith)
            requires
                length * magnitude <= 0x8000_0000_0000_0000int,
        ;
    }
    let numerator: u128 = (length as u128) * magnitude * 100_000u128;
    let q: u128 = numerator / (norm as u128);
    proof {
        lemma_stretch(c as int, length as int, norm as int);
        if c < 0 {
            assert(length * c * COST_SCALE == -(numerator as int)) by (nonlinear_arith)
                requires
                    numerator == length * magnitude * 100_000,
                    magnitude == -c,
                    COST_SCALE == 100_000,
            ;
        }
    }
    if c >= 0 {
        q as i64
    } else {
        -(q as i64)
    }
}

impl Direction {
    /// The length of the vector in cost units, rounded down.
    pub fn scaled_norm(&self) -> (norm: u64)
        requires
            self.wf(),
        ensures
            norm == scaled_length(self.dx as int, self.dy as int),
            norm >= COST_SCALE * self.dx,
            norm >= COST_SCALE * (-self.dx),
            norm >= COST_SCALE * self.dy,
            norm >= COST_SCALE * (-self.dy),
    {
        let dx: i128 = self.dx as i128;
        let dy: i128 = self.dy as i128;
        proof {
            lemma_product_bound(dx as int, dx as int, 0x1_0000_0000, 0x1_0000_0000);
            lemma_product_bound(dy as int, dy as int, 0x1_0000_0000, 0x1_0000_0000);
            assert(dx * dx >= 0) by (nonlinear_arith);
            assert(dy * dy >= 0) by (nonlinear_arith);
            assert(0x1_0000_0000int * 0x1_0000_0000int == 0x1_0000_0000_0000_0000int);
        }
        let sq: u128 = (dx * dx + dy * dy) as u128;
        proof {
            assert(COST_SCALE * COST_SCALE == 10_000_000_000int);
            assert(10_000_000_000int * sq <= 10_000_000_000int * 0x2_0000_0000_0000_0000int)
                by (nonlinear_arith)
                requires
                    sq <= 0x2_0000_0000_0000_0000int,
            ;
        }
        let scaled: u128 = 10_000_000_000u128 * sq;
        let norm = isqrt(scaled);
        proof {
            lemma_norm_dominates(dx as int, dy as int, norm as int);
            lemma_norm_dominates(dy as int, dx as int, norm as int);
        }
        norm
    }

    /// The vector along this direction of length `length`, each component
    /// rounded toward zero.
    pub fn scale_to(&self, length: i32) -> (r: Direction)
        requires
            self.wf(),
            0 <= length,
        ensures
            r == spec_scale_to(*self, length as int),
            -length <= r.dx <= length,
            -length <= r.dy <= length,
            r.wf(),
    {
        let norm = self.scaled_norm();
        Direction {
            dx: stretch_component(self.dx, length, norm),
            dy: stretch_component(self.dy, length, norm),
        }
    }
}

/// The length of a vector in cost units is at least the magnitude of each
/// component in cost units.
proof fn lemma_norm_dominates(a: int, b: int, norm: int)
    requires
        is_isqrt(COST_SCALE * COST_SCALE * (a * a + b * b), norm),
    ensures
        norm >= COST_SCALE * a,
        norm >= COST_SCALE * (-a),
{
    let m = if a >= 0 {
        COST_SCALE * a
    } else {
        COST_SCALE * (-a)
    };
    assert(m >= 0);
    assert(m * m == COST_SCALE * COST_SCALE * (a * a)) by (nonlinear_arith)
        requires
            m == COST_SCALE * a || m == COST_SCALE * (-a),
    ;
    assert(COST_SCALE * COST_SCALE * (a * a) <= COST_SCALE * COST_SCALE * (a * a + b * b))
        by (nonlinear_arith);
    if norm < m {
        assert((norm + 1) * (norm + 1) <= m * m) by (nonlinear_arith)
            requires
                0 <= norm,
                norm + 1 <= m,
        ;
    }
}

/// The direction of the bisector of the gap from the wall along `u` to the
/// wall along `v`, for a gap of more than half a turn: the opposite of the
/// sum of the unit vectors along the two walls.
pub open spec fn spec_bisector(u: Direction, v: Direction) -> Direction {
    let a = spec_scale_to(u, UNIT_LENGTH as int);
    let b = spec_scale_to(v, UNIT_LENGTH as int);
    Direction { dx: (-(a.dx + b.dx)) as i64, dy: (-(a.dy + b.dy)) as i64 }
}

/// The direction of the bisector of the gap from the wall along `u` to the
/// wall along `v`.
pub fn bisector(u: &Direction, v: &Direction) -> (r: Direction)
    requires
        u.wf(),
        v.wf(),
    ensures
        r == spec_bisector(*u, *v),
        r.wf(),
{
    let a = u.scale_to(UNIT_LENGTH);
    let b = v.scale_to(UNIT_LENGTH);
    Direction { dx: -(a.dx + b.dx), dy: -(a.dy + b.dy) }
}

/// The directions in which waypoints are set off from a corner for the gap
/// from the wall along `u` to the wall along `v`: none for a closed gap;
/// else a quarter turn after `u` and a quarter turn before `v`, in this
/// order, behind the bisector where the gap has one.
pub open spec fn gap_bearings(u: Direction, v: Direction, wrap: bool) -> Seq<Direction> {
    match gap_class(u, v, wrap) {
        GapClass::Closed => Seq::empty(),
        GapClass::Flanks => seq![u.spec_quarter_turn(), v.spec_quarter_turn_back()],
        GapClass::FlanksAndBisector => seq![
            spec_bisector(u, v),
            u.spec_quarter_turn(),
            v.spec_quarter_turn_back(),
        ],
    }
}

/// A component keeps its sign when the vector is given a length, and it
/// does not become longer than the vector.
pub proof fn lemma_stretch(c: int, length: int, norm: int)
    requires
        0 <= length,
        norm >= COST_SCALE * c,
        norm >= COST_SCALE * (-c),
    ensures
        -length <= stretch(c, length, norm) <= length,
        c >= 0 ==> stretch(c, length, norm) >= 0,
        c <= 0 ==> stretch(c, length, norm) <= 0,
{
    if norm > 0 {
        let magnitude = if c >= 0 {
            c
        } else {
            -c
        };
        let n = length * magnitude * COST_SCALE;
        let q = n / norm;
        assert(length * magnitude >= 0) by (nonlinear_arith)
            requires
                length >= 0,
                magnitude >= 0,
        ;
        assert(n >= 0) by (nonlinear_arith)
            requires
                n == length * magnitude * COST_SCALE,
                length * magnitude >= 0,
        ;
        vstd::arithmetic::div_mod::lemma_fundamental_div_mod(n, norm);
        vstd::arithmetic::div_mod::lemma_mod_bound(n, norm);
        assert(n == length * (magnitude * COST_SCALE)) by (nonlinear_arith)
            requires
                n == length * magnitude * COST_SCALE,
        ;
        assert(n <= length * norm) by (nonlinear_arith)
            requires
                n == length * (magnitude * COST_SCALE),
                magnitude * COST_SCALE <= norm,
                length >= 0,
        ;
        assert(0 <= q <= length) by (nonlinear_arith)
            requires
                n == norm * q + n % norm,
                0 <= n % norm < norm,
                0 <= n <= length * norm,
                norm > 0,
                length >= 0,
        ;
        if c >= 0 {
            assert(length * c * COST_SCALE == n);
        } else {
            assert(length * c * COST_SCALE == -n) by (nonlinear_arith)
                requires
                    n == length * magnitude * COST_SCALE,
                    magnitude == -c,
            ;
        }
    }
}

/// A vector that is given a length keeps the sign of each component, and no
/// component becomes longer than the length.
pub proof fn lemma_scale_to(d: Direction, length: int)
    requires
        0 <= length <= i32::MAX,
    ensures
        -length <= spec_scale_to(d, length).dx <= length,
        -length <= spec_scale_to(d, length).dy <= length,
        d.dx >= 0 ==> spec_scale_to(d, length).dx >= 0,
        d.dx <= 0 ==> spec_scale_to(d, length).dx <= 0,
        d.dy >= 0 ==> spec_scale_to(d, length).dy >= 0,
        d.dy <= 0 ==> spec_scale_to(d, length).dy <= 0,
{
    let dx = d.dx as int;
    let dy = d.dy as int;
    assert(dx * dx >= 0) by (nonlinear_arith);
    assert(dy * dy >= 0) by (nonlinear_arith);
    assert(COST_SCALE * COST_SCALE * (dx * dx + dy * dy) >= 0) by (nonlinear_arith)
        requires
            dx * dx + dy * dy >= 0,
    ;
    crate::costs::lemma_isqrt_exists(COST_SCALE * COST_SCALE * (dx * dx + dy * dy));
    let norm = scaled_length(dx, dy);
    lemma_norm_dominates(dx, dy, norm);
    lemma_norm_dominates(dy, dx, norm);
    lemma_stretch(dx, length, norm);
    lemma_stretch(dy, length, norm);
}

/// A vector with a direction that is given a length of two or more does
/// not become the zero vector.
pub proof fn lemma_scale_to_not_zero(d: Direction, length: int)
    requires
        d.wf(),
        !d.is_zero(),
        2 <= length <= i32::MAX,
    ensures
        !spec_scale_to(d, length).is_zero(),
{
    let dx = d.dx as int;
    let dy = d.dy as int;
    assert(dx * dx >= 0) by (nonlinear_arith);
    assert(dy * dy >= 0) by (nonlinear_arith);
    let square = COST_SCALE * COST_SCALE * (dx * dx + dy * dy);
    assert(square >= 0) by (nonlinear_arith)
        requires
            square == COST_SCALE * COST_SCALE * (dx * dx + dy * dy),
            dx * dx + dy * dy >= 0,
    ;
    crate::costs::lemma_isqrt_exists(square);
    let norm = scaled_length(dx, dy);
    lemma_norm_dominates(dx, dy, norm);
    lemma_norm_dominates(dy, dx, norm);
    // The longer component is at least the length of the vector over the
    // square root of two, so twice the component is longer than the vector.
    let (long, short) = if dx * dx >= dy * dy {
        (dx, dy)
    } else {
        (dy, dx)
    };
    assert(long != 0) by (nonlinear_arith)
        requires
            long * long >= short * short,
            long != 0 || short != 0,
    ;
    let reach = length * COST_SCALE;
    let magnitude = if long >= 0 {
        long
    } else {
        -long
    };
    assert(norm * norm <= square);
    assert(square <= 2 * (COST_SCALE * COST_SCALE * (long * long))) by (nonlinear_arith)
        requires
            square == COST_SCALE * COST_SCALE * (dx * dx + dy * dy),
            long * long >= short * short,
            (long == dx && short == dy) || (long == dy && short == dx),
    ;
    let twice = 2 * COST_SCALE * magnitude;
    assert(twice * twice == 4 * (COST_SCALE * COST_SCALE * (long * long))) by (nonlinear_arith)
        requires
            twice == 2 * COST_SCALE * magnitude,
            magnitude == long || magnitude == -long,
    ;
    assert(COST_SCALE * COST_SCALE * (long * long) > 0) by (nonlinear_arith)
        requires
            long != 0,
            COST_SCALE == 100_000,
    ;
    if norm >= twice {
        assert(norm * norm >= twice * twice) by (nonlinear_arith)
            requires
                norm >= twice,
                twice >= 0,
        ;
        assert(false);
    }
    assert(length * magnitude * COST_SCALE >= norm) by (nonlinear_arith)
        requires
            length >= 2,
            magnitude >= 1,
            norm < 2 * COST_SCALE * magnitude,
            COST_SCALE == 100_000,
    ;
    let n = length * magnitude * COST_SCALE;
    vstd::arithmetic::div_mod::lemma_fundamental_div_mod(n, norm);
    vstd::arithmetic::div_mod::lemma_mod_bound(n, norm);
    assert(norm > 0);
    assert(n / norm >= 1) by (nonlinear_arith)
        requires
            n == norm * (n / norm) + n % norm,
            0 <= n % norm < norm,
            n >= norm,
            norm > 0,
    ;
    if long >= 0 {
        assert(length * long * COST_SCALE == n);
        assert(stretch(long, length, norm) >= 1);
    } else {
        assert(length * long * COST_SCALE == -n) by (nonlinear_arith)
            requires
                n == length * magnitude * COST_SCALE,
                magnitude == -long,
        ;
        assert(stretch(long, length, norm) <= -1);
    }
    lemma_stretch(dx, length, norm);
    lemma_stretch(dy, length, norm);
}

/// Whether `x` lies in the closed wedge that opens counter-clockwise from
/// `v` to `u`, for a wedge of less than half a turn: the side of the corner
/// that the two walls enclose.
pub open spec fn in_wedge(v: Direction, u: Direction, x: Direction) -> bool {
    v.cross(x) >= 0 && x.cross(u) >= 0
}

/// The waypoints that flank the walls of an open gap lie in the gap: seen
/// from the corner, the waypoint beside the wall along `u` lies strictly on
/// the side of that wall on which the gap opens, and so does the waypoint
/// beside the wall along `v`; so neither of them lies in the closed wedge that
/// the two walls enclose. A waypoint that falls on the corner itself is the
/// exception; that does not happen for a distance of two units or more.
pub proof fn lemma_flanks_lie_in_the_gap(u: Direction, v: Direction, distance: int)
    requires
        u.wf(),
        v.wf(),
        0 <= distance <= i32::MAX,
    ensures
        ({
            let after = spec_scale_to(u.spec_quarter_turn(), distance);
            let before = spec_scale_to(v.spec_quarter_turn_back(), distance);
            &&& after.is_zero() || after.cross(u) < 0
            &&& before.is_zero() || v.cross(before) < 0
            &&& after.is_zero() || !in_wedge(v, u, after)
            &&& before.is_zero() || !in_wedge(v, u, before)
            &&& distance >= 2 && !u.is_zero() ==> !after.is_zero()
            &&& distance >= 2 && !v.is_zero() ==> !before.is_zero()
        }),
{
    if distance >= 2 && !u.is_zero() {
        lemma_scale_to_not_zero(u.spec_quarter_turn(), distance);
    }
    if distance >= 2 && !v.is_zero() {
        lemma_scale_to_not_zero(v.spec_quarter_turn_back(), distance);
    }
    let turned = u.spec_quarter_turn();
    let after = spec_scale_to(turned, distance);
    lemma_scale_to(turned, distance);
    // The components of `after` have the signs of `(-u.dy, u.dx)`.
    assert(after.dx * u.dy <= 0) by (nonlinear_arith)
        requires
            u.dy >= 0 ==> after.dx <= 0,
            u.dy <= 0 ==> after.dx >= 0,
    ;
    assert(after.dy * u.dx >= 0) by (nonlinear_arith)
        requires
            u.dx >= 0 ==> after.dy >= 0,
            u.dx <= 0 ==> after.dy <= 0,
    ;
    if !after.is_zero() && after.cross(u) >= 0 {
        assert(after.dx * u.dy == 0 && after.dy * u.dx == 0);
        assert(after.dx != 0 ==> u.dy == 0) by (nonlinear_arith)
            requires
                after.dx * u.dy == 0,
        ;
        assert(after.dy != 0 ==> u.dx == 0) by (nonlinear_arith)
            requires
                after.dy * u.dx == 0,
        ;
        assert(false);
    }
    let back = v.spec_quarter_turn_back();
    let before = spec_scale_to(back, distance);
    lemma_scale_to(back, distance);
    assert(v.dx * before.dy <= 0) by (nonlinear_arith)
        requires
            v.dx >= 0 ==> before.dy <= 0,
            v.dx <= 0 ==> before.dy >= 0,
    ;
    assert(v.dy * before.dx >= 0) by (nonlinear_arith)
        requires
            v.dy >= 0 ==> before.dx >= 0,
            v.dy <= 0 ==> before.dx <= 0,
    ;
    if !before.is_zero() && v.cross(before) >= 0 {
        assert(v.dx * before.dy == 0 && v.dy * before.dx == 0);
        assert(before.dy != 0 ==> v.dx == 0) by (nonlinear_arith)
            requires
                v.dx * before.dy == 0,
        ;
        assert(before.dx != 0 ==> v.dy == 0) by (nonlinear_arith)
            requires
                v.dy * before.dx == 0,
        ;
        assert(false);
    }
}

/// The waypoint beyond the free end of a wall lies beyond the end: seen
/// from the end point, it lies strictly on the far side of the line that
/// crosses the wall there at a right angle, so it does not lie on the wall.
/// A waypoint that falls on the end point itself is the exception; that does
/// not happen for a distance of two units or more.
pub proof fn lemma_waypoint_beyond_a_free_end(u: Direction, distance: int)
    requires
        u.wf(),
        !u.is_zero(),
        0 <= distance <= i32::MAX,
    ensures
        ({
            let beyond = spec_scale_to(spec_bisector(u, u), distance);
            &&& beyond.is_zero() || beyond.dot(u) < 0
            &&& distance >= 2 ==> !beyond.is_zero()
        }),
{
    let unit = spec_scale_to(u, UNIT_LENGTH as int);
    lemma_scale_to(u, UNIT_LENGTH as int);
    lemma_scale_to_not_zero(u, UNIT_LENGTH as int);
    let b = spec_bisector(u, u);
    assert(b.dx == -2 * unit.dx && b.dy == -2 * unit.dy);
    let beyond = spec_scale_to(b, distance);
    lemma_scale_to(b, distance);
    // Each component of `beyond` has the sign of the component of `-u`, or
    // it is zero, and it is zero where `u` has no component.
    assert(u.dx == 0 ==> unit.dx == 0);
    assert(u.dy == 0 ==> unit.dy == 0);
    assert(beyond.dx * u.dx <= 0) by (nonlinear_arith)
        requires
            u.dx >= 0 ==> beyond.dx <= 0,
            u.dx <= 0 ==> beyond.dx >= 0,
    ;
    assert(beyond.dy * u.dy <= 0) by (nonlinear_arith)
        requires
            u.dy >= 0 ==> beyond.dy <= 0,
            u.dy <= 0 ==> beyond.dy >= 0,
    ;
    if !beyond.is_zero() && beyond.dot(u) >= 0 {
        assert(beyond.dx * u.dx == 0 && beyond.dy * u.dy == 0);
        assert(beyond.dx != 0 ==> u.dx == 0) by (nonlinear_arith)
            requires
                beyond.dx * u.dx == 0,
        ;
        assert(beyond.dy != 0 ==> u.dy == 0) by (nonlinear_arith)
            requires
                beyond.dy * u.dy == 0,
        ;
        // A component of `beyond` that is not zero comes from a component
        // of `u` that is not zero.
        assert(u.dx == 0 ==> b.dx == 0);
        assert(u.dy == 0 ==> b.dy == 0);
        assert(false);
    }
    if distance >= 2 {
        lemma_scale_to_not_zero(b, distance);
    }
}

/// Rounding loses less than one: a stretched component times the norm
/// differs from the exact product by less than the norm.
proof fn lemma_stretch_is_close(c: int, length: int, norm: int)
    requires
        0 <= length,
        norm > 0,
    ensures
        -norm < stretch(c, length, norm) * norm - length * c * COST_SCALE < norm,
{
    let m = magnitude(c);
    let n = length * m * COST_SCALE;
    assert(length * m >= 0) by (nonlinear_arith)
        requires
            length >= 0,
            m >= 0,
    ;
    assert(n >= 0) by (nonlinear_arith)
        requires
            n == length * m * COST_SCALE,
            length * m >= 0,
    ;
    vstd::arithmetic::div_mod::lemma_fundamental_div_mod(n, norm);
    vstd::arithmetic::div_mod::lemma_mod_bound(n, norm);
    let q = n / norm;
    assert(q * norm == norm * q) by (nonlinear_arith);
    if c >= 0 {
        assert(length * c * COST_SCALE == n);
    } else {
        assert(length * c * COST_SCALE == -n) by (nonlinear_arith)
            requires
                n == length * m * COST_SCALE,
                m == -c,
        ;
        assert((-q) * norm == -(q * norm)) by (nonlinear_arith);
    }
}

/// The dot product of a stretched vector with any vector, times the norm,
/// differs from the exact product by at most the norm times the sum of the
/// magnitudes of the components of that vector.
proof fn lemma_scale_to_dot(p: Direction, length: int, w: Direction)
    requires
        0 <= length,
        scaled_length(p.dx as int, p.dy as int) > 0,
    ensures
        ({
            let norm = scaled_length(p.dx as int, p.dy as int);
            let x = stretch(p.dx as int, length, norm);
            let y = stretch(p.dy as int, length, norm);
            let exact = length * COST_SCALE * p.dot(w);
            let slack = norm * (magnitude(w.dx as int) + magnitude(w.dy as int));
            exact - slack <= (x * w.dx + y * w.dy) * norm <= exact + slack
        }),
{
    let norm = scaled_length(p.dx as int, p.dy as int);
    let x = stretch(p.dx as int, length, norm);
    let y = stretch(p.dy as int, length, norm);
    lemma_stretch_is_close(p.dx as int, length, norm);
    lemma_stretch_is_close(p.dy as int, length, norm);
    let rx = x * norm - length * p.dx * COST_SCALE;
    let ry = y * norm - length * p.dy * COST_SCALE;
    let wx = w.dx as int;
    let wy = w.dy as int;
    assert((x * wx + y * wy) * norm == (x * norm) * wx + (y * norm) * wy) by (nonlinear_arith);
    assert((x * norm) * wx == (length * p.dx * COST_SCALE) * wx + rx * wx) by (nonlinear_arith)
        requires
            rx == x * norm - length * p.dx * COST_SCALE,
    ;
    assert((y * norm) * wy == (length * p.dy * COST_SCALE) * wy + ry * wy) by (nonlinear_arith)
        requires
            ry == y * norm - length * p.dy * COST_SCALE,
    ;
    assert(length * COST_SCALE * p.dot(w) == (length * p.dx * COST_SCALE) * wx + (length * p.dy
        * COST_SCALE) * wy) by (nonlinear_arith)
        requires
            p.dot(w) == p.dx * wx + p.dy * wy,
    ;
    assert(-(norm * magnitude(wx)) <= rx * wx <= norm * magnitude(wx)) by (nonlinear_arith)
        requires
            -norm < rx < norm,
            magnitude(wx) == wx || magnitude(wx) == -wx,
            magnitude(wx) >= 0,
    ;
    assert(-(norm * magnitude(wy)) <= ry * wy <= norm * magnitude(wy)) by (nonlinear_arith)
        requires
            -norm < ry < norm,
            magnitude(wy) == wy || magnitude(wy) == -wy,
            magnitude(wy) >= 0,
    ;
    assert(norm * (magnitude(wx) + magnitude(wy)) == norm * magnitude(wx) + norm * magnitude(wy))
        by (nonlinear_arith);
}

/// The norm of a vector with a direction is positive, it is at least the
/// longer component in cost units, and its square is at most the square of
/// the length in cost units.
proof fn lemma_norm(p: Direction)
    requires
        !p.is_zero(),
    ensures
        ({
            let norm = scaled_length(p.dx as int, p.dy as int);
            &&& norm > 0
            &&& norm >= COST_SCALE * magnitude(p.dx as int)
            &&& norm >= COST_SCALE * magnitude(p.dy as int)
            &&& norm * norm <= COST_SCALE * COST_SCALE * (p.dx * p.dx + p.dy * p.dy)
        }),
{
    let dx = p.dx as int;
    let dy = p.dy as int;
    assert(dx * dx >= 0) by (nonlinear_arith);
    assert(dy * dy >= 0) by (nonlinear_arith);
    assert(COST_SCALE * COST_SCALE * (dx * dx + dy * dy) >= 0) by (nonlinear_arith)
        requires
            dx * dx + dy * dy >= 0,
    ;
    crate::costs::lemma_isqrt_exists(COST_SCALE * COST_SCALE * (dx * dx + dy * dy));
    let norm = scaled_length(dx, dy);
    lemma_norm_dominates(dx, dy, norm);
    lemma_norm_dominates(dy, dx, norm);
}

/// The unit vector along `u` leans on `u` with nearly its whole length,
/// and the unit vector along a `v` that makes a sharp angle with `u` does not
/// lean away from `u` by more than rounding allows.
proof fn lemma_units_lean(u: Direction, v: Direction)
    requires
        u.wf(),
        v.wf(),
        u.dot(v) > 0,
    ensures
        ({
            let a = spec_scale_to(u, UNIT_LENGTH as int);
            let b = spec_scale_to(v, UNIT_LENGTH as int);
            let longer = if magnitude(u.dx as int) >= magnitude(u.dy as int) {
                magnitude(u.dx as int)
            } else {
                magnitude(u.dy as int)
            };
            &&& longer >= 1
            &&& a.dot(u) >= (UNIT_LENGTH - 2) * longer
            &&& b.dot(u) >= -2 * longer
        }),
{
    let k = UNIT_LENGTH as int;
    let ux = u.dx as int;
    let uy = u.dy as int;
    let longer = if magnitude(ux) >= magnitude(uy) {
        magnitude(ux)
    } else {
        magnitude(uy)
    };
    assert(!u.is_zero() && !v.is_zero()) by (nonlinear_arith)
        requires
            u.dx * v.dx + u.dy * v.dy > 0,
    ;
    let sum = magnitude(ux) + magnitude(uy);
    assert(sum <= 2 * longer);
    assert(v.dot(u) == u.dot(v)) by (nonlinear_arith)
        requires
            v.dot(u) == v.dx * u.dx + v.dy * u.dy,
            u.dot(v) == u.dx * v.dx + u.dy * v.dy,
    ;
    // The unit vector along `u`.
    lemma_norm(u);
    let lu = scaled_length(ux, uy);
    let a = spec_scale_to(u, k);
    lemma_stretch(ux, k, lu);
    lemma_stretch(uy, k, lu);
    lemma_scale_to_dot(u, k, u);
    assert(a.dx == stretch(ux, k, lu) && a.dy == stretch(uy, k, lu));
    let uu = ux * ux + uy * uy;
    assert(u.dot(u) == uu);
    assert(uu >= longer * longer) by (nonlinear_arith)
        requires
            uu == ux * ux + uy * uy,
            longer == ux || longer == -ux || longer == uy || longer == -uy,
    ;
    // `S * |u|^2 >= lu * longer`, because `S^2 * |u|^2 >= lu^2 >= lu * S * longer`.
    assert(lu * lu >= lu * (COST_SCALE * longer)) by (nonlinear_arith)
        requires
            lu >= COST_SCALE * longer,
            lu > 0,
    ;
    assert(COST_SCALE * uu >= lu * longer) by (nonlinear_arith)
        requires
            COST_SCALE * COST_SCALE * uu >= lu * lu,
            lu * lu >= lu * (COST_SCALE * longer),
            COST_SCALE == 100_000,
    ;
    assert(k * COST_SCALE * uu >= k * (lu * longer)) by (nonlinear_arith)
        requires
            COST_SCALE * uu >= lu * longer,
            k >= 0,
    ;
    assert(lu * sum <= lu * (2 * longer)) by (nonlinear_arith)
        requires
            sum <= 2 * longer,
            lu > 0,
    ;
    assert(a.dot(u) >= (k - 2) * longer) by (nonlinear_arith)
        requires
            a.dot(u) * lu >= k * COST_SCALE * uu - lu * sum,
            k * COST_SCALE * uu >= k * (lu * longer),
            lu * sum <= lu * (2 * longer),
            lu > 0,
    ;
    // The unit vector along `v`.
    lemma_norm(v);
    let lv = scaled_length(v.dx as int, v.dy as int);
    let b = spec_scale_to(v, k);
    lemma_stretch(v.dx as int, k, lv);
    lemma_stretch(v.dy as int, k, lv);
    lemma_scale_to_dot(v, k, u);
    assert(b.dx == stretch(v.dx as int, k, lv) && b.dy == stretch(v.dy as int, k, lv));
    assert(k * COST_SCALE * v.dot(u) >= 0) by (nonlinear_arith)
        requires
            v.dot(u) > 0,
            k >= 0,
            COST_SCALE == 100_000,
    ;
    assert(lv * sum <= lv * (2 * longer)) by (nonlinear_arith)
        requires
            sum <= 2 * longer,
            lv > 0,
    ;
    assert(b.dot(u) >= -2 * longer) by (nonlinear_arith)
        requires
            b.dot(u) * lv >= k * COST_SCALE * v.dot(u) - lv * sum,
            k * COST_SCALE * v.dot(u) >= 0,
            lv * sum <= lv * (2 * longer),
            lv > 0,
    ;
}

/// The waypoint on the bisector of a wide gap lies beyond the corner, on
/// the far side of both walls: seen from the corner, it lies strictly behind
/// the line that crosses the wall along `u` at a right angle.
proof fn lemma_bisector_leans_away(u: Direction, v: Direction, distance: int)
    requires
        u.wf(),
        v.wf(),
        u.dot(v) > 0,
        7 <= distance <= i32::MAX,
    ensures
        spec_scale_to(spec_bisector(u, v), distance).dot(u) < 0,
{
    let k = UNIT_LENGTH as int;
    let a = spec_scale_to(u, k);
    let b = spec_scale_to(v, k);
    lemma_units_lean(u, v);
    lemma_scale_to(u, k);
    lemma_scale_to(v, k);
    let longer = if magnitude(u.dx as int) >= magnitude(u.dy as int) {
        magnitude(u.dx as int)
    } else {
        magnitude(u.dy as int)
    };
    let sum = magnitude(u.dx as int) + magnitude(u.dy as int);
    let w = spec_bisector(u, v);
    assert(w.dx == -(a.dx + b.dx) && w.dy == -(a.dy + b.dy));
    assert(w.dot(u) == -(a.dot(u) + b.dot(u))) by (nonlinear_arith)
        requires
            w.dx == -(a.dx + b.dx),
            w.dy == -(a.dy + b.dy),
            w.dot(u) == w.dx * u.dx + w.dy * u.dy,
            a.dot(u) == a.dx * u.dx + a.dy * u.dy,
            b.dot(u) == b.dx * u.dx + b.dy * u.dy,
    ;
    assert((k - 2) * longer - 2 * longer == (k - 4) * longer) by (nonlinear_arith);
    assert(w.dot(u) <= -((k - 4) * longer));
    assert((k - 4) * longer > 0) by (nonlinear_arith)
        requires
            k == 0x10_0000,
            longer >= 1,
    ;
    assert(!w.is_zero()) by (nonlinear_arith)
        requires
            w.dot(u) == w.dx * u.dx + w.dy * u.dy,
            w.dot(u) < 0,
    ;
    // The norm of the bisector is below three unit lengths.
    lemma_norm(w);
    let lw = scaled_length(w.dx as int, w.dy as int);
    let ww = w.dx * w.dx + w.dy * w.dy;
    assert(ww <= 8 * (k * k)) by (nonlinear_arith)
        requires
            ww == w.dx * w.dx + w.dy * w.dy,
            -2 * k <= w.dx <= 2 * k,
            -2 * k <= w.dy <= 2 * k,
    ;
    let three = 3 * COST_SCALE * k;
    assert(three * three == 9 * (COST_SCALE * COST_SCALE * (k * k))) by (nonlinear_arith)
        requires
            three == 3 * COST_SCALE * k,
    ;
    assert(COST_SCALE * COST_SCALE * ww <= 8 * (COST_SCALE * COST_SCALE * (k * k)))
        by (nonlinear_arith)
        requires
            ww <= 8 * (k * k),
    ;
    assert(COST_SCALE * COST_SCALE * (k * k) > 0) by (nonlinear_arith)
        requires
            k > 0,
            COST_SCALE == 100_000,
    ;
    if lw >= three {
        assert(lw * lw >= three * three) by (nonlinear_arith)
            requires
                lw >= three,
                three >= 0,
        ;
        assert(false);
    }
    // The waypoint.
    let o = spec_scale_to(w, distance);
    lemma_stretch(w.dx as int, distance, lw);
    lemma_stretch(w.dy as int, distance, lw);
    lemma_scale_to_dot(w, distance, u);
    assert(o.dx == stretch(w.dx as int, distance, lw) && o.dy == stretch(w.dy as int, distance, lw));
    assert(distance * COST_SCALE * w.dot(u) <= -(distance * COST_SCALE * ((k - 4) * longer)))
        by (nonlinear_arith)
        requires
            w.dot(u) <= -((k - 4) * longer),
            distance > 0,
            COST_SCALE == 100_000,
    ;
    assert(lw * sum <= three * (2 * longer)) by (nonlinear_arith)
        requires
            0 < lw < three,
            0 <= sum <= 2 * longer,
    ;
    assert(three * (2 * longer) < distance * COST_SCALE * ((k - 4) * longer)) by (nonlinear_arith)
        requires
            three == 3 * COST_SCALE * k,
            distance >= 7,
            longer >= 1,
            k == 0x10_0000,
            COST_SCALE == 100_000,
    ;
    assert(o.dot(u) < 0) by (nonlinear_arith)
        requires
            o.dot(u) * lw <= distance * COST_SCALE * w.dot(u) + lw * sum,
            distance * COST_SCALE * w.dot(u) <= -(distance * COST_SCALE * ((k - 4) * longer)),
            lw * sum <= three * (2 * longer),
            three * (2 * longer) < distance * COST_SCALE * ((k - 4) * longer),
            lw > 0,
    ;
}

/// In the sharp wedge that two walls enclose, every direction leans on both
/// walls.
proof fn lemma_wedge_leans_on_its_walls(u: Direction, v: Direction, x: Direction)
    requires
        u.cross(v) < 0,
        u.dot(v) > 0,
        in_wedge(v, u, x),
    ensures
        x.dot(u) >= 0,
{
    let c = u.cross(v);
    let uu = u.dx * u.dx + u.dy * u.dy;
    assert(uu >= 0) by (nonlinear_arith)
        requires
            uu == u.dx * u.dx + u.dy * u.dy,
    ;
    let a = u.dx as int;
    let b = u.dy as int;
    let p = v.dx as int;
    let q = v.dy as int;
    let s = x.dx as int;
    let t = x.dy as int;
    assert(c * x.dot(u) == (a * q) * (s * a) + (a * q) * (t * b) - (b * p) * (s * a) - (b * p) * (t
        * b)) by (nonlinear_arith)
        requires
            c == a * q - b * p,
            x.dot(u) == s * a + t * b,
    ;
    assert(v.cross(x) * uu == (p * t) * (a * a) + (p * t) * (b * b) - (q * s) * (a * a) - (q * s)
        * (b * b)) by (nonlinear_arith)
        requires
            v.cross(x) == p * t - q * s,
            uu == a * a + b * b,
    ;
    assert(x.cross(u) * u.dot(v) == (s * b) * (a * p) + (s * b) * (b * q) - (t * a) * (a * p) - (t
        * a) * (b * q)) by (nonlinear_arith)
        requires
            x.cross(u) == s * b - t * a,
            u.dot(v) == a * p + b * q,
    ;
    assert((a * q) * (s * a) == (q * s) * (a * a)) by (nonlinear_arith);
    assert((a * q) * (t * b) == (t * a) * (b * q)) by (nonlinear_arith);
    assert((b * p) * (s * a) == (s * b) * (a * p)) by (nonlinear_arith);
    assert((b * p) * (t * b) == (p * t) * (b * b)) by (nonlinear_arith);
    assert((s * b) * (b * q) == (q * s) * (b * b)) by (nonlinear_arith);
    assert((t * a) * (a * p) == (p * t) * (a * a)) by (nonlinear_arith);
    assert(c * x.dot(u) == -(v.cross(x) * uu) - x.cross(u) * u.dot(v));
    assert(v.cross(x) * uu >= 0) by (nonlinear_arith)
        requires
            v.cross(x) >= 0,
            uu >= 0,
    ;
    assert(x.cross(u) * u.dot(v) >= 0) by (nonlinear_arith)
        requires
            x.cross(u) >= 0,
            u.dot(v) > 0,
    ;
    if x.dot(u) < 0 {
        assert(c * x.dot(u) > 0) by (nonlinear_arith)
            requires
                c < 0,
                x.dot(u) < 0,
        ;
    }
}

/// The waypoint on the bisector of a wide gap lies in the gap: seen from
/// the corner, it lies strictly behind both walls, and so outside the wedge
/// that the two walls enclose. This holds from a distance of seven units on;
/// nearer to the corner, rounding to the lattice can outweigh the distance.
pub proof fn lemma_bisector_lies_in_the_gap(u: Direction, v: Direction, wrap: bool, distance: int)
    requires
        u.wf(),
        v.wf(),
        gap_class(u, v, wrap) == GapClass::FlanksAndBisector,
        7 <= distance <= i32::MAX,
    ensures
        ({
            let beyond = spec_scale_to(spec_bisector(u, v), distance);
            &&& beyond.dot(u) < 0
            &&& beyond.dot(v) < 0
            &&& u.cross(v) < 0 ==> !in_wedge(v, u, beyond)
        }),
{
    let beyond = spec_scale_to(spec_bisector(u, v), distance);
    assert(v.dot(u) == u.dot(v)) by (nonlinear_arith)
        requires
            v.dot(u) == v.dx * u.dx + v.dy * u.dy,
            u.dot(v) == u.dx * v.dx + u.dy * v.dy,
    ;
    lemma_bisector_leans_away(u, v, distance);
    lemma_bisector_leans_away(v, u, distance);
    assert(spec_bisector(v, u) == spec_bisector(u, v));
    if u.cross(v) < 0 && in_wedge(v, u, beyond) {
        lemma_wedge_leans_on_its_walls(u, v, beyond);
    }
}

/// Every waypoint of a corner lies in its gap: for two walls that enclose
/// a wedge of less than half a turn, each waypoint that is set off for the
/// gap on the other side lies outside the wedge, from a distance of seven
/// units on.
pub proof fn lemma_waypoints_lie_in_the_gap(
    u: Direction,
    v: Direction,
    wrap: bool,
    distance: int,
    i: int,
)
    requires
        u.wf(),
        v.wf(),
        u.cross(v) < 0,
        7 <= distance <= i32::MAX,
        0 <= i < gap_bearings(u, v, wrap).len(),
    ensures
        !in_wedge(v, u, spec_scale_to(gap_bearings(u, v, wrap)[i], distance)),
{
    assert(!u.is_zero() && !v.is_zero()) by (nonlinear_arith)
        requires
            u.dx * v.dy - u.dy * v.dx < 0,
    ;
    lemma_flanks_lie_in_the_gap(u, v, distance);
    if gap_class(u, v, wrap) == GapClass::FlanksAndBisector {
        lemma_bisector_lies_in_the_gap(u, v, wrap, distance);
    }
}

} // verus!
