//! Corners and the waypoints around them.
//!
//! A corner is a point at which walls end. The walls that leave a corner cut
//! the plane around it into gaps; a token can pass the corner only through a
//! gap of more than half a turn, and that is where waypoints are placed.

use crate::bearings::{
    bisector, classify_gap, gap_bearings, sort_by_angle, sorted_by_angle, GapClass,
};
use crate::geometry::{Direction, LineSegment, Point};
use crate::terrain::{in_bounds, segments_in_bounds};
use rustc_hash::FxHashMap;
use vstd::prelude::*;

verus! {

/// `FxHashMap::default`: the new map holds nothing.
#[verifier::external_body]
fn fx_map_new() -> (m: FxHashMap<u64, usize>)
    ensures
        m@.dom() == Set::<u64>::empty(),
{
    FxHashMap::default()
}

/// `HashMap::get` with the Fx hasher, copied out: the value stored under the
/// key, if the map holds the key.
#[verifier::external_body]
fn fx_map_get(m: &FxHashMap<u64, usize>, key: u64) -> (r: Option<usize>)
    ensures
        r == (if m@.contains_key(key) {
            Some(m@[key])
        } else {
            None
        }),
{
    m.get(&key).copied()
}

/// `HashMap::insert` with the Fx hasher: the key holds the value afterwards
/// and no other key changes.
#[verifier::external_body]
fn fx_map_insert(m: &mut FxHashMap<u64, usize>, key: u64, value: usize)
    ensures
        final(m)@ == old(m)@.insert(key, value),
{
    m.insert(key, value);
}

/// The key under which a point is filed: its two coordinates, each shifted
/// to be non-negative, side by side. Different points have different keys.
pub open spec fn spec_point_key(p: Point) -> u64 {
    ((p.x + 0x8000_0000) * 0x1_0000_0000 + (p.y + 0x8000_0000)) as u64
}

/// The key under which a point is filed.
pub fn point_key(p: Point) -> (key: u64)
    ensures
        key == spec_point_key(p),
{
    let high: u64 = (p.x as i64 + 0x8000_0000) as u64;
    let low: u64 = (p.y as i64 + 0x8000_0000) as u64;
    high * 0x1_0000_0000 + low
}

/// Different points have different keys.
pub proof fn lemma_point_key_injective(p: Point, q: Point)
    requires
        spec_point_key(p) == spec_point_key(q),
    ensures
        p == q,
{
}

/// A corner as the generation of waypoints sees it: the point, and the
/// directions in which walls leave it, in the order in which the walls were
/// given.
pub struct CornerView {
    pub point: Point,
    pub directions: Seq<Direction>,
}

/// A point at which walls end, with the directions in which they leave.
#[derive(Debug, Clone)]
pub struct Corner {
    pub point: Point,
    pub directions: Vec<Direction>,
}

impl Corner {
    pub open spec fn view(&self) -> CornerView {
        CornerView { point: self.point, directions: self.directions@ }
    }
}

/// The views of the corners, in order.
pub open spec fn corner_views(corners: Seq<Corner>) -> Seq<CornerView> {
    Seq::new(corners.len(), |i: int| corners[i]@)
}

/// Whether one of the corners lies at `p`.
pub open spec fn has_corner(corners: Seq<CornerView>, p: Point) -> bool {
    exists|i: int| 0 <= i < corners.len() && (#[trigger] corners[i]).point == p
}

/// The place of the corner at `p`.
pub open spec fn corner_at(corners: Seq<CornerView>, p: Point) -> int {
    choose|i: int| 0 <= i < corners.len() && (#[trigger] corners[i]).point == p
}

/// Whether no two corners lie at the same point.
pub open spec fn distinct_corners(corners: Seq<CornerView>) -> bool {
    forall|i: int, j: int|
        0 <= i < j < corners.len() ==> (#[trigger] corners[i]).point != (
        #[trigger] corners[j]).point
}

/// Whether every corner has a wall and every direction is that of a wall
/// between two lattice points.
pub open spec fn corners_wf(corners: Seq<CornerView>) -> bool {
    forall|i: int|
        0 <= i < corners.len() ==> {
            &&& (#[trigger] corners[i]).directions.len() > 0
            &&& forall|k: int|
                0 <= k < corners[i].directions.len() ==> (#[trigger] corners[i].directions[k]).wf()
        }
}

/// The corners after a wall that leaves `p` in the direction `d` was added:
/// the corner at `p` gets the direction behind those it has; if there is no
/// corner at `p` yet, a new one comes behind the others.
pub open spec fn with_direction(corners: Seq<CornerView>, p: Point, d: Direction) -> Seq<
    CornerView,
> {
    if has_corner(corners, p) {
        let i = corner_at(corners, p);
        corners.update(i, CornerView { point: p, directions: corners[i].directions.push(d) })
    } else {
        corners.push(CornerView { point: p, directions: seq![d] })
    }
}

/// The corners after a segment was added: each of its two end points gets
/// the direction towards the other. A segment without length adds nothing.
pub open spec fn with_segment(corners: Seq<CornerView>, s: LineSegment) -> Seq<CornerView> {
    if s.p1 == s.p2 {
        corners
    } else {
        with_direction(
            with_direction(corners, s.p1, Direction::spec_between(s.p1, s.p2)),
            s.p2,
            Direction::spec_between(s.p2, s.p1),
        )
    }
}

/// The corners of the segments: every end point of a segment with length,
/// in the order of its first appearance, each with the directions of the
/// segments that end there, in the order of the segments.
pub open spec fn corners_of(segments: Seq<LineSegment>) -> Seq<CornerView>
    decreases segments.len(),
{
    if segments.len() == 0 {
        Seq::empty()
    } else {
        with_segment(corners_of(segments.drop_last()), segments.last())
    }
}

/// Adding a direction keeps the corners distinct and well formed.
pub proof fn lemma_with_direction(corners: Seq<CornerView>, p: Point, d: Direction)
    requires
        distinct_corners(corners),
        corners_wf(corners),
        d.wf(),
    ensures
        distinct_corners(with_direction(corners, p, d)),
        corners_wf(with_direction(corners, p, d)),
{
    let after = with_direction(corners, p, d);
    if has_corner(corners, p) {
        let i = corner_at(corners, p);
        assert forall|a: int, b: int| 0 <= a < b < after.len() implies (#[trigger] after[a]).point
            != (#[trigger] after[b]).point by {
            assert(after[a].point == corners[a].point);
            assert(after[b].point == corners[b].point);
        }
        assert forall|a: int| 0 <= a < after.len() implies {
            &&& (#[trigger] after[a]).directions.len() > 0
            &&& forall|k: int|
                0 <= k < after[a].directions.len() ==> (#[trigger] after[a].directions[k]).wf()
        } by {
            if a != i {
                assert(after[a] == corners[a]);
            } else {
                assert forall|k: int| 0 <= k < after[a].directions.len() implies (
                #[trigger] after[a].directions[k]).wf() by {
                    if k < corners[i].directions.len() {
                        assert(after[a].directions[k] == corners[i].directions[k]);
                    }
                }
            }
        }
    } else {
        assert forall|a: int, b: int| 0 <= a < b < after.len() implies (#[trigger] after[a]).point
            != (#[trigger] after[b]).point by {
            assert(after[a] == corners[a]);
            if b < corners.len() {
                assert(after[b] == corners[b]);
            }
        }
        assert forall|a: int| 0 <= a < after.len() implies {
            &&& (#[trigger] after[a]).directions.len() > 0
            &&& forall|k: int|
                0 <= k < after[a].directions.len() ==> (#[trigger] after[a].directions[k]).wf()
        } by {
            if a < corners.len() {
                assert(after[a] == corners[a]);
            }
        }
    }
}

/// The corners of any segments are distinct and well formed.
pub proof fn lemma_corners_of(segments: Seq<LineSegment>)
    ensures
        distinct_corners(corners_of(segments)),
        corners_wf(corners_of(segments)),
    decreases segments.len(),
{
    if segments.len() > 0 {
        let s = segments.last();
        let before = corners_of(segments.drop_last());
        lemma_corners_of(segments.drop_last());
        if s.p1 != s.p2 {
            let d1 = Direction::spec_between(s.p1, s.p2);
            let d2 = Direction::spec_between(s.p2, s.p1);
            lemma_with_direction(before, s.p1, d1);
            lemma_with_direction(with_direction(before, s.p1, d1), s.p2, d2);
        }
    }
}

/// Whether the index files every corner under the key of its point, and
/// nothing else.
pub open spec fn index_ok(index: Map<u64, usize>, corners: Seq<CornerView>) -> bool {
    &&& forall|i: int|
        0 <= i < corners.len() ==> index.contains_key(
            spec_point_key((#[trigger] corners[i]).point),
        ) && index[spec_point_key(corners[i].point)] == i
    &&& forall|key: u64| #[trigger]
        index.contains_key(key) ==> index[key] < corners.len() && spec_point_key(
            corners[index[key] as int].point,
        ) == key
}

/// Files a wall that leaves `p` in the direction `d` under its corner.
fn add_direction(
    corners: &mut Vec<Corner>,
    index: &mut FxHashMap<u64, usize>,
    p: Point,
    d: Direction,
)
    requires
        index_ok(old(index)@, corner_views(old(corners)@)),
        distinct_corners(corner_views(old(corners)@)),
    ensures
        corner_views(final(corners)@) == with_direction(corner_views(old(corners)@), p, d),
        index_ok(final(index)@, corner_views(final(corners)@)),
{
    let ghost before = corner_views(corners@);
    let key = point_key(p);
    match fx_map_get(index, key) {
        Some(i) => {
            proof {
                lemma_point_key_injective(before[i as int].point, p);
                assert(has_corner(before, p));
                let j = corner_at(before, p);
                assert(j == i) by {
                    if j != i {
                        if j < i {
                            assert(before[j].point != before[i as int].point);
                        } else {
                            assert(before[i as int].point != before[j].point);
                        }
                    }
                }
            }
            corners[i].directions.push(d);
            proof {
                let after = corner_views(corners@);
                assert(after =~= with_direction(before, p, d));
                assert forall|a: int| 0 <= a < after.len() implies index@.contains_key(
                    spec_point_key((#[trigger] after[a]).point),
                ) && index@[spec_point_key(after[a].point)] == a by {
                    assert(after[a].point == before[a].point);
                }
                assert forall|k: u64| #[trigger] index@.contains_key(k) implies index@[k]
                    < after.len() && spec_point_key(after[index@[k] as int].point) == k by {
                    assert(after[index@[k] as int].point == before[index@[k] as int].point);
                }
            }
        },
        None => {
            proof {
                if has_corner(before, p) {
                    let j = corner_at(before, p);
                    assert(index@.contains_key(spec_point_key(before[j].point)));
                }
            }
            let mut directions: Vec<Direction> = Vec::new();
            directions.push(d);
            fx_map_insert(index, key, corners.len());
            corners.push(Corner { point: p, directions });
            proof {
                let after = corner_views(corners@);
                assert(directions@ =~= seq![d]);
                assert(after =~= with_direction(before, p, d));
                assert forall|a: int| 0 <= a < after.len() implies index@.contains_key(
                    spec_point_key((#[trigger] after[a]).point),
                ) && index@[spec_point_key(after[a].point)] == a by {
                    if a < before.len() {
                        assert(after[a] == before[a]);
                        if spec_point_key(before[a].point) == key {
                            lemma_point_key_injective(before[a].point, p);
                        }
                    }
                }
                assert forall|k: u64| #[trigger] index@.contains_key(k) implies index@[k]
                    < after.len() && spec_point_key(after[index@[k] as int].point) == k by {
                    if k != key {
                        assert(old(index)@.contains_key(k));
                        assert(after[index@[k] as int] == before[index@[k] as int]);
                    }
                }
            }
        },
    }
}

/// Groups the end points of the segments into corners.
pub fn collect_corners(segments: &Vec<LineSegment>) -> (corners: Vec<Corner>)
    ensures
        corner_views(corners@) == corners_of(segments@),
{
    let mut corners: Vec<Corner> = Vec::new();
    let mut index = fx_map_new();
    let mut i: usize = 0;
    assert(corner_views(corners@) =~= corners_of(segments@.take(0)));
    while i < segments.len()
        invariant
            i <= segments@.len(),
            corner_views(corners@) == corners_of(segments@.take(i as int)),
            index_ok(index@, corner_views(corners@)),
        decreases segments@.len() - i,
    {
        let s = segments[i];
        proof {
            assert(segments@.take(i + 1).drop_last() == segments@.take(i as int));
            lemma_corners_of(segments@.take(i as int));
        }
        if !s.p1.is_same_as(&s.p2) {
            let d1 = Direction::between(s.p1, s.p2);
            let d2 = Direction::between(s.p2, s.p1);
            add_direction(&mut corners, &mut index, s.p1, d1);
            proof {
                lemma_with_direction(corners_of(segments@.take(i as int)), s.p1, d1);
            }
            add_direction(&mut corners, &mut index, s.p2, d2);
        }
        i += 1;
    }
    assert(segments@.take(segments@.len() as int) == segments@);
    corners
}

/// A place for a waypoint: the point from which it is set off, and the
/// direction in which.
#[derive(Debug, Clone, Copy, PartialEq, Eq, Structural)]
pub struct Placement {
    pub anchor: Point,
    pub bearing: Direction,
}

/// Whether every placement has an anchor in bounds and a bearing that is
/// small enough for exact arithmetic.
pub open spec fn placements_wf(placements: Seq<Placement>) -> bool {
    forall|k: int|
        0 <= k < placements.len() ==> (#[trigger] placements[k]).bearing.wf() && in_bounds(
            placements[k].anchor,
        )
}

/// Whether every corner lies in bounds.
pub open spec fn corners_in_bounds(corners: Seq<CornerView>) -> bool {
    forall|i: int| 0 <= i < corners.len() ==> in_bounds((#[trigger] corners[i]).point)
}

/// Adding a direction at a point in bounds keeps the corners in bounds.
pub proof fn lemma_with_direction_in_bounds(corners: Seq<CornerView>, p: Point, d: Direction)
    requires
        corners_in_bounds(corners),
        in_bounds(p),
    ensures
        corners_in_bounds(with_direction(corners, p, d)),
{
    let after = with_direction(corners, p, d);
    assert forall|a: int| 0 <= a < after.len() implies in_bounds((#[trigger] after[a]).point) by {
        if a < corners.len() {
            if has_corner(corners, p) && a == corner_at(corners, p) {
            } else {
                assert(after[a] == corners[a]);
            }
        }
    }
}

/// The corners of segments in bounds lie in bounds.
pub proof fn lemma_corners_in_bounds(segments: Seq<LineSegment>)
    requires
        segments_in_bounds(segments),
    ensures
        corners_in_bounds(corners_of(segments)),
    decreases segments.len(),
{
    if segments.len() > 0 {
        let s = segments.last();
        let front = segments.drop_last();
        assert forall|i: int| 0 <= i < front.len() implies in_bounds((#[trigger] front[i]).p1)
            && in_bounds(front[i].p2) by {
            assert(front[i] == segments[i]);
        }
        lemma_corners_in_bounds(front);
        let before = corners_of(front);
        if s.p1 != s.p2 {
            let d1 = Direction::spec_between(s.p1, s.p2);
            let d2 = Direction::spec_between(s.p2, s.p1);
            lemma_with_direction_in_bounds(before, s.p1, d1);
            lemma_with_direction_in_bounds(with_direction(before, s.p1, d1), s.p2, d2);
        }
    }
}

/// One placement at `anchor` for each of the bearings, in order.
pub open spec fn placed_at(anchor: Point, bearings: Seq<Direction>) -> Seq<Placement> {
    Seq::new(bearings.len(), |i: int| Placement { anchor, bearing: bearings[i] })
}

/// The bearings for the gaps between the first `upto` of the directions,
/// which are sorted by angle: those of the gap between the first and the
/// second direction, then those of the gap between the second and the third,
/// and so on.
pub open spec fn inner_bearings(sorted: Seq<Direction>, upto: int) -> Seq<Direction>
    decreases upto,
{
    if upto <= 1 {
        Seq::empty()
    } else {
        inner_bearings(sorted, upto - 1) + gap_bearings(sorted[upto - 2], sorted[upto - 1], false)
    }
}

/// The bearings of all waypoints at a corner whose walls leave in the given
/// directions, sorted by angle: those of the gaps between neighbors, then
/// those of the gap from the last direction around to the first.
pub open spec fn corner_bearings(sorted: Seq<Direction>) -> Seq<Direction> {
    if sorted.len() == 0 {
        Seq::empty()
    } else {
        inner_bearings(sorted, sorted.len() as int) + gap_bearings(sorted.last(), sorted[0], true)
    }
}

/// The placements of the waypoints at a corner.
pub open spec fn corner_placements(corner: CornerView) -> Seq<Placement> {
    placed_at(corner.point, corner_bearings(sorted_by_angle(corner.directions)))
}

/// The placements of the waypoints at all corners, corner by corner.
pub open spec fn all_corner_placements(corners: Seq<CornerView>) -> Seq<Placement>
    decreases corners.len(),
{
    if corners.len() == 0 {
        Seq::empty()
    } else {
        all_corner_placements(corners.drop_last()) + corner_placements(corners.last())
    }
}

/// Appends the placements for the gap from the wall along `u` to the wall
/// along `v` at the corner `anchor`.
fn push_gap(out: &mut Vec<Placement>, anchor: Point, u: &Direction, v: &Direction, wrap: bool)
    requires
        u.wf(),
        v.wf(),
        in_bounds(anchor),
        placements_wf(old(out)@),
    ensures
        final(out)@ == old(out)@ + placed_at(anchor, gap_bearings(*u, *v, wrap)),
        placements_wf(final(out)@),
{
    let class = classify_gap(u, v, wrap);
    match class {
        GapClass::Closed => {},
        GapClass::Flanks => {
            out.push(Placement { anchor, bearing: u.quarter_turn() });
            out.push(Placement { anchor, bearing: v.quarter_turn_back() });
        },
        GapClass::FlanksAndBisector => {
            out.push(Placement { anchor, bearing: bisector(u, v) });
            out.push(Placement { anchor, bearing: u.quarter_turn() });
            out.push(Placement { anchor, bearing: v.quarter_turn_back() });
        },
    }
    assert(out@ =~= old(out)@ + placed_at(anchor, gap_bearings(*u, *v, wrap)));
}

/// Appends the placements of the waypoints at a corner.
pub fn push_corner_placements(out: &mut Vec<Placement>, corner: &Corner)
    requires
        corner.directions@.len() > 0,
        forall|k: int|
            0 <= k < corner.directions@.len() ==> (#[trigger] corner.directions@[k]).wf(),
        in_bounds(corner.point),
        placements_wf(old(out)@),
    ensures
        final(out)@ == old(out)@ + corner_placements(corner@),
        placements_wf(final(out)@),
{
    let sorted = sort_by_angle(&corner.directions);
    proof {
        crate::bearings::lemma_sorted_by_angle(corner.directions@);
    }
    let n = sorted.len();
    let mut i: usize = 1;
    assert(out@ =~= old(out)@ + placed_at(corner.point, inner_bearings(sorted@, 1)));
    while i < n
        invariant
            1 <= i <= n,
            n == sorted@.len(),
            forall|k: int| 0 <= k < sorted@.len() ==> (#[trigger] sorted@[k]).wf(),
            out@ == old(out)@ + placed_at(corner.point, inner_bearings(sorted@, i as int)),
            in_bounds(corner.point),
            placements_wf(out@),
        decreases n - i,
    {
        let ghost before = out@;
        push_gap(out, corner.point, &sorted[i - 1], &sorted[i], false);
        proof {
            let gap = gap_bearings(sorted@[i - 1], sorted@[i as int], false);
            assert(inner_bearings(sorted@, i + 1) == inner_bearings(sorted@, i as int) + gap);
            assert(placed_at(corner.point, inner_bearings(sorted@, i as int) + gap) =~= placed_at(
                corner.point,
                inner_bearings(sorted@, i as int),
            ) + placed_at(corner.point, gap));
            assert(out@ =~= old(out)@ + placed_at(
                corner.point,
                inner_bearings(sorted@, i + 1),
            ));
        }
        i += 1;
    }
    push_gap(out, corner.point, &sorted[n - 1], &sorted[0], true);
    proof {
        let inner = inner_bearings(sorted@, n as int);
        let gap = gap_bearings(sorted@[n - 1], sorted@[0], true);
        assert(placed_at(corner.point, inner + gap) =~= placed_at(corner.point, inner) + placed_at(
            corner.point,
            gap,
        ));
        assert(out@ =~= old(out)@ + corner_placements(corner@));
    }
}

/// The placements of the waypoints at all corners, corner by corner.
pub fn place_at_corners(corners: &Vec<Corner>) -> (out: Vec<Placement>)
    requires
        corners_wf(corner_views(corners@)),
        corners_in_bounds(corner_views(corners@)),
    ensures
        out@ == all_corner_placements(corner_views(corners@)),
        placements_wf(out@),
{
    let mut out: Vec<Placement> = Vec::new();
    let mut i: usize = 0;
    let ghost views = corner_views(corners@);
    assert(out@ =~= all_corner_placements(views.take(0)));
    while i < corners.len()
        invariant
            i <= corners@.len(),
            views == corner_views(corners@),
            corners_wf(views),
            corners_in_bounds(views),
            out@ == all_corner_placements(views.take(i as int)),
            placements_wf(out@),
        decreases corners@.len() - i,
    {
        proof {
            assert(views.take(i + 1).drop_last() == views.take(i as int));
            assert(views.take(i + 1).last() == corners@[i as int]@);
            assert(views[i as int].directions.len() > 0);
            assert(in_bounds(views[i as int].point));
            assert forall|k: int| 0 <= k < corners@[i as int].directions@.len() implies (
            #[trigger] corners@[i as int].directions@[k]).wf() by {
                assert(views[i as int].directions[k].wf());
            }
        }
        push_corner_placements(&mut out, &corners[i]);
        i += 1;
    }
    assert(views.take(views.len() as int) == views);
    out
}

} // verus!
