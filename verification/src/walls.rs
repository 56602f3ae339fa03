//! Walls and doors, and the store of wall segments that the search tests
//! candidate edges against.

use crate::geometry::{LineSegment, Point};
use vstd::prelude::*;

verus! {

/// Whether a door stands closed, open or locked.
#[derive(Debug, Copy, Clone, PartialEq, Eq, Structural)]
pub enum DoorState {
    CLOSED,
    OPEN,
    LOCKED,
}

impl DoorState {
    /// The code by which the host names the state.
    pub open spec fn spec_code(self) -> usize {
        match self {
            DoorState::CLOSED => 0,
            DoorState::OPEN => 1,
            DoorState::LOCKED => 2,
        }
    }

    /// The code by which the host names the state.
    pub fn code(&self) -> (c: usize)
        ensures
            c == self.spec_code(),
    {
        match self {
            DoorState::CLOSED => 0,
            DoorState::OPEN => 1,
            DoorState::LOCKED => 2,
        }
    }

    /// The state with the given code; an error for a code that names none.
    pub fn try_from(value: usize) -> (r: Result<Self, ()>)
        ensures
            (value == 0 || value == 1 || value == 2) <==> r.is_ok(),
            r.is_ok() ==> r.unwrap().spec_code() == value,
    {
        if value == 0 {
            Ok(DoorState::CLOSED)
        } else if value == 1 {
            Ok(DoorState::OPEN)
        } else if value == 2 {
            Ok(DoorState::LOCKED)
        } else {
            Err(())
        }
    }
}

/// Whether a wall is a plain wall, a door or a secret door.
#[derive(Debug, Copy, Clone, PartialEq, Eq, Structural)]
pub enum DoorType {
    NONE,
    DOOR,
    SECRET,
}

impl DoorType {
    /// The code by which the host names the type.
    pub open spec fn spec_code(self) -> usize {
        match self {
            DoorType::NONE => 0,
            DoorType::DOOR => 1,
            DoorType::SECRET => 2,
        }
    }

    /// The code by which the host names the type.
    pub fn code(&self) -> (c: usize)
        ensures
            c == self.spec_code(),
    {
        match self {
            DoorType::NONE => 0,
            DoorType::DOOR => 1,
            DoorType::SECRET => 2,
        }
    }

    /// The type with the given code; an error for a code that names none.
    pub fn try_from(value: usize) -> (r: Result<Self, ()>)
        ensures
            (value == 0 || value == 1 || value == 2) <==> r.is_ok(),
            r.is_ok() ==> r.unwrap().spec_code() == value,
    {
        if value == 0 {
            Ok(DoorType::NONE)
        } else if value == 1 {
            Ok(DoorType::DOOR)
        } else if value == 2 {
            Ok(DoorType::SECRET)
        } else {
            Err(())
        }
    }
}

/// How far a wall restricts a sense; here, movement.
#[derive(Debug, Copy, Clone, PartialEq, Eq, Structural)]
pub enum WallSenseType {
    NONE,
    LIMITED,
    NORMAL,
}

impl WallSenseType {
    /// The code by which the host names the sense type.
    pub open spec fn spec_code(self) -> usize {
        match self {
            WallSenseType::NONE => 0,
            WallSenseType::LIMITED => 10,
            WallSenseType::NORMAL => 20,
        }
    }

    /// The code by which the host names the sense type.
    pub fn code(&self) -> (c: usize)
        ensures
            c == self.spec_code(),
    {
        match self {
            WallSenseType::NONE => 0,
            WallSenseType::LIMITED => 10,
            WallSenseType::NORMAL => 20,
        }
    }

    /// The sense type with the given code; an error for a code that names
    /// none.
    pub fn try_from(value: usize) -> (r: Result<Self, ()>)
        ensures
            (value == 0 || value == 10 || value == 20) <==> r.is_ok(),
            r.is_ok() ==> r.unwrap().spec_code() == value,
    {
        if value == 0 {
            Ok(WallSenseType::NONE)
        } else if value == 10 {
            Ok(WallSenseType::LIMITED)
        } else if value == 20 {
            Ok(WallSenseType::NORMAL)
        } else {
            Err(())
        }
    }
}

/// The vertical extent of a wall. The largest and the smallest elevation
/// stand for "unbounded".
#[derive(Debug, Copy, Clone, PartialEq, Eq, Structural)]
pub struct WallHeight {
    pub top: i32,
    pub bottom: i32,
}

impl Default for WallHeight {
    /// The extent of a wall that reaches from below everything to above
    /// everything.
    fn default() -> (h: Self)
        ensures
            h == WallHeight::unbounded(),
    {
        Self { top: i32::MAX, bottom: i32::MIN }
    }
}

impl WallHeight {
    /// The extent that contains every elevation.
    pub open spec fn unbounded() -> WallHeight {
        WallHeight { top: i32::MAX, bottom: i32::MIN }
    }

    /// The extent with the bounds that are given; a missing bound is
    /// unbounded.
    pub open spec fn spec_from_bounds(bounds: Option<(Option<i32>, Option<i32>)>) -> WallHeight {
        match bounds {
            Some((top, bottom)) => WallHeight {
                top: match top {
                    Some(t) => t,
                    None => i32::MAX,
                },
                bottom: match bottom {
                    Some(b) => b,
                    None => i32::MIN,
                },
            },
            None => WallHeight::unbounded(),
        }
    }

    /// The extent with the bounds `(top, bottom)` that are given; a missing
    /// bound is unbounded.
    pub fn from_bounds(bounds: Option<(Option<i32>, Option<i32>)>) -> (h: Self)
        ensures
            h == Self::spec_from_bounds(bounds),
    {
        let (top, bottom) = match bounds {
            Some(pair) => pair,
            None => (None, None),
        };
        let top = match top {
            Some(t) => t,
            None => i32::MAX,
        };
        let bottom = match bottom {
            Some(b) => b,
            None => i32::MIN,
        };
        Self { top, bottom }
    }

    /// Whether the elevation lies within the extent, bounds included.
    pub open spec fn spec_contains(self, height: i32) -> bool {
        self.top >= height && self.bottom <= height
    }

    /// Whether the elevation lies within the extent, bounds included.
    pub fn contains(&self, height: i32) -> (r: bool)
        ensures
            r == self.spec_contains(height),
    {
        self.top >= height && self.bottom <= height
    }
}

/// A wall of the scene.
#[derive(Debug, Clone, Copy, PartialEq, Eq, Structural)]
pub struct Wall {
    pub p1: Point,
    pub p2: Point,
    pub door_type: DoorType,
    pub door_state: DoorState,
    pub move_type: WallSenseType,
    pub height: WallHeight,
}

impl Wall {
    pub fn new(
        p1: Point,
        p2: Point,
        door_type: DoorType,
        door_state: DoorState,
        move_type: WallSenseType,
        height: WallHeight,
    ) -> (w: Self)
        ensures
            w == (Wall { p1, p2, door_type, door_state, move_type, height }),
    {
        Self { p1, p2, door_type, door_state, move_type, height }
    }

    pub open spec fn spec_is_door(self) -> bool {
        self.door_type != DoorType::NONE
    }

    pub open spec fn spec_is_open(self) -> bool {
        self.door_state == DoorState::OPEN
    }

    /// Whether the wall is a door of either kind.
    pub fn is_door(&self) -> (r: bool)
        ensures
            r == self.spec_is_door(),
    {
        self.door_type != DoorType::NONE
    }

    /// Whether the wall stands open. Only a door can be passed when open.
    pub fn is_open(&self) -> (r: bool)
        ensures
            r == self.spec_is_open(),
    {
        self.door_state == DoorState::OPEN
    }

    /// The segment on which the wall stands.
    pub open spec fn segment(self) -> LineSegment {
        LineSegment { p1: self.p1, p2: self.p2 }
    }

    /// Whether the wall concerns a token at the given elevation at all: it
    /// restricts movement and its vertical extent contains the elevation.
    pub open spec fn spec_is_relevant(self, elevation: i32) -> bool {
        self.move_type != WallSenseType::NONE && self.height.spec_contains(elevation)
    }

    /// Whether the wall concerns a token at the given elevation at all.
    pub fn is_relevant(&self, elevation: i32) -> (r: bool)
        ensures
            r == self.spec_is_relevant(elevation),
    {
        self.move_type != WallSenseType::NONE && self.height.contains(elevation)
    }

    /// Whether the wall stops a token at the given elevation: it restricts
    /// movement, it is not an open door, and its vertical extent contains the
    /// elevation.
    pub open spec fn spec_is_blocking(self, elevation: i32) -> bool {
        &&& self.move_type != WallSenseType::NONE
        &&& !(self.spec_is_door() && self.spec_is_open())
        &&& self.height.spec_contains(elevation)
    }

    /// Whether the wall stops a token at the given elevation.
    pub fn is_blocking(&self, elevation: i32) -> (r: bool)
        ensures
            r == self.spec_is_blocking(elevation),
    {
        self.move_type != WallSenseType::NONE && !(self.is_door() && self.is_open())
            && self.height.contains(elevation)
    }
}

/// A door segment together with whether it currently blocks.
#[derive(Debug, Clone, Copy, PartialEq, Eq, Structural)]
pub struct DynamicWall {
    pub segment: LineSegment,
    pub active: bool,
}

/// How a candidate edge stands to the walls.
#[derive(Debug, Clone, Copy, PartialEq, Eq, Structural)]
pub enum EdgeClass {
    /// The edge meets a wall or a door that blocks: there is no edge.
    Blocked,
    /// The edge is free, but only because a door on it stands open.
    Dynamic,
    /// The edge meets no wall and no door.
    Persistent,
}

/// Whether `line` meets one of the segments.
pub open spec fn spec_collides_with_wall(line: LineSegment, walls: Seq<LineSegment>) -> bool {
    exists|i: int| 0 <= i < walls.len() && line.crosses(#[trigger] walls[i])
}

/// Whether `line` meets one of the segments.
pub fn collides_with_wall(line: &LineSegment, walls: &Vec<LineSegment>) -> (r: bool)
    ensures
        r == spec_collides_with_wall(*line, walls@),
{
    let mut i: usize = 0;
    while i < walls.len()
        invariant
            i <= walls.len(),
            forall|j: int| 0 <= j < i ==> !line.crosses(#[trigger] walls@[j]),
        decreases walls.len() - i,
    {
        if line.intersection(&walls[i]).is_some() {
            return true;
        }
        i += 1;
    }
    false
}

/// Whether `line` meets a door whose activity is `active`.
pub open spec fn hits_dynamic(dynamic: Seq<DynamicWall>, line: LineSegment, active: bool) -> bool {
    exists|i: int|
        0 <= i < dynamic.len() && (#[trigger] dynamic[i]).active == active && line.crosses(
            dynamic[i].segment,
        )
}

/// Whether something that blocks stands on `line`: a segment that always
/// blocks, or a door that does at present.
pub open spec fn blocked(
    persistent: Seq<LineSegment>,
    dynamic: Seq<DynamicWall>,
    line: LineSegment,
) -> bool {
    spec_collides_with_wall(line, persistent) || hits_dynamic(dynamic, line, true)
}

/// The class of a candidate edge along `line`: blocked if something that
/// blocks stands on it; else dynamic if an open door stands on it; else
/// persistent.
pub open spec fn edge_class(
    persistent: Seq<LineSegment>,
    dynamic: Seq<DynamicWall>,
    line: LineSegment,
) -> EdgeClass {
    if blocked(persistent, dynamic, line) {
        EdgeClass::Blocked
    } else if hits_dynamic(dynamic, line, false) {
        EdgeClass::Dynamic
    } else {
        EdgeClass::Persistent
    }
}

/// The wall segments of one snapshot of the scene, in two parts: the
/// segments that always block, and the doors, each with its present state.
#[derive(Debug, Clone)]
pub struct WallStorage {
    pub persistent: Vec<LineSegment>,
    pub dynamic: Vec<DynamicWall>,
}

impl WallStorage {
    pub fn new() -> (s: Self)
        ensures
            s.persistent@.len() == 0,
            s.dynamic@.len() == 0,
    {
        Self { persistent: Vec::new(), dynamic: Vec::new() }
    }

    /// Whether `line` meets a door whose activity is `active`.
    pub open spec fn hits_dynamic(self, line: LineSegment, active: bool) -> bool {
        hits_dynamic(self.dynamic@, line, active)
    }

    /// Whether something that blocks stands on `line`.
    pub open spec fn blocks(self, line: LineSegment) -> bool {
        blocked(self.persistent@, self.dynamic@, line)
    }

    /// The class of a candidate edge along `line`.
    pub open spec fn spec_classify(self, line: LineSegment) -> EdgeClass {
        edge_class(self.persistent@, self.dynamic@, line)
    }

    /// Whether `line` meets a door whose activity is `active`.
    pub fn collides_with_dynamic(&self, line: &LineSegment, active: bool) -> (r: bool)
        ensures
            r == self.hits_dynamic(*line, active),
    {
        let mut i: usize = 0;
        while i < self.dynamic.len()
            invariant
                i <= self.dynamic.len(),
                forall|j: int|
                    0 <= j < i ==> !((#[trigger] self.dynamic@[j]).active == active
                        && line.crosses(self.dynamic@[j].segment)),
            decreases self.dynamic.len() - i,
        {
            if self.dynamic[i].active == active && line.intersection(
                &self.dynamic[i].segment,
            ).is_some() {
                return true;
            }
            i += 1;
        }
        false
    }

    /// Whether something that blocks stands on `line`.
    pub fn is_blocked(&self, line: &LineSegment) -> (r: bool)
        ensures
            r == self.blocks(*line),
    {
        collides_with_wall(line, &self.persistent) || self.collides_with_dynamic(line, true)
    }

    /// Sorts a candidate edge into one of the three classes.
    pub fn classify(&self, line: &LineSegment) -> (c: EdgeClass)
        ensures
            c == self.spec_classify(*line),
    {
        if self.is_blocked(line) {
            EdgeClass::Blocked
        } else if self.collides_with_dynamic(line, false) {
            EdgeClass::Dynamic
        } else {
            EdgeClass::Persistent
        }
    }

    /// The segments of the doors whose activity is `active`, in the order in
    /// which they are stored.
    pub open spec fn spec_doors(self, active: bool) -> Seq<LineSegment> {
        self.dynamic@.filter(|d: DynamicWall| d.active == active).map_values(
            |d: DynamicWall| d.segment,
        )
    }

    fn doors(&self, active: bool) -> (r: Vec<LineSegment>)
        ensures
            r@ == self.spec_doors(active),
    {
        let mut r: Vec<LineSegment> = Vec::new();
        let mut i: usize = 0;
        let ghost keep = |d: DynamicWall| d.active == active;
        let ghost seg = |d: DynamicWall| d.segment;
        while i < self.dynamic.len()
            invariant
                i <= self.dynamic.len(),
                keep == |d: DynamicWall| d.active == active,
                seg == |d: DynamicWall| d.segment,
                r@ == self.dynamic@.take(i as int).filter(keep).map_values(seg),
            decreases self.dynamic.len() - i,
        {
            proof {
                let prefix = self.dynamic@.take(i as int);
                let next = self.dynamic@.take(i + 1);
                assert(next == prefix.push(self.dynamic@[i as int]));
                assert(next.drop_last() == prefix);
                reveal(Seq::filter);
            }
            if self.dynamic[i].active == active {
                r.push(self.dynamic[i].segment);
            }
            proof {
                let prefix = self.dynamic@.take(i as int);
                let next = self.dynamic@.take(i + 1);
                if self.dynamic@[i as int].active == active {
                    assert(next.filter(keep) == prefix.filter(keep).push(self.dynamic@[i as int]));
                    assert(next.filter(keep).map_values(seg) =~= prefix.filter(keep).map_values(
                        seg,
                    ).push(self.dynamic@[i as int].segment));
                } else {
                    assert(next.filter(keep) == prefix.filter(keep));
                }
            }
            i += 1;
        }
        assert(self.dynamic@.take(self.dynamic@.len() as int) == self.dynamic@);
        r
    }

    /// The doors that block at present.
    pub fn active_dynamic(&self) -> (r: Vec<LineSegment>)
        ensures
            r@ == self.spec_doors(true),
    {
        self.doors(true)
    }

    /// The doors that stand open at present.
    pub fn inactive_dynamic(&self) -> (r: Vec<LineSegment>)
        ensures
            r@ == self.spec_doors(false),
    {
        self.doors(false)
    }

    /// Everything that blocks at present: the segments that always do, then
    /// the doors that do now.
    pub fn blocking(&self) -> (r: Vec<LineSegment>)
        ensures
            r@ == self.persistent@ + self.spec_doors(true),
    {
        let mut r: Vec<LineSegment> = Vec::new();
        let mut i: usize = 0;
        while i < self.persistent.len()
            invariant
                i <= self.persistent.len(),
                r@ == self.persistent@.take(i as int),
            decreases self.persistent.len() - i,
        {
            r.push(self.persistent[i]);
            assert(self.persistent@.take(i + 1) == self.persistent@.take(i as int).push(
                self.persistent@[i as int],
            ));
            i += 1;
        }
        assert(self.persistent@.take(self.persistent@.len() as int) == self.persistent@);
        let mut doors = self.doors(true);
        r.append(&mut doors);
        r
    }
}

} // verus!
