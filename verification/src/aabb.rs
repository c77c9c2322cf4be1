//! Axis-aligned boxes in fixed-point coordinates.

use crate::raycast::UNIT;
use vstd::prelude::*;

verus! {

/// The largest magnitude of a coordinate of a box that can be moved without
/// leaving the range of the machine's numbers.
pub const LIMIT: i64 = 0x1000_0000_0000_0000;

/// An axis-aligned box as mathematical values: its least and its greatest
/// corner.
pub struct Bounds {
    pub mins: (int, int, int),
    pub maxs: (int, int, int),
}

impl Bounds {
    /// Whether the least corner is nowhere above the greatest.
    pub open spec fn ordered(self) -> bool {
        self.mins.0 <= self.maxs.0 && self.mins.1 <= self.maxs.1 && self.mins.2 <= self.maxs.2
    }

    /// The box moved by `v`.
    pub open spec fn translated(self, v: (int, int, int)) -> Bounds {
        Bounds {
            mins: (self.mins.0 + v.0, self.mins.1 + v.1, self.mins.2 + v.2),
            maxs: (self.maxs.0 + v.0, self.maxs.1 + v.1, self.maxs.2 + v.2),
        }
    }

    /// Whether two boxes share interior: on every axis each begins before
    /// the other ends. Boxes that only touch do not intersect.
    pub open spec fn intersects(self, other: Bounds) -> bool {
        &&& self.mins.0 < other.maxs.0 && self.maxs.0 > other.mins.0
        &&& self.mins.1 < other.maxs.1 && self.maxs.1 > other.mins.1
        &&& self.mins.2 < other.maxs.2 && self.maxs.2 > other.mins.2
    }
}

/// The unit cube that the block at `c` fills.
pub open spec fn block_bounds(c: (int, int, int)) -> Bounds {
    Bounds {
        mins: (c.0 * UNIT, c.1 * UNIT, c.2 * UNIT),
        maxs: ((c.0 + 1) * UNIT, (c.1 + 1) * UNIT, (c.2 + 1) * UNIT),
    }
}

/// An axis-aligned box. Coordinates are fixed-point numbers.
#[derive(Clone, Copy, Debug, PartialEq, Eq)]
pub struct AABB {
    pub mins: (i64, i64, i64),
    pub maxs: (i64, i64, i64),
}

impl View for AABB {
    type V = Bounds;

    open spec fn view(&self) -> Bounds {
        Bounds {
            mins: (self.mins.0 as int, self.mins.1 as int, self.mins.2 as int),
            maxs: (self.maxs.0 as int, self.maxs.1 as int, self.maxs.2 as int),
        }
    }
}

/// Whether a coordinate is small enough to be moved.
pub open spec fn movable(p: int) -> bool {
    -LIMIT <= p <= LIMIT
}

impl AABB {
    /// A box is well formed if its corners are in order and its coordinates
    /// small enough to be moved.
    pub open spec fn wf(&self) -> bool {
        &&& self@.ordered()
        &&& movable(self.mins.0 as int) && movable(self.mins.1 as int) && movable(
            self.mins.2 as int,
        )
        &&& movable(self.maxs.0 as int) && movable(self.maxs.1 as int) && movable(
            self.maxs.2 as int,
        )
    }

    /// The box with the given corners.
    pub fn new(mins: (i64, i64, i64), maxs: (i64, i64, i64)) -> (aabb: AABB)
        ensures
            aabb.mins == mins,
            aabb.maxs == maxs,
    {
        AABB { mins, maxs }
    }

    /// Whether the box is well formed.
    pub fn is_valid(&self) -> (r: bool)
        ensures
            r == self.wf(),
    {
        self.mins.0 <= self.maxs.0 && self.mins.1 <= self.maxs.1 && self.mins.2 <= self.maxs.2
            && -LIMIT <= self.mins.0 && self.maxs.0 <= LIMIT && -LIMIT <= self.mins.1
            && self.maxs.1 <= LIMIT && -LIMIT <= self.mins.2 && self.maxs.2 <= LIMIT
    }

    /// Moves the box by `v`.
    pub fn translate(&mut self, v: (i64, i64, i64))
        requires
            old(self).wf(),
            movable(v.0 as int) && movable(v.1 as int) && movable(v.2 as int),
        ensures
            final(self)@ == old(self)@.translated((v.0 as int, v.1 as int, v.2 as int)),
    {
        self.mins = (self.mins.0 + v.0, self.mins.1 + v.1, self.mins.2 + v.2);
        self.maxs = (self.maxs.0 + v.0, self.maxs.1 + v.1, self.maxs.2 + v.2);
    }

    /// Whether two boxes share interior. Boxes that only touch do not.
    pub fn intersects(&self, other: &AABB) -> (r: bool)
        ensures
            r == self@.intersects(other@),
    {
        (self.mins.0 < other.maxs.0 && self.maxs.0 > other.mins.0) && (self.mins.1 < other.maxs.1
            && self.maxs.1 > other.mins.1) && (self.mins.2 < other.maxs.2 && self.maxs.2
            > other.mins.2)
    }
}

/// The unit cube that the block at `(x, y, z)` fills.
pub fn get_block_aabb(x: i32, y: i32, z: i32) -> (aabb: AABB)
    ensures
        aabb@ == block_bounds((x as int, y as int, z as int)),
        aabb.wf(),
{
    let (x, y, z): (i64, i64, i64) = (x as i64, y as i64, z as i64);
    AABB { mins: (x * UNIT, y * UNIT, z * UNIT), maxs: ((x + 1) * UNIT, (y + 1) * UNIT, (z + 1) * UNIT) }
}

/// Two boxes intersect or not whichever is asked of the other.
pub proof fn lemma_intersects_is_symmetric(a: Bounds, b: Bounds)
    ensures
        a.intersects(b) == b.intersects(a),
{
}

} // verus!
