//! Moving a box through the blocks of a world, one axis at a time.
//!
//! A sweep moves the box by the whole of its velocity along one axis and
//! then looks whether it has come to lie in a block. If it has, the box is
//! set back until its leading face is flush with the face of the block that
//! it ran into, and its velocity along the axis is set to zero. The box is
//! not moved in smaller steps, so a fast box can pass through a thin wall.

use crate::aabb::block_bounds;
use crate::aabb::get_block_aabb;
use crate::aabb::movable;
use crate::aabb::Bounds;
use crate::aabb::AABB;
use crate::chunk_manager::ChunkManager;
use crate::raycast::floor_unit;
use crate::raycast::in_grid;
use crate::raycast::solid_at;
use crate::raycast::UNIT;
use crate::world::as_ints;
use crate::world::blocks_of;
use crate::world::Blocks;
use vstd::prelude::*;

verus! {

/// Whether the cell `c` is among those that a box reaches into: on every
/// axis it lies between the cells of the box's two corners.
pub open spec fn in_scan(b: Bounds, c: (int, int, int)) -> bool {
    &&& b.mins.0 / (UNIT as int) <= c.0 <= b.maxs.0 / (UNIT as int)
    &&& b.mins.1 / (UNIT as int) <= c.1 <= b.maxs.1 / (UNIT as int)
    &&& b.mins.2 / (UNIT as int) <= c.2 <= b.maxs.2 / (UNIT as int)
}

/// Whether a box lies in the block at `c`: there is a block there that is
/// not `Air`, and the box shares interior with its unit cube.
pub open spec fn collides(blocks: Blocks, b: Bounds, c: (int, int, int)) -> bool {
    in_scan(b, c) && in_grid(c) && solid_at(blocks, c) && b.intersects(block_bounds(c))
}

/// The order in which the cells are looked at: by y, then by z, then by x.
pub open spec fn scanned_before(c1: (int, int, int), c2: (int, int, int)) -> bool {
    c1.1 < c2.1 || (c1.1 == c2.1 && (c1.2 < c2.2 || (c1.2 == c2.2 && c1.0 < c2.0)))
}

/// Whether `c` is the first block, in the order of the scan, that the box
/// lies in.
pub open spec fn first_collision(blocks: Blocks, b: Bounds, c: (int, int, int)) -> bool {
    &&& collides(blocks, b, c)
    &&& forall|c2: (int, int, int)| #[trigger] collides(blocks, b, c2) ==> !scanned_before(c2, c)
}

/// The coordinate `axis` of a triple.
pub open spec fn along(p: (int, int, int), axis: int) -> int {
    if axis == 0 {
        p.0
    } else if axis == 1 {
        p.1
    } else {
        p.2
    }
}

/// The triple `p` with its coordinate `axis` replaced by `v`.
pub open spec fn with_along(p: (int, int, int), axis: int, v: int) -> (int, int, int) {
    if axis == 0 {
        (v, p.1, p.2)
    } else if axis == 1 {
        (p.0, v, p.2)
    } else {
        (p.0, p.1, v)
    }
}

/// The box moved by `delta` along `axis`.
pub open spec fn moved_along(b: Bounds, axis: int, delta: int) -> Bounds {
    Bounds {
        mins: with_along(b.mins, axis, along(b.mins, axis) + delta),
        maxs: with_along(b.maxs, axis, along(b.maxs, axis) + delta),
    }
}

/// The box set back along `axis` from the block at `c` that it ran into
/// while moving by `delta`: its leading face is flush with the face of the
/// block that it came upon, and it is as long as before. A box that did not
/// move stays where it is.
pub open spec fn set_back(b: Bounds, axis: int, delta: int, c: (int, int, int)) -> Bounds {
    if delta > 0 {
        Bounds {
            mins: with_along(
                b.mins,
                axis,
                along(c, axis) * UNIT - (along(b.maxs, axis) - along(b.mins, axis)),
            ),
            maxs: with_along(b.maxs, axis, along(c, axis) * UNIT),
        }
    } else if delta < 0 {
        Bounds {
            mins: with_along(b.mins, axis, (along(c, axis) + 1) * UNIT),
            maxs: with_along(
                b.maxs,
                axis,
                (along(c, axis) + 1) * UNIT + (along(b.maxs, axis) - along(b.mins, axis)),
            ),
        }
    } else {
        b
    }
}

/// A box that shares interior with the cube of a cell reaches into that
/// cell, so the scan misses no block that the box lies in.
pub proof fn lemma_intersecting_is_scanned(b: Bounds, c: (int, int, int))
    requires
        b.intersects(block_bounds(c)),
    ensures
        in_scan(b, c),
{
}

/// A box that ran into a block and was set back no longer lies in that
/// block: its leading face is flush with the block's face, and it has kept
/// its size.
pub proof fn lemma_set_back_is_flush(b: Bounds, axis: int, delta: int, c: (int, int, int))
    requires
        0 <= axis < 3,
        b.ordered(),
        delta != 0,
    ensures
        !set_back(b, axis, delta, c).intersects(block_bounds(c)),
        set_back(b, axis, delta, c).ordered(),
        delta > 0 ==> along(set_back(b, axis, delta, c).maxs, axis) == along(
            block_bounds(c).mins,
            axis,
        ),
        delta < 0 ==> along(set_back(b, axis, delta, c).mins, axis) == along(
            block_bounds(c).maxs,
            axis,
        ),
        along(set_back(b, axis, delta, c).maxs, axis) - along(
            set_back(b, axis, delta, c).mins,
            axis,
        ) == along(b.maxs, axis) - along(b.mins, axis),
        forall|other: int|
            0 <= other < 3 && other != axis ==> along(set_back(b, axis, delta, c).mins, other)
                == along(b.mins, other) && along(set_back(b, axis, delta, c).maxs, other)
                == along(b.maxs, other),
{
}

/// The cells of the grid between the cells of two fixed-point coordinates.
fn scan_range(lo: i64, hi: i64) -> (r: (i64, i64))
    ensures
        r.0 == if lo as int / (UNIT as int) < i32::MIN {
            i32::MIN as int
        } else {
            lo as int / (UNIT as int)
        },
        r.1 == if hi as int / (UNIT as int) > i32::MAX {
            i32::MAX as int
        } else {
            hi as int / (UNIT as int)
        },
{
    let (a, _) = floor_unit(lo);
    let (b, _) = floor_unit(hi);
    (
        if a < -2147483648 {
            -2147483648
        } else {
            a
        },
        if b > 2147483647 {
            2147483647
        } else {
            b
        },
    )
}

/// The first block, in the order of the scan, that a box lies in, if it
/// lies in any. Unloaded chunks hold no blocks to lie in.
pub fn find_collision(world: &ChunkManager, aabb: &AABB) -> (found: Option<(i32, i32, i32)>)
    requires
        world.wf(),
    ensures
        match found {
            Some(c) => first_collision(blocks_of(world@), aabb@, as_ints(c)),
            None => forall|c: (int, int, int)| !collides(blocks_of(world@), aabb@, c),
        },
{
    let ghost blocks = blocks_of(world@);
    let (x0, x1) = scan_range(aabb.mins.0, aabb.maxs.0);
    let (y0, y1) = scan_range(aabb.mins.1, aabb.maxs.1);
    let (z0, z1) = scan_range(aabb.mins.2, aabb.maxs.2);
    if x0 > x1 || y0 > y1 || z0 > z1 {
        return None;
    }
    let mut x = x0;
    let mut y = y0;
    let mut z = z0;
    loop
        invariant
            world.wf(),
            blocks == blocks_of(world@),
            i32::MIN <= x0 <= x <= x1 <= i32::MAX,
            i32::MIN <= y0 <= y <= y1 <= i32::MAX,
            i32::MIN <= z0 <= z <= z1 <= i32::MAX,
            forall|c: (int, int, int)|
                (in_scan(aabb@, c) && in_grid(c)) <==> (x0 <= c.0 <= x1 && y0 <= c.1 <= y1 && z0
                    <= c.2 <= z1),
            forall|c: (int, int, int)| #[trigger]
                collides(blocks, aabb@, c) ==> !scanned_before(c, (x as int, y as int, z as int)),
        decreases y1 - y, z1 - z, x1 - x,
    {
        let solid = match world.get_block(x as i32, y as i32, z as i32) {
            Some(b) => !b.is_air(),
            None => false,
        };
        if solid && aabb.intersects(&get_block_aabb(x as i32, y as i32, z as i32)) {
            assert(collides(blocks, aabb@, (x as int, y as int, z as int)));
            return Some((x as i32, y as i32, z as i32));
        }
        assert(!collides(blocks, aabb@, (x as int, y as int, z as int)));
        if x < x1 {
            x = x + 1;
        } else if z < z1 {
            x = x0;
            z = z + 1;
        } else if y < y1 {
            x = x0;
            z = z0;
            y = y + 1;
        } else {
            return None;
        }
    }
}

/// Whether a box has come to lie in a block.
pub open spec fn stopped(blocks: Blocks, b: Bounds) -> bool {
    exists|c: (int, int, int)| first_collision(blocks, b, c)
}

/// The block that a box that has come to lie in a block ran into: the
/// first, in the order of the scan, that it lies in.
pub open spec fn contact(blocks: Blocks, b: Bounds) -> (int, int, int) {
    choose|c: (int, int, int)| first_collision(blocks, b, c)
}

/// The box after a sweep by `delta` along `axis`: moved by the whole of
/// `delta` and, if it has then come to lie in a block, set back from it.
pub open spec fn after_sweep(blocks: Blocks, b: Bounds, axis: int, delta: int) -> Bounds {
    if stopped(blocks, moved_along(b, axis, delta)) {
        set_back(
            moved_along(b, axis, delta),
            axis,
            delta,
            contact(blocks, moved_along(b, axis, delta)),
        )
    } else {
        moved_along(b, axis, delta)
    }
}

/// The velocity along `axis` after a sweep by `delta`: zero if the box has
/// run into a block, else `delta`.
pub open spec fn velocity_after(blocks: Blocks, b: Bounds, axis: int, delta: int) -> int {
    if stopped(blocks, moved_along(b, axis, delta)) {
        0
    } else {
        delta
    }
}

/// No two blocks are both the first that a box lies in.
pub proof fn lemma_first_collision_unique(
    blocks: Blocks,
    b: Bounds,
    c1: (int, int, int),
    c2: (int, int, int),
)
    requires
        first_collision(blocks, b, c1),
        first_collision(blocks, b, c2),
    ensures
        c1 == c2,
{
    assert(!scanned_before(c1, c2));
    assert(!scanned_before(c2, c1));
}

/// A box that runs into a block during a sweep ends the sweep with its
/// leading face flush with the face of the block that it came upon, with no
/// velocity left along the axis of the sweep, and outside that block. Along
/// the other axes it has not moved.
pub proof fn lemma_sweep_stops_at_contact(
    blocks: Blocks,
    b: Bounds,
    axis: int,
    delta: int,
    c: (int, int, int),
)
    requires
        0 <= axis < 3,
        b.ordered(),
        delta != 0,
        first_collision(blocks, moved_along(b, axis, delta), c),
    ensures
        velocity_after(blocks, b, axis, delta) == 0,
        delta > 0 ==> along(after_sweep(blocks, b, axis, delta).maxs, axis) == along(c, axis)
            * UNIT,
        delta < 0 ==> along(after_sweep(blocks, b, axis, delta).mins, axis) == (along(c, axis)
            + 1) * UNIT,
        !after_sweep(blocks, b, axis, delta).intersects(block_bounds(c)),
        along(after_sweep(blocks, b, axis, delta).maxs, axis) - along(
            after_sweep(blocks, b, axis, delta).mins,
            axis,
        ) == along(b.maxs, axis) - along(b.mins, axis),
{
    let m = moved_along(b, axis, delta);
    lemma_first_collision_unique(blocks, m, c, contact(blocks, m));
    lemma_set_back_is_flush(m, axis, delta, c);
}

/// A box that meets no block during a sweep moves by the whole of its
/// velocity and keeps that velocity.
pub proof fn lemma_free_sweep_moves(blocks: Blocks, b: Bounds, axis: int, delta: int)
    requires
        forall|c: (int, int, int)| !collides(blocks, moved_along(b, axis, delta), c),
    ensures
        after_sweep(blocks, b, axis, delta) == moved_along(b, axis, delta),
        velocity_after(blocks, b, axis, delta) == delta,
{
}

/// Sweeps a box along one axis: moves it by the whole of `velocity`, and if
/// it then lies in a block, sets it back until its leading face is flush
/// with the face of the first such block that it came upon. Returns the
/// velocity that is left: zero after running into a block, else `velocity`.
pub fn sweep_axis(world: &ChunkManager, aabb: &mut AABB, axis: usize, velocity: i64) -> (rest: i64)
    requires
        world.wf(),
        axis < 3,
        old(aabb)@.ordered(),
        movable(along(old(aabb)@.mins, axis as int)),
        movable(along(old(aabb)@.maxs, axis as int)),
        movable(velocity as int),
    ensures
        final(aabb)@ == after_sweep(blocks_of(world@), old(aabb)@, axis as int, velocity as int),
        rest == velocity_after(blocks_of(world@), old(aabb)@, axis as int, velocity as int),
        final(aabb)@.ordered(),
        forall|other: int|
            0 <= other < 3 && other != axis ==> along(final(aabb)@.mins, other) == along(
                old(aabb)@.mins,
                other,
            ) && along(final(aabb)@.maxs, other) == along(old(aabb)@.maxs, other),
{
    let ghost blocks = blocks_of(world@);
    let ghost moved = moved_along(aabb@, axis as int, velocity as int);
    if axis == 0 {
        aabb.mins.0 = aabb.mins.0 + velocity;
        aabb.maxs.0 = aabb.maxs.0 + velocity;
    } else if axis == 1 {
        aabb.mins.1 = aabb.mins.1 + velocity;
        aabb.maxs.1 = aabb.maxs.1 + velocity;
    } else {
        aabb.mins.2 = aabb.mins.2 + velocity;
        aabb.maxs.2 = aabb.maxs.2 + velocity;
    }
    assert(aabb@ == moved);
    match find_collision(world, aabb) {
        Some(c) => {
            proof {
                lemma_first_collision_unique(blocks, moved, as_ints(c), contact(blocks, moved));
                if velocity != 0 {
                    lemma_set_back_is_flush(moved, axis as int, velocity as int, as_ints(c));
                }
            }
            let face: i64 = if axis == 0 {
                c.0 as i64
            } else if axis == 1 {
                c.1 as i64
            } else {
                c.2 as i64
            };
            let (lo, hi): (i64, i64) = if axis == 0 {
                (aabb.mins.0, aabb.maxs.0)
            } else if axis == 1 {
                (aabb.mins.1, aabb.maxs.1)
            } else {
                (aabb.mins.2, aabb.maxs.2)
            };
            let size: i64 = hi - lo;
            let (new_lo, new_hi): (i64, i64) = if velocity > 0 {
                (face * UNIT - size, face * UNIT)
            } else if velocity < 0 {
                ((face + 1) * UNIT, (face + 1) * UNIT + size)
            } else {
                (lo, hi)
            };
            if axis == 0 {
                aabb.mins.0 = new_lo;
                aabb.maxs.0 = new_hi;
            } else if axis == 1 {
                aabb.mins.1 = new_lo;
                aabb.maxs.1 = new_hi;
            } else {
                aabb.mins.2 = new_lo;
                aabb.maxs.2 = new_hi;
            }
            assert(aabb@ == set_back(moved, axis as int, velocity as int, as_ints(c)));
            0
        },
        None => {
            assert(!stopped(blocks, moved));
            velocity
        },
    }
}

/// Moves a box through the blocks of a world by its velocity for one step:
/// a sweep along x, then one along y, then one along z, each starting from
/// where the one before left the box. Returns the velocity that is left,
/// in which every component along which the box ran into a block is zero.
pub fn sweep(world: &ChunkManager, aabb: &mut AABB, velocity: (i64, i64, i64)) -> (rest: (
    i64,
    i64,
    i64,
))
    requires
        world.wf(),
        old(aabb).wf(),
        movable(velocity.0 as int) && movable(velocity.1 as int) && movable(velocity.2 as int),
    ensures
        final(aabb)@ == after_sweeps(
            blocks_of(world@),
            old(aabb)@,
            (velocity.0 as int, velocity.1 as int, velocity.2 as int),
        ),
        (rest.0 as int, rest.1 as int, rest.2 as int) == velocity_after_sweeps(
            blocks_of(world@),
            old(aabb)@,
            (velocity.0 as int, velocity.1 as int, velocity.2 as int),
        ),
        final(aabb)@.ordered(),
{
    let x = sweep_axis(world, aabb, 0, velocity.0);
    let y = sweep_axis(world, aabb, 1, velocity.1);
    let z = sweep_axis(world, aabb, 2, velocity.2);
    (x, y, z)
}

/// The box after sweeps along x, y and z in this order.
pub open spec fn after_sweeps(blocks: Blocks, b: Bounds, v: (int, int, int)) -> Bounds {
    after_sweep(blocks, after_sweep(blocks, after_sweep(blocks, b, 0, v.0), 1, v.1), 2, v.2)
}

/// The velocity after sweeps along x, y and z in this order.
pub open spec fn velocity_after_sweeps(blocks: Blocks, b: Bounds, v: (int, int, int)) -> (
    int,
    int,
    int,
) {
    (
        velocity_after(blocks, b, 0, v.0),
        velocity_after(blocks, after_sweep(blocks, b, 0, v.0), 1, v.1),
        velocity_after(blocks, after_sweep(blocks, after_sweep(blocks, b, 0, v.0), 1, v.1), 2, v.2),
    )
}

} // verus!
