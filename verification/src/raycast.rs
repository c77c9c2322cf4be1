//! Casting a ray through the voxel grid.
//!
//! The ray visits, in order, the cells it passes through, and stops at the
//! first one that holds something. Positions, directions and distances are
//! fixed-point numbers with 16 fractional bits: `UNIT` stands for one block.
//! All comparisons of crossing times are made exactly, by cross
//! multiplication.

use crate::block::BlockID;
use crate::chunk_manager::ChunkManager;
use crate::world::as_ints;
use crate::world::world_with_block;
use crate::world::block_at;
use crate::world::blocks_of;
use crate::world::Blocks;
use vstd::prelude::*;

verus! {

/// The fixed-point representation of one block.
pub const UNIT: i64 = 65536;

/// The direction of travel along an axis: up for a positive component of
/// the ray's direction, down otherwise.
pub open spec fn sign(d: int) -> int {
    if d > 0 {
        1
    } else {
        -1
    }
}

/// The absolute value.
pub open spec fn magnitude(d: int) -> int {
    if d >= 0 {
        d
    } else {
        -d
    }
}

/// The distance along one axis from the origin `p` to the first cell
/// boundary in the direction of travel.
pub open spec fn first_boundary(p: int, d: int) -> int {
    if d > 0 {
        UNIT - p % (UNIT as int)
    } else {
        p % (UNIT as int)
    }
}

/// The distance along one axis from the origin `p` to the boundary that the
/// ray crosses with its next step on that axis, after `k` steps on it.
pub open spec fn boundary(p: int, d: int, k: int) -> int {
    first_boundary(p, d) + k * UNIT
}

/// Whether a ray that has to travel `b1` along an axis on which its
/// direction is `d1` gets there no later than it gets `b2` far along an axis
/// on which its direction is `d2`. Along an axis on which the direction is
/// zero the ray never gets anywhere.
pub open spec fn no_later(b1: int, d1: int, b2: int, d2: int) -> bool {
    if d1 == 0 {
        d2 == 0
    } else if d2 == 0 {
        true
    } else {
        b1 * magnitude(d2) <= b2 * magnitude(d1)
    }
}

/// Whether a ray that has to travel `b` along an axis on which its
/// direction is `d` gets there within the distance `dist`.
pub open spec fn within(b: int, d: int, dist: int) -> bool {
    d != 0 && b * UNIT <= dist * magnitude(d)
}

/// How many steps a ray has taken along each axis, and the axis of the last
/// step: 0 for x, 1 for y, 2 for z, 3 if no step has been taken.
pub struct Steps {
    pub x: int,
    pub y: int,
    pub z: int,
    pub last: int,
}

/// The distances to the next boundaries after the given steps.
pub open spec fn next_boundaries(o: (int, int, int), d: (int, int, int), s: Steps) -> (
    int,
    int,
    int,
) {
    (boundary(o.0, d.0, s.x), boundary(o.1, d.1, s.y), boundary(o.2, d.2, s.z))
}

/// The axis of the next step: the one whose boundary the ray reaches first.
/// Where two or more boundaries are reached at the same time, x comes before
/// z and z before y.
pub open spec fn next_axis(o: (int, int, int), d: (int, int, int), s: Steps) -> int {
    let b = next_boundaries(o, d, s);
    if no_later(b.0, d.0, b.1, d.1) && no_later(b.0, d.0, b.2, d.2) {
        0
    } else if no_later(b.2, d.2, b.1, d.1) {
        2
    } else {
        1
    }
}

/// The steps after one more step along `axis`.
pub open spec fn advance(s: Steps, axis: int) -> Steps {
    if axis == 0 {
        Steps { x: s.x + 1, last: 0, ..s }
    } else if axis == 1 {
        Steps { y: s.y + 1, last: 1, ..s }
    } else {
        Steps { z: s.z + 1, last: 2, ..s }
    }
}

/// The steps that lead to the `n`-th cell of the ray, counted from zero.
pub open spec fn steps_to(o: (int, int, int), d: (int, int, int), n: nat) -> Steps
    decreases n,
{
    if n == 0 {
        Steps { x: 0, y: 0, z: 0, last: 3 }
    } else {
        advance(steps_to(o, d, (n - 1) as nat), next_axis(o, d, steps_to(o, d, (n - 1) as nat)))
    }
}

/// The coordinate reached from `c` by `k` steps in the direction of travel.
pub open spec fn moved(c: int, d: int, k: int) -> int {
    if d > 0 {
        c + k
    } else {
        c - k
    }
}

/// The cell reached from the cell of the origin by the given steps.
pub open spec fn cell_after(o: (int, int, int), d: (int, int, int), s: Steps) -> (int, int, int) {
    (
        moved(o.0 / (UNIT as int), d.0, s.x),
        moved(o.1 / (UNIT as int), d.1, s.y),
        moved(o.2 / (UNIT as int), d.2, s.z),
    )
}

/// The `n`-th cell of the ray.
pub open spec fn cell(o: (int, int, int), d: (int, int, int), n: nat) -> (int, int, int) {
    cell_after(o, d, steps_to(o, d, n))
}

/// The normal of the face through which the ray entered the cell it reached
/// by the given steps: it points against the last step. Zero for the cell of
/// the origin.
pub open spec fn entry_normal(d: (int, int, int), s: Steps) -> (int, int, int) {
    if s.last == 0 {
        (-sign(d.0), 0, 0)
    } else if s.last == 1 {
        (0, -sign(d.1), 0)
    } else if s.last == 2 {
        (0, 0, -sign(d.2))
    } else {
        (0, 0, 0)
    }
}

/// Whether a cell lies in the grid that 32-bit coordinates span.
pub open spec fn in_grid(c: (int, int, int)) -> bool {
    i32::MIN <= c.0 <= i32::MAX && i32::MIN <= c.1 <= i32::MAX && i32::MIN <= c.2 <= i32::MAX
}

/// Whether the ray, after the given steps, takes another one: it reaches
/// the next boundary within the distance, and beyond it the grid goes on.
pub open spec fn goes_on(o: (int, int, int), d: (int, int, int), dist: int, s: Steps) -> bool {
    let b = next_boundaries(o, d, s);
    let axis = next_axis(o, d, s);
    &&& if axis == 0 {
        within(b.0, d.0, dist)
    } else if axis == 1 {
        within(b.1, d.1, dist)
    } else {
        within(b.2, d.2, dist)
    }
    &&& in_grid(cell_after(o, d, advance(s, axis)))
}

/// Whether the ray gets as far as its `n`-th cell: the origin lies in the
/// grid and the distance is not negative, and the ray takes each of the
/// steps that lead to the cell.
pub open spec fn visits(o: (int, int, int), d: (int, int, int), dist: int, n: nat) -> bool
    decreases n,
{
    if n == 0 {
        0 <= dist && in_grid(cell_after(o, d, steps_to(o, d, 0)))
    } else {
        visits(o, d, dist, (n - 1) as nat) && goes_on(o, d, dist, steps_to(o, d, (n - 1) as nat))
    }
}

/// A cell as the arguments of an occupancy test.
pub open spec fn cell_args(c: (int, int, int)) -> (i32, i32, i32) {
    (c.0 as i32, c.1 as i32, c.2 as i32)
}

/// A ray that does not get to a cell does not get to any later one.
pub proof fn lemma_visits_earlier(
    o: (int, int, int),
    d: (int, int, int),
    dist: int,
    m: nat,
    n: nat,
)
    requires
        m <= n,
        visits(o, d, dist, n),
    ensures
        visits(o, d, dist, m),
    decreases n,
{
    if m < n {
        lemma_visits_earlier(o, d, dist, m, (n - 1) as nat);
    }
}

/// Each cell of a ray after the first is next to the one before it: it
/// differs from it by one step along one axis, and that step is the
/// negation of the normal with which the ray enters.
pub proof fn lemma_cells_are_adjacent(o: (int, int, int), d: (int, int, int), n: nat)
    requires
        n > 0,
    ensures
        ({
            let before = cell(o, d, (n - 1) as nat);
            let after = cell(o, d, n);
            let normal = entry_normal(d, steps_to(o, d, n));
            &&& after == (before.0 - normal.0, before.1 - normal.1, before.2 - normal.2)
            &&& magnitude(normal.0) + magnitude(normal.1) + magnitude(normal.2) == 1
        }),
{
}

/// The steps to the `n`-th cell are `n` steps in all.
pub proof fn lemma_steps_count(o: (int, int, int), d: (int, int, int), n: nat)
    ensures
        steps_to(o, d, n).x + steps_to(o, d, n).y + steps_to(o, d, n).z == n,
        steps_to(o, d, n).x >= 0 && steps_to(o, d, n).y >= 0 && steps_to(o, d, n).z >= 0,
        (steps_to(o, d, n).last == 3) <==> n == 0,
        0 <= steps_to(o, d, n).last <= 3,
    decreases n,
{
    if n > 0 {
        lemma_steps_count(o, d, (n - 1) as nat);
    }
}

/// The whole and the fractional part of a fixed-point number.
pub(crate) fn floor_unit(p: i64) -> (r: (i64, i64))
    ensures
        r.0 == p as int / (UNIT as int),
        r.1 == p as int % (UNIT as int),
        0 <= r.1 < UNIT,
{
    if p >= 0 {
        (p / UNIT, p % UNIT)
    } else {
        let m: i64 = -(p + 1);
        (-(m / UNIT) - 1, UNIT - 1 - m % UNIT)
    }
}

/// The absolute value of a direction component.
fn magnitude_of(d: i32) -> (m: i128)
    ensures
        m == magnitude(d as int),
        0 <= m <= 0x8000_0000,
{
    if d >= 0 {
        d as i128
    } else {
        -(d as i128)
    }
}

/// The largest distance to a boundary that the cast computes with.
const REACH: i128 = 0x8000_0000_0000_0000_0000;

proof fn lemma_product_bound(b: int, m: int)
    by (nonlinear_arith)
    requires
        0 <= b <= REACH,
        0 <= m <= 0x8000_0000,
    ensures
        0 <= b * m <= REACH * 0x8000_0000,
{
}

/// Whether the ray gets `b1` far along one axis no later than `b2` far
/// along another.
fn reaches_no_later(b1: i128, d1: i32, b2: i128, d2: i32) -> (r: bool)
    requires
        0 <= b1 <= REACH,
        0 <= b2 <= REACH,
    ensures
        r == no_later(b1 as int, d1 as int, b2 as int, d2 as int),
{
    if d1 == 0 {
        d2 == 0
    } else if d2 == 0 {
        true
    } else {
        let m1 = magnitude_of(d1);
        let m2 = magnitude_of(d2);
        proof {
            lemma_product_bound(b1 as int, m2 as int);
            lemma_product_bound(b2 as int, m1 as int);
        }
        b1 * m2 <= b2 * m1
    }
}

/// How many more steps a ray can take along one axis within the distance,
/// when `b` is the distance to the next boundary and `cap` the farthest
/// that the ray gets along the axis.
spec fn steps_left(b: int, d: int, cap: int) -> int {
    if d != 0 && b <= cap {
        (cap - b) / (UNIT as int) + 1
    } else {
        0
    }
}

/// Casts a ray from `origin` in `direction` and returns what `get_voxel`
/// finds in the first cell along the ray in which it finds anything,
/// together with the normal of the face through which the ray enters that
/// cell: the unit vector against the last step, or zero if the cell is the
/// one that the origin lies in. Returns nothing if the ray finds nothing
/// within `distance`.
///
/// `origin`, `direction` and `distance` are fixed-point numbers: `UNIT`
/// stands for one block, and along a direction of length `UNIT` the
/// distance is measured in blocks. The ray looks at a cell if it reaches it
/// within the distance, the boundary of the cell counting as part of it,
/// and ends where it would leave the grid of 32-bit coordinates. A ray with
/// a negative distance, or with its origin outside the grid, looks at no
/// cell; a ray without direction looks at the cell of its origin only.
/// Where the ray passes through an edge or a corner, it steps along x
/// before z and along z before y.
pub fn raycast<T, F: Fn(i32, i32, i32) -> Option<T>>(
    get_voxel: F,
    origin: (i64, i64, i64),
    direction: (i32, i32, i32),
    distance: i64,
) -> (hit: Option<(T, (i32, i32, i32))>)
    requires
        forall|x: i32, y: i32, z: i32| call_requires(get_voxel, (x, y, z)),
    ensures
        match hit {
            Some((voxel, normal)) => exists|n: nat|
                {
                    &&& #[trigger] visits(ray_origin(origin), ray_direction(direction), distance as int, n)
                    &&& call_ensures(
                        get_voxel,
                        cell_args(cell(ray_origin(origin), ray_direction(direction), n)),
                        Some(voxel),
                    )
                    &&& (normal.0 as int, normal.1 as int, normal.2 as int) == entry_normal(
                        ray_direction(direction),
                        steps_to(ray_origin(origin), ray_direction(direction), n),
                    )
                    &&& forall|m: nat|
                        m < n ==> call_ensures(
                            get_voxel,
                            #[trigger] cell_args(
                                cell(ray_origin(origin), ray_direction(direction), m),
                            ),
                            None::<T>,
                        )
                },
            None => forall|n: nat| #[trigger]
                visits(ray_origin(origin), ray_direction(direction), distance as int, n)
                    ==> call_ensures(
                    get_voxel,
                    cell_args(cell(ray_origin(origin), ray_direction(direction), n)),
                    None::<T>,
                ),
        },
{
    let ghost o = ray_origin(origin);
    let ghost d = ray_direction(direction);
    let ghost dist = distance as int;
    let (cx, fx) = floor_unit(origin.0);
    let (cy, fy) = floor_unit(origin.1);
    let (cz, fz) = floor_unit(origin.2);
    if distance < 0 || cx < -2147483648 || cx > 2147483647 || cy < -2147483648 || cy > 2147483647
        || cz < -2147483648 || cz > 2147483647 {
        proof {
            assert(!visits(o, d, dist, 0));
            assert forall|n: nat| #[trigger] visits(o, d, dist, n) implies call_ensures(
                get_voxel,
                cell_args(cell(o, d, n)),
                None::<T>,
            ) by {
                lemma_visits_earlier(o, d, dist, 0, n);
            }
        }
        return None;
    }
    let mut i: (i32, i32, i32) = (cx as i32, cy as i32, cz as i32);
    let up: (bool, bool, bool) = (direction.0 > 0, direction.1 > 0, direction.2 > 0);
    let mag: (i128, i128, i128) = (
        magnitude_of(direction.0),
        magnitude_of(direction.1),
        magnitude_of(direction.2),
    );
    proof {
        lemma_product_bound(dist, mag.0 as int);
        lemma_product_bound(dist, mag.1 as int);
        lemma_product_bound(dist, mag.2 as int);
    }
    let lim: (i128, i128, i128) = (
        distance as i128 * mag.0,
        distance as i128 * mag.1,
        distance as i128 * mag.2,
    );
    let mut b: (i128, i128, i128) = (
        if up.0 {
            (UNIT - fx) as i128
        } else {
            fx as i128
        },
        if up.1 {
            (UNIT - fy) as i128
        } else {
            fy as i128
        },
        if up.2 {
            (UNIT - fz) as i128
        } else {
            fz as i128
        },
    );
    let mut last: u8 = 3;
    let ghost mut n: nat = 0;
    let ghost cap = (
        lim.0 as int / (UNIT as int),
        lim.1 as int / (UNIT as int),
        lim.2 as int / (UNIT as int),
    );
    loop
        invariant
            forall|x: i32, y: i32, z: i32| call_requires(get_voxel, (x, y, z)),
            o == ray_origin(origin),
            d == ray_direction(direction),
            dist == distance as int,
            visits(o, d, dist, n),
            (i.0 as int, i.1 as int, i.2 as int) == cell(o, d, n),
            (b.0 as int, b.1 as int, b.2 as int) == next_boundaries(o, d, steps_to(o, d, n)),
            last == steps_to(o, d, n).last,
            up == (direction.0 > 0, direction.1 > 0, direction.2 > 0),
            mag.0 == magnitude(d.0) && mag.1 == magnitude(d.1) && mag.2 == magnitude(d.2),
            lim.0 == dist * magnitude(d.0) && lim.1 == dist * magnitude(d.1) && lim.2 == dist
                * magnitude(d.2),
            0 <= lim.0 <= REACH * 0x8000_0000 && 0 <= lim.1 <= REACH * 0x8000_0000 && 0 <= lim.2
                <= REACH * 0x8000_0000,
            cap == (
                lim.0 as int / (UNIT as int),
                lim.1 as int / (UNIT as int),
                lim.2 as int / (UNIT as int),
            ),
            0 <= b.0 <= cap.0 + UNIT || 0 <= b.0 <= UNIT,
            0 <= b.1 <= cap.1 + UNIT || 0 <= b.1 <= UNIT,
            0 <= b.2 <= cap.2 + UNIT || 0 <= b.2 <= UNIT,
            forall|m: nat|
                m < n ==> call_ensures(get_voxel, #[trigger] cell_args(cell(o, d, m)), None::<T>),
        decreases
            steps_left(b.0 as int, d.0, cap.0) + steps_left(b.1 as int, d.1, cap.1) + steps_left(
                b.2 as int,
                d.2,
                cap.2,
            ),
    {
        let ghost s = steps_to(o, d, n);
        match get_voxel(i.0, i.1, i.2) {
            Some(voxel) => {
                let normal: (i32, i32, i32) = if last == 0 {
                    (if up.0 { -1 } else { 1 }, 0, 0)
                } else if last == 1 {
                    (0, if up.1 { -1 } else { 1 }, 0)
                } else if last == 2 {
                    (0, 0, if up.2 { -1 } else { 1 })
                } else {
                    (0, 0, 0)
                };
                return Some((voxel, normal));
            },
            None => {},
        }
        let axis: u8 = if reaches_no_later(b.0, direction.0, b.1, direction.1) && reaches_no_later(
            b.0,
            direction.0,
            b.2,
            direction.2,
        ) {
            0
        } else if reaches_no_later(b.2, direction.2, b.1, direction.1) {
            2
        } else {
            1
        };
        assert(axis == next_axis(o, d, s));
        let reached = if axis == 0 {
            direction.0 != 0 && b.0 * (UNIT as i128) <= lim.0 && (if up.0 {
                i.0 < i32::MAX
            } else {
                i.0 > i32::MIN
            })
        } else if axis == 1 {
            direction.1 != 0 && b.1 * (UNIT as i128) <= lim.1 && (if up.1 {
                i.1 < i32::MAX
            } else {
                i.1 > i32::MIN
            })
        } else {
            direction.2 != 0 && b.2 * (UNIT as i128) <= lim.2 && (if up.2 {
                i.2 < i32::MAX
            } else {
                i.2 > i32::MIN
            })
        };
        assert(reached == goes_on(o, d, dist, s));
        if !reached {
            proof {
                assert(!visits(o, d, dist, n + 1));
                assert forall|k: nat| #[trigger] visits(o, d, dist, k) implies call_ensures(
                    get_voxel,
                    cell_args(cell(o, d, k)),
                    None::<T>,
                ) by {
                    if k > n {
                        lemma_visits_earlier(o, d, dist, n + 1, k);
                    } else if k < n {
                        assert(call_ensures(get_voxel, cell_args(cell(o, d, k)), None::<T>));
                    }
                }
            }
            return None;
        }
        if axis == 0 {
            i.0 = if up.0 { i.0 + 1 } else { i.0 - 1 };
            b.0 = b.0 + UNIT as i128;
        } else if axis == 1 {
            i.1 = if up.1 { i.1 + 1 } else { i.1 - 1 };
            b.1 = b.1 + UNIT as i128;
        } else {
            i.2 = if up.2 { i.2 + 1 } else { i.2 - 1 };
            b.2 = b.2 + UNIT as i128;
        }
        last = axis;
        proof {
            assert forall|m: nat| m < n + 1 implies call_ensures(
                get_voxel,
                #[trigger] cell_args(cell(o, d, m)),
                None::<T>,
            ) by {
                if m == n {
                } else {
                    assert(m < n);
                }
            }
            n = n + 1;
        }
    }
}

/// The origin of a ray as mathematical integers.
pub open spec fn ray_origin(origin: (i64, i64, i64)) -> (int, int, int) {
    (origin.0 as int, origin.1 as int, origin.2 as int)
}

/// The direction of a ray as mathematical integers.
pub open spec fn ray_direction(direction: (i32, i32, i32)) -> (int, int, int) {
    (direction.0 as int, direction.1 as int, direction.2 as int)
}

/// Whether the cell `c` holds a block that is not `Air`.
pub open spec fn solid_at(blocks: Blocks, c: (int, int, int)) -> bool {
    match block_at(blocks, c.0, c.1, c.2) {
        Some(b) => !b.is_air(),
        None => false,
    }
}

/// Whether the `n`-th cell of the ray is the first one that holds a block.
pub open spec fn first_solid(
    blocks: Blocks,
    o: (int, int, int),
    d: (int, int, int),
    dist: int,
    n: nat,
) -> bool {
    &&& visits(o, d, dist, n)
    &&& solid_at(blocks, cell(o, d, n))
    &&& forall|m: nat| m < n ==> !solid_at(blocks, #[trigger] cell(o, d, m))
}

/// A ray has at most one first cell that holds a block.
pub proof fn lemma_first_solid_unique(
    blocks: Blocks,
    o: (int, int, int),
    d: (int, int, int),
    dist: int,
    n: nat,
    m: nat,
)
    requires
        first_solid(blocks, o, d, dist, n),
        first_solid(blocks, o, d, dist, m),
    ensures
        n == m,
{
    if n < m {
        assert(!solid_at(blocks, cell(o, d, n)));
    }
    if m < n {
        assert(!solid_at(blocks, cell(o, d, m)));
    }
}

/// Casts a ray through the blocks of a world and returns the coordinates
/// of the first block along the ray that is not `Air`, together with the
/// normal of the face through which the ray enters it. Unloaded chunks
/// hold nothing to hit. Returns nothing if the ray meets no block within
/// the distance.
pub fn raycast_blocks(
    world: &ChunkManager,
    origin: (i64, i64, i64),
    direction: (i32, i32, i32),
    distance: i64,
) -> (hit: Option<((i32, i32, i32), (i32, i32, i32))>)
    requires
        world.wf(),
    ensures
        match hit {
            Some((block, normal)) => exists|n: nat|
                {
                    &&& #[trigger] first_solid(
                        blocks_of(world@),
                        ray_origin(origin),
                        ray_direction(direction),
                        distance as int,
                        n,
                    )
                    &&& (block.0 as int, block.1 as int, block.2 as int) == cell(
                        ray_origin(origin),
                        ray_direction(direction),
                        n,
                    )
                    &&& (normal.0 as int, normal.1 as int, normal.2 as int) == entry_normal(
                        ray_direction(direction),
                        steps_to(ray_origin(origin), ray_direction(direction), n),
                    )
                },
            None => forall|n: nat| #[trigger]
                visits(ray_origin(origin), ray_direction(direction), distance as int, n)
                    ==> !solid_at(
                    blocks_of(world@),
                    cell(ray_origin(origin), ray_direction(direction), n),
                ),
        },
{
    let ghost o = ray_origin(origin);
    let ghost d = ray_direction(direction);
    let ghost blocks = blocks_of(world@);
    let get_voxel = |x: i32, y: i32, z: i32| -> (r: Option<(i32, i32, i32)>)
        requires
            world.wf(),
        ensures
            r == if solid_at(blocks_of(world@), (x as int, y as int, z as int)) {
                Some((x, y, z))
            } else {
                None
            },
        {
            match world.get_block(x, y, z) {
                Some(b) => if b.is_air() {
                    None
                } else {
                    Some((x, y, z))
                },
                None => None,
            }
        };
    let hit = raycast(get_voxel, origin, direction, distance);
    proof {
        assert forall|n: nat| visits(o, d, distance as int, n) implies crate::world::as_ints(
            #[trigger] cell_args(cell(o, d, n)),
        ) == cell(o, d, n) by {
            lemma_visited_in_grid(o, d, distance as int, n);
        }
        match hit {
            Some((block, normal)) => {
                let n = choose|n: nat|
                    {
                        &&& #[trigger] visits(o, d, distance as int, n)
                        &&& call_ensures(get_voxel, cell_args(cell(o, d, n)), Some(block))
                        &&& (normal.0 as int, normal.1 as int, normal.2 as int) == entry_normal(
                            d,
                            steps_to(o, d, n),
                        )
                        &&& forall|m: nat|
                            m < n ==> call_ensures(
                                get_voxel,
                                #[trigger] cell_args(cell(o, d, m)),
                                None::<(i32, i32, i32)>,
                            )
                    };
                assert forall|m: nat| m < n implies !solid_at(
                    blocks,
                    #[trigger] cell(o, d, m),
                ) by {
                    lemma_visits_earlier(o, d, distance as int, m, n);
                    assert(call_ensures(
                        get_voxel,
                        cell_args(cell(o, d, m)),
                        None::<(i32, i32, i32)>,
                    ));
                }
                assert(first_solid(blocks, o, d, distance as int, n));
            },
            None => {},
        }
    }
    hit
}

/// Every cell that a ray gets to lies in the grid.
pub proof fn lemma_visited_in_grid(o: (int, int, int), d: (int, int, int), dist: int, n: nat)
    requires
        visits(o, d, dist, n),
    ensures
        in_grid(cell(o, d, n)),
{
}

/// The cell in front of the `n`-th cell of a ray: the cell that the ray
/// comes from when it enters the `n`-th cell, or that cell itself if it is
/// the one that the origin lies in.
pub open spec fn cell_before(o: (int, int, int), d: (int, int, int), n: nat) -> (int, int, int) {
    if n == 0 {
        cell(o, d, 0)
    } else {
        cell(o, d, (n - 1) as nat)
    }
}

/// Removes the first block along a ray: writes `Air` where the ray first
/// meets a block that is not `Air`. Returns the coordinates of the block,
/// or nothing, and changes nothing, if the ray meets no block.
pub fn dig(
    world: &mut ChunkManager,
    origin: (i64, i64, i64),
    direction: (i32, i32, i32),
    distance: i64,
) -> (dug: Option<(i32, i32, i32)>)
    requires
        old(world).wf(),
    ensures
        final(world).wf(),
        match dug {
            Some(block) => exists|n: nat|
                {
                    &&& #[trigger] first_solid(
                        blocks_of(old(world)@),
                        ray_origin(origin),
                        ray_direction(direction),
                        distance as int,
                        n,
                    )
                    &&& as_ints(block) == cell(ray_origin(origin), ray_direction(direction), n)
                    &&& final(world)@ == world_with_block(
                        old(world)@,
                        block.0 as int,
                        block.1 as int,
                        block.2 as int,
                        BlockID::Air,
                    )
                },
            None => {
                &&& final(world)@ == old(world)@
                &&& forall|n: nat| #[trigger]
                    visits(ray_origin(origin), ray_direction(direction), distance as int, n)
                        ==> !solid_at(
                        blocks_of(old(world)@),
                        cell(ray_origin(origin), ray_direction(direction), n),
                    )
            },
        },
{
    match raycast_blocks(world, origin, direction, distance) {
        Some((block, _)) => {
            world.set_block(block.0, block.1, block.2, BlockID::Air);
            Some(block)
        },
        None => None,
    }
}

/// Puts a block in front of the first block along a ray: writes `block`
/// into the cell from which the ray enters the first cell that holds a
/// block that is not `Air`, or into that cell itself if the origin of the
/// ray lies in it. Returns the coordinates written at, or nothing, and
/// changes nothing, if the ray meets no block.
pub fn build(
    world: &mut ChunkManager,
    origin: (i64, i64, i64),
    direction: (i32, i32, i32),
    distance: i64,
    block: BlockID,
) -> (built: Option<(i32, i32, i32)>)
    requires
        old(world).wf(),
    ensures
        final(world).wf(),
        match built {
            Some(place) => exists|n: nat|
                {
                    &&& #[trigger] first_solid(
                        blocks_of(old(world)@),
                        ray_origin(origin),
                        ray_direction(direction),
                        distance as int,
                        n,
                    )
                    &&& as_ints(place) == cell_before(
                        ray_origin(origin),
                        ray_direction(direction),
                        n,
                    )
                    &&& final(world)@ == world_with_block(
                        old(world)@,
                        place.0 as int,
                        place.1 as int,
                        place.2 as int,
                        block,
                    )
                },
            None => {
                &&& final(world)@ == old(world)@
                &&& forall|n: nat| #[trigger]
                    visits(ray_origin(origin), ray_direction(direction), distance as int, n)
                        ==> !solid_at(
                        blocks_of(old(world)@),
                        cell(ray_origin(origin), ray_direction(direction), n),
                    )
            },
        },
{
    let ghost o = ray_origin(origin);
    let ghost d = ray_direction(direction);
    match raycast_blocks(world, origin, direction, distance) {
        Some((hit, normal)) => {
            let ghost n = choose|n: nat|
                {
                    &&& #[trigger] first_solid(blocks_of(world@), o, d, distance as int, n)
                    &&& as_ints(hit) == cell(o, d, n)
                    &&& as_ints(normal) == entry_normal(d, steps_to(o, d, n))
                };
            proof {
                lemma_steps_count(o, d, n);
                if n > 0 {
                    lemma_cells_are_adjacent(o, d, n);
                    lemma_visits_earlier(o, d, distance as int, (n - 1) as nat, n);
                    lemma_visited_in_grid(o, d, distance as int, (n - 1) as nat);
                }
            }
            let place = (hit.0 + normal.0, hit.1 + normal.1, hit.2 + normal.2);
            world.set_block(place.0, place.1, place.2, block);
            Some(place)
        },
        None => None,
    }
}

} // verus!
