//! Why the cells that a cast visits are the cells that the ray passes
//! through: at the time at which the ray enters a visited cell, the point
//! that it has reached lies in that cell, and so it does at the time at
//! which the ray leaves the cell for the next one.
//!
//! A time is a fraction of two integers. With the ray at the origin at time
//! zero and moving by its direction in one unit of time, the ray has at the
//! time `num / den` travelled `num * |d| / den` along an axis on which its
//! direction is `d`.

use crate::raycast::advance;
use crate::raycast::boundary;
use crate::raycast::goes_on;
use crate::raycast::magnitude;
use crate::raycast::next_axis;
use crate::raycast::next_boundaries;
use crate::raycast::no_later;
use crate::raycast::steps_to;
use crate::raycast::visits;
use crate::raycast::Steps;
use crate::raycast::UNIT;
use vstd::prelude::*;

verus! {

/// The time at which the ray enters the cell that it reaches by the given
/// steps, as numerator and denominator: the time at which it crosses the
/// boundary of its last step, or zero for the cell of the origin.
pub open spec fn entry_time(o: (int, int, int), d: (int, int, int), s: Steps) -> (int, int) {
    if s.last == 0 {
        (boundary(o.0, d.0, s.x - 1), magnitude(d.0))
    } else if s.last == 1 {
        (boundary(o.1, d.1, s.y - 1), magnitude(d.1))
    } else if s.last == 2 {
        (boundary(o.2, d.2, s.z - 1), magnitude(d.2))
    } else {
        (0, 1)
    }
}

/// Whether the ray is, at the time `t`, along one axis within the cell that
/// it has reached by `k` steps along that axis: it has travelled no less
/// than to the boundary of its last step along the axis, and no more than
/// to the boundary of its next.
pub open spec fn inside_along(p: int, d: int, k: int, t: (int, int)) -> bool {
    &&& (boundary(p, d, k) - UNIT) * t.1 <= t.0 * magnitude(d)
    &&& t.0 * magnitude(d) <= boundary(p, d, k) * t.1
}

/// Whether the ray is, at the time `t`, within the cell that it reaches by
/// the steps `s`, the faces of the cell counting as part of it.
pub open spec fn inside(o: (int, int, int), d: (int, int, int), s: Steps, t: (int, int)) -> bool {
    &&& inside_along(o.0, d.0, s.x, t)
    &&& inside_along(o.1, d.1, s.y, t)
    &&& inside_along(o.2, d.2, s.z, t)
}

/// What holds of the steps to a cell that a cast visits: the steps are
/// counted from zero, none is along an axis along which the ray does not
/// move, the time of entry is a proper fraction, and the ray is in the cell
/// at that time.
spec fn on_path(o: (int, int, int), d: (int, int, int), s: Steps) -> bool {
    &&& s.x >= 0 && s.y >= 0 && s.z >= 0
    &&& d.0 == 0 ==> s.x == 0
    &&& d.1 == 0 ==> s.y == 0
    &&& d.2 == 0 ==> s.z == 0
    &&& s.last == 0 ==> s.x > 0 && d.0 != 0
    &&& s.last == 1 ==> s.y > 0 && d.1 != 0
    &&& s.last == 2 ==> s.z > 0 && d.2 != 0
    &&& 0 <= s.last <= 3
    &&& entry_time(o, d, s).0 >= 0
    &&& entry_time(o, d, s).1 > 0
    &&& inside(o, d, s, entry_time(o, d, s))
}

/// If one thing happens no later than a second, and the second no later
/// than a third, the first happens no later than the third.
proof fn lemma_no_later_in_turn(b1: int, d1: int, b2: int, d2: int, b3: int, d3: int)
    requires
        b1 >= 0 && b2 >= 0 && b3 >= 0,
        no_later(b1, d1, b2, d2),
        no_later(b2, d2, b3, d3),
    ensures
        no_later(b1, d1, b3, d3),
{
    if d1 != 0 && d2 != 0 && d3 != 0 {
        lemma_fractions_in_turn(b1, magnitude(d1), b2, magnitude(d2), b3, magnitude(d3));
    }
}

/// For fractions with positive denominators: if `a1 / m1 <= a2 / m2` and
/// `a2 / m2 <= a3 / m3` then `a1 / m1 <= a3 / m3`.
proof fn lemma_fractions_in_turn(a1: int, m1: int, a2: int, m2: int, a3: int, m3: int)
    requires
        m1 > 0 && m2 > 0 && m3 > 0,
        a1 * m2 <= a2 * m1,
        a2 * m3 <= a3 * m2,
    ensures
        a1 * m3 <= a3 * m1,
{
    assert((a1 * m2) * m3 <= (a2 * m1) * m3) by (nonlinear_arith)
        requires
            a1 * m2 <= a2 * m1,
            m3 > 0,
    ;
    assert((a2 * m3) * m1 <= (a3 * m2) * m1) by (nonlinear_arith)
        requires
            a2 * m3 <= a3 * m2,
            m1 > 0,
    ;
    assert((a1 * m2) * m3 == (a1 * m3) * m2) by (nonlinear_arith);
    assert((a2 * m1) * m3 == (a2 * m3) * m1) by (nonlinear_arith);
    assert((a3 * m2) * m1 == (a3 * m1) * m2) by (nonlinear_arith);
    assert(a1 * m3 <= a3 * m1) by (nonlinear_arith)
        requires
            (a1 * m3) * m2 <= (a3 * m1) * m2,
            m2 > 0,
    ;
}

/// Of two things, one happens no later than the other.
proof fn lemma_no_later_either_way(b1: int, d1: int, b2: int, d2: int)
    ensures
        no_later(b1, d1, b2, d2) || no_later(b2, d2, b1, d1),
{
}

/// The boundary of the next step is reached no later than any of the
/// three boundaries.
proof fn lemma_next_axis_is_first(o: (int, int, int), d: (int, int, int), s: Steps)
    requires
        s.x >= 0 && s.y >= 0 && s.z >= 0,
    ensures
        ({
            let b = next_boundaries(o, d, s);
            let axis = next_axis(o, d, s);
            let first = if axis == 0 {
                (b.0, d.0)
            } else if axis == 1 {
                (b.1, d.1)
            } else {
                (b.2, d.2)
            };
            &&& no_later(first.0, first.1, b.0, d.0)
            &&& no_later(first.0, first.1, b.1, d.1)
            &&& no_later(first.0, first.1, b.2, d.2)
            &&& first.0 >= 0
        }),
{
    let b = next_boundaries(o, d, s);
    let axis = next_axis(o, d, s);
    lemma_boundary_bounds(o.0, d.0, s.x);
    lemma_boundary_bounds(o.1, d.1, s.y);
    lemma_boundary_bounds(o.2, d.2, s.z);
    lemma_no_later_either_way(b.0, d.0, b.1, d.1);
    lemma_no_later_either_way(b.0, d.0, b.2, d.2);
    lemma_no_later_either_way(b.2, d.2, b.1, d.1);
    if axis == 0 {
    } else if axis == 2 {
        // z is no later than y; x is later than y or than z
        if !no_later(b.0, d.0, b.1, d.1) {
            lemma_no_later_in_turn(b.2, d.2, b.1, d.1, b.0, d.0);
        }
    } else {
        // y is earlier than z; x is later than y or than z
        if no_later(b.0, d.0, b.1, d.1) {
            lemma_no_later_in_turn(b.1, d.1, b.2, d.2, b.0, d.0);
        }
    }
}

/// The distance to a boundary is the distance to the one before and one
/// block more, and the distance to the first boundary is at most one block.
proof fn lemma_boundary_bounds(p: int, d: int, k: int)
    requires
        k >= 0,
    ensures
        0 <= boundary(p, d, 0) <= UNIT,
        boundary(p, d, k) >= 0,
        boundary(p, d, k + 1) == boundary(p, d, k) + UNIT,
        boundary(p, d, k - 1) == boundary(p, d, k) - UNIT,
{
    assert((k + 1) * UNIT == k * UNIT + UNIT) by (nonlinear_arith);
    assert((k - 1) * UNIT == k * UNIT - UNIT) by (nonlinear_arith);
    assert(k * UNIT >= 0) by (nonlinear_arith)
        requires
            k >= 0,
    ;
}

/// Along an axis other than that of the step, the ray stays within the
/// cell from the time `t` of entry to the time `t2` of the step, if the
/// step comes no earlier than `t` and no later than the next boundary
/// along the axis.
proof fn lemma_stays_inside_along(p: int, d: int, k: int, t: (int, int), b2: int, d2: int)
    requires
        k >= 0,
        d == 0 ==> k == 0,
        t.0 >= 0 && t.1 > 0,
        b2 >= 0 && d2 != 0,
        inside_along(p, d, k, t),
        // the step comes no earlier than the entry
        t.0 * magnitude(d2) <= b2 * t.1,
        // and no later than the next boundary along this axis
        no_later(b2, d2, boundary(p, d, k), d),
    ensures
        inside_along(p, d, k, (b2, magnitude(d2))),
{
    lemma_boundary_bounds(p, d, k);
    let m = magnitude(d);
    let m2 = magnitude(d2);
    let low = boundary(p, d, k) - UNIT;
    if d == 0 {
        assert(low * m2 <= 0) by (nonlinear_arith)
            requires
                low <= 0,
                m2 > 0,
        ;
        assert(b2 * m == 0) by (nonlinear_arith)
            requires
                m == 0,
        ;
        assert(boundary(p, d, k) * m2 >= 0) by (nonlinear_arith)
            requires
                boundary(p, d, k) >= 0,
                m2 > 0,
        ;
    } else {
        lemma_fractions_in_turn(low, m, t.0, t.1, b2, m2);
    }
}

/// A cast that takes a step from a cell on its path comes to a cell on its
/// path, and at the time of the step the ray is in both cells: it leaves
/// the one where it enters the other.
proof fn lemma_step_stays_on_path(o: (int, int, int), d: (int, int, int), dist: int, s: Steps)
    requires
        on_path(o, d, s),
        goes_on(o, d, dist, s),
    ensures
        on_path(o, d, advance(s, next_axis(o, d, s))),
        inside(o, d, s, entry_time(o, d, advance(s, next_axis(o, d, s)))),
        entry_time(o, d, advance(s, next_axis(o, d, s))).0 * UNIT <= dist * entry_time(
            o,
            d,
            advance(s, next_axis(o, d, s)),
        ).1,
{
    let b = next_boundaries(o, d, s);
    let axis = next_axis(o, d, s);
    let after = advance(s, axis);
    let t = entry_time(o, d, s);
    let t2 = entry_time(o, d, after);
    lemma_next_axis_is_first(o, d, s);
    lemma_boundary_bounds(o.0, d.0, s.x);
    lemma_boundary_bounds(o.1, d.1, s.y);
    lemma_boundary_bounds(o.2, d.2, s.z);
    lemma_boundary_bounds(o.0, d.0, s.x + 1);
    lemma_boundary_bounds(o.1, d.1, s.y + 1);
    lemma_boundary_bounds(o.2, d.2, s.z + 1);
    if axis == 0 {
        assert(t2 == (b.0, magnitude(d.0)));
        lemma_stays_inside_along(o.1, d.1, s.y, t, b.0, d.0);
        lemma_stays_inside_along(o.2, d.2, s.z, t, b.0, d.0);
        lemma_edge_inside_along(o.0, d.0, s.x);
    } else if axis == 1 {
        assert(t2 == (b.1, magnitude(d.1)));
        lemma_stays_inside_along(o.0, d.0, s.x, t, b.1, d.1);
        lemma_stays_inside_along(o.2, d.2, s.z, t, b.1, d.1);
        lemma_edge_inside_along(o.1, d.1, s.y);
    } else {
        assert(t2 == (b.2, magnitude(d.2)));
        lemma_stays_inside_along(o.0, d.0, s.x, t, b.2, d.2);
        lemma_stays_inside_along(o.1, d.1, s.y, t, b.2, d.2);
        lemma_edge_inside_along(o.2, d.2, s.z);
    }
}

/// At the time at which the ray crosses a boundary along an axis, it is
/// along that axis both within the cell that it leaves and within the cell
/// that it enters.
proof fn lemma_edge_inside_along(p: int, d: int, k: int)
    requires
        k >= 0,
        d != 0,
    ensures
        inside_along(p, d, k, (boundary(p, d, k), magnitude(d))),
        inside_along(p, d, k + 1, (boundary(p, d, k), magnitude(d))),
{
    lemma_boundary_bounds(p, d, k);
    lemma_boundary_bounds(p, d, k + 1);
    let b = boundary(p, d, k);
    let m = magnitude(d);
    assert((b - UNIT) * m <= b * m) by (nonlinear_arith)
        requires
            m > 0,
    ;
    assert(b * m <= (b + UNIT) * m) by (nonlinear_arith)
        requires
            m > 0,
    ;
}

/// The steps to every cell that a cast visits are on its path.
proof fn lemma_visited_on_path(o: (int, int, int), d: (int, int, int), dist: int, n: nat)
    requires
        visits(o, d, dist, n),
    ensures
        on_path(o, d, steps_to(o, d, n)),
        entry_time(o, d, steps_to(o, d, n)).0 * UNIT <= dist * entry_time(
            o,
            d,
            steps_to(o, d, n),
        ).1,
    decreases n,
{
    if n == 0 {
        lemma_boundary_bounds(o.0, d.0, 0);
        lemma_boundary_bounds(o.1, d.1, 0);
        lemma_boundary_bounds(o.2, d.2, 0);
    } else {
        lemma_visited_on_path(o, d, dist, (n - 1) as nat);
        lemma_step_stays_on_path(o, d, dist, steps_to(o, d, (n - 1) as nat));
    }
}

/// The ray passes through every cell that a cast visits: it enters the
/// cell within the distance of the cast, and at the time at which it does
/// so, the point that it has reached lies in the cell.
pub proof fn lemma_ray_enters_visited_cell(
    o: (int, int, int),
    d: (int, int, int),
    dist: int,
    n: nat,
)
    requires
        visits(o, d, dist, n),
    ensures
        entry_time(o, d, steps_to(o, d, n)).0 >= 0,
        entry_time(o, d, steps_to(o, d, n)).1 > 0,
        entry_time(o, d, steps_to(o, d, n)).0 * UNIT <= dist * entry_time(
            o,
            d,
            steps_to(o, d, n),
        ).1,
        inside(o, d, steps_to(o, d, n), entry_time(o, d, steps_to(o, d, n))),
{
    lemma_visited_on_path(o, d, dist, n);
}

/// The ray leaves a visited cell where it enters the next: at the time at
/// which it enters a visited cell, the point that it has reached lies in
/// the cell before as well. So the ray is in the cell before from the time
/// at which it enters that cell to the time at which it enters the next,
/// and the cast skips no cell.
pub proof fn lemma_ray_leaves_into_next_cell(
    o: (int, int, int),
    d: (int, int, int),
    dist: int,
    n: nat,
)
    requires
        n > 0,
        visits(o, d, dist, n),
    ensures
        inside(o, d, steps_to(o, d, (n - 1) as nat), entry_time(o, d, steps_to(o, d, n))),
        // the ray enters the cell no earlier than the cell before
        entry_time(o, d, steps_to(o, d, (n - 1) as nat)).0 * entry_time(
            o,
            d,
            steps_to(o, d, n),
        ).1 <= entry_time(o, d, steps_to(o, d, n)).0 * entry_time(
            o,
            d,
            steps_to(o, d, (n - 1) as nat),
        ).1,
{
    lemma_visited_on_path(o, d, dist, (n - 1) as nat);
    let s = steps_to(o, d, (n - 1) as nat);
    lemma_step_stays_on_path(o, d, dist, s);
    lemma_next_axis_is_first(o, d, s);
    let t = entry_time(o, d, s);
    let axis = next_axis(o, d, s);
    // the entry into the cell before is no later than any of its next
    // boundaries, and the step is across one of them
    if axis == 0 {
        assert(t.0 * magnitude(d.0) <= boundary(o.0, d.0, s.x) * t.1);
    } else if axis == 1 {
        assert(t.0 * magnitude(d.1) <= boundary(o.1, d.1, s.y) * t.1);
    } else {
        assert(t.0 * magnitude(d.2) <= boundary(o.2, d.2, s.z) * t.1);
    }
    let t2 = entry_time(o, d, steps_to(o, d, n));
    assert(t.0 * t2.1 <= t2.0 * t.1);
}

} // verus!
