//! Filling a world with terrain: a surface that follows a height for each
//! column of blocks, with trees on it here and there.

use crate::block::BlockID;
use crate::chunk::Chunk;
use crate::chunk_manager::ChunkManager;
use crate::random::random_u32;
use crate::world::block_at;
use crate::world::blocks_of;
use crate::world::chunk_at;
use crate::world::lemma_set_keeps_others;
use crate::world::lemma_set_then_get;
use crate::world::world_wf;
use crate::world::world_with_block;
use crate::world::World;
use vstd::prelude::*;

verus! {

/// How many chunks the terrain extends from the origin along x and z, in
/// either direction.
pub const REGION_RADIUS: i32 = 10;

/// How many chunks the terrain is high.
pub const REGION_HEIGHT: i32 = 16;

/// How many columns of blocks the terrain has along x, and along z.
pub const SPAN: i32 = 320;

/// How many columns of blocks the terrain has.
pub const COLUMNS: usize = 102400;

/// How high the trunk of a tree is.
pub const TRUNK: i32 = 5;

/// A block to be written at a world coordinate.
pub type Write = ((int, int, int), BlockID);

/// The world after the first `n` of the writes, one after the other.
pub open spec fn world_with_writes(world: World, writes: Seq<Write>, n: nat) -> World
    decreases n,
{
    if n == 0 {
        world
    } else {
        world_with_block(
            world_with_writes(world, writes, (n - 1) as nat),
            writes[n - 1].0.0,
            writes[n - 1].0.1,
            writes[n - 1].0.2,
            writes[n - 1].1,
        )
    }
}

/// The world after all the writes, one after the other.
pub open spec fn written(world: World, writes: Seq<Write>) -> World {
    world_with_writes(world, writes, writes.len())
}

/// The block that the last of the first `n` writes at `p` writes, if any
/// of them writes at `p`.
pub open spec fn last_write(writes: Seq<Write>, p: (int, int, int), n: nat) -> Option<BlockID>
    decreases n,
{
    if n == 0 {
        None
    } else if writes[n - 1].0 == p {
        Some(writes[n - 1].1)
    } else {
        last_write(writes, p, (n - 1) as nat)
    }
}

/// The surface of a column whose top block lies at `(x, y, z)`: grass on
/// two blocks of dirt on cobblestone.
pub open spec fn profile(x: int, y: int, z: int) -> Seq<Write> {
    seq![
        ((x, y, z), BlockID::GrassBlock),
        ((x, y - 1, z), BlockID::Dirt),
        ((x, y - 2, z), BlockID::Dirt),
        ((x, y - 3, z), BlockID::Cobblestone),
    ]
}

/// A column of `TRUNK` logs whose lowest block lies at `(x, y, z)`.
pub open spec fn trunk(x: int, y: int, z: int) -> Seq<Write> {
    Seq::new(TRUNK as nat, |k: int| ((x, y + k, z), BlockID::OakLog))
}

/// A square of leaves around `(x, y, z)`, at the same height, that reaches
/// `r` blocks along x and z, without the block at `(x, y, z)` itself. The
/// blocks come in rows of rising x, each row in order of rising z.
pub open spec fn ring(x: int, y: int, z: int, r: int) -> Seq<Write> {
    Seq::new(
        ((2 * r + 1) * (2 * r + 1) - 1) as nat,
        |i: int|
            (
                (
                    x - r + ring_cell(i, r) / (2 * r + 1),
                    y,
                    z - r + ring_cell(i, r) % (2 * r + 1),
                ),
                BlockID::OakLeaves,
            ),
    )
}

/// The position in the full square of block `i` of a ring: the blocks from
/// the middle one on are one further.
pub open spec fn ring_cell(i: int, r: int) -> int {
    if i < 2 * r * (r + 1) {
        i
    } else {
        i + 1
    }
}

/// The top of a tree: leaves at `(x, y, z)` and next to it along x and z.
pub open spec fn crown(x: int, y: int, z: int) -> Seq<Write> {
    seq![
        ((x, y, z), BlockID::OakLeaves),
        ((x + 1, y, z), BlockID::OakLeaves),
        ((x - 1, y, z), BlockID::OakLeaves),
        ((x, y, z + 1), BlockID::OakLeaves),
        ((x, y, z - 1), BlockID::OakLeaves),
    ]
}

/// A tree that stands on the block at `(x, y, z)`: a trunk, two wide
/// squares of leaves around its upper part, a narrow one around its top,
/// and a crown above it.
pub open spec fn tree(x: int, y: int, z: int) -> Seq<Write> {
    trunk(x, y + 1, z) + ring(x, y + TRUNK - 2, z, 2) + ring(x, y + TRUNK - 1, z, 2) + ring(
        x,
        y + TRUNK,
        z,
        1,
    ) + crown(x, y + TRUNK + 1, z)
}

/// What is written for the column whose top block lies at `(x, y, z)`: its
/// surface and, if a tree stands on it, the tree.
pub open spec fn column(x: int, y: int, z: int, with_tree: bool) -> Seq<Write> {
    if with_tree {
        profile(x, y, z) + tree(x, y, z)
    } else {
        profile(x, y, z)
    }
}

/// The x coordinate of column `k`: the columns are numbered along x first.
pub open spec fn column_x(k: int) -> int {
    k / (SPAN as int) - 16 * REGION_RADIUS
}

/// The z coordinate of column `k`.
pub open spec fn column_z(k: int) -> int {
    k % (SPAN as int) - 16 * REGION_RADIUS
}

/// The world after the first `n` columns have been written, each with the
/// height given for it and with a tree where one is asked for.
pub open spec fn terrain(world: World, heights: Seq<i32>, trees: Seq<bool>, n: nat) -> World
    decreases n,
{
    if n == 0 {
        world
    } else {
        written(
            terrain(world, heights, trees, (n - 1) as nat),
            column(column_x(n - 1), heights[n - 1] as int, column_z(n - 1), trees[n - 1]),
        )
    }
}

/// Whether the chunk coordinate `c` lies in the region of the terrain.
pub open spec fn in_region(c: (int, int, int)) -> bool {
    &&& -REGION_RADIUS <= c.0 <= REGION_RADIUS
    &&& 0 <= c.1 < REGION_HEIGHT
    &&& -REGION_RADIUS <= c.2 <= REGION_RADIUS
}

/// The world with an empty chunk at every chunk coordinate of the region,
/// in place of what was loaded there.
pub open spec fn with_region(world: World) -> World {
    Map::new(
        |c: (int, int, int)| world.contains_key(c) || in_region(c),
        |c: (int, int, int)|
            if in_region(c) {
                Chunk::spec_empty()
            } else {
                world[c]
            },
    )
}

/// How many columns are written for the given heights and trees: one for
/// each height that comes with a decision about a tree, and no more than
/// the terrain has.
pub open spec fn columns_of(heights: Seq<i32>, trees: Seq<bool>) -> nat {
    if heights.len() <= trees.len() && heights.len() <= COLUMNS {
        heights.len()
    } else if trees.len() <= COLUMNS {
        trees.len()
    } else {
        COLUMNS as nat
    }
}

/// Writes load and unload no chunk and leave a well-formed world well
/// formed.
pub proof fn lemma_writes_keep_domain(world: World, writes: Seq<Write>, n: nat)
    requires
        world_wf(world),
        n <= writes.len(),
    ensures
        world_with_writes(world, writes, n).dom() == world.dom(),
        world_wf(world_with_writes(world, writes, n)),
    decreases n,
{
    if n > 0 {
        lemma_writes_keep_domain(world, writes, (n - 1) as nat);
        let before = world_with_writes(world, writes, (n - 1) as nat);
        let w = writes[n - 1];
        lemma_set_then_get(before, w.0.0, w.0.1, w.0.2, w.1);
        lemma_set_keeps_others(before, w.0.0, w.0.1, w.0.2, w.1, w.0.0 + 1, w.0.1, w.0.2);
    }
}

/// After a series of writes, the block at a coordinate in a loaded chunk is
/// the one that the last write at that coordinate wrote, or the one that
/// was there if nothing was written at the coordinate.
pub proof fn lemma_last_write_wins(world: World, writes: Seq<Write>, n: nat, p: (int, int, int))
    requires
        world_wf(world),
        n <= writes.len(),
    ensures
        block_at(blocks_of(world_with_writes(world, writes, n)), p.0, p.1, p.2) == if world.contains_key(
            chunk_at(p.0, p.1, p.2),
        ) && last_write(writes, p, n) is Some {
            last_write(writes, p, n)
        } else {
            block_at(blocks_of(world), p.0, p.1, p.2)
        },
    decreases n,
{
    if n > 0 {
        lemma_last_write_wins(world, writes, (n - 1) as nat, p);
        lemma_writes_keep_domain(world, writes, (n - 1) as nat);
        let before = world_with_writes(world, writes, (n - 1) as nat);
        let w = writes[n - 1];
        if w.0 == p {
            lemma_set_then_get(before, p.0, p.1, p.2, w.1);
        } else {
            lemma_set_keeps_others(before, w.0.0, w.0.1, w.0.2, w.1, p.0, p.1, p.2);
        }
    }
}

/// Writing two series one after the other is writing their concatenation.
pub proof fn lemma_written_in_turn(world: World, first: Seq<Write>, second: Seq<Write>, n: nat)
    requires
        n <= second.len(),
    ensures
        world_with_writes(written(world, first), second, n) == world_with_writes(
            world,
            first + second,
            first.len() + n,
        ),
    decreases n,
{
    if n == 0 {
        lemma_writes_of_prefix(world, first, first + second, first.len());
    } else {
        lemma_written_in_turn(world, first, second, (n - 1) as nat);
        assert((first + second)[first.len() + n - 1] == second[n - 1]);
    }
}

/// The first writes of a series do the same as the same writes at the
/// beginning of another series.
pub proof fn lemma_writes_of_prefix(world: World, a: Seq<Write>, b: Seq<Write>, n: nat)
    requires
        n <= a.len(),
        n <= b.len(),
        forall|i: int| 0 <= i < n ==> a[i] == b[i],
    ensures
        world_with_writes(world, a, n) == world_with_writes(world, b, n),
    decreases n,
{
    if n > 0 {
        lemma_writes_of_prefix(world, a, b, (n - 1) as nat);
    }
}

/// What a tree that stands on a block writes at the offset `(dx, dy, dz)`
/// from that block, if it writes anything there: logs in the five blocks
/// above the block, leaves in a square of five by five blocks around the
/// third and the fourth log, in a square of three by three around the
/// fifth, and above the fifth and on the four sides of the block above it.
pub open spec fn tree_block(dx: int, dy: int, dz: int) -> Option<BlockID> {
    if dx == 0 && dz == 0 && 1 <= dy <= TRUNK {
        Some(BlockID::OakLog)
    } else if TRUNK - 2 <= dy <= TRUNK - 1 && -2 <= dx <= 2 && -2 <= dz <= 2 {
        Some(BlockID::OakLeaves)
    } else if dy == TRUNK && -1 <= dx <= 1 && -1 <= dz <= 1 {
        Some(BlockID::OakLeaves)
    } else if dy == TRUNK + 1 && ((dx == 0 && -1 <= dz <= 1) || (dz == 0 && -1 <= dx <= 1)) {
        Some(BlockID::OakLeaves)
    } else {
        None
    }
}

/// What the surface of a column writes at the height `dy` above its top
/// block, if it writes anything there.
pub open spec fn profile_block(dy: int) -> Option<BlockID> {
    if dy == 0 {
        Some(BlockID::GrassBlock)
    } else if dy == -1 || dy == -2 {
        Some(BlockID::Dirt)
    } else if dy == -3 {
        Some(BlockID::Cobblestone)
    } else {
        None
    }
}

/// What is written for a column at the offset `(dx, dy, dz)` from its top
/// block, if anything is written there.
pub open spec fn column_block(dx: int, dy: int, dz: int, with_tree: bool) -> Option<BlockID> {
    if dx == 0 && dz == 0 && profile_block(dy) is Some {
        profile_block(dy)
    } else if with_tree {
        tree_block(dx, dy, dz)
    } else {
        None
    }
}

/// The last write at a coordinate in two series of writes, one after the
/// other, is the last one in the second series, or, if there is none, the
/// last one in the first.
pub proof fn lemma_last_write_in_turn(
    first: Seq<Write>,
    second: Seq<Write>,
    p: (int, int, int),
    n: nat,
)
    requires
        n <= second.len(),
    ensures
        last_write(first + second, p, first.len() + n) == if last_write(second, p, n) is Some {
            last_write(second, p, n)
        } else {
            last_write(first, p, first.len())
        },
    decreases n,
{
    if n == 0 {
        lemma_last_write_of_prefix(first, first + second, p, first.len());
    } else {
        lemma_last_write_in_turn(first, second, p, (n - 1) as nat);
        assert((first + second)[first.len() + n - 1] == second[n - 1]);
    }
}

/// The last write at a coordinate among the first writes of a series is
/// the same as among the same writes at the beginning of another series.
pub proof fn lemma_last_write_of_prefix(a: Seq<Write>, b: Seq<Write>, p: (int, int, int), n: nat)
    requires
        n <= a.len(),
        n <= b.len(),
        forall|i: int| 0 <= i < n ==> a[i] == b[i],
    ensures
        last_write(a, p, n) == last_write(b, p, n),
    decreases n,
{
    if n > 0 {
        lemma_last_write_of_prefix(a, b, p, (n - 1) as nat);
    }
}

/// The first `n` blocks of a trunk are the `n` blocks above its foot.
proof fn lemma_trunk_writes(x: int, y: int, z: int, p: (int, int, int), n: nat)
    requires
        n <= TRUNK,
    ensures
        last_write(trunk(x, y, z), p, n) == if p.0 == x && p.2 == z && y <= p.1 < y + n {
            Some(BlockID::OakLog)
        } else {
            None
        },
    decreases n,
{
    if n > 0 {
        lemma_trunk_writes(x, y, z, p, (n - 1) as nat);
    }
}

/// The position of a coordinate in the square of a ring around `(x, z)`
/// that reaches `r` blocks: the squares are numbered in rows of rising x,
/// each row in order of rising z.
spec fn square_cell(x: int, z: int, r: int, p: (int, int, int)) -> int {
    (p.0 - x + r) * (2 * r + 1) + (p.2 - z + r)
}

/// The first `n` blocks of a ring are the first `n` blocks of its square,
/// not counting the middle one.
proof fn lemma_ring_writes(x: int, y: int, z: int, r: int, p: (int, int, int), n: nat)
    requires
        1 <= r <= 2,
        n <= ring(x, y, z, r).len(),
    ensures
        ring(x, y, z, r).len() == if r == 1 {
            8nat
        } else {
            24nat
        },
        last_write(ring(x, y, z, r), p, n) == if p.1 == y && -r <= p.0 - x <= r && -r <= p.2 - z
            <= r && !(p.0 == x && p.2 == z) && (if square_cell(x, z, r, p) < 2 * r * (r + 1) {
            square_cell(x, z, r, p)
        } else {
            square_cell(x, z, r, p) - 1
        }) < n {
            Some(BlockID::OakLeaves)
        } else {
            None
        },
    decreases n,
{
    assert((2 * r + 1) * (2 * r + 1) - 1 == if r == 1 {
        8int
    } else {
        24int
    } && 2 * r * (r + 1) == if r == 1 {
        4int
    } else {
        12int
    }) by (nonlinear_arith)
        requires
            1 <= r <= 2,
    ;
    if r == 1 {
        assert(ring(x, y, z, 1).len() == 8);
        if n > 0 {
            lemma_ring_writes(x, y, z, 1, p, (n - 1) as nat);
            let j = ring_cell(n - 1, 1);
            assert(ring(x, y, z, 1)[n - 1].0 == (x - 1 + j / 3, y, z - 1 + j % 3));
            assert(square_cell(x, z, 1, p) == (p.0 - x + 1) * 3 + (p.2 - z + 1));
        }
    } else {
        assert(ring(x, y, z, 2).len() == 24);
        if n > 0 {
            lemma_ring_writes(x, y, z, 2, p, (n - 1) as nat);
            let j = ring_cell(n - 1, 2);
            assert(ring(x, y, z, 2)[n - 1].0 == (x - 2 + j / 5, y, z - 2 + j % 5));
            assert(square_cell(x, z, 2, p) == (p.0 - x + 2) * 5 + (p.2 - z + 2));
        }
    }
}

/// A tree writes at each coordinate what `tree_block` says for the offset
/// of the coordinate from the block that the tree stands on, and it writes
/// at no coordinate twice: the last write at a coordinate is the only one.
pub proof fn lemma_tree_writes(x: int, y: int, z: int, p: (int, int, int))
    ensures
        last_write(tree(x, y, z), p, tree(x, y, z).len()) == tree_block(
            p.0 - x,
            p.1 - y,
            p.2 - z,
        ),
{
    let a = trunk(x, y + 1, z);
    let b = ring(x, y + TRUNK - 2, z, 2);
    let c = ring(x, y + TRUNK - 1, z, 2);
    let d = ring(x, y + TRUNK, z, 1);
    let e = crown(x, y + TRUNK + 1, z);
    lemma_trunk_writes(x, y + 1, z, p, a.len());
    lemma_ring_writes(x, y + TRUNK - 2, z, 2, p, b.len());
    lemma_ring_writes(x, y + TRUNK - 1, z, 2, p, c.len());
    lemma_ring_writes(x, y + TRUNK, z, 1, p, d.len());
    assert(last_write(e, p, e.len()) == if p.1 == y + TRUNK + 1 && ((p.0 == x && -1 <= p.2 - z
        <= 1) || (p.2 == z && -1 <= p.0 - x <= 1)) {
        Some(BlockID::OakLeaves)
    } else {
        None
    }) by {
        reveal_with_fuel(last_write, 6);
    }
    lemma_last_write_in_turn(a, b, p, b.len());
    lemma_last_write_in_turn(a + b, c, p, c.len());
    lemma_last_write_in_turn(a + b + c, d, p, d.len());
    lemma_last_write_in_turn(a + b + c + d, e, p, e.len());
}

/// What is written for a column is, at each coordinate, what `column_block`
/// says for the offset of the coordinate from the top block of the column.
pub proof fn lemma_column_writes(x: int, y: int, z: int, with_tree: bool, p: (int, int, int))
    ensures
        last_write(column(x, y, z, with_tree), p, column(x, y, z, with_tree).len())
            == column_block(p.0 - x, p.1 - y, p.2 - z, with_tree),
{
    let surface = profile(x, y, z);
    assert(last_write(surface, p, surface.len()) == if p.0 == x && p.2 == z {
        profile_block(p.1 - y)
    } else {
        None
    }) by {
        reveal_with_fuel(last_write, 5);
    }
    if with_tree {
        let t = tree(x, y, z);
        lemma_tree_writes(x, y, z, p);
        lemma_last_write_in_turn(surface, t, p, t.len());
    }
}

/// After a column has been written, the block at every coordinate in a
/// loaded chunk is what `column_block` says for it, or what it was if
/// `column_block` says nothing.
pub proof fn lemma_written_column(
    world: World,
    x: int,
    y: int,
    z: int,
    with_tree: bool,
    p: (int, int, int),
)
    requires
        world_wf(world),
    ensures
        block_at(blocks_of(written(world, column(x, y, z, with_tree))), p.0, p.1, p.2)
            == if world.contains_key(chunk_at(p.0, p.1, p.2)) && column_block(
            p.0 - x,
            p.1 - y,
            p.2 - z,
            with_tree,
        ) is Some {
            column_block(p.0 - x, p.1 - y, p.2 - z, with_tree)
        } else {
            block_at(blocks_of(world), p.0, p.1, p.2)
        },
{
    let writes = column(x, y, z, with_tree);
    lemma_column_writes(x, y, z, with_tree, p);
    lemma_last_write_wins(world, writes, writes.len(), p);
}

impl ChunkManager {
    /// Writes a block at a coordinate that may lie outside the grid, where
    /// no chunk is loaded and the write does nothing.
    fn put(&mut self, x: i64, y: i64, z: i64, block: BlockID)
        requires
            old(self).wf(),
        ensures
            final(self).wf(),
            final(self)@ == world_with_block(old(self)@, x as int, y as int, z as int, block),
    {
        if x < -2147483648 || x > 2147483647 || y < -2147483648 || y > 2147483647 || z
            < -2147483648 || z > 2147483647 {
            proof {
                self.lemma_world_wf();
                assert(!crate::world::addressable3(chunk_at(x as int, y as int, z as int)));
            }
        } else {
            self.set_block(x as i32, y as i32, z as i32, block);
        }
    }

    /// Writes the surface of the column whose top block lies at
    /// `(x, y, z)`.
    fn write_profile(&mut self, x: i32, y: i32, z: i32)
        requires
            old(self).wf(),
        ensures
            final(self).wf(),
            final(self)@ == written(old(self)@, profile(x as int, y as int, z as int)),
    {
        let (x, y, z): (i64, i64, i64) = (x as i64, y as i64, z as i64);
        proof {
            reveal_with_fuel(world_with_writes, 5);
        }
        self.put(x, y, z, BlockID::GrassBlock);
        self.put(x, y - 1, z, BlockID::Dirt);
        self.put(x, y - 2, z, BlockID::Dirt);
        self.put(x, y - 3, z, BlockID::Cobblestone);
    }

    /// Writes a trunk whose lowest block lies at `(x, y, z)`.
    fn write_trunk(&mut self, x: i64, y: i64, z: i64)
        requires
            old(self).wf(),
            -0x1_0000_0000 <= y <= 0x1_0000_0000,
        ensures
            final(self).wf(),
            final(self)@ == written(old(self)@, trunk(x as int, y as int, z as int)),
    {
        let mut k: i64 = 0;
        while k < TRUNK as i64
            invariant
                0 <= k <= TRUNK,
                self.wf(),
                -0x1_0000_0000 <= y <= 0x1_0000_0000,
                self@ == world_with_writes(
                    old(self)@,
                    trunk(x as int, y as int, z as int),
                    k as nat,
                ),
            decreases TRUNK - k,
        {
            self.put(x, y + k, z, BlockID::OakLog);
            k = k + 1;
        }
    }

    /// Writes a square of leaves around `(x, y, z)` that reaches `r` blocks
    /// along x and z, without the block at `(x, y, z)` itself.
    fn write_ring(&mut self, x: i64, y: i64, z: i64, r: i64)
        requires
            old(self).wf(),
            1 <= r <= 2,
            -0x1_0000_0000 <= x <= 0x1_0000_0000,
            -0x1_0000_0000 <= z <= 0x1_0000_0000,
        ensures
            final(self).wf(),
            final(self)@ == written(old(self)@, ring(x as int, y as int, z as int, r as int)),
    {
        let (side, middle, count): (i64, i64, i64) = if r == 1 {
            (3, 4, 9)
        } else {
            (5, 12, 25)
        };
        assert(middle == 2 * r * (r + 1) && count == (2 * r + 1) * (2 * r + 1)) by (nonlinear_arith)
            requires
                (r == 1 && middle == 4 && count == 9) || (r == 2 && middle == 12 && count == 25),
        ;
        let mut j: i64 = 0;
        while j < count
            invariant
                1 <= r <= 2,
                side == 2 * r + 1,
                middle == 2 * r * (r + 1),
                count == (2 * r + 1) * (2 * r + 1),
                (r == 1 && middle == 4 && count == 9) || (r == 2 && middle == 12 && count == 25),
                0 <= j <= count,
                -0x1_0000_0000 <= x <= 0x1_0000_0000,
                -0x1_0000_0000 <= z <= 0x1_0000_0000,
                self.wf(),
                self@ == world_with_writes(
                    old(self)@,
                    ring(x as int, y as int, z as int, r as int),
                    (if j <= middle {
                        j as int
                    } else {
                        j - 1
                    }) as nat,
                ),
            decreases count - j,
        {
            if j != middle {
                let ghost i = if j < middle {
                    j as int
                } else {
                    j - 1
                };
                assert(ring_cell(i, r as int) == j);
                self.put(x - r + j / side, y, z - r + j % side, BlockID::OakLeaves);
            }
            j = j + 1;
        }
    }

    /// Writes the top of a tree: leaves at `(x, y, z)` and next to it.
    fn write_crown(&mut self, x: i64, y: i64, z: i64)
        requires
            old(self).wf(),
            -0x1_0000_0000 <= x <= 0x1_0000_0000,
            -0x1_0000_0000 <= z <= 0x1_0000_0000,
        ensures
            final(self).wf(),
            final(self)@ == written(old(self)@, crown(x as int, y as int, z as int)),
    {
        proof {
            reveal_with_fuel(world_with_writes, 6);
        }
        self.put(x, y, z, BlockID::OakLeaves);
        self.put(x + 1, y, z, BlockID::OakLeaves);
        self.put(x - 1, y, z, BlockID::OakLeaves);
        self.put(x, y, z + 1, BlockID::OakLeaves);
        self.put(x, y, z - 1, BlockID::OakLeaves);
    }

    /// Writes a tree that stands on the block at `(x, y, z)`.
    fn write_tree(&mut self, x: i32, y: i32, z: i32)
        requires
            old(self).wf(),
        ensures
            final(self).wf(),
            final(self)@ == written(old(self)@, tree(x as int, y as int, z as int)),
    {
        let ghost start = self@;
        let (x, y, z): (i64, i64, i64) = (x as i64, y as i64, z as i64);
        let ghost a = trunk(x as int, y + 1, z as int);
        let ghost b = ring(x as int, y + TRUNK - 2, z as int, 2);
        let ghost c = ring(x as int, y + TRUNK - 1, z as int, 2);
        let ghost d = ring(x as int, y + TRUNK, z as int, 1);
        let ghost e = crown(x as int, y + TRUNK + 1, z as int);
        self.write_trunk(x, y + 1, z);
        self.write_ring(x, y + TRUNK as i64 - 2, z, 2);
        self.write_ring(x, y + TRUNK as i64 - 1, z, 2);
        self.write_ring(x, y + TRUNK as i64, z, 1);
        self.write_crown(x, y + TRUNK as i64 + 1, z);
        proof {
            lemma_written_in_turn(start, a, b, b.len());
            lemma_written_in_turn(start, a + b, c, c.len());
            lemma_written_in_turn(start, a + b + c, d, d.len());
            lemma_written_in_turn(start, a + b + c + d, e, e.len());
        }
    }

    /// Writes the column whose top block lies at `(x, y, z)`: its surface
    /// and, if asked for, a tree on it.
    pub fn write_column(&mut self, x: i32, y: i32, z: i32, with_tree: bool)
        requires
            old(self).wf(),
        ensures
            final(self).wf(),
            final(self)@ == written(
                old(self)@,
                column(x as int, y as int, z as int, with_tree),
            ),
    {
        let ghost start = self@;
        self.write_profile(x, y, z);
        if with_tree {
            self.write_tree(x, y, z);
            proof {
                let t = tree(x as int, y as int, z as int);
                lemma_written_in_turn(start, profile(x as int, y as int, z as int), t, t.len());
            }
        }
    }

    /// Loads an empty chunk at every chunk coordinate of the region of the
    /// terrain, in place of what was loaded there.
    pub fn load_region(&mut self)
        requires
            old(self).wf(),
        ensures
            final(self).wf(),
            final(self)@ == with_region(old(self)@),
    {
        let side: i32 = 2 * REGION_RADIUS + 1;
        let mut i: i32 = 0;
        while i < REGION_HEIGHT * side * side
            invariant
                side == 21,
                0 <= i <= 7056,
                self.wf(),
                self@ == Map::new(
                    |c: (int, int, int)|
                        old(self)@.contains_key(c) || (in_region(c) && region_index(c) < i),
                    |c: (int, int, int)|
                        if in_region(c) && region_index(c) < i {
                            Chunk::spec_empty()
                        } else {
                            old(self)@[c]
                        },
                ),
            decreases 7056 - i,
        {
            let y = i / (side * side);
            let z = (i / side) % side - REGION_RADIUS;
            let x = i % side - REGION_RADIUS;
            let ghost before = self@;
            self.load_chunk(x, y, z, Chunk::empty());
            proof {
                let added = (x as int, y as int, z as int);
                assert(in_region(added) && region_index(added) == i);
                assert forall|c: (int, int, int)| in_region(c) && region_index(c) == i implies c
                    == added by {}
                assert(self@ =~= Map::new(
                    |c: (int, int, int)|
                        old(self)@.contains_key(c) || (in_region(c) && region_index(c) < i + 1),
                    |c: (int, int, int)|
                        if in_region(c) && region_index(c) < i + 1 {
                            Chunk::spec_empty()
                        } else {
                            old(self)@[c]
                        },
                ));
            }
            i = i + 1;
        }
        proof {
            assert forall|c: (int, int, int)| in_region(c) implies region_index(c) < 7056 by {}
            assert(self@ =~= with_region(old(self)@));
        }
    }

    /// Writes terrain into the loaded chunks: for each column of blocks, in
    /// order, its surface at the height given for it and, where one is
    /// asked for, a tree. A column is written for each height that comes
    /// with a decision about a tree, up to the number of columns that the
    /// terrain has. What falls into a chunk that is not loaded is not
    /// written.
    pub fn generate(&mut self, heights: &Vec<i32>, trees: &Vec<bool>)
        requires
            old(self).wf(),
        ensures
            final(self).wf(),
            final(self)@ == terrain(old(self)@, heights@, trees@, columns_of(heights@, trees@)),
    {
        let n: usize = if heights.len() <= trees.len() && heights.len() <= COLUMNS {
            heights.len()
        } else if trees.len() <= COLUMNS {
            trees.len()
        } else {
            COLUMNS
        };
        let mut k: usize = 0;
        while k < n
            invariant
                k <= n,
                n == columns_of(heights@, trees@),
                n <= heights@.len() && n <= trees@.len() && n <= COLUMNS,
                self.wf(),
                self@ == terrain(old(self)@, heights@, trees@, k as nat),
            decreases n - k,
        {
            let x = (k / 320) as i32 - 16 * REGION_RADIUS;
            let z = (k % 320) as i32 - 16 * REGION_RADIUS;
            self.write_column(x, heights[k], z, trees[k]);
            k = k + 1;
        }
    }

    /// Fills the world with terrain: loads an empty chunk at every chunk
    /// coordinate of the region of the terrain, and writes a column for
    /// each height, with a tree on about one column in a hundred, chosen at
    /// random.
    pub fn simplex(&mut self, heights: &Vec<i32>)
        requires
            old(self).wf(),
        ensures
            final(self).wf(),
            exists|trees: Seq<bool>|
                trees.len() == heights@.len() && final(self)@ == #[trigger] terrain(
                    with_region(old(self)@),
                    heights@,
                    trees,
                    columns_of(heights@, trees),
                ),
    {
        let mut trees: Vec<bool> = Vec::new();
        let mut k: usize = 0;
        while k < heights.len()
            invariant
                k <= heights@.len(),
                trees@.len() == k,
            decreases heights@.len() - k,
        {
            trees.push(grows_tree(random_u32()));
            k = k + 1;
        }
        self.load_region();
        self.generate(heights, &trees);
    }
}

/// Whether a tree grows on a column for which `draw` was drawn: on one
/// draw in a hundred.
pub fn grows_tree(draw: u32) -> (r: bool)
    ensures
        r == (draw % 100 == 0),
{
    draw % 100 == 0
}

/// The position of a chunk coordinate of the region in the order in which
/// the region is loaded: by y, then by z, then by x.
pub open spec fn region_index(c: (int, int, int)) -> int {
    c.1 * 441 + (c.2 + REGION_RADIUS) * 21 + (c.0 + REGION_RADIUS)
}

} // verus!
