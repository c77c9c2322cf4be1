//! Why the marks of staleness lose track of no change: as long as blocks
//! change through `set_block` only, every loaded chunk whose mesh no longer
//! shows its blocks is marked stale, and so after a rebuild every mesh
//! shows the blocks as they are.

use crate::block::BlockID;
use crate::chunk::all_directions;
use crate::chunk::boundary_directions;
use crate::chunk::lemma_boundary_directions;
use crate::chunk::ChunkState;
use crate::coords::global_of;
use crate::coords::lemma_index_bijective;
use crate::coords::lemma_index_surjective;
use crate::coords::lemma_neighbour_chunk;
use crate::coords::lemma_split_of_global;
use crate::coords::local_of;
use crate::shapes::face_normal;
use crate::world::block_at;
use crate::world::block_mesh;
use crate::world::blocks_of;
use crate::world::chunk_at;
use crate::world::chunk_mesh;
use crate::world::face_visible;
use crate::world::is_stale;
use crate::world::lemma_rebuilt_keeps_blocks;
use crate::world::lemma_set_keeps_others;
use crate::world::local_coords;
use crate::world::marked_from;
use crate::world::mesh_prefix;
use crate::world::rebuilt;
use crate::world::visible_sides;
use crate::world::world_wf;
use crate::world::world_with_block;
use crate::world::Blocks;
use crate::world::Uvs;
use crate::world::World;
use vstd::prelude::*;

verus! {

/// Whether the mesh of the chunk at `c` shows the blocks as they are.
pub open spec fn mesh_is_current(world: World, uvs: Uvs, c: (int, int, int)) -> bool {
    world[c].mesh == chunk_mesh(blocks_of(world), uvs, c)
}

/// Whether no change has been lost track of: every loaded chunk whose mesh
/// does not show the blocks as they are is marked stale.
pub open spec fn accounted(world: World, uvs: Uvs) -> bool {
    forall|c: (int, int, int)| #[trigger]
        world.contains_key(c) ==> is_stale(world, c) || mesh_is_current(world, uvs, c)
}

/// The world coordinate of the block at position `i` of chunk `c`.
pub open spec fn block_coords(c: (int, int, int), i: int) -> (int, int, int) {
    (
        global_of(c.0, local_coords(i).0),
        global_of(c.1, local_coords(i).1),
        global_of(c.2, local_coords(i).2),
    )
}

/// The coordinate next to `q` beyond face `f`.
pub open spec fn beyond(q: (int, int, int), f: int) -> (int, int, int) {
    (q.0 + face_normal(f).0, q.1 + face_normal(f).1, q.2 + face_normal(f).2)
}

/// The face opposite to face `f`.
pub open spec fn opposite(f: int) -> int {
    if f % 2 == 0 {
        f + 1
    } else {
        f - 1
    }
}

/// The mesh of a chunk depends on the blocks of the chunk and on the blocks
/// next to them, and on nothing else.
pub proof fn lemma_mesh_depends_on_neighbourhood(
    before: Blocks,
    after: Blocks,
    uvs: Uvs,
    c: (int, int, int),
    n: nat,
)
    requires
        n <= 4096,
        before[c] == after[c],
        forall|i: int, f: int|
            0 <= i < n && 0 <= f < 6 ==> #[trigger] block_at(
                before,
                beyond(block_coords(c, i), f).0,
                beyond(block_coords(c, i), f).1,
                beyond(block_coords(c, i), f).2,
            ) == block_at(
                after,
                beyond(block_coords(c, i), f).0,
                beyond(block_coords(c, i), f).1,
                beyond(block_coords(c, i), f).2,
            ),
    ensures
        mesh_prefix(before, uvs, c, n) == mesh_prefix(after, uvs, c, n),
    decreases n,
{
    if n > 0 {
        lemma_mesh_depends_on_neighbourhood(before, after, uvs, c, (n - 1) as nat);
        let i = n - 1;
        let q = block_coords(c, i);
        assert forall|f: int| 0 <= f < 6 implies face_visible(before, q.0, q.1, q.2, f)
            == face_visible(after, q.0, q.1, q.2, f) by {
            assert(block_at(before, beyond(q, f).0, beyond(q, f).1, beyond(q, f).2) == block_at(
                after,
                beyond(q, f).0,
                beyond(q, f).1,
                beyond(q, f).2,
            ));
        }
        assert(visible_sides(before, q.0, q.1, q.2) =~= visible_sides(after, q.0, q.1, q.2));
        assert(block_mesh(before, uvs, c, i) == block_mesh(after, uvs, c, i));
    }
}

/// A block next to a block of another chunk lies on the boundary of its
/// own chunk, the other chunk is the adjacent one beyond that boundary,
/// and seen from the other chunk the block lies beyond the opposite face.
pub proof fn lemma_across_the_boundary(c: (int, int, int), i: int, f: int)
    requires
        0 <= i < 4096,
        0 <= f < 6,
        chunk_at(
            beyond(block_coords(c, i), f).0,
            beyond(block_coords(c, i), f).1,
            beyond(block_coords(c, i), f).2,
        ) != c,
    ensures
        ({
            let p = beyond(block_coords(c, i), f);
            let other = chunk_at(p.0, p.1, p.2);
            &&& other == beyond(c, f)
            &&& c == beyond(other, opposite(f))
            &&& 0 <= opposite(f) < 6
            &&& boundary_directions(local_of(p.0), local_of(p.1), local_of(p.2)).contains(
                face_normal(opposite(f)),
            )
        }),
{
    let q = block_coords(c, i);
    lemma_index_surjective(i);
    lemma_split_of_global(c.0, local_coords(i).0);
    lemma_split_of_global(c.1, local_coords(i).1);
    lemma_split_of_global(c.2, local_coords(i).2);
    lemma_neighbour_chunk(q.0);
    lemma_neighbour_chunk(q.1);
    lemma_neighbour_chunk(q.2);
}

/// Writing a block makes no mesh fresh: what was stale stays stale.
pub proof fn lemma_set_block_keeps_stale(
    world: World,
    x: int,
    y: int,
    z: int,
    block: BlockID,
    c: (int, int, int),
)
    requires
        is_stale(world, c),
    ensures
        is_stale(world_with_block(world, x, y, z, block), c),
{
    let after = world_with_block(world, x, y, z, block);
    if world.contains_key(c) && world[c].dirty {
        assert(after[c].dirty);
    } else {
        let f = choose|f: int| 0 <= f < 6 && #[trigger] marked_from(world, c, f);
        assert(marked_from(after, c, f));
    }
}

/// Writing a block loses track of no change: the write marks stale the mesh
/// of the chunk that it writes to, and the mesh of every adjacent chunk
/// next to whose blocks the written block lies, and no other mesh shows the
/// written block.
pub proof fn lemma_set_block_keeps_track(
    world: World,
    uvs: Uvs,
    x: int,
    y: int,
    z: int,
    block: BlockID,
)
    requires
        world_wf(world),
        accounted(world, uvs),
    ensures
        accounted(world_with_block(world, x, y, z, block), uvs),
{
    let after = world_with_block(world, x, y, z, block);
    let home = chunk_at(x, y, z);
    if world.contains_key(home) {
        assert forall|c: (int, int, int)| #[trigger] after.contains_key(c) implies is_stale(
            after,
            c,
        ) || mesh_is_current(after, uvs, c) by {
            assert(world.contains_key(c));
            if is_stale(world, c) {
                lemma_set_block_keeps_stale(world, x, y, z, block, c);
            } else if c == home {
                assert(after[c].dirty);
            } else if !is_stale(after, c) {
                assert(after[c] == world[c]);
                assert(blocks_of(after)[c] == blocks_of(world)[c]);
                assert forall|i: int, f: int| 0 <= i < 4096 && 0 <= f < 6 implies #[trigger] block_at(
                    blocks_of(world),
                    beyond(block_coords(c, i), f).0,
                    beyond(block_coords(c, i), f).1,
                    beyond(block_coords(c, i), f).2,
                ) == block_at(
                    blocks_of(after),
                    beyond(block_coords(c, i), f).0,
                    beyond(block_coords(c, i), f).1,
                    beyond(block_coords(c, i), f).2,
                ) by {
                    let p = beyond(block_coords(c, i), f);
                    if p == (x, y, z) {
                        lemma_across_the_boundary(c, i, f);
                        assert(after[home].dirty_neighbours.contains(face_normal(opposite(f))));
                        assert(marked_from(after, c, opposite(f)));
                    } else {
                        lemma_set_keeps_others(world, x, y, z, block, p.0, p.1, p.2);
                    }
                }
                lemma_mesh_depends_on_neighbourhood(
                    blocks_of(world),
                    blocks_of(after),
                    uvs,
                    c,
                    4096,
                );
            }
        }
    }
}

/// A rebuild loses track of nothing, and if no change had been lost track
/// of before it, then after it the mesh of every loaded chunk shows the
/// blocks as they are.
pub proof fn lemma_rebuild_makes_current(world: World, uvs: Uvs, c: (int, int, int))
    requires
        accounted(world, uvs),
        world.contains_key(c),
    ensures
        mesh_is_current(rebuilt(world, uvs), uvs, c),
        accounted(rebuilt(world, uvs), uvs),
{
    lemma_rebuilt_keeps_blocks(world, uvs);
    assert forall|c2: (int, int, int)| #[trigger]
        rebuilt(world, uvs).contains_key(c2) implies mesh_is_current(
        rebuilt(world, uvs),
        uvs,
        c2,
    ) by {
        assert(world.contains_key(c2));
    }
}

/// A chunk of `Air` has an empty mesh, whatever lies around it.
pub proof fn lemma_air_has_no_mesh(blocks: Blocks, uvs: Uvs, c: (int, int, int), n: nat)
    requires
        n <= 4096,
        forall|i: int| 0 <= i < 4096 ==> (#[trigger] blocks[c][i]).is_air(),
    ensures
        mesh_prefix(blocks, uvs, c, n) == Seq::<crate::shapes::Vertex>::empty(),
    decreases n,
{
    if n > 0 {
        lemma_air_has_no_mesh(blocks, uvs, c, (n - 1) as nat);
        assert(blocks[c][n - 1].is_air());
    }
}

/// Loading a chunk that marks all its neighbours stale, and that is stale
/// itself unless its mesh shows its blocks, loses track of no change.
pub proof fn lemma_load_keeps_track(world: World, uvs: Uvs, c: (int, int, int), chunk: ChunkState)
    requires
        world_wf(world),
        accounted(world, uvs),
        chunk.wf(),
        chunk.dirty_neighbours == all_directions(),
        chunk.dirty || mesh_is_current(world.insert(c, chunk), uvs, c),
    ensures
        accounted(world.insert(c, chunk), uvs),
{
    let after = world.insert(c, chunk);
    assert forall|c2: (int, int, int)| #[trigger] after.contains_key(c2) implies is_stale(
        after,
        c2,
    ) || mesh_is_current(after, uvs, c2) by {
        if c2 == c {
        } else if exists|f: int| 0 <= f < 6 && c2 == beyond(c, f) {
            let f = choose|f: int| 0 <= f < 6 && c2 == beyond(c, f);
            assert(crate::chunk::is_unit_direction(face_normal(f)));
            assert(marked_from(after, c2, f));
        } else if is_stale(world, c2) {
            if world[c2].dirty {
                assert(after[c2].dirty);
            } else {
                let f = choose|f: int| 0 <= f < 6 && #[trigger] marked_from(world, c2, f);
                let s = beyond(c2, opposite(f));
                assert(face_normal(opposite(f)) == (
                    -face_normal(f).0,
                    -face_normal(f).1,
                    -face_normal(f).2,
                ));
                if s == c {
                    assert(c2 == beyond(c, f));
                }
                assert(marked_from(after, c2, f));
            }
        } else {
            assert(after[c2] == world[c2]);
            assert(blocks_of(after)[c2] == blocks_of(world)[c2]);
            assert forall|i: int, f: int| 0 <= i < 4096 && 0 <= f < 6 implies #[trigger] block_at(
                blocks_of(world),
                beyond(block_coords(c2, i), f).0,
                beyond(block_coords(c2, i), f).1,
                beyond(block_coords(c2, i), f).2,
            ) == block_at(
                blocks_of(after),
                beyond(block_coords(c2, i), f).0,
                beyond(block_coords(c2, i), f).1,
                beyond(block_coords(c2, i), f).2,
            ) by {
                let p = beyond(block_coords(c2, i), f);
                if chunk_at(p.0, p.1, p.2) == c {
                    lemma_across_the_boundary(c2, i, f);
                    assert(c2 == beyond(c, opposite(f)));
                }
            }
            lemma_mesh_depends_on_neighbourhood(blocks_of(world), blocks_of(after), uvs, c2, 4096);
        }
    }
}

} // verus!
