//! The mathematical model of a voxel world: which chunks are loaded, what
//! blocks they hold, which faces of a block can be seen, what the mesh of a
//! chunk is, and what a rebuild of the stale meshes does.

use crate::block::BlockID;
use crate::block_texture_sides::BlockFaces;
use crate::chunk::ChunkState;
use crate::coords::addressable;
use crate::coords::chunk_of;
use crate::coords::global_of;
use crate::coords::local_of;
use crate::shapes::count_sides;
use crate::shapes::cube_vertices;
use crate::shapes::face_normal;
use crate::shapes::lemma_cube_vertex_count;
use crate::shapes::lemma_hidden_cube_is_empty;
use crate::shapes::UVCoords;
use crate::shapes::Vertex;
use vstd::prelude::*;

verus! {

/// The loaded chunks, by chunk coordinate.
pub type World = Map<(int, int, int), ChunkState>;

/// The blocks of the loaded chunks, by chunk coordinate.
pub type Blocks = Map<(int, int, int), Seq<BlockID>>;

/// The atlas rectangles of the block kinds.
pub type Uvs = Map<BlockID, BlockFaces<UVCoords>>;

/// A coordinate triple of machine integers as mathematical integers.
pub open spec fn as_ints(c: (i32, i32, i32)) -> (int, int, int) {
    (c.0 as int, c.1 as int, c.2 as int)
}

/// Whether the coordinate `c` occurs in the list `v`.
pub open spec fn listed(v: Seq<(i32, i32, i32)>, c: (int, int, int)) -> bool {
    exists|i: int| 0 <= i < v.len() && as_ints(#[trigger] v[i]) == c
}

/// Whether all three coordinates of a chunk can be reached from 32-bit
/// world coordinates.
pub open spec fn addressable3(c: (int, int, int)) -> bool {
    addressable(c.0) && addressable(c.1) && addressable(c.2)
}

/// A world is well formed if its chunks are, and if each of them lies where
/// world coordinates can reach it.
pub open spec fn world_wf(world: World) -> bool {
    forall|c: (int, int, int)| #[trigger]
        world.contains_key(c) ==> addressable3(c) && world[c].wf()
}

/// The blocks of a world, without the rest of the chunks' state.
pub open spec fn blocks_of(world: World) -> Blocks {
    Map::new(|c: (int, int, int)| world.contains_key(c), |c: (int, int, int)| world[c].blocks)
}

/// The chunk coordinate that owns world coordinate `(x, y, z)`.
pub open spec fn chunk_at(x: int, y: int, z: int) -> (int, int, int) {
    (chunk_of(x), chunk_of(y), chunk_of(z))
}

/// The block at world coordinate `(x, y, z)`: none if the chunk that owns
/// the coordinate is not loaded. An unloaded chunk is not `Air`.
pub open spec fn block_at(blocks: Blocks, x: int, y: int, z: int) -> Option<BlockID> {
    if blocks.contains_key(chunk_at(x, y, z)) {
        Some(
            blocks[chunk_at(x, y, z)][crate::coords::index_of(
                local_of(x),
                local_of(y),
                local_of(z),
            )],
        )
    } else {
        None
    }
}

/// The world after a block is written at world coordinate `(x, y, z)`:
/// unchanged if the chunk that owns the coordinate is not loaded.
pub open spec fn world_with_block(world: World, x: int, y: int, z: int, block: BlockID) -> World {
    if world.contains_key(chunk_at(x, y, z)) {
        world.insert(
            chunk_at(x, y, z),
            world[chunk_at(x, y, z)].with_block(local_of(x), local_of(y), local_of(z), block),
        )
    } else {
        world
    }
}

/// Whether face `f` of the block at `(x, y, z)` can be seen: the block
/// beyond the face is transparent, or its chunk is not loaded.
pub open spec fn face_visible(blocks: Blocks, x: int, y: int, z: int, f: int) -> bool {
    match block_at(blocks, x + face_normal(f).0, y + face_normal(f).1, z + face_normal(f).2) {
        None => true,
        Some(b) => b.is_transparent(),
    }
}

/// Which faces of the block at `(x, y, z)` can be seen, in the order right,
/// left, top, bottom, front, back.
pub open spec fn visible_sides(blocks: Blocks, x: int, y: int, z: int) -> Seq<bool> {
    Seq::new(6, |f: int| face_visible(blocks, x, y, z, f))
}

/// The local coordinates of the block at position `i` of a chunk's block
/// array.
pub open spec fn local_coords(i: int) -> (int, int, int) {
    (i % 16, i / 256, (i / 16) % 16)
}

/// The vertices that the block at position `i` of chunk `c` contributes to
/// the chunk's mesh: none for `Air`, else those of its visible faces.
pub open spec fn block_mesh(blocks: Blocks, uvs: Uvs, c: (int, int, int), i: int) -> Seq<Vertex> {
    if blocks[c][i].is_air() {
        Seq::empty()
    } else {
        cube_vertices(
            local_coords(i).0,
            local_coords(i).1,
            local_coords(i).2,
            uvs[blocks[c][i]].every_side(),
            visible_sides(
                blocks,
                global_of(c.0, local_coords(i).0),
                global_of(c.1, local_coords(i).1),
                global_of(c.2, local_coords(i).2),
            ),
        )
    }
}

/// The mesh of the first `n` blocks of chunk `c`.
pub open spec fn mesh_prefix(blocks: Blocks, uvs: Uvs, c: (int, int, int), n: nat) -> Seq<Vertex>
    decreases n,
{
    if n == 0 {
        Seq::empty()
    } else {
        mesh_prefix(blocks, uvs, c, (n - 1) as nat) + block_mesh(blocks, uvs, c, n - 1)
    }
}

/// The mesh of chunk `c`: the vertices of its blocks in storage order.
pub open spec fn chunk_mesh(blocks: Blocks, uvs: Uvs, c: (int, int, int)) -> Seq<Vertex> {
    mesh_prefix(blocks, uvs, c, 4096)
}

/// How many faces of the first `n` blocks of chunk `c` can be seen.
pub open spec fn visible_faces_prefix(blocks: Blocks, c: (int, int, int), n: nat) -> nat
    decreases n,
{
    if n == 0 {
        0
    } else {
        visible_faces_prefix(blocks, c, (n - 1) as nat) + if blocks[c][n - 1].is_air() {
            0nat
        } else {
            count_sides(
                visible_sides(
                    blocks,
                    global_of(c.0, local_coords(n - 1).0),
                    global_of(c.1, local_coords(n - 1).1),
                    global_of(c.2, local_coords(n - 1).2),
                ),
            )
        }
    }
}

/// How many faces of the blocks of chunk `c` can be seen.
pub open spec fn visible_faces(blocks: Blocks, c: (int, int, int)) -> nat {
    visible_faces_prefix(blocks, c, 4096)
}

/// Whether the chunk at `c - n`, where `n` is the normal of face `f`, says
/// that its neighbour in direction `n`, which is `c`, has a stale mesh.
pub open spec fn marked_from(world: World, c: (int, int, int), f: int) -> bool {
    &&& world.contains_key(
        (c.0 - face_normal(f).0, c.1 - face_normal(f).1, c.2 - face_normal(f).2),
    )
    &&& world[(
        c.0 - face_normal(f).0,
        c.1 - face_normal(f).1,
        c.2 - face_normal(f).2,
    )].dirty_neighbours.contains(face_normal(f))
}

/// Whether the mesh of the chunk at `c` is stale: the chunk says so itself,
/// or an adjacent chunk says so of it.
pub open spec fn is_stale(world: World, c: (int, int, int)) -> bool {
    ||| world.contains_key(c) && world[c].dirty
    ||| exists|f: int| 0 <= f < 6 && #[trigger] marked_from(world, c, f)
}

/// The world after the stale meshes are rebuilt: every loaded chunk whose
/// mesh was stale has its mesh anew and nothing stale about it; every other
/// chunk is as it was.
pub open spec fn rebuilt(world: World, uvs: Uvs) -> World {
    Map::new(
        |c: (int, int, int)| world.contains_key(c),
        |c: (int, int, int)|
            if is_stale(world, c) {
                world[c].with_mesh(chunk_mesh(blocks_of(world), uvs, c))
            } else {
                world[c]
            },
    )
}

/// A rebuild changes no block, and neither loads nor unloads a chunk.
pub proof fn lemma_rebuilt_keeps_blocks(world: World, uvs: Uvs)
    ensures
        rebuilt(world, uvs).dom() == world.dom(),
        blocks_of(rebuilt(world, uvs)) == blocks_of(world),
{
    assert(rebuilt(world, uvs).dom() =~= world.dom());
    assert(blocks_of(rebuilt(world, uvs)) =~= blocks_of(world));
}

/// After a rebuild, every chunk whose mesh was stale shows the mesh of its
/// blocks, draws all of it, and has nothing stale about it.
pub proof fn lemma_rebuilt_chunk(world: World, uvs: Uvs, c: (int, int, int))
    requires
        world.contains_key(c),
        is_stale(world, c),
    ensures
        rebuilt(world, uvs)[c].mesh == chunk_mesh(blocks_of(world), uvs, c),
        rebuilt(world, uvs)[c].vertices_drawn == 6 * visible_faces(blocks_of(world), c),
        !rebuilt(world, uvs)[c].dirty,
        rebuilt(world, uvs)[c].dirty_neighbours == Set::<(int, int, int)>::empty(),
{
    lemma_chunk_mesh_len(blocks_of(world), uvs, c);
}

/// A chunk whose mesh is stale after a rebuild was stale before it: a
/// rebuild makes nothing stale.
pub proof fn lemma_rebuilt_stale_was_stale(world: World, uvs: Uvs, c: (int, int, int))
    requires
        is_stale(rebuilt(world, uvs), c),
    ensures
        is_stale(world, c),
{
    let after = rebuilt(world, uvs);
    if after.contains_key(c) && after[c].dirty {
        if is_stale(world, c) {
            assert(!world[c].with_mesh(chunk_mesh(blocks_of(world), uvs, c)).dirty);
        }
    } else {
        let f = choose|f: int| 0 <= f < 6 && #[trigger] marked_from(after, c, f);
        let s = (c.0 - face_normal(f).0, c.1 - face_normal(f).1, c.2 - face_normal(f).2);
        if is_stale(world, s) {
            assert(after[s].dirty_neighbours =~= Set::<(int, int, int)>::empty());
        }
        assert(marked_from(world, c, f));
    }
}

/// Rebuilding twice in a row is the same as rebuilding once: the second
/// rebuild changes nothing, so every chunk has the same mesh and draws the
/// same number of vertices after both.
pub proof fn lemma_rebuild_is_idempotent(world: World, uvs: Uvs)
    ensures
        rebuilt(rebuilt(world, uvs), uvs) == rebuilt(world, uvs),
{
    let once = rebuilt(world, uvs);
    let twice = rebuilt(once, uvs);
    lemma_rebuilt_keeps_blocks(world, uvs);
    assert forall|c: (int, int, int)| once.contains_key(c) implies #[trigger] twice[c]
        == once[c] by {
        if is_stale(once, c) {
            lemma_rebuilt_stale_was_stale(world, uvs, c);
            lemma_chunk_mesh_len(blocks_of(world), uvs, c);
        }
    }
    assert(twice =~= once);
}

/// If every chunk that marks a neighbour stale is stale itself, then after a
/// rebuild no loaded chunk is stale: a second rebuild has nothing to do.
pub proof fn lemma_rebuild_leaves_nothing_stale(world: World, uvs: Uvs, c: (int, int, int))
    requires
        forall|s: (int, int, int), d: (int, int, int)|
            world.contains_key(s) && #[trigger] world[s].dirty_neighbours.contains(d)
                ==> is_stale(world, s),
        rebuilt(world, uvs).contains_key(c),
    ensures
        !is_stale(rebuilt(world, uvs), c),
{
    let after = rebuilt(world, uvs);
    if is_stale(after, c) {
        lemma_rebuilt_stale_was_stale(world, uvs, c);
        assert(!after[c].dirty);
        let f = choose|f: int| 0 <= f < 6 && #[trigger] marked_from(after, c, f);
        let s = (c.0 - face_normal(f).0, c.1 - face_normal(f).1, c.2 - face_normal(f).2);
        if is_stale(world, s) {
            assert(after[s].dirty_neighbours =~= Set::<(int, int, int)>::empty());
        } else {
            assert(world[s].dirty_neighbours.contains(face_normal(f)));
        }
    }
}

/// The mesh of the first `n` blocks has six vertices for each visible face
/// of a block that is not `Air`, and so at most 36 for each block.
pub proof fn lemma_mesh_prefix_len(blocks: Blocks, uvs: Uvs, c: (int, int, int), n: nat)
    ensures
        mesh_prefix(blocks, uvs, c, n).len() == 6 * visible_faces_prefix(blocks, c, n),
        visible_faces_prefix(blocks, c, n) <= 6 * n,
    decreases n,
{
    if n > 0 {
        lemma_mesh_prefix_len(blocks, uvs, c, (n - 1) as nat);
        let i = n - 1;
        lemma_cube_vertex_count(
            local_coords(i).0,
            local_coords(i).1,
            local_coords(i).2,
            uvs[blocks[c][i]].every_side(),
            visible_sides(
                blocks,
                global_of(c.0, local_coords(i).0),
                global_of(c.1, local_coords(i).1),
                global_of(c.2, local_coords(i).2),
            ),
        );
    }
}

/// The mesh of a chunk has six vertices for each visible face, of which
/// there are at most 6 * 4096.
pub proof fn lemma_chunk_mesh_len(blocks: Blocks, uvs: Uvs, c: (int, int, int))
    ensures
        chunk_mesh(blocks, uvs, c).len() == 6 * visible_faces(blocks, c),
        chunk_mesh(blocks, uvs, c).len() <= 147456,
{
    lemma_mesh_prefix_len(blocks, uvs, c, 4096);
}

/// Whether there is a block at `(x, y, z)` that hides what lies behind it:
/// its chunk is loaded and its kind is not transparent.
pub open spec fn occludes(blocks: Blocks, x: int, y: int, z: int) -> bool {
    match block_at(blocks, x, y, z) {
        None => false,
        Some(b) => !b.is_transparent(),
    }
}

/// A block whose six neighbours are all loaded and opaque shows no face and
/// contributes no vertex to a mesh, whatever its kind and textures.
pub proof fn lemma_enclosed_block_is_hidden(
    blocks: Blocks,
    x: int,
    y: int,
    z: int,
    lx: int,
    ly: int,
    lz: int,
    uvs: Seq<UVCoords>,
)
    requires
        occludes(blocks, x + 1, y, z),
        occludes(blocks, x - 1, y, z),
        occludes(blocks, x, y + 1, z),
        occludes(blocks, x, y - 1, z),
        occludes(blocks, x, y, z + 1),
        occludes(blocks, x, y, z - 1),
    ensures
        forall|f: int| 0 <= f < 6 ==> !face_visible(blocks, x, y, z, f),
        count_sides(visible_sides(blocks, x, y, z)) == 0,
        cube_vertices(lx, ly, lz, uvs, visible_sides(blocks, x, y, z)) == Seq::<Vertex>::empty(),
{
    assert forall|f: int| 0 <= f < 6 implies !face_visible(blocks, x, y, z, f) by {
        if f == 0 {
        } else if f == 1 {
        } else if f == 2 {
        } else if f == 3 {
        } else if f == 4 {
        } else {
        }
    }
    lemma_hidden_cube_is_empty(lx, ly, lz, uvs, visible_sides(blocks, x, y, z));
}

/// Reading a block back after writing it gives the block that was written,
/// if the chunk that owns the coordinate is loaded; if it is not, the write
/// does nothing and there is still no block to read.
pub proof fn lemma_set_then_get(world: World, x: int, y: int, z: int, block: BlockID)
    requires
        world_wf(world),
    ensures
        block_at(blocks_of(world_with_block(world, x, y, z, block)), x, y, z) == if world.contains_key(
            chunk_at(x, y, z),
        ) {
            Some(block)
        } else {
            None
        },
        !world.contains_key(chunk_at(x, y, z)) ==> world_with_block(world, x, y, z, block)
            == world,
        world_wf(world_with_block(world, x, y, z, block)),
{
    let c = chunk_at(x, y, z);
    if world.contains_key(c) {
        crate::coords::lemma_index_bijective(
            local_of(x),
            local_of(y),
            local_of(z),
            local_of(x),
            local_of(y),
            local_of(z),
        );
        crate::chunk::lemma_boundary_directions(local_of(x), local_of(y), local_of(z));
        let after = world_with_block(world, x, y, z, block);
        assert(after[c].wf());
        assert forall|d: (int, int, int)| #[trigger] after.contains_key(d) implies addressable3(d)
            && after[d].wf() by {
            if d != c {
                assert(world.contains_key(d));
            }
        }
    }
}

/// Writing a block changes no other block of the world, and neither loads
/// nor unloads a chunk.
pub proof fn lemma_set_keeps_others(
    world: World,
    x: int,
    y: int,
    z: int,
    block: BlockID,
    x2: int,
    y2: int,
    z2: int,
)
    requires
        world_wf(world),
        (x2, y2, z2) != (x, y, z),
    ensures
        block_at(blocks_of(world_with_block(world, x, y, z, block)), x2, y2, z2) == block_at(
            blocks_of(world),
            x2,
            y2,
            z2,
        ),
        world_with_block(world, x, y, z, block).dom() == world.dom(),
{
    let c = chunk_at(x, y, z);
    let after = world_with_block(world, x, y, z, block);
    assert(after.dom() =~= world.dom());
    if world.contains_key(c) && chunk_at(x2, y2, z2) == c {
        crate::coords::lemma_index_bijective(
            local_of(x),
            local_of(y),
            local_of(z),
            local_of(x2),
            local_of(y2),
            local_of(z2),
        );
    }
}

/// Writing a block marks its chunk stale, and on a chunk boundary also the
/// neighbour beyond the boundary, so that a rebuild renews both meshes.
pub proof fn lemma_set_marks_stale(
    world: World,
    x: int,
    y: int,
    z: int,
    block: BlockID,
    f: int,
)
    requires
        world_wf(world),
        world.contains_key(chunk_at(x, y, z)),
        0 <= f < 6,
        chunk_of(x + face_normal(f).0) != chunk_of(x) || chunk_of(y + face_normal(f).1)
            != chunk_of(y) || chunk_of(z + face_normal(f).2) != chunk_of(z),
    ensures
        is_stale(world_with_block(world, x, y, z, block), chunk_at(x, y, z)),
        is_stale(
            world_with_block(world, x, y, z, block),
            chunk_at(x + face_normal(f).0, y + face_normal(f).1, z + face_normal(f).2),
        ),
{
    let after = world_with_block(world, x, y, z, block);
    let n = face_normal(f);
    let c = chunk_at(x, y, z);
    let c2 = chunk_at(x + n.0, y + n.1, z + n.2);
    crate::coords::lemma_neighbour_chunk(x);
    crate::coords::lemma_neighbour_chunk(y);
    crate::coords::lemma_neighbour_chunk(z);
    assert(crate::chunk::boundary_directions(local_of(x), local_of(y), local_of(z)).contains(n));
    assert((c2.0 - n.0, c2.1 - n.1, c2.2 - n.2) == c);
    assert(marked_from(after, c2, f));
}

} // verus!
