//! Coordinate arithmetic: splitting world coordinates into a chunk coordinate
//! and a coordinate local to the chunk, and flattening local coordinates into
//! an index.

use vstd::prelude::*;

verus! {

/// Side length of a chunk, in blocks.
pub const CHUNK_SIZE: u32 = 16;

/// Number of blocks in a chunk.
pub const CHUNK_VOLUME: u32 = CHUNK_SIZE * CHUNK_SIZE * CHUNK_SIZE;

/// Smallest chunk coordinate that a world coordinate can fall into.
pub const MIN_CHUNK_COORD: i32 = -134217728;

/// Largest chunk coordinate that a world coordinate can fall into.
pub const MAX_CHUNK_COORD: i32 = 134217727;

/// The chunk coordinate that owns world coordinate `w`: the floor of `w / 16`.
pub open spec fn chunk_of(w: int) -> int {
    w / 16
}

/// The coordinate of `w` inside its chunk: the remainder of `w` by 16 that
/// lies in `0..16`.
pub open spec fn local_of(w: int) -> int {
    w % 16
}

/// The world coordinate of local coordinate `local` in chunk `chunk`.
pub open spec fn global_of(chunk: int, local: int) -> int {
    16 * chunk + local
}

/// Whether a chunk coordinate can be reached from a 32-bit world coordinate.
pub open spec fn addressable(chunk: int) -> bool {
    MIN_CHUNK_COORD <= chunk <= MAX_CHUNK_COORD
}

/// Whether a local coordinate triple lies inside a chunk.
pub open spec fn in_chunk(x: int, y: int, z: int) -> bool {
    0 <= x < 16 && 0 <= y < 16 && 0 <= z < 16
}

/// Position of local coordinates in the flattened block array: y-major,
/// then z, then x.
pub open spec fn index_of(x: int, y: int, z: int) -> int {
    y * 256 + z * 16 + x
}

/// The split is a decomposition: recombining chunk and local coordinate gives
/// the world coordinate back, and the local coordinate lies in `0..16`. This
/// holds for negative coordinates too.
pub proof fn lemma_split_decomposes(w: int)
    ensures
        global_of(chunk_of(w), local_of(w)) == w,
        chunk_of(w) * 16 + local_of(w) == w,
        0 <= local_of(w) < 16,
{
}

/// The split is the only decomposition: any chunk and in-range local
/// coordinate that recombine to `w` are the ones the split yields.
pub proof fn lemma_split_unique(w: int, chunk: int, local: int)
    requires
        chunk * 16 + local == w,
        0 <= local < 16,
    ensures
        chunk == chunk_of(w),
        local == local_of(w),
{
}

/// Splitting a recombined pair gives the pair back.
pub proof fn lemma_split_of_global(chunk: int, local: int)
    requires
        0 <= local < 16,
    ensures
        chunk_of(global_of(chunk, local)) == chunk,
        local_of(global_of(chunk, local)) == local,
{
}

/// Every 32-bit world coordinate falls into an addressable chunk.
pub proof fn lemma_split_addressable(w: int)
    requires
        i32::MIN <= w <= i32::MAX,
    ensures
        addressable(chunk_of(w)),
{
}

/// Stepping one block along an axis stays in the chunk, or moves to the
/// adjacent chunk exactly when the step leaves through a boundary plane.
pub proof fn lemma_neighbour_chunk(w: int)
    ensures
        chunk_of(w + 1) == if local_of(w) == 15 { chunk_of(w) + 1 } else { chunk_of(w) },
        chunk_of(w - 1) == if local_of(w) == 0 { chunk_of(w) - 1 } else { chunk_of(w) },
        local_of(w + 1) == if local_of(w) == 15 { 0 } else { local_of(w) + 1 },
        local_of(w - 1) == if local_of(w) == 0 { 15 } else { local_of(w) - 1 },
{
}

/// The flattening is a bijection between in-chunk coordinates and `0..4096`.
pub proof fn lemma_index_bijective(x: int, y: int, z: int, x2: int, y2: int, z2: int)
    requires
        in_chunk(x, y, z),
        in_chunk(x2, y2, z2),
    ensures
        0 <= index_of(x, y, z) < 4096,
        index_of(x, y, z) == index_of(x2, y2, z2) ==> x == x2 && y == y2 && z == z2,
        index_of(x, y, z) % 16 == x,
        (index_of(x, y, z) / 16) % 16 == z,
        index_of(x, y, z) / 256 == y,
{
}

/// Every index in `0..4096` is the flattening of in-chunk coordinates.
pub proof fn lemma_index_surjective(i: int)
    requires
        0 <= i < 4096,
    ensures
        in_chunk(i % 16, i / 256, (i / 16) % 16),
        index_of(i % 16, i / 256, (i / 16) % 16) == i,
{
}

/// Splits one world coordinate into its chunk coordinate and local coordinate.
pub fn split_axis(w: i32) -> (r: (i32, u32))
    ensures
        r.0 == chunk_of(w as int),
        r.1 == local_of(w as int),
        addressable(r.0 as int),
        r.1 < CHUNK_SIZE,
{
    if w >= 0 {
        (w / 16, (w % 16) as u32)
    } else {
        // -(w + 1) is non-negative and fits; its quotient and remainder
        // mirror those of w.
        let m: i32 = -(w + 1);
        let q: i32 = m / 16;
        let r: i32 = m % 16;
        (-q - 1, (15 - r) as u32)
    }
}

} // verus!
