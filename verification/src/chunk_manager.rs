//! The world grid: the loaded chunks by chunk coordinate, block access by
//! world coordinate, and the rebuilding of stale meshes.

use crate::block::BlockID;
use crate::block_texture_sides::covers_placeable;
use crate::block_texture_sides::get_uv_every_side;
use crate::block_texture_sides::UvMap;
use crate::chunk::is_random_chunk;
use crate::chunk::Chunk;
use crate::coords::addressable;
use crate::coords::global_of;
use crate::coords::local_of;
use crate::coords::split_axis;
use crate::coords::CHUNK_SIZE;
use crate::shapes::face_normal;
use crate::shapes::write_unit_cube;
use crate::shapes::Sides;
use crate::shapes::Vertex;
use crate::world::as_ints;
use crate::world::block_mesh;
use crate::world::chunk_mesh;
use crate::world::is_stale;
use crate::world::lemma_chunk_mesh_len;
use crate::world::listed;
use crate::world::marked_from;
use crate::world::mesh_prefix;
use crate::world::rebuilt;
use crate::world::addressable3;
use crate::world::block_at;
use crate::world::blocks_of;
use crate::world::chunk_at;
use crate::world::face_visible;
use crate::world::visible_sides;
use crate::world::world_wf;
use crate::world::world_with_block;
use crate::world::Uvs;
use crate::world::World;
use std::collections::HashMap;
use std::collections::HashSet;
use vstd::prelude::*;
use vstd::std_specs::hash::spec_keys_iter;
use vstd::std_specs::iter::IteratorSpec;

verus! {

broadcast use vstd::std_specs::hash::group_hash_axioms;

/// The key under which the chunk at `c` is stored: the three coordinates,
/// each shifted to be non-negative, as the digits of a number in base 2^28.
spec fn key_of(c: (int, int, int)) -> int {
    ((c.0 + 134217728) * 268435456 + (c.1 + 134217728)) * 268435456 + (c.2 + 134217728)
}

/// The chunk coordinate that is stored under key `k`.
spec fn coords_of(k: int) -> (int, int, int) {
    (
        k / 72057594037927936 - 134217728,
        (k / 268435456) % 268435456 - 134217728,
        k % 268435456 - 134217728,
    )
}

/// Whether `k` is the key of a chunk coordinate.
spec fn valid_key(k: int) -> bool {
    0 <= k < 19342813113834066795298816
}

/// Keys and addressable chunk coordinates correspond one to one.
proof fn lemma_key_of_coords(c: (int, int, int))
    requires
        addressable3(c),
    ensures
        valid_key(key_of(c)),
        coords_of(key_of(c)) == c,
{
}

proof fn lemma_coords_of_key(k: int)
    requires
        valid_key(k),
    ensures
        addressable3(coords_of(k)),
        key_of(coords_of(k)) == k,
{
}

/// The key of an addressable chunk coordinate.
fn chunk_key(x: i32, y: i32, z: i32) -> (k: u128)
    requires
        addressable3((x as int, y as int, z as int)),
    ensures
        k == key_of((x as int, y as int, z as int)),
        valid_key(k as int),
{
    let a: u128 = (x as i64 + 134217728) as u128;
    let b: u128 = (y as i64 + 134217728) as u128;
    let c: u128 = (z as i64 + 134217728) as u128;
    (a * 268435456 + b) * 268435456 + c
}

/// The chunk coordinate of a key.
fn key_coords(k: u128) -> (c: (i32, i32, i32))
    requires
        valid_key(k as int),
    ensures
        (c.0 as int, c.1 as int, c.2 as int) == coords_of(k as int),
        addressable3((c.0 as int, c.1 as int, c.2 as int)),
        key_of((c.0 as int, c.1 as int, c.2 as int)) == k,
{
    proof {
        lemma_coords_of_key(k as int);
    }
    let x: i64 = (k / 72057594037927936) as i64 - 134217728;
    let y: i64 = ((k / 268435456) % 268435456) as i64 - 134217728;
    let z: i64 = (k % 268435456) as i64 - 134217728;
    (x as i32, y as i32, z as i32)
}

/// What the renderer needs to draw one chunk.
#[derive(Clone, Copy, Debug, PartialEq, Eq)]
pub struct DrawCall {
    /// The coordinate of the chunk.
    pub chunk: (i32, i32, i32),
    /// The vertex array to bind.
    pub vao: u32,
    /// How many vertices to draw.
    pub vertices: u32,
    /// Where the origin of the chunk lies in the world, in blocks.
    pub translation: (i32, i32, i32),
}

/// The draw call for the chunk at `c`.
pub open spec fn draw_call_of(world: World, c: (int, int, int)) -> DrawCall {
    DrawCall {
        chunk: (c.0 as i32, c.1 as i32, c.2 as i32),
        vao: world[c].vao,
        vertices: world[c].vertices_drawn,
        translation: ((16 * c.0) as i32, (16 * c.1) as i32, (16 * c.2) as i32),
    }
}

/// Whether `c` is one of the eight chunk coordinates with every component
/// zero or one.
pub open spec fn in_preload(c: (int, int, int)) -> bool {
    0 <= c.0 < 2 && 0 <= c.1 < 2 && 0 <= c.2 < 2
}

/// The loaded chunks of a world, by chunk coordinate.
pub struct ChunkManager {
    loaded_chunks: HashMap<u128, Chunk>,
}

impl View for ChunkManager {
    type V = World;

    closed spec fn view(&self) -> World {
        Map::new(
            |c: (int, int, int)|
                addressable3(c) && self.loaded_chunks@.contains_key(key_of(c) as u128),
            |c: (int, int, int)| self.loaded_chunks@[key_of(c) as u128]@,
        )
    }
}

impl ChunkManager {
    /// The invariant of the grid: every chunk is well formed and stored
    /// under the key of a chunk coordinate.
    pub closed spec fn wf(&self) -> bool {
        forall|k: u128| #[trigger]
            self.loaded_chunks@.contains_key(k) ==> valid_key(k as int)
                && self.loaded_chunks@[k].wf()
    }

    /// A well-formed grid holds a well-formed world, of finitely many chunks.
    pub proof fn lemma_world_wf(&self)
        requires
            self.wf(),
        ensures
            world_wf(self@),
    {
        assert forall|c: (int, int, int)| #[trigger] self@.contains_key(c) implies addressable3(c)
            && self@[c].wf() by {
            assert(self.loaded_chunks@.contains_key(key_of(c) as u128));
        }
    }

    /// A grid without chunks.
    pub fn new() -> (manager: ChunkManager)
        ensures
            manager.wf(),
            manager@ == World::empty(),
    {
        let manager = ChunkManager { loaded_chunks: HashMap::new() };
        assert(manager@ =~= World::empty());
        manager
    }

    /// Loads a chunk at chunk coordinate `(x, y, z)`, in place of the chunk
    /// that was there, if any. A coordinate that no world coordinate falls
    /// into is refused: the grid stays as it is and the answer is `false`.
    pub fn load_chunk(&mut self, x: i32, y: i32, z: i32, chunk: Chunk) -> (loaded: bool)
        requires
            old(self).wf(),
            chunk.wf(),
        ensures
            final(self).wf(),
            loaded == addressable3((x as int, y as int, z as int)),
            final(self)@ == if loaded {
                old(self)@.insert((x as int, y as int, z as int), chunk@)
            } else {
                old(self)@
            },
    {
        if !in_range(x) || !in_range(y) || !in_range(z) {
            return false;
        }
        let k = chunk_key(x, y, z);
        let ghost state = chunk@;
        self.loaded_chunks.insert(k, chunk);
        proof {
            let c = (x as int, y as int, z as int);
            assert forall|c2: (int, int, int)| addressable3(c2) && c2 != c implies key_of(c2)
                != key_of(c) by {
                lemma_key_of_coords(c);
                lemma_key_of_coords(c2);
            }
            assert forall|c2: (int, int, int)| addressable3(c2) implies valid_key(key_of(c2)) by {
                lemma_key_of_coords(c2);
            }
            assert(self@ =~= old(self)@.insert(c, state));
        }
        true
    }

    /// Loads eight chunks of random blocks, at the chunk coordinates with
    /// every component zero or one, in place of what was loaded there.
    pub fn preload_some_chunks(&mut self)
        requires
            old(self).wf(),
        ensures
            final(self).wf(),
            forall|c: (int, int, int)| #[trigger]
                final(self)@.contains_key(c) <==> old(self)@.contains_key(c) || in_preload(c),
            forall|c: (int, int, int)| #[trigger]
                in_preload(c) ==> is_random_chunk(final(self)@[c]),
            forall|c: (int, int, int)|
                old(self)@.contains_key(c) && !in_preload(c) ==> #[trigger] final(self)@[c] == old(
                    self,
                )@[c],
    {
        let mut i: i32 = 0;
        while i < 8
            invariant
                0 <= i <= 8,
                self.wf(),
                forall|c: (int, int, int)| #[trigger]
                    self@.contains_key(c) <==> old(self)@.contains_key(c) || (in_preload(c) && c.1
                        * 4 + c.2 * 2 + c.0 < i),
                forall|c: (int, int, int)| #[trigger]
                    in_preload(c) && c.1 * 4 + c.2 * 2 + c.0 < i ==> is_random_chunk(self@[c]),
                forall|c: (int, int, int)|
                    old(self)@.contains_key(c) && !in_preload(c) ==> #[trigger] self@[c] == old(
                        self,
                    )@[c],
            decreases 8 - i,
        {
            let x = i % 2;
            let z = (i / 2) % 2;
            let y = i / 4;
            let ghost before = self@;
            self.load_chunk(x, y, z, Chunk::random());
            proof {
                let added = (x as int, y as int, z as int);
                assert(y * 4 + z * 2 + x == i);
                assert(in_preload(added));
                assert(self@ == before.insert(added, self@[added]));
                assert forall|c: (int, int, int)| #[trigger]
                    self@.contains_key(c) <==> old(self)@.contains_key(c) || (in_preload(c) && c.1
                        * 4 + c.2 * 2 + c.0 < i + 1) by {
                    if c == added {
                        assert(self@.contains_key(c));
                    } else {
                        assert(self@.contains_key(c) == before.contains_key(c));
                        assert(before.contains_key(c) <==> old(self)@.contains_key(c) || (
                        in_preload(c) && c.1 * 4 + c.2 * 2 + c.0 < i));
                        if in_preload(c) && c.1 * 4 + c.2 * 2 + c.0 == i {
                            assert(c.0 == x && c.1 == y && c.2 == z);
                        }
                    }
                }
                assert forall|c: (int, int, int)|
                    old(self)@.contains_key(c) && !in_preload(c) implies #[trigger] self@[c]
                    == old(self)@[c] by {
                    assert(self@[c] == before[c]);
                }
                assert forall|c: (int, int, int)| #[trigger]
                    in_preload(c) && c.1 * 4 + c.2 * 2 + c.0 < i + 1 implies is_random_chunk(
                    self@[c],
                ) by {
                    if c != added {
                        assert(c.1 * 4 + c.2 * 2 + c.0 < i);
                        assert(self@[c] == before[c]);
                    }
                }
            }
            i = i + 1;
        }
    }

    /// What the renderer has to draw: one call for each loaded chunk that
    /// has any vertex to draw, in no particular order. A chunk is drawn
    /// from its vertex array, moved to where its origin lies in the world.
    pub fn render_loaded_chunks(&self) -> (calls: Vec<DrawCall>)
        requires
            self.wf(),
        ensures
            forall|i: int|
                0 <= i < calls@.len() ==> self@.contains_key(as_ints((#[trigger] calls@[i]).chunk))
                    && calls@[i] == draw_call_of(self@, as_ints(calls@[i].chunk))
                    && calls@[i].vertices != 0,
            forall|c: (int, int, int)|
                self@.contains_key(c) && self@[c].vertices_drawn != 0 ==> exists|i: int|
                    0 <= i < calls@.len() && as_ints((#[trigger] calls@[i]).chunk) == c,
            forall|i: int, j: int|
                0 <= i < j < calls@.len() ==> calls@[i].chunk != calls@[j].chunk,
    {
        let keys = self.keys();
        let mut calls: Vec<DrawCall> = Vec::new();
        let ghost mut picked: Seq<int> = Seq::empty();
        let mut j: usize = 0;
        while j < keys.len()
            invariant
                j <= keys@.len(),
                self.wf(),
                keys@.no_duplicates(),
                keys@.to_set() == self.loaded_chunks@.dom(),
                picked.len() == calls@.len(),
                forall|i: int|
                    0 <= i < picked.len() ==> 0 <= #[trigger] picked[i] < j && key_of(
                        as_ints(calls@[i].chunk),
                    ) == keys@[picked[i]] && addressable3(as_ints(calls@[i].chunk))
                        && self@.contains_key(as_ints(calls@[i].chunk)) && calls@[i]
                        == draw_call_of(self@, as_ints(calls@[i].chunk)) && calls@[i].vertices
                        != 0,
                forall|a: int, b: int| 0 <= a < b < picked.len() ==> picked[a] < picked[b],
                forall|i: int|
                    0 <= i < j && self.loaded_chunks@[keys@[i]]@.vertices_drawn != 0
                        ==> exists|a: int| 0 <= a < picked.len() && #[trigger] picked[a] == i,
            decreases keys@.len() - j,
        {
            let k = keys[j];
            assert(keys@.to_set().contains(k));
            let c = key_coords(k);
            let chunk = self.loaded_chunks.get(&k).unwrap();
            // skip the chunk if there is nothing to draw
            if chunk.vertices_drawn() != 0 {
                let call = DrawCall {
                    chunk: c,
                    vao: chunk.vao(),
                    vertices: chunk.vertices_drawn(),
                    translation: (16 * c.0, 16 * c.1, 16 * c.2),
                };
                assert(self@.contains_key(as_ints(c)) && self@[as_ints(c)] == chunk@);
                assert(call == draw_call_of(self@, as_ints(c)));
                calls.push(call);
                proof {
                    let ghost before = picked;
                    picked = picked.push(j as int);
                    assert forall|i: int|
                        0 <= i < j + 1 && self.loaded_chunks@[keys@[i]]@.vertices_drawn
                            != 0 implies exists|a: int|
                        0 <= a < picked.len() && #[trigger] picked[a] == i by {
                        if i < j {
                            let a = choose|a: int| 0 <= a < before.len() && before[a] == i;
                            assert(picked[a] == i);
                        } else {
                            assert(picked[picked.len() - 1] == i);
                        }
                    }
                }
            }
            j = j + 1;
        }
        proof {
            assert forall|i: int| 0 <= i < calls@.len() implies self@.contains_key(
                as_ints((#[trigger] calls@[i]).chunk),
            ) && calls@[i] == draw_call_of(self@, as_ints(calls@[i].chunk)) && calls@[i].vertices
                != 0 by {
                assert(0 <= picked[i] < j);
            }
            assert forall|a: int, b: int| 0 <= a < b < calls@.len() implies calls@[a].chunk
                != calls@[b].chunk by {
                assert(picked[a] < picked[b]);
            }
            assert forall|c: (int, int, int)|
                self@.contains_key(c) && self@[c].vertices_drawn != 0 implies exists|i: int|
                0 <= i < calls@.len() && as_ints((#[trigger] calls@[i]).chunk) == c by {
                let k = key_of(c) as u128;
                assert(keys@.to_set().contains(k));
                let i = choose|i: int| 0 <= i < keys@.len() && keys@[i] == k;
                let a = choose|a: int| 0 <= a < picked.len() && picked[a] == i;
                lemma_key_of_coords(c);
                lemma_key_of_coords(as_ints(calls@[a].chunk));
                assert(as_ints(calls@[a].chunk) == c);
            }
        }
        calls
    }

    /// The chunk at chunk coordinate `(x, y, z)`, if one is loaded.
    pub fn chunk(&self, x: i32, y: i32, z: i32) -> (chunk: Option<&Chunk>)
        requires
            self.wf(),
        ensures
            match chunk {
                Some(chunk) => self@.contains_key((x as int, y as int, z as int)) && chunk@
                    == self@[(x as int, y as int, z as int)] && chunk.wf(),
                None => !self@.contains_key((x as int, y as int, z as int)),
            },
    {
        if !in_range(x) || !in_range(y) || !in_range(z) {
            return None;
        }
        let k = chunk_key(x, y, z);
        self.loaded_chunks.get(&k)
    }

    /// Records the handles of the renderer's buffers for the chunk at chunk
    /// coordinate `(x, y, z)`. Answers whether such a chunk is loaded.
    pub fn set_buffers(&mut self, x: i32, y: i32, z: i32, vao: u32, vbo: u32) -> (found: bool)
        requires
            old(self).wf(),
        ensures
            final(self).wf(),
            found == old(self)@.contains_key((x as int, y as int, z as int)),
            final(self)@ == if found {
                old(self)@.insert(
                    (x as int, y as int, z as int),
                    (crate::chunk::ChunkState {
                        vao,
                        vbo,
                        ..old(self)@[(x as int, y as int, z as int)]
                    }),
                )
            } else {
                old(self)@
            },
    {
        if !in_range(x) || !in_range(y) || !in_range(z) {
            return false;
        }
        let k = chunk_key(x, y, z);
        match self.loaded_chunks.remove(&k) {
            Some(chunk) => {
                let mut chunk = chunk;
                chunk.set_buffers(vao, vbo);
                let ghost state = chunk@;
                self.loaded_chunks.insert(k, chunk);
                proof {
                    let c = (x as int, y as int, z as int);
                    assert forall|c2: (int, int, int)| addressable3(c2) && c2 != c implies key_of(
                        c2,
                    ) != key_of(c) by {
                        lemma_key_of_coords(c);
                        lemma_key_of_coords(c2);
                    }
                    assert forall|c2: (int, int, int)| addressable3(c2) implies valid_key(
                        key_of(c2),
                    ) by {
                        lemma_key_of_coords(c2);
                    }
                    assert(self@ =~= old(self)@.insert(c, state));
                }
                true
            },
            None => {
                assert(self@ =~= old(self)@);
                false
            },
        }
    }

    /// The coordinates of the loaded chunks, each once, in no particular
    /// order.
    pub fn chunk_coords(&self) -> (coords: Vec<(i32, i32, i32)>)
        requires
            self.wf(),
        ensures
            coords@.no_duplicates(),
            forall|c: (int, int, int)|
                self@.contains_key(c) <==> exists|i: int|
                    0 <= i < coords@.len() && c == (
                        (#[trigger] coords@[i]).0 as int,
                        coords@[i].1 as int,
                        coords@[i].2 as int,
                    ),
    {
        let keys = self.keys();
        let mut coords: Vec<(i32, i32, i32)> = Vec::new();
        let mut i: usize = 0;
        while i < keys.len()
            invariant
                i <= keys@.len(),
                coords@.len() == i,
                self.wf(),
                forall|j: int| 0 <= j < keys@.len() ==> self.loaded_chunks@.contains_key(keys@[j]),
                forall|j: int|
                    0 <= j < i ==> key_of(
                        (
                            (#[trigger] coords@[j]).0 as int,
                            coords@[j].1 as int,
                            coords@[j].2 as int,
                        ),
                    ) == keys@[j] && addressable3(
                        (coords@[j].0 as int, coords@[j].1 as int, coords@[j].2 as int),
                    ),
            decreases keys@.len() - i,
        {
            assert(self.loaded_chunks@.contains_key(keys@[i as int]));
            coords.push(key_coords(keys[i]));
            i = i + 1;
        }
        proof {
            assert forall|a: int, b: int| 0 <= a < b < coords@.len() implies coords@[a]
                != coords@[b] by {
                assert(keys@[a] != keys@[b]);
            }
            assert forall|c: (int, int, int)| self@.contains_key(c) implies exists|i: int|
                0 <= i < coords@.len() && c == (
                    (#[trigger] coords@[i]).0 as int,
                    coords@[i].1 as int,
                    coords@[i].2 as int,
                ) by {
                let k = key_of(c) as u128;
                assert(keys@.to_set().contains(k));
                let i = choose|i: int| 0 <= i < keys@.len() && keys@[i] == k;
                lemma_key_of_coords(c);
                lemma_key_of_coords(
                    (coords@[i].0 as int, coords@[i].1 as int, coords@[i].2 as int),
                );
            }
            assert forall|c: (int, int, int)|
                (exists|i: int|
                    0 <= i < coords@.len() && c == (
                        (#[trigger] coords@[i]).0 as int,
                        coords@[i].1 as int,
                        coords@[i].2 as int,
                    )) implies self@.contains_key(c) by {
                let i = choose|i: int|
                    0 <= i < coords@.len() && c == (
                        (#[trigger] coords@[i]).0 as int,
                        coords@[i].1 as int,
                        coords@[i].2 as int,
                    );
                assert(self.loaded_chunks@.contains_key(keys@[i]));
            }
        }
        coords
    }

    /// The keys of the loaded chunks, each once.
    fn keys(&self) -> (keys: Vec<u128>)
        ensures
            keys@.to_set() == self.loaded_chunks@.dom(),
            keys@.no_duplicates(),
            forall|j: int| 0 <= j < keys@.len() ==> self.loaded_chunks@.contains_key(keys@[j]),
    {
        let mut keys: Vec<u128> = Vec::new();
        for k in it: self.loaded_chunks.keys()
            invariant
                it.seq() == spec_keys_iter(&self.loaded_chunks).remaining(),
                keys@.len() == it.index(),
                forall|i: int| 0 <= i < keys@.len() ==> keys@[i] == *it.seq()[i],
        {
            keys.push(*k);
        }
        assert(keys@ =~= spec_keys_iter(&self.loaded_chunks).remaining().unref());
        assert forall|j: int| 0 <= j < keys@.len() implies self.loaded_chunks@.contains_key(
            keys@[j],
        ) by {
            assert(keys@.to_set().contains(keys@[j]));
        }
        keys
    }

    /// Splits a world coordinate into the coordinate of the chunk that owns
    /// it and the coordinate inside that chunk. The chunk coordinate is the
    /// floor of the world coordinate divided by 16 and the local coordinate
    /// the remainder in `0..16`, for negative coordinates too.
    pub fn get_chunk_and_block_coords(x: i32, y: i32, z: i32) -> (r: (i32, i32, i32, u32, u32, u32))
        ensures
            (r.0 as int, r.1 as int, r.2 as int) == chunk_at(x as int, y as int, z as int),
            r.3 == local_of(x as int),
            r.4 == local_of(y as int),
            r.5 == local_of(z as int),
            r.0 * 16 + r.3 == x,
            r.1 * 16 + r.4 == y,
            r.2 * 16 + r.5 == z,
            r.3 < CHUNK_SIZE && r.4 < CHUNK_SIZE && r.5 < CHUNK_SIZE,
            addressable3((r.0 as int, r.1 as int, r.2 as int)),
    {
        let (chunk_x, block_x) = split_axis(x);
        let (chunk_y, block_y) = split_axis(y);
        let (chunk_z, block_z) = split_axis(z);
        (chunk_x, chunk_y, chunk_z, block_x, block_y, block_z)
    }

    /// The world coordinate of a local coordinate in a chunk: the inverse of
    /// the split.
    pub fn get_global_coords(c: (i32, i32, i32, u32, u32, u32)) -> (r: (i32, i32, i32))
        requires
            addressable3((c.0 as int, c.1 as int, c.2 as int)),
            c.3 < CHUNK_SIZE && c.4 < CHUNK_SIZE && c.5 < CHUNK_SIZE,
        ensures
            r.0 == global_of(c.0 as int, c.3 as int),
            r.1 == global_of(c.1 as int, c.4 as int),
            r.2 == global_of(c.2 as int, c.5 as int),
            chunk_at(r.0 as int, r.1 as int, r.2 as int) == (c.0 as int, c.1 as int, c.2 as int),
            local_of(r.0 as int) == c.3 && local_of(r.1 as int) == c.4 && local_of(r.2 as int)
                == c.5,
    {
        let x = 16 * c.0 + c.3 as i32;
        let y = 16 * c.1 + c.4 as i32;
        let z = 16 * c.2 + c.5 as i32;
        (x, y, z)
    }

    /// The block at world coordinate `(x, y, z)`, or nothing if the chunk
    /// that owns the coordinate is not loaded.
    pub fn get_block(&self, x: i32, y: i32, z: i32) -> (block: Option<BlockID>)
        requires
            self.wf(),
        ensures
            block == block_at(blocks_of(self@), x as int, y as int, z as int),
    {
        let (chunk_x, chunk_y, chunk_z, block_x, block_y, block_z) =
            ChunkManager::get_chunk_and_block_coords(x, y, z);
        let k = chunk_key(chunk_x, chunk_y, chunk_z);
        match self.loaded_chunks.get(&k) {
            Some(chunk) => Some(chunk.get_block(block_x, block_y, block_z)),
            None => None,
        }
    }

    /// Writes a block at world coordinate `(x, y, z)` and marks stale what
    /// the write makes stale. Does nothing if the chunk that owns the
    /// coordinate is not loaded.
    pub fn set_block(&mut self, x: i32, y: i32, z: i32, block: BlockID)
        requires
            old(self).wf(),
        ensures
            final(self).wf(),
            final(self)@ == world_with_block(old(self)@, x as int, y as int, z as int, block),
    {
        let (chunk_x, chunk_y, chunk_z, block_x, block_y, block_z) =
            ChunkManager::get_chunk_and_block_coords(x, y, z);
        let k = chunk_key(chunk_x, chunk_y, chunk_z);
        match self.loaded_chunks.remove(&k) {
            Some(chunk) => {
                let mut chunk = chunk;
                chunk.set_block(block_x, block_y, block_z, block);
                let ghost state = chunk@;
                self.loaded_chunks.insert(k, chunk);
                proof {
                    let c = (chunk_x as int, chunk_y as int, chunk_z as int);
                    assert forall|c2: (int, int, int)| addressable3(c2) && c2 != c implies key_of(
                        c2,
                    ) != key_of(c) by {
                        lemma_key_of_coords(c);
                        lemma_key_of_coords(c2);
                    }
                    assert forall|c2: (int, int, int)| addressable3(c2) implies valid_key(
                        key_of(c2),
                    ) by {
                        lemma_key_of_coords(c2);
                    }
                    assert(self@ =~= old(self)@.insert(c, state));
                }
            },
            None => {
                assert(self@ =~= old(self)@);
            },
        }
    }

    /// All the steps together find exactly the stale meshes.
    proof fn lemma_found_is_stale(&self, keys: Seq<u128>, c: (int, int, int))
        requires
            self.wf(),
            keys.to_set() == self.loaded_chunks@.dom(),
        ensures
            found_stale(self@, keys, 7 * keys.len() as int, c) <==> is_stale(self@, c),
    {
        let world = self@;
        if found_stale(world, keys, 7 * keys.len() as int, c) {
            let p = choose|p: int|
                0 <= p < 7 * keys.len() && #[trigger] step_target(keys, p) == c && step_finds(
                    world,
                    keys,
                    p,
                );
            let k = keys[p / 7];
            assert(keys.to_set().contains(k));
            lemma_coords_of_key(k as int);
            let s = step_source(keys, p);
            assert(world.contains_key(s));
            if p % 7 != 6 {
                assert(marked_from(world, c, p % 7));
            }
        }
        if is_stale(world, c) {
            if world.contains_key(c) && world[c].dirty {
                let k = key_of(c) as u128;
                assert(keys.to_set().contains(k));
                let j = choose|j: int| 0 <= j < keys.len() && keys[j] == k;
                lemma_key_of_coords(c);
                let p = 7 * j + 6;
                assert(step_target(keys, p) == c && step_finds(world, keys, p));
            } else {
                let f = choose|f: int| 0 <= f < 6 && #[trigger] marked_from(world, c, f);
                let s = (c.0 - face_normal(f).0, c.1 - face_normal(f).1, c.2 - face_normal(f).2);
                let k = key_of(s) as u128;
                assert(keys.to_set().contains(k));
                let j = choose|j: int| 0 <= j < keys.len() && keys[j] == k;
                lemma_key_of_coords(s);
                let p = 7 * j + f;
                assert(step_target(keys, p) == c && step_finds(world, keys, p));
            }
        }
    }

    /// The keys of the chunk coordinates whose meshes are stale.
    fn stale_keys(&self, keys: &Vec<u128>) -> (stale: HashSet<u128>)
        requires
            self.wf(),
            keys@.to_set() == self.loaded_chunks@.dom(),
        ensures
            forall|c: (int, int, int)|
                addressable3(c) ==> (stale@.contains(#[trigger] key_of(c) as u128) <==> is_stale(
                    self@,
                    c,
                )),
    {
        let mut stale: HashSet<u128> = HashSet::new();
        let n: u128 = keys.len() as u128;
        let mut p: u128 = 0;
        while p < 7 * n
            invariant
                self.wf(),
                keys@.to_set() == self.loaded_chunks@.dom(),
                n == keys@.len(),
                n <= usize::MAX,
                p <= 7 * n,
                forall|c: (int, int, int)|
                    addressable3(c) ==> (stale@.contains(#[trigger] key_of(c) as u128)
                        <==> found_stale(self@, keys@, p as int, c)),
            decreases 7 * n - p,
        {
            let j = (p / 7) as usize;
            let f = p % 7;
            let k = keys[j];
            assert(keys@.to_set().contains(k));
            let s = key_coords(k);
            let chunk = self.loaded_chunks.get(&k).unwrap();
            let d = direction(f);
            let found = if f == 6 {
                chunk.dirty()
            } else {
                chunk.dirty_neighbours().contains(d.0, d.1, d.2)
            };
            let t = (s.0 + d.0, s.1 + d.1, s.2 + d.2);
            proof {
                assert(as_ints(t) == step_target(keys@, p as int));
                assert(self@[as_ints(s)] == chunk@);
                assert(found == step_finds(self@, keys@, p as int));
            }
            let ghost before = stale@;
            let inserted = found && in_range(t.0) && in_range(t.1) && in_range(t.2);
            if inserted {
                stale.insert(chunk_key(t.0, t.1, t.2));
            }
            proof {
                assert forall|c: (int, int, int)| addressable3(c) implies (stale@.contains(
                    #[trigger] key_of(c) as u128,
                ) <==> found_stale(self@, keys@, p + 1, c)) by {
                    lemma_key_of_coords(c);
                    if inserted {
                        lemma_key_of_coords(as_ints(t));
                    }
                    if found_stale(self@, keys@, p + 1, c) {
                        let q = choose|q: int|
                            0 <= q < p + 1 && #[trigger] step_target(keys@, q) == c
                                && step_finds(self@, keys@, q);
                        if q < p {
                            assert(found_stale(self@, keys@, p as int, c));
                        }
                    }
                    if before.contains(key_of(c) as u128) {
                        let q = choose|q: int|
                            0 <= q < p && #[trigger] step_target(keys@, q) == c && step_finds(
                                self@,
                                keys@,
                                q,
                            );
                        assert(0 <= q < p + 1);
                    }
                    if inserted && c == as_ints(t) {
                        assert(step_target(keys@, p as int) == c);
                    }
                }
            }
            p = p + 1;
        }
        proof {
            assert forall|c: (int, int, int)| addressable3(c) implies (stale@.contains(
                #[trigger] key_of(c) as u128,
            ) <==> is_stale(self@, c)) by {
                self.lemma_found_is_stale(keys@, c);
            }
        }
        stale
    }

    /// The mesh of the loaded chunk at chunk coordinate `(x, y, z)`: for
    /// each block that is not `Air`, in storage order, the visible faces.
    fn build_mesh(&self, x: i32, y: i32, z: i32, uv_map: &UvMap) -> (mesh: Vec<Vertex>)
        requires
            self.wf(),
            uv_map.wf(),
            covers_placeable(uv_map@),
            self@.contains_key((x as int, y as int, z as int)),
        ensures
            mesh@ == chunk_mesh(blocks_of(self@), uv_map@, (x as int, y as int, z as int)),
            mesh@.len() <= 147456,
    {
        let ghost c = (x as int, y as int, z as int);
        let ghost blocks = blocks_of(self@);
        proof {
            self.lemma_world_wf();
        }
        let chunk = self.chunk(x, y, z).unwrap();
        let mut mesh: Vec<Vertex> = Vec::new();
        let mut i: u32 = 0;
        while i < 4096
            invariant
                i <= 4096,
                self.wf(),
                uv_map.wf(),
                covers_placeable(uv_map@),
                c == (x as int, y as int, z as int),
                addressable3(c),
                self@.contains_key(c),
                chunk@ == self@[c],
                chunk.wf(),
                blocks == blocks_of(self@),
                mesh@ == mesh_prefix(blocks, uv_map@, c, i as nat),
            decreases 4096 - i,
        {
            let bx = i % 16;
            let by = i / 256;
            let bz = (i / 16) % 16;
            proof {
                crate::coords::lemma_index_surjective(i as int);
            }
            let block = chunk.get_block(bx, by, bz);
            assert(block == blocks[c][i as int]);
            if !block.is_air() {
                let (gx, gy, gz) = ChunkManager::get_global_coords((x, y, z, bx, by, bz));
                let sides = self.get_active_sides_of_block(gx, gy, gz);
                let faces = uv_map.get(block).unwrap();
                let uvs = get_uv_every_side(faces);
                write_unit_cube(&mut mesh, bx, by, bz, uvs, sides);
            }
            assert(mesh@ == mesh_prefix(blocks, uv_map@, c, i as nat) + block_mesh(
                blocks,
                uv_map@,
                c,
                i as int,
            ));
            i = i + 1;
        }
        proof {
            lemma_chunk_mesh_len(blocks, uv_map@, c);
        }
        mesh
    }

    /// The loaded chunks among `keys` whose meshes are stale: their keys,
    /// and in the same order their coordinates.
    fn pick_stale(&self, keys: &Vec<u128>, stale: &HashSet<u128>) -> (r: (
        Vec<u128>,
        Vec<(i32, i32, i32)>,
    ))
        requires
            self.wf(),
            keys@.no_duplicates(),
            keys@.to_set() == self.loaded_chunks@.dom(),
        ensures
            r.0@.no_duplicates(),
            forall|k: u128| #[trigger]
                r.0@.contains(k) <==> self.loaded_chunks@.contains_key(k) && stale@.contains(k),
            r.1@.len() == r.0@.len(),
            forall|i: int|
                0 <= i < r.0@.len() ==> key_of(as_ints(#[trigger] r.1@[i])) == r.0@[i]
                    && addressable3(as_ints(r.1@[i])),
    {
        let mut todo: Vec<u128> = Vec::new();
        let mut coords: Vec<(i32, i32, i32)> = Vec::new();
        let ghost mut picked: Seq<int> = Seq::empty();
        let mut j: usize = 0;
        while j < keys.len()
            invariant
                j <= keys@.len(),
                self.wf(),
                keys@.to_set() == self.loaded_chunks@.dom(),
                picked.len() == todo@.len(),
                coords@.len() == todo@.len(),
                forall|i: int|
                    0 <= i < picked.len() ==> 0 <= #[trigger] picked[i] < j && todo@[i]
                        == keys@[picked[i]] && stale@.contains(todo@[i]),
                forall|i: int|
                    0 <= i < todo@.len() ==> key_of(as_ints(#[trigger] coords@[i])) == todo@[i]
                        && addressable3(as_ints(coords@[i])),
                forall|a: int, b: int| 0 <= a < b < picked.len() ==> picked[a] < picked[b],
                forall|i: int|
                    0 <= i < j && stale@.contains(keys@[i]) ==> exists|a: int|
                        0 <= a < picked.len() && #[trigger] picked[a] == i,
            decreases keys@.len() - j,
        {
            let k = keys[j];
            assert(keys@.to_set().contains(k));
            if stale.contains(&k) {
                todo.push(k);
                coords.push(key_coords(k));
                proof {
                    let ghost before = picked;
                    picked = picked.push(j as int);
                    assert forall|i: int|
                        0 <= i < j + 1 && stale@.contains(keys@[i]) implies exists|a: int|
                        0 <= a < picked.len() && #[trigger] picked[a] == i by {
                        if i < j {
                            let a = choose|a: int| 0 <= a < before.len() && before[a] == i;
                            assert(picked[a] == i);
                        } else {
                            assert(picked[picked.len() - 1] == i);
                        }
                    }
                }
            }
            j = j + 1;
        }
        proof {
            assert forall|a: int, b: int| 0 <= a < b < todo@.len() implies todo@[a]
                != todo@[b] by {
                assert(picked[a] < picked[b]);
            }
            assert forall|k: u128| #[trigger]
                todo@.contains(k) <==> self.loaded_chunks@.contains_key(k) && stale@.contains(
                    k,
                ) by {
                if todo@.contains(k) {
                    let i = choose|i: int| 0 <= i < todo@.len() && todo@[i] == k;
                    assert(keys@.to_set().contains(keys@[picked[i]]));
                }
                if self.loaded_chunks@.contains_key(k) && stale@.contains(k) {
                    assert(keys@.to_set().contains(k));
                    let i = choose|i: int| 0 <= i < keys@.len() && keys@[i] == k;
                    let a = choose|a: int| 0 <= a < picked.len() && picked[a] == i;
                    assert(todo@[a] == k);
                }
            }
        }
        (todo, coords)
    }

    /// Replaces the mesh of the chunk stored under `k` by the mesh of its
    /// blocks.
    fn renew_chunk(&mut self, k: u128, uv_map: &UvMap)
        requires
            old(self).wf(),
            uv_map.wf(),
            covers_placeable(uv_map@),
            old(self).loaded_chunks@.contains_key(k),
        ensures
            final(self).wf(),
            final(self).loaded_chunks@.dom() == old(self).loaded_chunks@.dom(),
            forall|k2: u128|
                k2 != k && old(self).loaded_chunks@.contains_key(k2) ==> final(self).loaded_chunks@[k2]
                    == #[trigger] old(self).loaded_chunks@[k2],
            final(self).loaded_chunks@[k]@ == old(self).loaded_chunks@[k]@.with_mesh(
                chunk_mesh(blocks_of(old(self)@), uv_map@, coords_of(k as int)),
            ),
    {
        let c = key_coords(k);
        let mesh = self.build_mesh(c.0, c.1, c.2, uv_map);
        let mut chunk = self.loaded_chunks.remove(&k).unwrap();
        chunk.install_mesh(mesh);
        self.loaded_chunks.insert(k, chunk);
        assert(self.loaded_chunks@.dom() =~= old(self).loaded_chunks@.dom());
    }

    /// Two grids that hold the same blocks under the same keys hold the
    /// same blocks at the same coordinates.
    proof fn lemma_same_blocks(&self, chunks: Map<u128, Chunk>, world: World)
        requires
            self.loaded_chunks@.dom() == chunks.dom(),
            forall|k: u128| #[trigger]
                chunks.contains_key(k) ==> self.loaded_chunks@[k]@.blocks == chunks[k]@.blocks,
            world == Map::new(
                |c: (int, int, int)| addressable3(c) && chunks.contains_key(key_of(c) as u128),
                |c: (int, int, int)| chunks[key_of(c) as u128]@,
            ),
        ensures
            blocks_of(self@) == blocks_of(world),
    {
        assert(self@.dom() =~= world.dom());
        assert forall|c: (int, int, int)| self@.contains_key(c) implies #[trigger] self@[c].blocks
            == world[c].blocks by {
            assert(chunks.contains_key(key_of(c) as u128));
        }
        assert(blocks_of(self@) =~= blocks_of(world));
    }

    /// A grid in which exactly the stale chunks of `world` have had their
    /// meshes renewed is `world` rebuilt.
    proof fn lemma_renewed_is_rebuilt(
        &self,
        chunks: Map<u128, Chunk>,
        world: World,
        uvs: Uvs,
        done: Set<u128>,
    )
        requires
            self.loaded_chunks@.dom() == chunks.dom(),
            forall|k: u128| #[trigger] chunks.contains_key(k) ==> valid_key(k as int),
            world == Map::new(
                |c: (int, int, int)| addressable3(c) && chunks.contains_key(key_of(c) as u128),
                |c: (int, int, int)| chunks[key_of(c) as u128]@,
            ),
            forall|k: u128| #[trigger]
                chunks.contains_key(k) ==> self.loaded_chunks@[k]@ == if done.contains(k) {
                    chunks[k]@.with_mesh(chunk_mesh(blocks_of(world), uvs, coords_of(k as int)))
                } else {
                    chunks[k]@
                },
            forall|c: (int, int, int)|
                world.contains_key(c) ==> (done.contains(#[trigger] key_of(c) as u128)
                    <==> is_stale(world, c)),
        ensures
            self@ == rebuilt(world, uvs),
    {
        assert(self@.dom() =~= world.dom());
        assert forall|c: (int, int, int)| world.contains_key(c) implies #[trigger] self@[c]
            == rebuilt(world, uvs)[c] by {
            let k = key_of(c) as u128;
            assert(chunks.contains_key(k));
            lemma_key_of_coords(c);
        }
        assert(self@ =~= rebuilt(world, uvs));
    }

    /// Rebuilds the stale meshes. The mesh of a loaded chunk is stale if the
    /// chunk is marked so itself, or if an adjacent chunk has marked it so
    /// because a block on the shared boundary changed. Each stale mesh is
    /// replaced by the visible faces of the chunk's blocks, six vertices a
    /// face, after which the chunk draws all of them and nothing about it
    /// is stale. Every other chunk stays as it is, and no block changes.
    /// Returns the coordinates of the chunks whose meshes were rebuilt, each
    /// once, in no particular order.
    ///
    /// Every block kind that can be placed must have texture rectangles.
    pub fn rebuild_dirty_chunks(&mut self, uv_map: &UvMap) -> (renewed: Vec<(i32, i32, i32)>)
        requires
            old(self).wf(),
            uv_map.wf(),
            covers_placeable(uv_map@),
        ensures
            final(self).wf(),
            final(self)@ == rebuilt(old(self)@, uv_map@),
            renewed@.no_duplicates(),
            forall|c: (int, int, int)|
                listed(renewed@, c) <==> old(self)@.contains_key(c) && is_stale(old(self)@, c),
    {
        let keys = self.keys();
        let stale = self.stale_keys(&keys);
        let (todo, renewed) = self.pick_stale(&keys, &stale);
        let ghost world = self@;
        let ghost chunks = self.loaded_chunks@;
        let ghost uvs = uv_map@;
        let ghost mut done: Set<u128> = Set::empty();
        proof {
            assert forall|i: int| 0 <= i < todo@.len() implies chunks.contains_key(
                #[trigger] todo@[i],
            ) by {
                assert(todo@.contains(todo@[i]));
            }
        }
        let mut j: usize = 0;
        while j < todo.len()
            invariant
                j <= todo@.len(),
                self.wf(),
                uv_map.wf(),
                covers_placeable(uv_map@),
                uvs == uv_map@,
                world == old(self)@,
                chunks == old(self).loaded_chunks@,
                todo@.no_duplicates(),
                forall|i: int| 0 <= i < todo@.len() ==> chunks.contains_key(#[trigger] todo@[i]),
                self.loaded_chunks@.dom() == chunks.dom(),
                forall|k: u128| #[trigger]
                    chunks.contains_key(k) ==> self.loaded_chunks@[k]@ == if done.contains(k) {
                        chunks[k]@.with_mesh(
                            chunk_mesh(blocks_of(world), uvs, coords_of(k as int)),
                        )
                    } else {
                        chunks[k]@
                    },
                forall|i: int| 0 <= i < todo@.len() ==> (done.contains(#[trigger] todo@[i]) <==> i < j),
                forall|k: u128| done.contains(k) ==> todo@.contains(k),
            decreases todo@.len() - j,
        {
            let k = todo[j];
            proof {
                assert(chunks.contains_key(k));
                assert(!done.contains(k));
                self.lemma_same_blocks(chunks, world);
            }
            let ghost before = self.loaded_chunks@;
            self.renew_chunk(k, uv_map);
            proof {
                let ghost was = done;
                done = done.insert(k);
                assert forall|k2: u128| #[trigger] chunks.contains_key(k2) implies self.loaded_chunks@[k2]@
                    == if done.contains(k2) {
                    chunks[k2]@.with_mesh(chunk_mesh(blocks_of(world), uvs, coords_of(k2 as int)))
                } else {
                    chunks[k2]@
                } by {
                    if k2 != k {
                        assert(before.contains_key(k2));
                        assert(self.loaded_chunks@[k2] == before[k2]);
                    }
                }
                assert forall|i: int| 0 <= i < todo@.len() implies (done.contains(
                    #[trigger] todo@[i],
                ) <==> i < j + 1) by {
                    if i != j {
                        assert(todo@[i] != todo@[j as int]);
                    }
                }
            }
            j = j + 1;
        }
        proof {
            assert forall|c: (int, int, int)| world.contains_key(c) implies (done.contains(
                #[trigger] key_of(c) as u128,
            ) <==> is_stale(world, c)) by {
                let k = key_of(c) as u128;
                if done.contains(k) {
                    assert(todo@.contains(k));
                }
                if is_stale(world, c) {
                    assert(todo@.contains(k));
                    let i = choose|i: int| 0 <= i < todo@.len() && todo@[i] == k;
                    assert(done.contains(todo@[i]));
                }
            }
            self.lemma_renewed_is_rebuilt(chunks, world, uvs, done);
            assert forall|a: int, b: int| 0 <= a < b < renewed@.len() implies renewed@[a]
                != renewed@[b] by {
                assert(todo@[a] != todo@[b]);
            }
            assert forall|c: (int, int, int)|
                listed(renewed@, c) <==> (world.contains_key(c) && is_stale(world, c)) by {
                if listed(renewed@, c) {
                    let i = choose|i: int|
                        0 <= i < renewed@.len() && as_ints(#[trigger] renewed@[i]) == c;
                    assert(todo@.contains(todo@[i]));
                    assert(stale@.contains(key_of(c) as u128));
                }
                if world.contains_key(c) && is_stale(world, c) {
                    let k = key_of(c) as u128;
                    assert(stale@.contains(k));
                    assert(todo@.contains(k));
                    let a = choose|a: int| 0 <= a < todo@.len() && todo@[a] == k;
                    lemma_key_of_coords(c);
                    lemma_key_of_coords(as_ints(renewed@[a]));
                    assert(as_ints(renewed@[a]) == c);
                }
            }
        }
        renewed
    }

    /// Whether nothing at world coordinate `(x, y, z)` hides what lies
    /// behind it: the block there is transparent, or there is no loaded
    /// chunk there.
    fn is_open(&self, x: i64, y: i64, z: i64) -> (open: bool)
        requires
            self.wf(),
        ensures
            open == match block_at(blocks_of(self@), x as int, y as int, z as int) {
                None => true,
                Some(b) => b.is_transparent(),
            },
    {
        if x < -2147483648 || x > 2147483647 || y < -2147483648 || y > 2147483647 || z
            < -2147483648 || z > 2147483647 {
            proof {
                self.lemma_world_wf();
                assert(!addressable3(chunk_at(x as int, y as int, z as int)));
            }
            return true;
        }
        match self.get_block(x as i32, y as i32, z as i32) {
            None => true,
            Some(b) => b.is_transparent(),
        }
    }

    /// Which faces of the block at world coordinate `(x, y, z)` can be
    /// seen, in the order right, left, top, bottom, front, back. A face can
    /// be seen if the block beyond it is transparent or lies in a chunk that
    /// is not loaded.
    pub fn get_active_sides_of_block(&self, x: i32, y: i32, z: i32) -> (sides: Sides)
        requires
            self.wf(),
        ensures
            sides@ == visible_sides(blocks_of(self@), x as int, y as int, z as int),
    {
        let (x, y, z): (i64, i64, i64) = (x as i64, y as i64, z as i64);
        let right = self.is_open(x + 1, y, z);
        let left = self.is_open(x - 1, y, z);
        let top = self.is_open(x, y + 1, z);
        let bottom = self.is_open(x, y - 1, z);
        let front = self.is_open(x, y, z + 1);
        let back = self.is_open(x, y, z - 1);
        let sides = [right, left, top, bottom, front, back];
        proof {
            let blocks = blocks_of(self@);
            assert(face_normal(0) == (1int, 0int, 0int));
            assert(face_normal(1) == (-1int, 0int, 0int));
            assert(face_normal(2) == (0int, 1int, 0int));
            assert(face_normal(3) == (0int, -1int, 0int));
            assert(face_normal(4) == (0int, 0int, 1int));
            assert(face_normal(5) == (0int, 0int, -1int));
            assert forall|f: int| 0 <= f < 6 implies sides@[f] == face_visible(
                blocks,
                x as int,
                y as int,
                z as int,
                f,
            ) by {
                if f == 0 {
                } else if f == 1 {
                } else if f == 2 {
                } else if f == 3 {
                } else if f == 4 {
                } else {
                }
            }
            assert(sides@ =~= visible_sides(blocks, x as int, y as int, z as int));
        }
        sides
    }
}

/// The outward normal of face `f`; for `f == 6`, no direction at all.
fn direction(f: u128) -> (d: (i32, i32, i32))
    requires
        f <= 6,
    ensures
        f < 6 ==> as_ints(d) == face_normal(f as int),
        f == 6 ==> d == (0i32, 0i32, 0i32),
{
    if f == 0 {
        (1, 0, 0)
    } else if f == 1 {
        (-1, 0, 0)
    } else if f == 2 {
        (0, 1, 0)
    } else if f == 3 {
        (0, -1, 0)
    } else if f == 4 {
        (0, 0, 1)
    } else if f == 5 {
        (0, 0, -1)
    } else {
        (0, 0, 0)
    }
}

/// The chunk that step `p` of the search for stale meshes looks at, the
/// chunk `t` that the step is about, and whether the step finds the mesh of
/// `t` stale. Steps `7 * j .. 7 * j + 6` ask whether the chunk of key `j`
/// marks its neighbour beyond each of its six faces; step `7 * j + 6` asks
/// whether that chunk is stale itself.
spec fn step_source(keys: Seq<u128>, p: int) -> (int, int, int) {
    coords_of(keys[p / 7] as int)
}

spec fn step_target(keys: Seq<u128>, p: int) -> (int, int, int) {
    if p % 7 == 6 {
        step_source(keys, p)
    } else {
        (
            step_source(keys, p).0 + face_normal(p % 7).0,
            step_source(keys, p).1 + face_normal(p % 7).1,
            step_source(keys, p).2 + face_normal(p % 7).2,
        )
    }
}

spec fn step_finds(world: World, keys: Seq<u128>, p: int) -> bool {
    if p % 7 == 6 {
        world[step_source(keys, p)].dirty
    } else {
        world[step_source(keys, p)].dirty_neighbours.contains(face_normal(p % 7))
    }
}

/// Whether one of the first `n` steps finds the mesh of `c` stale.
spec fn found_stale(world: World, keys: Seq<u128>, n: int, c: (int, int, int)) -> bool {
    exists|p: int| 0 <= p < n && #[trigger] step_target(keys, p) == c && step_finds(world, keys, p)
}

/// Whether a chunk coordinate can be reached from a 32-bit world coordinate.
fn in_range(c: i32) -> (r: bool)
    ensures
        r == addressable(c as int),
{
    -134217728 <= c && c <= 134217727
}

} // verus!
