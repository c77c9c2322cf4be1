//! A chunk: a cube of 16 x 16 x 16 blocks with its mesh and the record of
//! what has become stale.

use crate::block::BlockID;
use crate::block::PLACEABLE_KINDS;
use crate::coords::in_chunk;
use crate::coords::index_of;
use crate::coords::CHUNK_SIZE;
use crate::coords::CHUNK_VOLUME;
use crate::random::gen_range;
use crate::shapes::face_normal;
use crate::shapes::Vertex;
use vstd::prelude::*;

verus! {

/// Whether `d` is one of the six unit directions.
pub open spec fn is_unit_direction(d: (int, int, int)) -> bool {
    exists|f: int| 0 <= f < 6 && d == #[trigger] face_normal(f)
}

/// The set of the six unit directions.
pub open spec fn all_directions() -> Set<(int, int, int)> {
    Set::new(|d: (int, int, int)| is_unit_direction(d))
}

/// The directions in which a block at local `(x, y, z)` touches the boundary
/// of its chunk: for each axis, the outward direction of the boundary plane
/// that the block lies on, if any.
pub open spec fn boundary_directions(x: int, y: int, z: int) -> Set<(int, int, int)> {
    Set::new(
        |d: (int, int, int)|
            {
                ||| d == (-1int, 0int, 0int) && x == 0
                ||| d == (1int, 0int, 0int) && x == 15
                ||| d == (0int, -1int, 0int) && y == 0
                ||| d == (0int, 1int, 0int) && y == 15
                ||| d == (0int, 0int, -1int) && z == 0
                ||| d == (0int, 0int, 1int) && z == 15
            },
    )
}

/// A set of unit directions, naming adjacent chunks.
#[derive(Clone, Copy, Debug)]
pub struct Neighbours {
    /// One flag for each direction, in the order +x, -x, +y, -y, +z, -z.
    flags: [bool; 6],
}

impl View for Neighbours {
    type V = Set<(int, int, int)>;

    open spec fn view(&self) -> Set<(int, int, int)> {
        Set::new(|d: (int, int, int)| exists|f: int| 0 <= f < 6 && self.has(f) && d == face_normal(f))
    }
}

impl Neighbours {
    /// Whether the direction of face `f` is in the set.
    pub closed spec fn has(&self, f: int) -> bool {
        self.flags@[f]
    }

    /// The face whose outward normal is `(dx, dy, dz)`, if there is one.
    fn face_of(dx: i32, dy: i32, dz: i32) -> (r: Option<usize>)
        ensures
            match r {
                Some(f) => f < 6 && face_normal(f as int) == (dx as int, dy as int, dz as int),
                None => !is_unit_direction((dx as int, dy as int, dz as int)),
            },
    {
        if dx == 1 && dy == 0 && dz == 0 {
            Some(0)
        } else if dx == -1 && dy == 0 && dz == 0 {
            Some(1)
        } else if dx == 0 && dy == 1 && dz == 0 {
            Some(2)
        } else if dx == 0 && dy == -1 && dz == 0 {
            Some(3)
        } else if dx == 0 && dy == 0 && dz == 1 {
            Some(4)
        } else if dx == 0 && dy == 0 && dz == -1 {
            Some(5)
        } else {
            None
        }
    }

    /// The empty set.
    pub fn new() -> (s: Neighbours)
        ensures
            s@ == Set::<(int, int, int)>::empty(),
    {
        let s = Neighbours { flags: [false, false, false, false, false, false] };
        assert(s@ =~= Set::<(int, int, int)>::empty());
        s
    }

    /// The set of all six unit directions.
    pub fn all() -> (s: Neighbours)
        ensures
            s@ == all_directions(),
    {
        let s = Neighbours { flags: [true, true, true, true, true, true] };
        assert(s@ =~= all_directions());
        s
    }

    /// Adds a direction. Only unit directions can be members: anything else
    /// is ignored. Returns whether the set grew.
    pub fn insert(&mut self, dx: i32, dy: i32, dz: i32) -> (added: bool)
        ensures
            final(self)@ == if is_unit_direction((dx as int, dy as int, dz as int)) {
                old(self)@.insert((dx as int, dy as int, dz as int))
            } else {
                old(self)@
            },
            added == (is_unit_direction((dx as int, dy as int, dz as int)) && !old(self)@.contains(
                (dx as int, dy as int, dz as int),
            )),
    {
        match Neighbours::face_of(dx, dy, dz) {
            Some(f) => {
                let was = self.flags[f];
                self.flags[f] = true;
                proof {
                    let d = (dx as int, dy as int, dz as int);
                    assert(self.has(f as int));
                    assert forall|g: int| 0 <= g < 6 && g != f implies self.has(g) == old(
                        self,
                    ).has(g) by {}
                    assert(self@ =~= old(self)@.insert(d));
                    assert(was == old(self)@.contains(d)) by {
                        if old(self)@.contains(d) {
                            let g = choose|g: int|
                                0 <= g < 6 && old(self).has(g) && d == face_normal(g);
                            assert(g == f);
                        }
                    }
                }
                !was
            },
            None => false,
        }
    }

    /// Whether a direction is in the set.
    pub fn contains(&self, dx: i32, dy: i32, dz: i32) -> (r: bool)
        ensures
            r == self@.contains((dx as int, dy as int, dz as int)),
    {
        match Neighbours::face_of(dx, dy, dz) {
            Some(f) => {
                proof {
                    let d = (dx as int, dy as int, dz as int);
                    if self@.contains(d) {
                        let g = choose|g: int| 0 <= g < 6 && self.has(g) && d == face_normal(g);
                        assert(g == f);
                    }
                }
                self.flags[f]
            },
            None => {
                proof {
                    let d = (dx as int, dy as int, dz as int);
                    if self@.contains(d) {
                        let g = choose|g: int| 0 <= g < 6 && self.has(g) && d == face_normal(g);
                        assert(d == face_normal(g));
                    }
                }
                false
            },
        }
    }

    /// Removes every direction.
    pub fn clear(&mut self)
        ensures
            final(self)@ == Set::<(int, int, int)>::empty(),
    {
        self.flags = [false, false, false, false, false, false];
        assert(self@ =~= Set::<(int, int, int)>::empty());
    }

    /// Whether the set has no member.
    pub fn is_empty(&self) -> (r: bool)
        ensures
            r == (self@ == Set::<(int, int, int)>::empty()),
    {
        let r = !self.flags[0] && !self.flags[1] && !self.flags[2] && !self.flags[3]
            && !self.flags[4] && !self.flags[5];
        proof {
            if r {
                assert(self@ =~= Set::<(int, int, int)>::empty());
            } else {
                let f = if self.flags@[0] {
                    0int
                } else if self.flags@[1] {
                    1int
                } else if self.flags@[2] {
                    2int
                } else if self.flags@[3] {
                    3int
                } else if self.flags@[4] {
                    4int
                } else {
                    5int
                };
                assert(self.has(f));
                assert(self@.contains(face_normal(f)));
            }
        }
        r
    }

    /// The members, each once, in the order +x, -x, +y, -y, +z, -z.
    pub fn to_vec(&self) -> (v: Vec<(i32, i32, i32)>)
        ensures
            v@ == listing(self@, 6),
    {
        let mut v: Vec<(i32, i32, i32)> = Vec::new();
        let mut f: usize = 0;
        while f < 6
            invariant
                f <= 6,
                v@ == listing(self@, f as nat),
            decreases 6 - f,
        {
            proof {
                assert(self@.contains(face_normal(f as int)) == self.has(f as int)) by {
                    if self@.contains(face_normal(f as int)) {
                        let g = choose|g: int|
                            0 <= g < 6 && self.has(g) && face_normal(f as int) == face_normal(g);
                        assert(g == f);
                    }
                }
            }
            if self.flags[f] {
                let d: (i32, i32, i32) = if f == 0 {
                    (1, 0, 0)
                } else if f == 1 {
                    (-1, 0, 0)
                } else if f == 2 {
                    (0, 1, 0)
                } else if f == 3 {
                    (0, -1, 0)
                } else if f == 4 {
                    (0, 0, 1)
                } else {
                    (0, 0, -1)
                };
                v.push(d);
            }
            f = f + 1;
        }
        v
    }
}

/// The directions of a set among the normals of the first `n` faces, in the
/// order of the faces: +x, -x, +y, -y, +z, -z.
pub open spec fn listing(s: Set<(int, int, int)>, n: nat) -> Seq<(i32, i32, i32)>
    decreases n,
{
    if n == 0 {
        Seq::empty()
    } else if s.contains(face_normal(n - 1)) {
        listing(s, (n - 1) as nat).push(
            (
                face_normal(n - 1).0 as i32,
                face_normal(n - 1).1 as i32,
                face_normal(n - 1).2 as i32,
            ),
        )
    } else {
        listing(s, (n - 1) as nat)
    }
}

/// The face whose normal is `d`, or 6 if `d` is the normal of no face.
pub open spec fn face_with_normal(d: (int, int, int)) -> int {
    if d == (1int, 0int, 0int) {
        0
    } else if d == (-1int, 0int, 0int) {
        1
    } else if d == (0int, 1int, 0int) {
        2
    } else if d == (0int, -1int, 0int) {
        3
    } else if d == (0int, 0int, 1int) {
        4
    } else if d == (0int, 0int, -1int) {
        5
    } else {
        6
    }
}

/// The listing of a set of directions holds each unit direction of the set
/// once, in the order of the faces, and nothing else.
pub proof fn lemma_listing_holds_the_members(s: Set<(int, int, int)>, n: nat)
    requires
        n <= 6,
    ensures
        listing(s, n).len() <= n,
        forall|d: (int, int, int)| #[trigger]
            crate::world::listed(listing(s, n), d) <==> s.contains(d) && face_with_normal(d) < n,
        forall|i: int, j: int|
            #![trigger listing(s, n)[i], listing(s, n)[j]]
            0 <= i < j < listing(s, n).len() ==> face_with_normal(
                crate::world::as_ints(listing(s, n)[i]),
            ) < face_with_normal(crate::world::as_ints(listing(s, n)[j])) < n,
        listing(s, n).no_duplicates(),
    decreases n,
{
    if n > 0 {
        let before = listing(s, (n - 1) as nat);
        let now = listing(s, n);
        lemma_listing_holds_the_members(s, (n - 1) as nat);
        let last = face_normal(n - 1);
        assert(face_with_normal(last) == n - 1);
        assert forall|i: int| 0 <= i < before.len() implies face_with_normal(
            crate::world::as_ints(#[trigger] before[i]),
        ) < n - 1 by {
            assert(crate::world::listed(before, crate::world::as_ints(before[i])));
        }
        assert forall|d: (int, int, int)| #[trigger]
            crate::world::listed(now, d) <==> s.contains(d) && face_with_normal(d) < n by {
            if crate::world::listed(now, d) {
                let i = choose|i: int|
                    0 <= i < now.len() && crate::world::as_ints(#[trigger] now[i]) == d;
                if i < before.len() {
                    assert(now[i] == before[i]);
                    assert(crate::world::listed(before, d));
                }
            }
            if s.contains(d) && face_with_normal(d) < n {
                if face_with_normal(d) < n - 1 {
                    assert(crate::world::listed(before, d));
                    let i = choose|i: int|
                        0 <= i < before.len() && crate::world::as_ints(#[trigger] before[i])
                            == d;
                    assert(now[i] == before[i]);
                } else {
                    assert(d == last);
                    assert(crate::world::as_ints(now[now.len() - 1]) == d);
                }
            }
        }
        assert forall|i: int, j: int|
            #![trigger now[i], now[j]]
            0 <= i < j < now.len() implies face_with_normal(crate::world::as_ints(now[i]))
            < face_with_normal(crate::world::as_ints(now[j])) < n by {
            assert(now[i] == before[i]);
            if j < before.len() {
                assert(now[j] == before[j]);
            }
        }
    }
}

/// What a chunk holds, as mathematical values.
pub struct ChunkState {
    /// The blocks, flattened y-major, then z, then x.
    pub blocks: Seq<BlockID>,
    /// Whether the chunk's own mesh is stale.
    pub dirty: bool,
    /// The adjacent chunks whose meshes are stale because a block on the
    /// shared boundary changed.
    pub dirty_neighbours: Set<(int, int, int)>,
    /// The vertices of the chunk's mesh.
    pub mesh: Seq<Vertex>,
    /// How many vertices of the mesh are to be drawn.
    pub vertices_drawn: u32,
    /// Handle of the vertex array that the renderer draws the chunk with.
    pub vao: u32,
    /// Handle of the buffer that the renderer keeps the mesh in.
    pub vbo: u32,
}

/// Whether a chunk is as `Chunk::random` makes it: no block is `Air`, its
/// mesh and those of all its neighbours are stale, and it has neither mesh
/// nor buffers.
pub open spec fn is_random_chunk(state: ChunkState) -> bool {
    &&& state.wf()
    &&& forall|i: int| 0 <= i < CHUNK_VOLUME ==> !(#[trigger] state.blocks[i]).is_air()
    &&& state == (ChunkState { blocks: state.blocks, ..Chunk::spec_fresh(true) })
}

/// A cube of 16 x 16 x 16 blocks.
pub struct Chunk {
    blocks: [BlockID; 4096],
    mesh: Vec<Vertex>,
    vao: u32,
    vbo: u32,
    vertices_drawn: u32,
    dirty: bool,
    dirty_neighbours: Neighbours,
}

impl View for Chunk {
    type V = ChunkState;

    closed spec fn view(&self) -> ChunkState {
        ChunkState {
            blocks: self.blocks@,
            dirty: self.dirty,
            dirty_neighbours: self.dirty_neighbours@,
            mesh: self.mesh@,
            vertices_drawn: self.vertices_drawn,
            vao: self.vao,
            vbo: self.vbo,
        }
    }
}

impl ChunkState {
    /// The block at local `(x, y, z)`.
    pub open spec fn block(self, x: int, y: int, z: int) -> BlockID {
        self.blocks[index_of(x, y, z)]
    }

    /// The chunk after a block is written at local `(x, y, z)`: the block
    /// is stored, the chunk's mesh is stale, and so is the mesh of each
    /// neighbour whose boundary the block lies on.
    pub open spec fn with_block(self, x: int, y: int, z: int, block: BlockID) -> ChunkState {
        ChunkState {
            blocks: self.blocks.update(index_of(x, y, z), block),
            dirty: true,
            dirty_neighbours: self.dirty_neighbours.union(boundary_directions(x, y, z)),
            ..self
        }
    }

    /// The chunk after its mesh is replaced: nothing is stale any more.
    pub open spec fn with_mesh(self, mesh: Seq<Vertex>) -> ChunkState {
        ChunkState {
            dirty: false,
            dirty_neighbours: Set::empty(),
            mesh,
            vertices_drawn: mesh.len() as u32,
            ..self
        }
    }

    /// A chunk holds exactly 4096 blocks, and draws the whole of its mesh.
    pub open spec fn wf(self) -> bool {
        &&& self.blocks.len() == CHUNK_VOLUME
        &&& self.mesh.len() == self.vertices_drawn
        &&& self.dirty_neighbours.subset_of(all_directions())
    }
}

impl Chunk {
    /// The invariant of a chunk.
    pub open spec fn wf(&self) -> bool {
        self@.wf()
    }

    /// The set of all six unit directions: every adjacent chunk.
    pub fn all_neighbours() -> (s: Neighbours)
        ensures
            s@ == all_directions(),
    {
        Neighbours::all()
    }

    /// A chunk of `Air`. Its own mesh, having nothing to show, is not stale,
    /// but the meshes of all its neighbours are. It has no buffers yet.
    pub fn empty() -> (chunk: Chunk)
        ensures
            chunk.wf(),
            chunk@ == Chunk::spec_empty(),
    {
        let chunk = Chunk {
            blocks: [BlockID::Air;4096],
            mesh: Vec::new(),
            vao: 0,
            vbo: 0,
            vertices_drawn: 0,
            dirty: false,
            dirty_neighbours: Chunk::all_neighbours(),
        };
        assert(chunk@.blocks =~= Seq::new(CHUNK_VOLUME as nat, |i: int| BlockID::Air));
        chunk
    }

    /// A chunk in which every block is `block`. Its mesh and those of all
    /// its neighbours are stale. It has no buffers yet.
    pub fn full_of_block(block: BlockID) -> (chunk: Chunk)
        ensures
            chunk.wf(),
            chunk@ == (ChunkState {
                blocks: Seq::new(CHUNK_VOLUME as nat, |i: int| block),
                dirty: true,
                dirty_neighbours: all_directions(),
                mesh: Seq::empty(),
                vertices_drawn: 0,
                vao: 0,
                vbo: 0,
            }),
    {
        let chunk = Chunk {
            blocks: [block;4096],
            mesh: Vec::new(),
            vao: 0,
            vbo: 0,
            vertices_drawn: 0,
            dirty: true,
            dirty_neighbours: Chunk::all_neighbours(),
        };
        assert(chunk@.blocks =~= Seq::new(CHUNK_VOLUME as nat, |i: int| block));
        chunk
    }

    /// A chunk of randomly chosen blocks, none of them `Air`. Its mesh and
    /// those of all its neighbours are stale. It has no buffers yet.
    pub fn random() -> (chunk: Chunk)
        ensures
            chunk.wf(),
            is_random_chunk(chunk@),
    {
        let mut chunk = Chunk::full_of_block(BlockID::Dirt);
        let mut i: usize = 0;
        while i < 4096
            invariant
                i <= 4096,
                chunk.wf(),
                forall|j: int| 0 <= j < CHUNK_VOLUME ==> !(#[trigger] chunk@.blocks[j]).is_air(),
                chunk@ == (ChunkState { blocks: chunk@.blocks, ..Chunk::spec_fresh(true) }),
            decreases 4096 - i,
        {
            let n = gen_range(1, PLACEABLE_KINDS + 1);
            chunk.blocks[i] = BlockID::from_index(n);
            i = i + 1;
        }
        chunk
    }

    /// What `Chunk::empty` makes: a chunk of `Air` that is not stale itself.
    pub open spec fn spec_empty() -> ChunkState {
        ChunkState {
            blocks: Seq::new(CHUNK_VOLUME as nat, |i: int| BlockID::Air),
            dirty: false,
            dirty_neighbours: all_directions(),
            mesh: Seq::empty(),
            vertices_drawn: 0,
            vao: 0,
            vbo: 0,
        }
    }

    /// What every newly made chunk has in common: no mesh, no buffers, and
    /// all neighbours stale. The blocks are left open.
    pub open spec fn spec_fresh(dirty: bool) -> ChunkState {
        ChunkState {
            blocks: Seq::empty(),
            dirty,
            dirty_neighbours: all_directions(),
            mesh: Seq::empty(),
            vertices_drawn: 0,
            vao: 0,
            vbo: 0,
        }
    }

    /// Whether the chunk's own mesh is stale.
    pub fn dirty(&self) -> (r: bool)
        ensures
            r == self@.dirty,
    {
        self.dirty
    }

    /// The adjacent chunks whose meshes are stale because of a change in
    /// this chunk.
    pub fn dirty_neighbours(&self) -> (r: Neighbours)
        ensures
            r@ == self@.dirty_neighbours,
    {
        self.dirty_neighbours
    }

    /// How many vertices of the mesh are to be drawn.
    pub fn vertices_drawn(&self) -> (r: u32)
        ensures
            r == self@.vertices_drawn,
    {
        self.vertices_drawn
    }

    /// The vertices of the chunk's mesh.
    pub fn mesh(&self) -> (r: &Vec<Vertex>)
        ensures
            r@ == self@.mesh,
    {
        &self.mesh
    }

    /// Handle of the vertex array that the chunk is drawn with.
    pub fn vao(&self) -> (r: u32)
        ensures
            r == self@.vao,
    {
        self.vao
    }

    /// Handle of the buffer that the renderer keeps the chunk's mesh in.
    pub fn vbo(&self) -> (r: u32)
        ensures
            r == self@.vbo,
    {
        self.vbo
    }

    /// Records the handles of the renderer's buffers for this chunk.
    pub fn set_buffers(&mut self, vao: u32, vbo: u32)
        ensures
            final(self)@ == (ChunkState { vao, vbo, ..old(self)@ }),
    {
        self.vao = vao;
        self.vbo = vbo;
    }

    /// Replaces the mesh, after which nothing is stale.
    pub(crate) fn install_mesh(&mut self, mesh: Vec<Vertex>)
        requires
            old(self).wf(),
            mesh@.len() <= u32::MAX,
        ensures
            final(self).wf(),
            final(self)@ == old(self)@.with_mesh(mesh@),
    {
        self.vertices_drawn = mesh.len() as u32;
        self.mesh = mesh;
        self.dirty = false;
        self.dirty_neighbours.clear();
    }

    /// Position of local coordinates in the block array.
    pub fn coords_to_index(x: u32, y: u32, z: u32) -> (i: usize)
        requires
            in_chunk(x as int, y as int, z as int),
        ensures
            i == index_of(x as int, y as int, z as int),
            i < CHUNK_VOLUME,
    {
        (y * (CHUNK_SIZE * CHUNK_SIZE) + z * CHUNK_SIZE + x) as usize
    }

    /// The block at local `(x, y, z)`.
    pub fn get_block(&self, x: u32, y: u32, z: u32) -> (block: BlockID)
        requires
            in_chunk(x as int, y as int, z as int),
        ensures
            block == self@.block(x as int, y as int, z as int),
    {
        self.blocks[Chunk::coords_to_index(x, y, z)]
    }

    /// Writes a block at local `(x, y, z)` and marks the chunk's mesh stale.
    /// If the block lies on a boundary plane of the chunk, the neighbour
    /// beyond that plane is marked stale too.
    pub fn set_block(&mut self, x: u32, y: u32, z: u32, block: BlockID)
        requires
            in_chunk(x as int, y as int, z as int),
            old(self).wf(),
        ensures
            final(self).wf(),
            final(self)@ == old(self)@.with_block(x as int, y as int, z as int, block),
    {
        let i = Chunk::coords_to_index(x, y, z);
        self.blocks[i] = block;
        self.dirty = true;
        if x == 0 {
            self.dirty_neighbours.insert(-1, 0, 0);
        } else if x == 15 {
            self.dirty_neighbours.insert(1, 0, 0);
        }
        if y == 0 {
            self.dirty_neighbours.insert(0, -1, 0);
        } else if y == 15 {
            self.dirty_neighbours.insert(0, 1, 0);
        }
        if z == 0 {
            self.dirty_neighbours.insert(0, 0, -1);
        } else if z == 15 {
            self.dirty_neighbours.insert(0, 0, 1);
        }
        proof {
            assert(face_normal(0) == (1int, 0int, 0int));
            assert(face_normal(1) == (-1int, 0int, 0int));
            assert(face_normal(2) == (0int, 1int, 0int));
            assert(face_normal(3) == (0int, -1int, 0int));
            assert(face_normal(4) == (0int, 0int, 1int));
            assert(face_normal(5) == (0int, 0int, -1int));
            assert(self@.dirty_neighbours =~= old(self)@.dirty_neighbours.union(
                boundary_directions(x as int, y as int, z as int),
            ));
            assert(self@.blocks =~= old(self)@.blocks.update(
                index_of(x as int, y as int, z as int),
                block,
            ));
        }
    }
}


/// Writing a block on the low `x` boundary marks the neighbour at `-x`
/// stale, writing on the high `x` boundary the one at `+x`, and likewise
/// for the other axes; writing anywhere else marks no neighbour.
pub proof fn lemma_boundary_directions(x: int, y: int, z: int)
    requires
        in_chunk(x, y, z),
    ensures
        boundary_directions(x, y, z).contains((-1, 0, 0)) <==> x == 0,
        boundary_directions(x, y, z).contains((1, 0, 0)) <==> x == 15,
        boundary_directions(x, y, z).contains((0, -1, 0)) <==> y == 0,
        boundary_directions(x, y, z).contains((0, 1, 0)) <==> y == 15,
        boundary_directions(x, y, z).contains((0, 0, -1)) <==> z == 0,
        boundary_directions(x, y, z).contains((0, 0, 1)) <==> z == 15,
        boundary_directions(x, y, z).subset_of(all_directions()),
        (0 < x < 15 && 0 < y < 15 && 0 < z < 15) ==> boundary_directions(x, y, z)
            == Set::<(int, int, int)>::empty(),
{
    assert(face_normal(0) == (1int, 0int, 0int));
    assert(face_normal(1) == (-1int, 0int, 0int));
    assert(face_normal(2) == (0int, 1int, 0int));
    assert(face_normal(3) == (0int, -1int, 0int));
    assert(face_normal(4) == (0int, 0int, 1int));
    assert(face_normal(5) == (0int, 0int, -1int));
    if 0 < x < 15 && 0 < y < 15 && 0 < z < 15 {
        assert(boundary_directions(x, y, z) =~= Set::<(int, int, int)>::empty());
    }
}

/// Writing a block marks exactly the neighbours beyond the boundary planes
/// that the block lies on, and keeps every neighbour that was marked before.
pub proof fn lemma_set_block_marks_neighbours(
    chunk: ChunkState,
    x: int,
    y: int,
    z: int,
    block: BlockID,
    d: (int, int, int),
)
    requires
        in_chunk(x, y, z),
    ensures
        chunk.with_block(x, y, z, block).dirty,
        chunk.with_block(x, y, z, block).dirty_neighbours.contains(d) <==> (
        chunk.dirty_neighbours.contains(d) || boundary_directions(x, y, z).contains(d)),
{
}

/// A block that was written is the block that is read back, and no other
/// block of the chunk changes.
pub proof fn lemma_chunk_set_then_get(
    chunk: ChunkState,
    x: int,
    y: int,
    z: int,
    block: BlockID,
    x2: int,
    y2: int,
    z2: int,
)
    requires
        chunk.wf(),
        in_chunk(x, y, z),
        in_chunk(x2, y2, z2),
    ensures
        chunk.with_block(x, y, z, block).block(x, y, z) == block,
        (x2, y2, z2) != (x, y, z) ==> chunk.with_block(x, y, z, block).block(x2, y2, z2)
            == chunk.block(x2, y2, z2),
{
    crate::coords::lemma_index_bijective(x, y, z, x2, y2, z2);
}

} // verus!
