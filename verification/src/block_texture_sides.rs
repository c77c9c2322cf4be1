//! Which part of the texture atlas each face of each block kind shows.

use crate::block::BlockID;
use crate::block::PLACEABLE_KINDS;
use crate::shapes::UVCoords;
use vstd::prelude::*;

verus! {

/// What the faces of a block show: one thing on all six faces, one on the
/// four sides and others on top and bottom, or one for each face.
#[derive(Clone, Copy, Debug)]
pub enum BlockFaces<T> {
    All(T),
    Sides { sides: T, top: T, bottom: T },
    Each { top: T, bottom: T, front: T, back: T, left: T, right: T },
}

impl<T> BlockFaces<T> {
    /// What each face shows, in the order right, left, top, bottom, front,
    /// back.
    pub open spec fn every_side(self) -> Seq<T> {
        match self {
            BlockFaces::All(all) => seq![all, all, all, all, all, all],
            BlockFaces::Sides { sides, top, bottom } => seq![
                sides,
                sides,
                top,
                bottom,
                sides,
                sides,
            ],
            BlockFaces::Each { top, bottom, front, back, left, right } => seq![
                right,
                left,
                top,
                bottom,
                front,
                back,
            ],
        }
    }
}

/// What each face shows, in the order right, left, top, bottom, front, back.
pub fn get_uv_every_side<T: Copy>(faces: BlockFaces<T>) -> (uvs: [T; 6])
    ensures
        uvs@ == faces.every_side(),
{
    let uvs = match faces {
        BlockFaces::All(all) => [all, all, all, all, all, all],
        BlockFaces::Sides { sides, top, bottom } => [sides, sides, top, bottom, sides, sides],
        BlockFaces::Each { top, bottom, front, back, left, right } => [
            right,
            left,
            top,
            bottom,
            front,
            back,
        ],
    };
    assert(uvs@ =~= faces.every_side());
    uvs
}

/// The atlas rectangles of the block kinds that have any.
pub struct UvMap {
    /// One entry for each kind, at the position of the kind's number.
    entries: Vec<Option<BlockFaces<UVCoords>>>,
}

impl View for UvMap {
    type V = Map<BlockID, BlockFaces<UVCoords>>;

    closed spec fn view(&self) -> Map<BlockID, BlockFaces<UVCoords>> {
        Map::new(
            |b: BlockID| self.entries@[b.spec_index()] is Some,
            |b: BlockID| self.entries@[b.spec_index()]->0,
        )
    }
}

/// Whether every block kind that can be placed has rectangles.
pub open spec fn covers_placeable(uvs: Map<BlockID, BlockFaces<UVCoords>>) -> bool {
    forall|b: BlockID| !b.is_air() ==> uvs.contains_key(b)
}

impl UvMap {
    /// The invariant of the map: it has room for every kind.
    pub closed spec fn wf(&self) -> bool {
        self.entries@.len() == PLACEABLE_KINDS + 1
    }

    /// A map without entries.
    pub fn new() -> (m: UvMap)
        ensures
            m.wf(),
            m@ == Map::<BlockID, BlockFaces<UVCoords>>::empty(),
    {
        let mut entries: Vec<Option<BlockFaces<UVCoords>>> = Vec::new();
        let mut i: u32 = 0;
        while i <= PLACEABLE_KINDS
            invariant
                i <= PLACEABLE_KINDS + 1,
                entries@.len() == i,
                forall|j: int| 0 <= j < i ==> entries@[j] is None,
            decreases PLACEABLE_KINDS + 1 - i,
        {
            entries.push(None);
            i = i + 1;
        }
        let m = UvMap { entries };
        assert(m@ =~= Map::<BlockID, BlockFaces<UVCoords>>::empty());
        m
    }

    /// Sets the rectangles of a block kind, and returns the ones it had.
    pub fn insert(&mut self, block: BlockID, faces: BlockFaces<UVCoords>) -> (previous: Option<
        BlockFaces<UVCoords>,
    >)
        requires
            old(self).wf(),
        ensures
            final(self).wf(),
            final(self)@ == old(self)@.insert(block, faces),
            previous == if old(self)@.contains_key(block) {
                Some(old(self)@[block])
            } else {
                None
            },
    {
        let i = block.index() as usize;
        let previous = self.entries[i];
        self.entries[i] = Some(faces);
        proof {
            assert forall|b: BlockID| b != block implies #[trigger] b.spec_index()
                != block.spec_index() by {
                crate::block::lemma_index_round_trip(b, 0);
                crate::block::lemma_index_round_trip(block, 0);
            }
            assert(self@ =~= old(self)@.insert(block, faces));
        }
        previous
    }

    /// The rectangles of a block kind, if it has any.
    pub fn get(&self, block: BlockID) -> (faces: Option<BlockFaces<UVCoords>>)
        requires
            self.wf(),
        ensures
            faces == if self@.contains_key(block) {
                Some(self@[block])
            } else {
                None
            },
    {
        self.entries[block.index() as usize]
    }

    /// Whether every block kind that can be placed has rectangles.
    pub fn is_complete(&self) -> (r: bool)
        requires
            self.wf(),
        ensures
            r == covers_placeable(self@),
    {
        let mut i: u32 = 1;
        while i <= PLACEABLE_KINDS
            invariant
                1 <= i <= PLACEABLE_KINDS + 1,
                self.wf(),
                forall|j: int| 1 <= j < i ==> self.entries@[j] is Some,
            decreases PLACEABLE_KINDS + 1 - i,
        {
            if self.entries[i as usize].is_none() {
                proof {
                    let b = BlockID::spec_from_index(i as int);
                    crate::block::lemma_index_round_trip(b, i as int);
                    assert(!b.is_air() && !self@.contains_key(b));
                }
                return false;
            }
            i = i + 1;
        }
        proof {
            assert forall|b: BlockID| !b.is_air() implies self@.contains_key(b) by {
                crate::block::lemma_index_round_trip(b, 0);
            }
        }
        true
    }
}

} // verus!
