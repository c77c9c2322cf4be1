//! The catalogue of block kinds and their static properties.

use vstd::prelude::*;

verus! {

/// A kind of block. A plain value: two blocks of the same kind are
/// indistinguishable.
#[derive(Clone, Copy, Debug, PartialEq, Eq, Hash, Structural)]
pub enum BlockID {
    Air,
    Dirt,
    GrassBlock,
    Cobblestone,
    Obsidian,
    OakLog,
    OakLeaves,
    Debug,
    Debug2,
}

/// How many block kinds other than `Air` exist.
pub const PLACEABLE_KINDS: u32 = 8;

impl BlockID {
    /// `Air` occupies no space and is never rendered.
    pub open spec fn spec_is_air(self) -> bool {
        self == BlockID::Air
    }

    /// A transparent block does not hide the faces of its neighbours.
    pub open spec fn spec_is_transparent(self) -> bool {
        self == BlockID::Air || self == BlockID::OakLeaves
    }

    /// The placeable kind with the given number, counted from one.
    pub open spec fn spec_from_index(n: int) -> BlockID {
        if n == 1 {
            BlockID::Dirt
        } else if n == 2 {
            BlockID::GrassBlock
        } else if n == 3 {
            BlockID::Cobblestone
        } else if n == 4 {
            BlockID::Obsidian
        } else if n == 5 {
            BlockID::OakLog
        } else if n == 6 {
            BlockID::OakLeaves
        } else if n == 7 {
            BlockID::Debug
        } else if n == 8 {
            BlockID::Debug2
        } else {
            BlockID::Air
        }
    }

    /// The number of a kind: zero for `Air`, and for a placeable kind its
    /// position in the declaration order, counted from one.
    pub open spec fn spec_index(self) -> int {
        match self {
            BlockID::Air => 0,
            BlockID::Dirt => 1,
            BlockID::GrassBlock => 2,
            BlockID::Cobblestone => 3,
            BlockID::Obsidian => 4,
            BlockID::OakLog => 5,
            BlockID::OakLeaves => 6,
            BlockID::Debug => 7,
            BlockID::Debug2 => 8,
        }
    }

    #[verifier::when_used_as_spec(spec_is_air)]
    pub fn is_air(self) -> (r: bool)
        ensures
            r == self.spec_is_air(),
    {
        self == BlockID::Air
    }

    #[verifier::when_used_as_spec(spec_is_transparent)]
    pub fn is_transparent(self) -> (r: bool)
        ensures
            r == self.spec_is_transparent(),
    {
        self == BlockID::Air || self == BlockID::OakLeaves
    }

    /// The number of a kind, the inverse of `from_index`.
    pub fn index(self) -> (n: u32)
        ensures
            n == self.spec_index(),
            n <= PLACEABLE_KINDS,
            BlockID::spec_from_index(n as int) == self,
    {
        match self {
            BlockID::Air => 0,
            BlockID::Dirt => 1,
            BlockID::GrassBlock => 2,
            BlockID::Cobblestone => 3,
            BlockID::Obsidian => 4,
            BlockID::OakLog => 5,
            BlockID::OakLeaves => 6,
            BlockID::Debug => 7,
            BlockID::Debug2 => 8,
        }
    }

    /// Maps a number to a block kind: `1..=PLACEABLE_KINDS` to the placeable
    /// kinds in declaration order, every other number to `Air`.
    pub fn from_index(n: u32) -> (r: BlockID)
        ensures
            r == BlockID::spec_from_index(n as int),
            (1 <= n <= PLACEABLE_KINDS) <==> !r.is_air(),
    {
        match n {
            1 => BlockID::Dirt,
            2 => BlockID::GrassBlock,
            3 => BlockID::Cobblestone,
            4 => BlockID::Obsidian,
            5 => BlockID::OakLog,
            6 => BlockID::OakLeaves,
            7 => BlockID::Debug,
            8 => BlockID::Debug2,
            _ => BlockID::Air,
        }
    }
}

/// `Air` is transparent: an empty block hides nothing.
pub proof fn lemma_air_is_transparent(b: BlockID)
    ensures
        b.is_air() ==> b.is_transparent(),
{
}

/// Numbering the kinds and mapping numbers back to kinds are inverse to each
/// other on `0..=PLACEABLE_KINDS`.
pub proof fn lemma_index_round_trip(b: BlockID, n: int)
    ensures
        BlockID::spec_from_index(b.spec_index()) == b,
        0 <= b.spec_index() <= PLACEABLE_KINDS,
        0 <= n <= PLACEABLE_KINDS ==> BlockID::spec_from_index(n).spec_index() == n,
        b.is_air() <==> b.spec_index() == 0,
{
}

} // verus!
