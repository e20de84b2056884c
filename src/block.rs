//! Block types and the capabilities that decide how a block is tinted.

use vstd::prelude::*;

verus! {

/// An RGB colour with 0-255 channels.
#[derive(Clone, Copy, Debug)]
pub struct Color(pub [u8; 3]);

/// A capability of a block type.
#[derive(Clone, Copy, Debug, PartialEq, Eq, Structural)]
pub enum BlockFlag {
    /// The block hides what is below it.
    Opaque,
    /// Tinted with the biome's grass colour.
    Grass,
    /// Tinted with the biome's foliage colour.
    Foliage,
    /// Tinted with the fixed birch leaf colour.
    Birch,
    /// Tinted with the fixed evergreen leaf colour.
    Spruce,
    /// Tinted with the biome's water colour.
    Water,
}

/// The bit that stands for `f` in a block's flag set.
pub open spec fn flag_mask(f: BlockFlag) -> u8 {
    match f {
        BlockFlag::Opaque => 1,
        BlockFlag::Grass => 2,
        BlockFlag::Foliage => 4,
        BlockFlag::Birch => 8,
        BlockFlag::Spruce => 16,
        BlockFlag::Water => 32,
    }
}

/// Whether the flag set `flags` holds `f`.
pub open spec fn has_flag(flags: u8, f: BlockFlag) -> bool {
    flags & flag_mask(f) != 0
}

impl BlockFlag {
    /// The bit that stands for this flag in a block's flag set.
    pub fn mask(self) -> (r: u8)
        ensures
            r == flag_mask(self),
    {
        match self {
            BlockFlag::Opaque => 1,
            BlockFlag::Grass => 2,
            BlockFlag::Foliage => 4,
            BlockFlag::Birch => 8,
            BlockFlag::Spruce => 16,
            BlockFlag::Water => 32,
        }
    }
}

/// A block type: its capabilities, as a set of flag bits, and its own colour.
#[derive(Clone, Copy, Debug)]
pub struct BlockType {
    pub flags: u8,
    pub color: Color,
}

impl BlockType {
    /// Whether the block type carries `flag`.
    pub fn is(&self, flag: BlockFlag) -> (r: bool)
        ensures
            r == has_flag(self.flags, flag),
    {
        self.flags & flag.mask() != 0
    }
}

/// Whether the block needs biome data to be coloured: it carries one of the
/// grass, foliage or water tints.
pub open spec fn spec_needs_biome(block: BlockType) -> bool {
    has_flag(block.flags, BlockFlag::Grass) || has_flag(block.flags, BlockFlag::Foliage)
        || has_flag(block.flags, BlockFlag::Water)
}

/// Determines whether colouring `block` needs biome information.
pub fn needs_biome(block: BlockType) -> (r: bool)
    ensures
        r == spec_needs_biome(block),
{
    block.is(BlockFlag::Grass) || block.is(BlockFlag::Foliage) || block.is(BlockFlag::Water)
}

/// A colour multiplier applied to a block's own colour.
#[derive(Clone, Copy, Debug, PartialEq, Eq, Structural)]
pub enum Tint {
    /// The biome's grass colour.
    Grass,
    /// The biome's foliage colour.
    Foliage,
    /// The fixed birch leaf colour.
    Birch,
    /// The fixed evergreen leaf colour.
    Spruce,
    /// The biome's water colour.
    Water,
}

/// Whether a tint is taken from the biome.
pub open spec fn tint_from_biome(t: Tint) -> bool {
    t == Tint::Grass || t == Tint::Foliage || t == Tint::Water
}

/// Appends `t` to `s` when `on` holds.
pub open spec fn push_if(s: Seq<Tint>, on: bool, t: Tint) -> Seq<Tint> {
    if on {
        s.push(t)
    } else {
        s
    }
}

/// The tints a flag set calls for, in the order grass, foliage, birch,
/// spruce, water.
pub open spec fn spec_tints(flags: u8) -> Seq<Tint> {
    let s = push_if(Seq::empty(), has_flag(flags, BlockFlag::Grass), Tint::Grass);
    let s = push_if(s, has_flag(flags, BlockFlag::Foliage), Tint::Foliage);
    let s = push_if(s, has_flag(flags, BlockFlag::Birch), Tint::Birch);
    let s = push_if(s, has_flag(flags, BlockFlag::Spruce), Tint::Spruce);
    push_if(s, has_flag(flags, BlockFlag::Water), Tint::Water)
}

/// The multipliers to apply to `block`'s own colour, one per tint
/// capability it carries.
pub fn tints(block: BlockType) -> (r: Vec<Tint>)
    ensures
        r@ == spec_tints(block.flags),
{
    let mut r: Vec<Tint> = Vec::new();
    if block.is(BlockFlag::Grass) {
        r.push(Tint::Grass);
    }
    if block.is(BlockFlag::Foliage) {
        r.push(Tint::Foliage);
    }
    if block.is(BlockFlag::Birch) {
        r.push(Tint::Birch);
    }
    if block.is(BlockFlag::Spruce) {
        r.push(Tint::Spruce);
    }
    if block.is(BlockFlag::Water) {
        r.push(Tint::Water);
    }
    r
}

/// A block needs biome information exactly when one of its tints is taken
/// from the biome.
pub proof fn lemma_needs_biome_iff_biome_tint(block: BlockType)
    ensures
        spec_needs_biome(block) <==> exists|i: int|
            0 <= i < spec_tints(block.flags).len() && tint_from_biome(
                #[trigger] spec_tints(block.flags)[i],
            ),
{
    let f = block.flags;
    let s1 = push_if(Seq::empty(), has_flag(f, BlockFlag::Grass), Tint::Grass);
    let s2 = push_if(s1, has_flag(f, BlockFlag::Foliage), Tint::Foliage);
    let s3 = push_if(s2, has_flag(f, BlockFlag::Birch), Tint::Birch);
    let s4 = push_if(s3, has_flag(f, BlockFlag::Spruce), Tint::Spruce);
    let s5 = push_if(s4, has_flag(f, BlockFlag::Water), Tint::Water);
    assert(spec_tints(f) == s5);
    if spec_needs_biome(block) {
        if has_flag(f, BlockFlag::Water) {
            assert(tint_from_biome(s5[s5.len() - 1]));
        } else if has_flag(f, BlockFlag::Foliage) {
            assert(s5[s1.len() as int] == Tint::Foliage);
            assert(tint_from_biome(s5[s1.len() as int]));
        } else {
            assert(s5[0] == Tint::Grass);
            assert(tint_from_biome(s5[0]));
        }
    }
    if !spec_needs_biome(block) {
        assert(s1.len() == 0 && s2.len() == 0);
        assert forall|i: int| 0 <= i < s5.len() implies !tint_from_biome(#[trigger] s5[i]) by {
            assert(s5[i] == Tint::Birch || s5[i] == Tint::Spruce);
        }
    }
}

} // verus!
