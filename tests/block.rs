use minedmap::block::{needs_biome, tints, BlockFlag, BlockType, Color, Tint};

fn block(flags: &[BlockFlag]) -> BlockType {
    BlockType { flags: flags.iter().fold(0, |a, f| a | f.mask()), color: Color([100, 100, 100]) }
}

#[test]
fn stone_needs_no_biome() {
    assert!(!needs_biome(block(&[BlockFlag::Opaque])));
}

#[test]
fn oak_leaves_need_biome() {
    assert!(needs_biome(block(&[BlockFlag::Opaque, BlockFlag::Foliage])));
}

#[test]
fn grass_and_water_need_biome() {
    assert!(needs_biome(block(&[BlockFlag::Grass])));
    assert!(needs_biome(block(&[BlockFlag::Water])));
}

#[test]
fn fixed_leaf_tints_need_no_biome() {
    assert!(!needs_biome(block(&[BlockFlag::Opaque, BlockFlag::Birch])));
    assert!(!needs_biome(block(&[BlockFlag::Spruce])));
    assert!(!needs_biome(block(&[])));
}

#[test]
fn flags_are_tested_bit_by_bit() {
    let b = block(&[BlockFlag::Foliage, BlockFlag::Birch]);
    assert!(b.is(BlockFlag::Foliage));
    assert!(b.is(BlockFlag::Birch));
    assert!(!b.is(BlockFlag::Spruce));
    assert!(!b.is(BlockFlag::Opaque));
}

#[test]
fn tints_follow_flags_in_fixed_order() {
    assert_eq!(tints(block(&[BlockFlag::Opaque])), vec![]);
    assert_eq!(tints(block(&[BlockFlag::Birch, BlockFlag::Foliage])), vec![Tint::Foliage, Tint::Birch]);
    assert_eq!(
        tints(block(&[BlockFlag::Water, BlockFlag::Spruce, BlockFlag::Grass])),
        vec![Tint::Grass, Tint::Spruce, Tint::Water]
    );
}
