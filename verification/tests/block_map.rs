use aether::block::{BlockProperties, BlockStateId};
use aether::block_map::{BlockRegistry, Interner};

#[test]
fn block_map_air_is_always_zero() {
    let mut r = BlockRegistry::new();
    let (id, props) = r.intern("minecraft:air");
    assert_eq!(id, BlockStateId::air());
    assert_eq!(props, BlockProperties::air());
    assert_eq!(r.intern("minecraft:cave_air").1, BlockProperties::air());
}

#[test]
fn ids_are_dense_and_stable() {
    let mut r = BlockRegistry::new();
    let stone = r.intern("minecraft:stone").0;
    let dirt = r.intern("minecraft:dirt").0;
    assert_eq!(stone, BlockStateId(1));
    assert_eq!(dirt, BlockStateId(2));
    // Re-interning returns the same id.
    assert_eq!(r.intern("minecraft:stone").0, stone);
    assert_eq!(r.len(), 3);
}

#[test]
fn property_inference() {
    let mut r = BlockRegistry::new();
    assert!(r.intern("minecraft:stone").1.solid);
    assert!(r.intern("minecraft:redstone_wire").1.redstone);
    assert!(r.intern("minecraft:repeater").1.redstone);
    assert!(!r.intern("minecraft:water").1.collision);
    assert!(!r.intern("minecraft:torch").1.solid);
    // grass_block is solid terrain; tall_grass is a passable plant.
    assert!(r.intern("minecraft:grass_block").1.solid);
    assert!(!r.intern("minecraft:tall_grass").1.collision);
}

#[test]
fn keyword_extras_and_mapping_table() {
    let mut r = BlockRegistry::new();
    assert!(r.is_empty());
    assert!(r.intern("minecraft:target").1.redstone);
    assert!(r.intern("minecraft:lightning_rod").1.redstone);
    assert!(!r.intern("minecraft:vine").1.solid);
    // Stairs are solid blocks, not air.
    assert_eq!(r.intern("minecraft:oak_stairs").1, BlockProperties::solid());
    assert!(!r.is_empty());
    let table = r.mapping();
    assert_eq!(table[0], ("minecraft:air", BlockStateId(0)));
    assert_eq!(table[4], ("minecraft:oak_stairs", BlockStateId(4)));
    assert_eq!(table.len(), r.len());
}

#[test]
fn trait_interning_matches_inherent() {
    let mut a = BlockRegistry::new();
    let mut b = BlockRegistry::default();
    for name in ["minecraft:stone", "minecraft:dirt", "minecraft:stone"] {
        assert_eq!(Interner::intern(&mut a, name), b.intern(name));
    }
}
