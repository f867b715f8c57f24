use aether::block::{BlockProperties, BlockStateId};
use aether::ids;
use aether::storage::MemStore;
use aether::world::World;
use aether::worldgen::FlatGenerator;
use aether::light::{LightView, MAX_LIGHT};

#[test]
fn flat_world_reads_generated_blocks() {
    let mut world = World::new(MemStore::new(), FlatGenerator::classic());
    // Classic flat: bedrock@0, dirt@1-2, grass@3, air above.
    assert_eq!(world.get_block(0, 0, 0), BlockStateId(ids::BEDROCK));
    assert_eq!(world.get_block(5, 3, 9), BlockStateId(ids::GRASS_BLOCK));
    assert_eq!(world.get_block(0, 10, 0), BlockStateId::air());
}

#[test]
fn set_block_round_trips_and_persists() {
    let mut world = World::new(MemStore::new(), FlatGenerator::classic());
    world.set_block(2, 20, 3, "minecraft:stone").unwrap();
    assert_eq!(world.get_block(2, 20, 3), BlockStateId(ids::STONE));
    world.flush().unwrap();
    assert_eq!(world.get_block(2, 20, 3), BlockStateId(ids::STONE));
}

#[test]
fn is_solid_reflects_collision_property() {
    let mut world = World::new(MemStore::new(), FlatGenerator::classic());
    assert!(world.is_solid(0, 0, 0)); // bedrock
    assert!(!world.is_solid(0, 10, 0)); // air
}

#[test]
fn height_hint_finds_surface() {
    let mut world = World::new(MemStore::new(), FlatGenerator::classic());
    assert_eq!(world.height_hint(0, 0), 3); // grass on top of the flat stack
}

#[test]
fn negative_coordinates_split_correctly() {
    let mut world = World::new(MemStore::new(), FlatGenerator::classic());
    // x = -17 lies in chunk -2 at local 15; the flat stack is the same there.
    assert_eq!(world.get_block(-17, 3, -33), BlockStateId(ids::GRASS_BLOCK));
    let a = world.get_block(-17, 64, -33);
    let b = world.get_block(-17, 64, -33);
    assert_eq!(a, b);
    world.set_block(-1, -1, -1, "minecraft:sand").unwrap();
    assert_eq!(world.get_block(-1, -1, -1), BlockStateId(ids::SAND));
    assert_eq!(world.get_block(-1, 0, -1), BlockStateId(ids::BEDROCK));
}

#[test]
fn unknown_block_name_is_refused() {
    let mut world = World::new(MemStore::new(), FlatGenerator::classic());
    assert_eq!(world.set_block(0, 5, 0, "minecraft:nonexistent"), None);
    assert_eq!(world.resident_sections(), 0);
}

#[test]
fn out_of_range_y_reads_air_and_refuses_writes() {
    let mut world = World::new(MemStore::new(), FlatGenerator::classic());
    assert_eq!(world.get_block(0, 5000, 0), BlockStateId::air());
    assert!(!world.set_block_id(0, 5000, 0, BlockStateId(ids::STONE), BlockProperties::solid()));
    assert_eq!(world.resident_sections(), 0);
}

#[test]
fn flush_writes_dirty_sections_to_storage() {
    let mut world = World::new(MemStore::new(), FlatGenerator::classic());
    world.set_block(1, 40, 1, "minecraft:glowstone").unwrap();
    assert_eq!(world.get_block_name(1, 40, 1).as_deref(), Some("minecraft:glowstone"));
    world.flush().unwrap();
    // A second world over a fresh store does not see it; the same world does.
    assert_eq!(world.get_block_name(1, 40, 1).as_deref(), Some("minecraft:glowstone"));
    assert!(world.resident_sections() >= 2);
}

#[test]
fn conflicting_properties_are_refused() {
    let mut world = World::new(MemStore::new(), FlatGenerator::classic());
    // Air keeps air's properties in a section: a solid air write is refused.
    let solid = BlockProperties::solid();
    assert!(!world.set_block_id(0, 60, 0, BlockStateId::air(), solid));
    assert!(world.set_block_id(0, 60, 0, BlockStateId(ids::STONE), solid));
    assert_eq!(world.get_block(0, 60, 0), BlockStateId(ids::STONE));
}

#[test]
fn light_column_lights_surface_and_glowstone() {
    let mut world = World::new(MemStore::new(), FlatGenerator::classic());
    world.set_block(4, 6, 4, "minecraft:glowstone").unwrap();
    let light = world.light_column(0, 0);
    assert_eq!(light.column(), (0, 0));
    assert_eq!(light.base_y(), -64);
    assert_eq!(light.sky_light(8, 4, 8), MAX_LIGHT);
    assert_eq!(light.sky_light(8, 1, 8), 0);
    assert_eq!(light.block_light(4, 6, 4), MAX_LIGHT);
    assert_eq!(light.block_light(5, 6, 4), MAX_LIGHT - 1);
    assert_eq!(light.sky_light(8, 400, 8), MAX_LIGHT);
}
