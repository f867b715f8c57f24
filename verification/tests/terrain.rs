use aether::block::BlockStateId;
use aether::ids;
use aether::registry::BlockRegistry;
use aether::terrain::{fill_terrain, lattice_hash, stamp_structure, strata_block, structure_at, Structure};
use aether::worldgen::{ChunkGenerator, ColumnBuilder, FlatGenerator, FlatLayer, GeneratedColumn};

#[test]
fn structure_placement_is_deterministic() {
    assert_eq!(structure_at(42, -20, -14), Some((Structure::Hut, 5, 8)));
    assert_eq!(structure_at(42, -19, -19), Some((Structure::Dungeon, 5, 8)));
    assert_eq!(structure_at(42, -19, -12), Some((Structure::Dungeon, 2, 6)));
    assert_eq!(structure_at(42, 0, 0), None);
    assert_eq!(structure_at(42, 1, -1), None);
}

#[test]
fn roughly_one_chunk_in_24_hosts_a_structure() {
    let mut hits = 0;
    for cx in -50..50 {
        for cz in -50..50 {
            if let Some((_, ax, az)) = structure_at(2024, cx, cz) {
                assert!((2..=8).contains(&ax) && (2..=8).contains(&az));
                hits += 1;
            }
        }
    }
    assert!(hits > 10_000 / 48 && hits < 10_000 / 12, "hits = {hits}");
}

#[test]
fn strata_follow_the_surface() {
    assert_eq!(strata_block(0, 70, 62), ids::BEDROCK);
    assert_eq!(strata_block(70, 70, 62), ids::GRASS_BLOCK);
    assert_eq!(strata_block(50, 50, 62), ids::SAND);
    assert_eq!(strata_block(67, 70, 62), ids::DIRT);
    assert_eq!(strata_block(66, 70, 62), ids::STONE);
}

#[test]
fn filled_column_has_strata_and_water() {
    let reg = BlockRegistry::new();
    let mut b = ColumnBuilder::new(&reg);
    let surface = [20i32; 256];
    fill_terrain(&mut b, 0, 0, &surface, 25, &|_x: i32, _y: i32, _z: i32| false);
    let col = b.finish();
    let get = |wy: i32| -> BlockStateId {
        for (cy, sc) in &col.sections {
            if *cy as i32 == wy.div_euclid(16) {
                return sc.get(3, wy.rem_euclid(16) as usize, 4);
            }
        }
        BlockStateId(0)
    };
    assert_eq!(get(0), BlockStateId(ids::BEDROCK));
    assert_eq!(get(10), BlockStateId(ids::STONE));
    assert_eq!(get(18), BlockStateId(ids::DIRT));
    assert_eq!(get(20), BlockStateId(ids::SAND));
    assert_eq!(get(25), BlockStateId(ids::WATER));
    assert_eq!(get(26), BlockStateId(0));
}

#[test]
fn hut_has_a_doorway_and_log_corners() {
    let reg = BlockRegistry::new();
    let mut b = ColumnBuilder::new(&reg);
    stamp_structure(Structure::Hut, 4, 4, 10, &mut b);
    let col = b.finish();
    let sc = &col.sections.iter().find(|(cy, _)| *cy == 0).unwrap().1;
    assert_eq!(sc.get(4, 11, 4), BlockStateId(ids::OAK_PLANKS)); // floor
    assert_eq!(sc.get(4, 12, 4), BlockStateId(ids::OAK_LOG)); // corner
    assert_eq!(sc.get(6, 12, 4), BlockStateId(0)); // doorway
    assert_eq!(sc.get(6, 14, 4), BlockStateId(ids::OAK_PLANKS)); // above the doorway
    assert_eq!(sc.get(6, 15, 6), BlockStateId(ids::OAK_PLANKS)); // roof
}

#[test]
fn dungeon_needs_room_above_bedrock() {
    let reg = BlockRegistry::new();
    let mut b = ColumnBuilder::new(&reg);
    stamp_structure(Structure::Dungeon, 2, 2, 11, &mut b);
    assert!(b.finish().sections.is_empty());
    let mut b = ColumnBuilder::new(&reg);
    stamp_structure(Structure::Dungeon, 2, 2, 40, &mut b);
    let col = b.finish();
    let sc = &col.sections.iter().find(|(cy, _)| *cy == 1).unwrap().1;
    // floor = 30, spawner at (5, 31, 5)
    assert_eq!(sc.get(5, 15, 5), BlockStateId(ids::SPAWNER));
    assert_eq!(sc.get(3, 15, 3), BlockStateId(ids::CHEST));
}

#[test]
fn lattice_hash_matches_splitmix_finaliser() {
    assert_eq!(lattice_hash(0, 0, 0), 0);
    assert_eq!(lattice_hash(42, 1, -1), 7126743712990538283);
    assert_eq!(lattice_hash(7, -5, 3), 2538773049647435949);
}

fn column_block(col: &GeneratedColumn, x: usize, wy: i32, z: usize) -> BlockStateId {
    for (cy, sc) in &col.sections {
        if *cy as i32 == wy.div_euclid(16) {
            return sc.get(x, wy.rem_euclid(16) as usize, z);
        }
    }
    BlockStateId(0)
}

#[test]
fn flat_layers_last_non_air_layer_wins() {
    let generator = FlatGenerator::with_layers(vec![
        FlatLayer { block: BlockStateId(ids::STONE), y_min: 0, y_max: 5 },
        FlatLayer { block: BlockStateId(ids::DIRT), y_min: 3, y_max: 4 },
        FlatLayer { block: BlockStateId(0), y_min: 0, y_max: 10 },
        FlatLayer { block: BlockStateId(ids::SAND), y_min: -20, y_max: -17 },
    ]);
    let col = generator.generate_column(3, -7);
    for x in [0usize, 7, 15] {
        for z in [0usize, 9, 15] {
            assert_eq!(column_block(&col, x, 2, z), BlockStateId(ids::STONE));
            assert_eq!(column_block(&col, x, 3, z), BlockStateId(ids::DIRT));
            assert_eq!(column_block(&col, x, 4, z), BlockStateId(ids::DIRT));
            assert_eq!(column_block(&col, x, 5, z), BlockStateId(ids::STONE));
            assert_eq!(column_block(&col, x, 6, z), BlockStateId(0));
            assert_eq!(column_block(&col, x, -17, z), BlockStateId(ids::SAND));
            assert_eq!(column_block(&col, x, -21, z), BlockStateId(0));
        }
    }
    assert_eq!(col.sections.len(), 2);
}

#[test]
fn dungeon_room_shell_interior_and_chests() {
    let reg = BlockRegistry::new();
    let mut b = ColumnBuilder::new(&reg);
    stamp_structure(Structure::Dungeon, 2, 2, 40, &mut b);
    let col = b.finish();
    // floor = 30; corner stone at column (2, 2) is mossy, at (3, 2) plain.
    assert_eq!(column_block(&col, 2, 30, 2), BlockStateId(ids::MOSSY_COBBLESTONE));
    assert_eq!(column_block(&col, 3, 30, 2), BlockStateId(ids::COBBLESTONE));
    assert_eq!(column_block(&col, 4, 32, 4), BlockStateId(0));
    assert_eq!(column_block(&col, 7, 31, 7), BlockStateId(ids::CHEST));
    assert_eq!(column_block(&col, 5, 31, 5), BlockStateId(ids::SPAWNER));
    assert_eq!(column_block(&col, 5, 35, 5), BlockStateId(0));
    assert_eq!(column_block(&col, 9, 29, 9), BlockStateId(0));
}

#[test]
fn caves_keep_interior_heights_but_not_floor_or_surface() {
    let reg = BlockRegistry::new();
    let mut b = ColumnBuilder::new(&reg);
    let surface = [12i32; 256];
    fill_terrain(&mut b, 1, 1, &surface, 14, &|_x: i32, _y: i32, _z: i32| true);
    let col = b.finish();
    assert_eq!(column_block(&col, 5, 0, 5), BlockStateId(ids::BEDROCK));
    assert_eq!(column_block(&col, 5, 6, 5), BlockStateId(0));
    assert_eq!(column_block(&col, 5, 11, 5), BlockStateId(0));
    assert_eq!(column_block(&col, 5, 12, 5), BlockStateId(ids::SAND));
    assert_eq!(column_block(&col, 5, 14, 5), BlockStateId(ids::WATER));
    assert_eq!(column_block(&col, 5, 15, 5), BlockStateId(0));
}
