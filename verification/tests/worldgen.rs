use aether::block::BlockStateId;
use aether::ids;
use aether::registry::BlockRegistry;
use aether::subchunk::SubChunk;
use aether::worldgen::{well_known_props, ChunkGenerator, ColumnBuilder, FlatGenerator, FlatLayer, GeneratedColumn};

fn top_block_of_column(col: &GeneratedColumn, lx: usize, lz: usize) -> Option<(i32, BlockStateId)> {
    let mut best: Option<(i32, BlockStateId)> = None;
    for (cy, sc) in &col.sections {
        for ly in 0..16 {
            let id = sc.get(lx, ly, lz);
            if id != BlockStateId::air() {
                let world_y = *cy as i32 * 16 + ly as i32;
                if best.map(|(by, _)| world_y > by).unwrap_or(true) {
                    best = Some((world_y, id));
                }
            }
        }
    }
    best
}

#[test]
fn flat_generator_has_grass_on_top() {
    let g = FlatGenerator::classic();
    let col = g.generate_column(0, 0);
    assert!(!col.sections.is_empty());
    let (y, id) = top_block_of_column(&col, 0, 0).unwrap();
    assert_eq!(y, 3);
    assert_eq!(id, BlockStateId(ids::GRASS_BLOCK));
}

#[test]
fn column_builder_splits_sections() {
    // A tall pillar spanning two sub-chunks must land in two sections.
    let reg = BlockRegistry::new();
    let mut b = ColumnBuilder::new(&reg);
    b.set(0, 14, 0, BlockStateId(ids::STONE));
    b.set(0, 18, 0, BlockStateId(ids::STONE)); // crosses into cy=1
    let col = b.finish();
    assert_eq!(col.sections.len(), 2);
    let _ = SubChunk::new(); // keep the import used
}

#[test]
fn builder_handles_negative_y_air_and_clearing() {
    let reg = BlockRegistry::new();
    let mut b = ColumnBuilder::new(&reg);
    b.set(3, -1, 4, BlockStateId(ids::STONE)); // cy = -1, local y 15
    b.set(3, 40, 4, BlockStateId::air()); // air is a no-op: no section appears
    b.set(1, 0, 1, BlockStateId(ids::DIRT));
    b.clear(1, 0, 1); // all air again: the section is dropped
    b.set(0, 5000, 0, BlockStateId(ids::STONE)); // cy 312 does not fit an i8
    let col = b.finish();
    assert_eq!(col.sections.len(), 1);
    let (cy, sc) = &col.sections[0];
    assert_eq!(*cy, -1);
    assert_eq!(sc.get(3, 15, 4), BlockStateId(ids::STONE));
    assert_eq!(sc.solid_mask().count(), 1);
}

#[test]
fn custom_layers_stack_bottom_up() {
    let layers = vec![
        FlatLayer { block: BlockStateId(ids::STONE), y_min: -20, y_max: 20 },
        FlatLayer { block: BlockStateId(ids::SAND), y_min: 10, y_max: 12 },
        FlatLayer { block: BlockStateId(ids::AIR), y_min: 0, y_max: 5 }, // air never carves
    ];
    let col = FlatGenerator::with_layers(layers).generate_column(5, -5);
    let cys: Vec<i8> = col.sections.iter().map(|(cy, _)| *cy).collect();
    assert_eq!(cys, vec![-2, -1, 0, 1]);
    let (y, id) = top_block_of_column(&col, 7, 7).unwrap();
    assert_eq!((y, id), (20, BlockStateId(ids::STONE)));
    let s0 = &col.sections[2].1;
    assert_eq!(s0.get(0, 11, 0), BlockStateId(ids::SAND));
    assert_eq!(s0.get(0, 3, 0), BlockStateId(ids::STONE));
    assert!(well_known_props(BlockStateId(ids::STONE)).solid);
    assert!(!well_known_props(BlockStateId(ids::WATER)).collision);
}
