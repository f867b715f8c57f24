use aether::anvil::{
    bits_per_index, decode_section_blocks, decode_sections, region_coords_from_path, AnvilError, ChunkFailure,
    Region,
};
use aether::block::{BlockProperties, BlockStateId};
use aether::block_map::BlockRegistry;
use aether::nbt::Nbt;

#[test]
fn bits_per_index_matches_anvil() {
    assert_eq!(bits_per_index(1), 4);
    assert_eq!(bits_per_index(16), 4);
    assert_eq!(bits_per_index(17), 5);
    assert_eq!(bits_per_index(256), 8);
    assert_eq!(bits_per_index(257), 9);
}

#[test]
fn region_name_parsing() {
    let p = "/world/region/r.-1.2.mca";
    assert_eq!(region_coords_from_path(p).unwrap(), (-1, 2));
    assert!(region_coords_from_path("bogus.mca").is_err());
}

#[test]
fn region_name_edge_cases() {
    assert_eq!(region_coords_from_path("r.0.0.mca").unwrap(), (0, 0));
    assert_eq!(region_coords_from_path("dir/r.+3.-2147483648.mca/").unwrap(), (3, i32::MIN));
    assert!(matches!(region_coords_from_path("r.2147483648.0.mca"), Err(AnvilError::BadRegionName)));
    assert!(matches!(region_coords_from_path("r.1.2.3.mca"), Err(AnvilError::BadRegionName)));
    assert!(matches!(region_coords_from_path("r.-.2.mca"), Err(AnvilError::BadRegionName)));
    assert!(matches!(region_coords_from_path("r.1.2.mcr"), Err(AnvilError::BadRegionName)));
    assert!(matches!(region_coords_from_path(""), Err(AnvilError::BadRegionName)));
}

#[test]
fn short_file_is_rejected() {
    assert!(matches!(Region::from_bytes(vec![0u8; 10], 0, 0), Err(AnvilError::ShortHeader)));
}

fn build_chunk_nbt() -> Nbt {
    // palette entry compounds
    let air = Nbt::Compound(vec![("Name".into(), Nbt::String("minecraft:air".into()))]);
    let stone = Nbt::Compound(vec![("Name".into(), Nbt::String("minecraft:stone".into()))]);
    // bits=4, per_long=16; index 0 => stone(1), others air(0). Only first long's
    // lowest nibble is 1.
    let mut data = vec![0i64; 256];
    data[0] = 1; // block 0 -> palette index 1
    let block_states = Nbt::Compound(vec![
        ("palette".into(), Nbt::List(vec![air, stone])),
        ("data".into(), Nbt::LongArray(data)),
    ]);
    let section = Nbt::Compound(vec![("Y".into(), Nbt::Byte(0)), ("block_states".into(), block_states)]);
    Nbt::Compound(vec![("sections".into(), Nbt::List(vec![section]))])
}

#[test]
fn decodes_a_single_block_palette_section() {
    // Build a chunk NBT with one section whose palette is [air, stone] and
    // data selects stone for block index 0 only.
    let root = build_chunk_nbt();
    let mut reg = BlockRegistry::new();
    let sections = decode_sections(&root, &mut reg).unwrap();
    assert_eq!(sections.len(), 1);
    let (y, sc) = &sections[0];
    assert_eq!(*y, 0);
    // block index 0 => (x=0,y=0,z=0) is stone, rest air
    assert_ne!(sc.get(0, 0, 0), BlockStateId::air());
    assert_eq!(sc.get(1, 0, 0), BlockStateId::air());
}

#[test]
fn single_entry_palettes_fill_or_vanish() {
    let stone = (BlockStateId(1), BlockProperties::solid());
    let sc = decode_section_blocks(&vec![stone], None).unwrap();
    assert_eq!(sc.get(15, 15, 15), BlockStateId(1));
    assert_eq!(sc.solid_mask().count(), 4096);
    let air = (BlockStateId(0), BlockProperties::air());
    assert!(decode_section_blocks(&vec![air], None).is_none());
    // Two entries but no data: nothing to decode.
    assert!(decode_section_blocks(&vec![air, stone], None).is_none());
}

#[test]
fn packed_indices_follow_yzx_order() {
    let air = (BlockStateId(0), BlockProperties::air());
    let stone = (BlockStateId(1), BlockProperties::solid());
    let dirt = (BlockStateId(2), BlockProperties::solid());
    // Block 17 (x=1, z=1, y=0) is in long 1, slot 1; block 256 is (0, 1, 0).
    let mut data = vec![0i64; 256];
    data[1] = 2 << 4; // block 17 -> dirt
    data[16] = 1; // block 256 -> stone
    data[2] = 7; // block 32 -> index 7, out of range: stays air
    let sc = decode_section_blocks(&vec![air, stone, dirt], Some(&data[..])).unwrap();
    assert_eq!(sc.get(1, 0, 1), BlockStateId(2));
    assert_eq!(sc.get(0, 1, 0), BlockStateId(1));
    assert_eq!(sc.get(0, 0, 2), BlockStateId(0));
    assert_eq!(sc.solid_mask().count(), 2);
}

fn region_with_chunk(payload: &[u8], scheme: u8) -> Vec<u8> {
    let mut data = vec![0u8; 8192];
    // slot (1, 0): sector 2, one sector long
    data[4..8].copy_from_slice(&[0, 0, 2, 1]);
    let mut chunk = Vec::new();
    chunk.extend_from_slice(&((payload.len() + 1) as u32).to_be_bytes());
    chunk.push(scheme);
    chunk.extend_from_slice(payload);
    chunk.resize(4096, 0);
    data.extend_from_slice(&chunk);
    // slot (2, 0): points past the end of the file
    data[8..12].copy_from_slice(&[0, 0, 9, 1]);
    data
}

#[test]
fn region_slots_decode_in_order_with_failures_reported() {
    let nbt = [10u8, 0, 0, 0]; // empty root compound
    let region = Region::from_bytes(region_with_chunk(&nbt, 3), -1, 2).unwrap();
    assert!(region.chunk_nbt(0, 0).unwrap().is_none());
    assert_eq!(region.chunk_nbt(1, 0).unwrap().unwrap(), nbt.to_vec());
    assert!(matches!(region.chunk_nbt(2, 0), Err(AnvilError::BadChunkExtent)));
    let mut reg = BlockRegistry::new();
    let mut errors = Vec::new();
    let chunks = region.decode_all(&mut reg, &mut errors);
    assert_eq!(chunks.len(), 1);
    assert_eq!((chunks[0].cx, chunks[0].cz), (-31, 64));
    assert!(chunks[0].sections.is_empty());
    assert_eq!(errors.len(), 1);
    assert!(matches!(errors[0], ChunkFailure::Read { lx: 2, lz: 0, error: AnvilError::BadChunkExtent }));
}

#[test]
fn zlib_chunks_are_inflated() {
    let nbt = [10u8, 0, 0, 0];
    let packed = miniz_oxide::deflate::compress_to_vec_zlib(&nbt, 6);
    let region = Region::from_bytes(region_with_chunk(&packed, 2), 0, 0).unwrap();
    assert_eq!(region.chunk_nbt(1, 0).unwrap().unwrap(), nbt.to_vec());
    // A corrupt zlib stream reports an inflate error.
    let region = Region::from_bytes(region_with_chunk(&[1, 2, 3], 2), 0, 0).unwrap();
    assert!(matches!(region.chunk_nbt(1, 0), Err(AnvilError::Inflate(_))));
    // Unknown schemes are refused.
    let region = Region::from_bytes(region_with_chunk(&nbt, 9), 0, 0).unwrap();
    assert!(matches!(region.chunk_nbt(1, 0), Err(AnvilError::UnsupportedCompression(9))));
}

fn palette_entry(name: &str) -> Nbt {
    Nbt::Compound(vec![("Name".to_string(), Nbt::String(name.to_string()))])
}

#[test]
fn decode_sections_places_one_stone_at_y_two() {
    let bs = Nbt::Compound(vec![
        (
            "palette".to_string(),
            Nbt::List(vec![palette_entry("minecraft:air"), palette_entry("minecraft:stone")]),
        ),
        ("data".to_string(), Nbt::LongArray(vec![0x10])),
    ]);
    let root = Nbt::Compound(vec![(
        "sections".to_string(),
        Nbt::List(vec![Nbt::Compound(vec![("Y".to_string(), Nbt::Byte(2)), ("block_states".to_string(), bs)])]),
    )]);
    let mut reg = BlockRegistry::new();
    let v = decode_sections(&root, &mut reg).unwrap();
    assert_eq!(v.len(), 1);
    assert_eq!(v[0].0, 2);
    assert_eq!(v[0].1.get(1, 0, 0), BlockStateId(1));
    assert_eq!(v[0].1.get(0, 0, 0), BlockStateId(0));
    assert_eq!(v[0].1.get(0, 1, 0), BlockStateId(0));
    assert_eq!(v[0].1.get(0, 0, 1), BlockStateId(0));
    assert_eq!(v[0].1.solid_mask().count(), 1);
}

#[test]
fn decode_sections_skips_air_and_incomplete_sections_in_order() {
    let one = |name: &str| Nbt::Compound(vec![("palette".to_string(), Nbt::List(vec![palette_entry(name)]))]);
    let root = Nbt::Compound(vec![(
        "sections".to_string(),
        Nbt::List(vec![
            Nbt::Compound(vec![("Y".to_string(), Nbt::Byte(-1)), ("block_states".to_string(), one("minecraft:air"))]),
            Nbt::Compound(vec![("Y".to_string(), Nbt::Byte(3)), ("block_states".to_string(), one("minecraft:dirt"))]),
            Nbt::Compound(vec![("block_states".to_string(), one("minecraft:stone"))]),
            Nbt::Compound(vec![("Y".to_string(), Nbt::Int(1)), ("block_states".to_string(), one("minecraft:stone"))]),
        ]),
    )]);
    let mut reg = BlockRegistry::new();
    let v = decode_sections(&root, &mut reg).unwrap();
    assert_eq!(v.len(), 2);
    assert_eq!(v[0].0, 3);
    assert_eq!(v[1].0, 1);
    assert_eq!(v[0].1.get(7, 7, 7), BlockStateId(1));
    assert_eq!(v[1].1.get(0, 15, 0), BlockStateId(2));
}

#[test]
fn decode_sections_keeps_a_full_4096_entry_palette_that_lists_air() {
    let mut names = vec![palette_entry("minecraft:air")];
    for i in 1..4096 {
        names.push(palette_entry(&format!("aether:block_{i}")));
    }
    let mut word: i64 = 0;
    for k in 0..5 {
        word |= 1i64 << (12 * k);
    }
    let bs = Nbt::Compound(vec![
        ("palette".to_string(), Nbt::List(names)),
        ("data".to_string(), Nbt::LongArray(vec![word; 820])),
    ]);
    let root = Nbt::Compound(vec![(
        "sections".to_string(),
        Nbt::List(vec![Nbt::Compound(vec![("Y".to_string(), Nbt::Byte(0)), ("block_states".to_string(), bs)])]),
    )]);
    let mut reg = BlockRegistry::new();
    let v = decode_sections(&root, &mut reg).unwrap();
    assert_eq!(v.len(), 1);
    assert_eq!(v[0].1.get(0, 0, 0), BlockStateId(1));
    assert_eq!(v[0].1.get(15, 15, 15), BlockStateId(1));
}

#[test]
fn region_name_after_a_trailing_dot_component() {
    assert_eq!(region_coords_from_path("/world/region/r.1.-2.mca/.").unwrap(), (1, -2));
    assert_eq!(region_coords_from_path("/world/region/r.1.-2.mca/./").unwrap(), (1, -2));
}

#[test]
fn decode_sections_keeps_a_palette_longer_than_4096_entries_when_its_ids_fit() {
    let mut names = vec![palette_entry("minecraft:air")];
    for i in 1..5000 {
        names.push(palette_entry(&format!("aether:block_{}", i % 100)));
    }
    let mut word: i64 = 0;
    for k in 0..4 {
        word |= 1i64 << (13 * k);
    }
    let bs = Nbt::Compound(vec![
        ("palette".to_string(), Nbt::List(names)),
        ("data".to_string(), Nbt::LongArray(vec![word; 1024])),
    ]);
    let root = Nbt::Compound(vec![(
        "sections".to_string(),
        Nbt::List(vec![Nbt::Compound(vec![("Y".to_string(), Nbt::Byte(1)), ("block_states".to_string(), bs)])]),
    )]);
    let mut reg = BlockRegistry::new();
    let v = decode_sections(&root, &mut reg).unwrap();
    assert_eq!(v.len(), 1);
    assert_eq!(v[0].0, 1);
    assert_eq!(v[0].1.get(0, 0, 0), BlockStateId(1));
    assert_eq!(v[0].1.get(9, 4, 13), BlockStateId(1));
}
