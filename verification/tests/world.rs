use aether::fjall_store::FjallStore;
use aether::block::{BlockProperties, BlockStateId};
use aether::cell::AvxCell;
use aether::format::{deserialize_subchunk, serialize_subchunk, FormatError, SubChunkKey};
use aether::ids;
use aether::morton::{morton_decode_16, morton_encode_16};
use aether::palette::{PackedArray, Palette};
use aether::registry::BlockRegistry;
use aether::storage::{compress, decompress, KvBackend, MemStore, WorldStorage};
use aether::subchunk::SubChunk;

#[test]
fn round_trips_every_position() {
    for z in 0..16u8 {
        for y in 0..16u8 {
            for x in 0..16u8 {
                let idx = morton_encode_16(x, y, z);
                assert!(idx < 4096, "index {idx} out of range for ({x},{y},{z})");
                assert_eq!(morton_decode_16(idx), (x, y, z));
            }
        }
    }
}

#[test]
fn indices_are_a_bijection_over_0_4095() {
    let mut seen = [false; 4096];
    for z in 0..16u8 {
        for y in 0..16u8 {
            for x in 0..16u8 {
                let idx = morton_encode_16(x, y, z) as usize;
                assert!(!seen[idx], "duplicate morton index {idx}");
                seen[idx] = true;
            }
        }
    }
    assert!(seen.iter().all(|&s| s), "morton map did not cover 0..4096");
}

#[test]
fn known_values() {
    assert_eq!(morton_encode_16(0, 0, 0), 0);
    assert_eq!(morton_encode_16(1, 0, 0), 0b001);
    assert_eq!(morton_encode_16(0, 1, 0), 0b010);
    assert_eq!(morton_encode_16(0, 0, 1), 0b100);
    assert_eq!(morton_encode_16(15, 15, 15), 4095);
}

#[test]
fn local_index_is_a_bijection() {
    let mut seen = [false; AvxCell::LEN];
    for z in 0..AvxCell::DIM_Z {
        for y in 0..AvxCell::DIM_Y {
            for x in 0..AvxCell::DIM_X {
                let i = AvxCell::local_index(x, y, z);
                assert!(!seen[i]);
                seen[i] = true;
            }
        }
    }
    assert!(seen.iter().all(|&s| s));
}

#[test]
fn get_set_round_trip() {
    let mut c = AvxCell::empty();
    c.set(3, 1, 2, 0xbeef);
    assert_eq!(c.get(3, 1, 2), 0xbeef);
    assert_eq!(c.get(0, 0, 0), 0);
}

#[test]
fn cell_filled_and_slice() {
    let c = AvxCell::filled(7);
    assert!(c.as_slice().iter().all(|&v| v == 7));
    assert_eq!(AvxCell::default(), AvxCell::empty());
}

#[test]
fn packed_array_round_trips_all_widths() {
    for &bits in &[4u8, 8, 16] {
        let mut pa = PackedArray::new(bits, 100);
        let cap = (1u32 << bits) - 1;
        for i in 0..100 {
            pa.set(i, (i as u32 % (cap + 1)) as u16);
        }
        for i in 0..100 {
            assert_eq!(pa.get(i), (i as u32 % (cap + 1)) as u16, "bits={bits} i={i}");
        }
    }
}

#[test]
fn packed_array_masks_oversized_values() {
    let mut pa = PackedArray::new(4, 3);
    pa.set(1, 0x1f);
    assert_eq!(pa.get(1), 0xf);
    assert_eq!(pa.get(0), 0);
    assert_eq!(pa.get(2), 0);
    assert_eq!(pa.words().len(), 1);
    assert_eq!(pa.len(), 3);
    assert!(!pa.is_empty());
    assert!(PackedArray::new(8, 0).is_empty());
}

#[test]
fn palette_auto_expands_width() {
    let mut p = Palette::new(4096);
    assert_eq!(p.bits_per_entry(), 4);
    for i in 0..15 {
        p.set(i, BlockStateId(i as u32 + 1), BlockProperties::solid());
    }
    assert_eq!(p.bits_per_entry(), 4);
    for i in 15..255 {
        p.set(i, BlockStateId(i as u32 + 1), BlockProperties::solid());
    }
    assert_eq!(p.distinct(), 256);
    assert_eq!(p.bits_per_entry(), 8);
    for i in 255..300 {
        p.set(i, BlockStateId(i as u32 + 1), BlockProperties::solid());
    }
    assert_eq!(p.bits_per_entry(), 16);
}

#[test]
fn palette_preserves_values_across_widening() {
    let mut p = Palette::new(4096);
    for i in 0..1000 {
        p.set(i, BlockStateId(i as u32 + 1), BlockProperties::solid());
    }
    for i in 0..1000 {
        assert_eq!(p.get(i), BlockStateId(i as u32 + 1));
        assert_eq!(p.props_at(i), BlockProperties::solid());
    }
}

#[test]
fn dedup_keeps_palette_small() {
    let mut p = Palette::new(4096);
    for i in 0..4096 {
        let id = BlockStateId((i % 3) as u32 + 1);
        p.set(i, id, BlockProperties::solid());
    }
    assert_eq!(p.distinct(), 4);
    assert_eq!(p.bits_per_entry(), 4);
}

#[test]
fn palette_set_reports_old_and_new_props() {
    let mut p = Palette::new(8);
    let (old, new) = p.set(2, BlockStateId(9), BlockProperties::solid());
    assert_eq!(old, BlockProperties::air());
    assert_eq!(new, BlockProperties::solid());
    let (old2, _) = p.set(2, BlockStateId(0), BlockProperties::air());
    assert_eq!(old2, BlockProperties::solid());
    assert_eq!(p.entries(), &[BlockStateId(0), BlockStateId(9)]);
}

#[test]
fn empty_subchunk_is_all_air() {
    let sc = SubChunk::new();
    assert!(sc.is_empty());
    assert_eq!(sc.get(0, 0, 0), BlockStateId(0));
    assert_eq!(sc.solid_mask().count(), 0);
}

#[test]
fn set_updates_block_and_masks() {
    let mut sc = SubChunk::new();
    let stone = BlockStateId(1);
    sc.set(1, 2, 3, stone, BlockProperties::solid());
    assert_eq!(sc.get(1, 2, 3), stone);
    let m = SubChunk::index(1, 2, 3);
    assert!(sc.solid_mask().get(m));
    assert!(sc.collision_mask().get(m));
    assert!(!sc.redstone_mask().get(m));
    assert_eq!(sc.solid_mask().count(), 1);
    assert!(!sc.is_empty());
}

#[test]
fn overwriting_with_air_clears_masks() {
    let mut sc = SubChunk::new();
    sc.set(5, 5, 5, BlockStateId(1), BlockProperties::solid());
    assert_eq!(sc.solid_mask().count(), 1);
    sc.set(5, 5, 5, BlockStateId(0), BlockProperties::air());
    assert_eq!(sc.solid_mask().count(), 0);
}

#[test]
fn redstone_property_maps_to_redstone_mask_only() {
    let mut sc = SubChunk::new();
    let wire = BlockStateId(55);
    let props = BlockProperties { solid: false, collision: false, redstone: true };
    sc.set(0, 0, 0, wire, props);
    let m = SubChunk::index(0, 0, 0);
    assert!(sc.redstone_mask().get(m));
    assert!(!sc.solid_mask().get(m));
}

#[test]
fn blob_round_trips() {
    let mut sc = SubChunk::new();
    sc.set(0, 0, 0, BlockStateId(1), BlockProperties::solid());
    sc.set(15, 15, 15, BlockStateId(55), BlockProperties { solid: false, collision: false, redstone: true });
    let blob = serialize_subchunk(&sc);
    let back = deserialize_subchunk(&blob).unwrap();
    assert_eq!(back.get(0, 0, 0), BlockStateId(1));
    assert_eq!(back.get(15, 15, 15), BlockStateId(55));
    assert_eq!(back.solid_mask(), sc.solid_mask());
    assert_eq!(back.redstone_mask(), sc.redstone_mask());
}

#[test]
fn bad_magic_and_truncation_are_errors() {
    assert_eq!(deserialize_subchunk(b"XXXX").unwrap_err(), FormatError::BadMagic);
    assert_eq!(deserialize_subchunk(b"ASC1").unwrap_err(), FormatError::Truncated);
}

#[test]
fn corrupt_blobs_are_rejected() {
    let sc = SubChunk::new();
    let blob = serialize_subchunk(&sc);
    // Zero palette entries.
    let mut empty = blob.clone();
    empty[4] = 0;
    empty[5] = 0;
    assert_eq!(deserialize_subchunk(&empty).unwrap_err(), FormatError::Invalid("empty palette"));
    // Unsupported width (the byte after 1 id + 1 flag).
    let mut bad_bits = blob.clone();
    bad_bits[11] = 5;
    assert_eq!(deserialize_subchunk(&bad_bits).unwrap_err(), FormatError::Invalid("bits_per_entry"));
    // Wrong word count.
    let mut bad_words = blob.clone();
    bad_words[12] = 1;
    assert_eq!(deserialize_subchunk(&bad_words).unwrap_err(), FormatError::Invalid("packed word count"));
    // An index pointing past the one-entry palette.
    let mut bad_index = blob.clone();
    bad_index[14] = 1;
    assert_eq!(deserialize_subchunk(&bad_index).unwrap_err(), FormatError::Invalid("palette index"));
    // Cut short inside the words.
    assert_eq!(deserialize_subchunk(&blob[..100]).unwrap_err(), FormatError::Truncated);
}

#[test]
fn key_encoding_is_order_preserving() {
    let a = SubChunkKey::new(-10, -1, 5).encode();
    let b = SubChunkKey::new(-10, 0, 5).encode();
    let c = SubChunkKey::new(-9, -1, 5).encode();
    assert!(a < b, "cy ordering");
    assert!(b < c, "cx ordering dominates");
    assert!(SubChunkKey::new(-1, 0, 0).encode() < SubChunkKey::new(1, 0, 0).encode());
}

#[test]
fn key_round_trips() {
    for k in [SubChunkKey::new(0, 0, 0), SubChunkKey::new(-2048, -4, 2048), SubChunkKey::new(i32::MIN, i8::MIN, i32::MAX)] {
        assert_eq!(SubChunkKey::decode(&k.encode()), Some(k));
    }
    assert_eq!(SubChunkKey::decode(&[0u8; 8]), None);
}

#[test]
fn key_encoding_exact_bytes() {
    assert_eq!(SubChunkKey::new(0, 0, 0).encode(), [0x80, 0, 0, 0, 0x80, 0, 0, 0, 0x80]);
    assert_eq!(SubChunkKey::new(-1, -1, 1).encode(), [0x7f, 0xff, 0xff, 0xff, 0x80, 0, 0, 1, 0x7f]);
}

fn sample_subchunk() -> SubChunk {
    let mut sc = SubChunk::new();
    for i in 0..16 {
        sc.set(i, 0, 0, BlockStateId(i as u32 + 1), BlockProperties::solid());
    }
    sc.set(1, 1, 1, BlockStateId(55), BlockProperties { solid: false, collision: false, redstone: true });
    sc
}

#[test]
fn codec_round_trips() {
    let data = b"the quick brown fox jumps over the lazy dog".repeat(10);
    let packed = compress(&data).unwrap();
    assert_ne!(packed, data);
    assert_eq!(decompress(&packed).unwrap(), data);
}

#[test]
fn save_and_load_via_memstore() {
    let mut storage = WorldStorage::new(MemStore::new());
    let key = SubChunkKey::new(3, 2, -7);
    let sc = sample_subchunk();
    storage.save(key, &sc).unwrap();
    let loaded = storage.load(key).unwrap().expect("sub-chunk should exist");
    for i in 0..16 {
        assert_eq!(loaded.get(i, 0, 0), BlockStateId(i as u32 + 1));
    }
    assert_eq!(loaded.redstone_mask(), sc.redstone_mask());
    assert_eq!(loaded.solid_mask(), sc.solid_mask());
    assert_eq!(storage.backend().len(), 1);
}

#[test]
fn load_missing_is_none() {
    let storage = WorldStorage::new(MemStore::new());
    assert!(storage.load(SubChunkKey::new(0, 0, 0)).unwrap().is_none());
}

#[test]
fn delete_removes() {
    let mut storage = WorldStorage::new(MemStore::new());
    let key = SubChunkKey::new(1, 1, 1);
    storage.save(key, &sample_subchunk()).unwrap();
    assert!(storage.load(key).unwrap().is_some());
    storage.delete(key).unwrap();
    assert!(storage.load(key).unwrap().is_none());
    assert!(storage.backend().is_empty());
    assert!(storage.flush().is_ok());
}

#[test]
fn well_known_ids_are_fixed() {
    let r = BlockRegistry::new();
    for (name, id) in [
        ("minecraft:air", ids::AIR),
        ("minecraft:stone", ids::STONE),
        ("minecraft:dirt", ids::DIRT),
        ("minecraft:grass_block", ids::GRASS_BLOCK),
        ("minecraft:bedrock", ids::BEDROCK),
        ("minecraft:water", ids::WATER),
        ("minecraft:sand", ids::SAND),
        ("minecraft:gravel", ids::GRAVEL),
        ("minecraft:oak_log", ids::OAK_LOG),
        ("minecraft:oak_leaves", ids::OAK_LEAVES),
        ("minecraft:redstone_wire", ids::REDSTONE_WIRE),
        ("minecraft:torch", ids::TORCH),
        ("minecraft:glowstone", ids::GLOWSTONE),
        ("minecraft:cobblestone", ids::COBBLESTONE),
        ("minecraft:oak_planks", ids::OAK_PLANKS),
        ("minecraft:mossy_cobblestone", ids::MOSSY_COBBLESTONE),
        ("minecraft:chest", ids::CHEST),
        ("minecraft:spawner", ids::SPAWNER),
    ] {
        let id = BlockStateId(id);
        assert_eq!(r.get(name), Some(id), "name->id for {name}");
        assert_eq!(r.name_of(id), Some(name), "id->name for {name}");
    }
    assert!(!r.props_of(BlockStateId(ids::WATER)).collision);
    assert!(r.props_of(BlockStateId(ids::STONE)).solid);
    assert_eq!(r.emission_of(BlockStateId(ids::TORCH)), 14);
    assert_eq!(r.emission_of(BlockStateId(ids::GLOWSTONE)), 15);
    assert!(!r.props_of(BlockStateId(ids::TORCH)).solid);
    assert!(r.props_of(BlockStateId(ids::GLOWSTONE)).solid);
}

#[test]
fn unknown_blocks_intern_after_seed() {
    let mut r = BlockRegistry::new();
    let base = r.len();
    let id = r.intern("modid:fancy_block");
    assert_eq!(id, BlockStateId(base as u32));
    assert!(r.props_of(id).solid);
    assert_eq!(r.intern("modid:fancy_block"), id);
    assert_eq!(r.len(), base + 1);
    assert!(!r.is_empty());
}

#[test]
fn inference_matches_family() {
    let mut r = BlockRegistry::new();
    assert_eq!(r.intern_full("minecraft:cave_air").1, BlockProperties::air());
    assert!(!r.intern_full("minecraft:cobblestone").1.redstone);
    assert!(r.intern_full("minecraft:cobblestone").1.solid);
    assert!(r.intern_full("minecraft:sticky_piston").1.redstone);
    assert!(!r.intern_full("minecraft:tall_grass").1.collision);
    assert!(r.intern_full("modid:grass_block_variant").1.solid);
    let gb = BlockRegistry::infer("minecraft:grass_block");
    assert!(gb.solid && gb.collision);
    assert!(BlockRegistry::infer("minecraft:oak_stairs").collision);
}

#[test]
fn emission_inference_matches_light_sources() {
    let mut r = BlockRegistry::new();
    assert_eq!(r.emission_of(BlockStateId(ids::STONE)), 0);
    assert_eq!(r.emission_of(BlockStateId(ids::REDSTONE_WIRE)), 0);
    for (name, want) in [
        ("minecraft:glowstone", 15u8),
        ("minecraft:torch", 14),
        ("minecraft:wall_torch", 14),
        ("minecraft:lantern", 15),
        ("minecraft:sea_lantern", 15),
        ("minecraft:end_rod", 14),
        ("minecraft:magma_block", 3),
        ("minecraft:lava", 15),
        ("minecraft:cobblestone", 0),
        ("minecraft:redstone_torch", 7),
        ("minecraft:redstone_wall_torch", 7),
        ("minecraft:soul_torch", 10),
        ("minecraft:soul_lantern", 10),
    ] {
        let id = r.intern(name);
        assert_eq!(r.emission_of(id), want, "emission for {name}");
    }
    assert_eq!(r.emission_of(BlockStateId(9_999)), 0);
}

#[test]
fn emission_of_plain_names_without_namespace() {
    assert_eq!(BlockRegistry::infer_emission("fire"), 15);
    assert_eq!(BlockRegistry::infer_emission("brown_mushroom"), 1);
    assert_eq!(BlockRegistry::infer_emission("a:b:glow_lichen"), 7);
    assert_eq!(BlockRegistry::infer("void_air"), BlockProperties::air());
}

#[test]
fn save_and_load_via_fjall() {
    let store = FjallStore::open("/tmp/aether-fjall-test-save-and-load").unwrap();
    let mut storage = WorldStorage::new(store);
    let key = SubChunkKey::new(-4, 3, 9);
    let sc = sample_subchunk();
    storage.save(key, &sc).unwrap();
    storage.flush().unwrap();
    let loaded = storage.load(key).unwrap().expect("persisted");
    assert_eq!(loaded.solid_mask(), sc.solid_mask());
    // Leave the store empty for the next run.
    storage.delete(key).unwrap();
    assert!(storage.load(key).unwrap().is_none());
}

#[test]
fn setting_back_to_air_empties_a_subchunk() {
    let mut sc = SubChunk::new();
    assert!(sc.is_empty());
    sc.set(5, 5, 5, BlockStateId(1), BlockProperties { solid: true, collision: true, redstone: false });
    assert!(!sc.is_empty());
    sc.set(5, 5, 5, BlockStateId::air(), BlockProperties::air());
    assert!(sc.is_empty());
}

#[test]
fn fjall_refuses_an_empty_key() {
    let mut store = FjallStore::open("/tmp/aether-fjall-test-empty-key").unwrap();
    assert!(store.put(&[], &[1, 2, 3]).is_err());
    assert!(store.delete(&[]).is_err());
}
