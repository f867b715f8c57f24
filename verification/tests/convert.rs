use aether::anvil::DecodedChunk;
use aether::block::{BlockProperties, BlockStateId};
use aether::convert::{fnv1a, section_checksum, store_chunks, ConversionReport};
use aether::format::SubChunkKey;
use aether::storage::{MemStore, WorldStorage};
use aether::subchunk::SubChunk;

#[test]
fn empty_report_is_clean() {
    let mut report = ConversionReport::default();
    assert!(report.is_clean());
    assert_eq!((report.regions, report.sections, report.checksum), (0, 0, 0));
    report.errors.push("chunk local (0,0): eof".to_string());
    assert!(!report.is_clean());
}

#[test]
fn checksum_is_fnv_of_key_count_and_palette_size() {
    let mut sc = SubChunk::new();
    sc.set(1, 2, 3, BlockStateId(1), BlockProperties::solid());
    let key = SubChunkKey::new(-1, 2, 3);
    let mut buf = key.encode().to_vec();
    buf.extend_from_slice(&1u32.to_le_bytes());
    buf.extend_from_slice(&2u32.to_le_bytes());
    assert_eq!(section_checksum(key, &sc), fnv1a(&buf));
    assert_eq!(fnv1a(&[]), 0xcbf2_9ce4_8422_2325);
}

#[test]
fn stored_chunks_can_be_loaded_back() {
    let mut storage = WorldStorage::new(MemStore::new());
    let mut a = SubChunk::new();
    a.set(0, 0, 0, BlockStateId(1), BlockProperties::solid());
    let mut b = SubChunk::new();
    b.set(15, 15, 15, BlockStateId(2), BlockProperties::solid());
    let chunks = vec![
        DecodedChunk { cx: 4, cz: -7, sections: vec![(0, a), (3, b)] },
        DecodedChunk { cx: 5, cz: -7, sections: vec![] },
    ];
    let tally = store_chunks(chunks, &mut storage);
    assert_eq!(tally.chunks, 2);
    assert_eq!(tally.sections, 2);
    assert!(tally.failures.is_empty());
    let back = storage.load(SubChunkKey::new(4, 3, -7)).unwrap().unwrap();
    assert_eq!(back.get(15, 15, 15), BlockStateId(2));
    let mut expected = 0u64;
    for (cy, sc) in [(0i8, storage.load(SubChunkKey::new(4, 0, -7)).unwrap().unwrap()), (3, back)] {
        expected ^= section_checksum(SubChunkKey::new(4, cy, -7), &sc);
    }
    assert_eq!(tally.checksum, expected);
}
