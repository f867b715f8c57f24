use aether::block::BlockStateId;
use aether::vanilla_registry::VanillaRegistry;
use aether::vanilla_section::{decode_section, ProxyError, SectionReader};
use aether::varint::write_varint;

#[test]
fn vanilla_registry_air_is_always_zero() {
    let r = VanillaRegistry::new();
    assert_eq!(r.resolve(0).0, BlockStateId::air());
}

#[test]
fn registered_states_resolve_by_name() {
    let mut r = VanillaRegistry::new();
    r.register(1, "minecraft:stone");
    let (id, props) = r.resolve(1);
    assert_eq!(r.blocks().name_of(id), Some("minecraft:stone"));
    assert!(props.solid);
}

#[test]
fn unknown_states_fall_back_to_solid() {
    let r = VanillaRegistry::new();
    let (_, props) = r.resolve(9999);
    assert!(props.solid, "unknown blocks should be solid, not holes");
}

/// Encode an indirect block-states section: palette `[air, stone]`,
/// bits=4, with `set` giving the block indices that should be stone.
fn encode_indirect(set: &[(usize, usize, usize)]) -> Vec<u8> {
    let bits = 4usize;
    let per_long = 64 / bits;
    let words = 4096 / per_long; // 256
    let mut data = vec![0u64; words];
    for &(x, y, z) in set {
        let i = y * 256 + z * 16 + x;
        let long_idx = i / per_long;
        let within = i % per_long;
        data[long_idx] |= 1u64 << (within * bits); // palette index 1 = stone
    }

    let mut buf = Vec::new();
    buf.extend_from_slice(&(set.len() as i16).to_be_bytes()); // block_count
    buf.push(bits as u8);
    write_varint(2, &mut buf); // palette len
    write_varint(0, &mut buf); // air state id
    write_varint(1, &mut buf); // stone state id
    write_varint(words as i32, &mut buf); // data length
    for w in data {
        // Data words are fixed 8-byte big-endian, not VarInts.
        buf.extend_from_slice(&w.to_be_bytes());
    }
    buf
}

fn registry() -> VanillaRegistry {
    let mut r = VanillaRegistry::new();
    r.register_all(&[(0u32, "minecraft:air"), (1u32, "minecraft:stone")]);
    r
}

#[test]
fn decodes_indirect_section() {
    let buf = encode_indirect(&[(0, 0, 0), (1, 2, 3), (15, 15, 15)]);
    let sc = decode_section(&buf, &registry()).unwrap();
    assert_ne!(sc.get(0, 0, 0), BlockStateId::air());
    assert_ne!(sc.get(1, 2, 3), BlockStateId::air());
    assert_ne!(sc.get(15, 15, 15), BlockStateId::air());
    assert_eq!(sc.get(2, 0, 0), BlockStateId::air());
    assert_eq!(sc.solid_mask().count(), 3);
}

#[test]
fn decodes_single_valued_section() {
    // bits=0, single value = stone(1).
    let mut buf = Vec::new();
    buf.extend_from_slice(&4096i16.to_be_bytes());
    buf.push(0);
    write_varint(1, &mut buf); // stone
    write_varint(0, &mut buf); // data length 0
    let sc = decode_section(&buf, &registry()).unwrap();
    assert_eq!(sc.solid_mask().count(), 4096);
}

#[test]
fn single_valued_air_is_empty() {
    let mut buf = Vec::new();
    buf.extend_from_slice(&0i16.to_be_bytes());
    buf.push(0);
    write_varint(0, &mut buf); // air
    write_varint(0, &mut buf);
    let sc = decode_section(&buf, &registry()).unwrap();
    assert!(sc.is_empty());
}

#[test]
fn truncated_buffer_errors() {
    assert_eq!(decode_section(&[0x00], &registry()).unwrap_err(), ProxyError::UnexpectedEof);
}

#[test]
fn malformed_headers_are_rejected() {
    let reg = registry();
    // bits_per_entry out of range
    assert_eq!(decode_section(&[0, 0, 40], &reg).unwrap_err(), ProxyError::Invalid("bits_per_entry"));
    // indirect palette of length 0
    assert_eq!(decode_section(&[0, 0, 4, 0], &reg).unwrap_err(), ProxyError::Invalid("palette length"));
    // indirect palette with no data words
    assert_eq!(decode_section(&[0, 0, 4, 1, 1, 0], &reg).unwrap_err(), ProxyError::Invalid("missing data array"));
    // an unterminated VarInt
    assert_eq!(decode_section(&[0, 0, 0, 0x80], &reg).unwrap_err(), ProxyError::BadVarInt);
    // more data words declared than present
    assert_eq!(decode_section(&[0, 0, 9, 2, 0, 0, 0, 0, 0, 0, 0, 0], &reg).unwrap_err(), ProxyError::UnexpectedEof);
}

#[test]
fn direct_sections_use_raw_state_ids_and_reader_advances() {
    let reg = registry();
    // bits=16 (direct): 4 entries per word; block 1 = state 1 (stone), block 2 = unknown state 7.
    let mut buf = Vec::new();
    buf.extend_from_slice(&0i16.to_be_bytes());
    buf.push(16);
    write_varint(1024, &mut buf);
    let mut words = vec![0u64; 1024];
    words[0] = (1u64 << 16) | (7u64 << 32);
    for w in &words {
        buf.extend_from_slice(&w.to_be_bytes());
    }
    buf.extend_from_slice(&[0xAA, 0xBB]); // trailing bytes of the next field
    let mut reader = SectionReader::new(&buf);
    let sc = reader.read_block_states(&reg).unwrap();
    assert_eq!(reader.position(), buf.len() - 2);
    assert_eq!(sc.get(1, 0, 0), reg.resolve(1).0);
    assert_eq!(sc.get(2, 0, 0), reg.resolve(7).0);
    assert_eq!(sc.get(0, 0, 0), BlockStateId::air());
    assert_eq!(sc.solid_mask().count(), 2);
}
