use aether::nbt::{parse, Nbt, NbtError};

/// Build: compound{ "name": "hi", "n": 300i32, "list":[1i8,2i8] }
fn sample() -> Vec<u8> {
    let mut b = Vec::new();
    b.push(10); // root compound
    b.extend_from_slice(&0u16.to_be_bytes()); // root name ""
    // string field
    b.push(8);
    b.extend_from_slice(&4u16.to_be_bytes());
    b.extend_from_slice(b"name");
    b.extend_from_slice(&2u16.to_be_bytes());
    b.extend_from_slice(b"hi");
    // int field
    b.push(3);
    b.extend_from_slice(&1u16.to_be_bytes());
    b.extend_from_slice(b"n");
    b.extend_from_slice(&300i32.to_be_bytes());
    // list of bytes
    b.push(9);
    b.extend_from_slice(&4u16.to_be_bytes());
    b.extend_from_slice(b"list");
    b.push(1); // element type byte
    b.extend_from_slice(&2i32.to_be_bytes());
    b.push(1);
    b.push(2);
    b.push(0); // end root
    b
}

#[test]
fn parses_nested_values() {
    let nbt = parse(&sample()).unwrap();
    assert_eq!(nbt.get("name").and_then(Nbt::as_str), Some("hi"));
    assert_eq!(nbt.get("n").and_then(Nbt::as_i64), Some(300));
    let list = nbt.get("list").and_then(Nbt::as_list).unwrap();
    assert_eq!(list.len(), 2);
    assert_eq!(list[0], Nbt::Byte(1));
}

#[test]
fn rejects_non_compound_root_and_truncation() {
    assert_eq!(parse(&[3, 0, 0]), Err(NbtError::RootNotCompound));
    assert_eq!(parse(&[10, 0, 0, 3]), Err(NbtError::Truncated));
}

#[test]
fn empty_buffer_is_truncated() {
    assert_eq!(parse(&[]), Err(NbtError::Truncated));
}

#[test]
fn unknown_tag_is_reported() {
    // root compound "" holding a field of tag 13
    assert_eq!(parse(&[10, 0, 0, 13, 0, 1, b'x']), Err(NbtError::BadTag(13)));
}

#[test]
fn invalid_utf8_name_is_rejected() {
    assert_eq!(parse(&[10, 0, 1, 0xff, 0]), Err(NbtError::BadString));
}

#[test]
fn arrays_and_wide_numbers_parse() {
    let mut b = vec![10, 0, 0];
    // long array "l" = [1, -2]
    b.push(12);
    b.extend_from_slice(&1u16.to_be_bytes());
    b.extend_from_slice(b"l");
    b.extend_from_slice(&2i32.to_be_bytes());
    b.extend_from_slice(&1i64.to_be_bytes());
    b.extend_from_slice(&(-2i64).to_be_bytes());
    // short "s" = -5
    b.push(2);
    b.extend_from_slice(&1u16.to_be_bytes());
    b.extend_from_slice(b"s");
    b.extend_from_slice(&(-5i16).to_be_bytes());
    // double "d" = 1.5
    b.push(6);
    b.extend_from_slice(&1u16.to_be_bytes());
    b.extend_from_slice(b"d");
    b.extend_from_slice(&1.5f64.to_be_bytes());
    // byte array "b" with a negative length reads as empty
    b.push(7);
    b.extend_from_slice(&1u16.to_be_bytes());
    b.extend_from_slice(b"b");
    b.extend_from_slice(&(-3i32).to_be_bytes());
    b.push(0);
    let nbt = parse(&b).unwrap();
    assert_eq!(nbt.get("l").and_then(Nbt::as_long_array), Some(&[1i64, -2][..]));
    assert_eq!(nbt.get("s").and_then(Nbt::as_i64), Some(-5));
    assert_eq!(nbt.get("d"), Some(&Nbt::Double(1.5f64.to_bits())));
    assert_eq!(nbt.get("b"), Some(&Nbt::ByteArray(Vec::new())));
    assert_eq!(nbt.get("missing"), None);
    // an array whose declared length overruns the buffer is truncated
    let mut t = vec![10, 0, 0, 11, 0, 1, b'i'];
    t.extend_from_slice(&3i32.to_be_bytes());
    t.extend_from_slice(&7i32.to_be_bytes());
    assert_eq!(parse(&t), Err(NbtError::Truncated));
}

#[test]
fn list_claiming_more_items_than_bytes_is_refused() {
    // Root compound "" holding a list "" of 2^31 - 1 end tags, then the end.
    let buf = [10u8, 0, 0, 9, 0, 0, 0, 0x7f, 0xff, 0xff, 0xff, 0, 0];
    assert_eq!(parse(&buf), Err(NbtError::Truncated));
}

#[test]
fn non_empty_list_of_end_tags_is_refused() {
    let buf = [10u8, 0, 0, 9, 0, 0, 0, 0, 0, 0, 2, 0, 0, 0];
    assert_eq!(parse(&buf), Err(NbtError::BadTag(0)));
    let empty = [10u8, 0, 0, 9, 0, 0, 0, 0, 0, 0, 0, 0];
    assert!(parse(&empty).is_ok());
}
