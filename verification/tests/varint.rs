use aether::varint::{read_varint, read_varlong, write_varint, write_varlong, VarIntError};

#[test]
fn varint_round_trips_edge_values() {
    for v in [0, 1, 2, 127, 128, 255, 25565, i32::MAX, -1, i32::MIN] {
        let mut buf = Vec::new();
        write_varint(v, &mut buf);
        let (got, n) = read_varint(&buf).unwrap();
        assert_eq!(got, v, "value {v}");
        assert_eq!(n, buf.len());
    }
}

#[test]
fn known_encodings_match_spec() {
    let mut buf = Vec::new();
    write_varint(0, &mut buf);
    assert_eq!(buf, [0x00]);
    buf.clear();
    write_varint(128, &mut buf);
    assert_eq!(buf, [0x80, 0x01]);
    buf.clear();
    write_varint(-1, &mut buf);
    assert_eq!(buf, [0xff, 0xff, 0xff, 0xff, 0x0f]);
}

#[test]
fn varlong_round_trips() {
    for v in [0i64, 1, 127, 128, i64::MAX, -1, i64::MIN] {
        let mut buf = Vec::new();
        write_varlong(v, &mut buf);
        let (got, n) = read_varlong(&buf).unwrap();
        assert_eq!(got, v);
        assert_eq!(n, buf.len());
    }
}

#[test]
fn truncated_and_overlong_are_errors() {
    assert_eq!(read_varint(&[]), Err(VarIntError::UnexpectedEof));
    assert_eq!(read_varint(&[0x80]), Err(VarIntError::UnexpectedEof));
    assert_eq!(
        read_varint(&[0x80, 0x80, 0x80, 0x80, 0x80, 0x01]),
        Err(VarIntError::TooLong)
    );
}

#[test]
fn varint_decoding_ignores_trailing_bytes() {
    let mut buf = Vec::new();
    write_varint(300, &mut buf);
    assert_eq!(buf, [0xac, 0x02]);
    buf.extend_from_slice(&[0xff, 0xff]);
    assert_eq!(read_varint(&buf), Ok((300, 2)));
}

#[test]
fn varlong_known_encoding_and_errors() {
    let mut buf = Vec::new();
    write_varlong(-1, &mut buf);
    assert_eq!(buf.len(), 10);
    assert_eq!(buf[9], 0x01);
    assert_eq!(read_varlong(&[0x80; 10]), Err(VarIntError::TooLong));
    assert_eq!(read_varlong(&[0xff, 0xff]), Err(VarIntError::UnexpectedEof));
    assert_eq!(VarIntError::TooLong.message(), "VarInt is longer than its type permits");
}

#[test]
fn fifth_varint_byte_keeps_only_its_low_bits() {
    // Bits beyond the 32nd are dropped, as the 32-bit decoder does.
    assert_eq!(read_varint(&[0xff, 0xff, 0xff, 0xff, 0x7f]), Ok((-1, 5)));
}
