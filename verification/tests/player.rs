use aether::player::{fnv1a64, hyphenated_uuid, offline_uuid, GameMode};

#[test]
fn game_modes_use_protocol_numbers() {
    assert_eq!(GameMode::Survival.as_u8(), 0);
    assert_eq!(GameMode::Creative.as_u8(), 1);
    assert_eq!(GameMode::Adventure.as_u8(), 2);
    assert_eq!(GameMode::Spectator.as_u8(), 3);
}

#[test]
fn offline_uuid_is_stable_and_well_formed() {
    let a = offline_uuid("Steve");
    assert_eq!(a, offline_uuid("Steve"), "same name -> same offline uuid");
    assert_ne!(a, offline_uuid("Alex"));
    let hy = hyphenated_uuid(a);
    assert_eq!(hy.len(), 36);
    assert_eq!(hy.as_bytes()[14], b'3', "version nibble is 3");
    assert!(matches!(hy.as_bytes()[19], b'8' | b'9' | b'a' | b'b'));
    assert_eq!(hy, format!("{:032x}", a).chars().enumerate().fold(String::new(), |mut s, (i, c)| {
        if i == 8 || i == 12 || i == 16 || i == 20 {
            s.push('-');
        }
        s.push(c);
        s
    }));
}

#[test]
fn fnv_matches_reference_values() {
    // One step: xor the byte in, multiply by 0x1000_0000_01b3 (wrapping).
    assert_eq!(fnv1a64(b"", 0xcbf2_9ce4_8422_2325), 0xcbf2_9ce4_8422_2325);
    assert_eq!(fnv1a64(b"a", 0xcbf2_9ce4_8422_2325), 0xaf74_d84c_8601_ec8c);
    assert_eq!(hyphenated_uuid(0x0123_4567_89ab_cdef_0011_2233_4455_6677), "01234567-89ab-cdef-0011-223344556677");
}

#[test]
fn uuid_is_stable_and_well_formed() {
    let a = offline_uuid("Steve");
    let b = offline_uuid("Steve");
    assert_eq!(a, b, "same name -> same offline uuid");
    let hy = hyphenated_uuid(a);
    assert_eq!(hy.len(), 36);
    assert_eq!(hy.as_bytes()[14], b'3', "version nibble is 3");
    assert!(matches!(hy.as_bytes()[19], b'8' | b'9' | b'a' | b'b'));
}

#[test]
fn different_names_differ() {
    assert_ne!(offline_uuid("Alex"), offline_uuid("Steve"));
}
