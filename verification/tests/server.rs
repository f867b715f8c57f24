use aether::server::{join_game_packet, status_json_text, status_response, Config, ServerConfig, SAMPLE};
use aether::player::GameMode;
use aether::block::BlockStateId;
use aether::ids;
use aether::server::{chunk_column_packet, chunk_data_packet, encode_position, full_light, json_escape, vanilla_id};

#[test]
fn vanilla_mapping_covers_flat_blocks() {
    assert_eq!(vanilla_id(BlockStateId(ids::AIR)), 0);
    assert_eq!(vanilla_id(BlockStateId(ids::BEDROCK)), 7);
    assert_eq!(vanilla_id(BlockStateId(ids::DIRT)), 3);
    assert_eq!(vanilla_id(BlockStateId(ids::GRASS_BLOCK)), 2);
}

#[test]
fn unknown_blocks_are_sent_as_stone() {
    assert_eq!(vanilla_id(BlockStateId(ids::OAK_LEAVES)), 18);
    assert_eq!(vanilla_id(BlockStateId(ids::CHEST)), 1);
    assert_eq!(vanilla_id(BlockStateId(9999)), 1);
    assert!(full_light().iter().all(|&b| b == 0xFF));
    assert_eq!(full_light().len(), 2048);
}

#[test]
fn flat_column_has_one_section() {
    // A flat column: bedrock/dirt/grass in section 0, air above.
    let get = |_x: i32, y: i32, _z: i32| {
        if y == 0 {
            BlockStateId(ids::BEDROCK)
        } else if (1..=2).contains(&y) {
            BlockStateId(ids::DIRT)
        } else if y == 3 {
            BlockStateId(ids::GRASS_BLOCK)
        } else {
            BlockStateId(ids::AIR)
        }
    };
    let pkt = chunk_data_packet(0, 0, &get);
    // Payload should be substantial (one section + biomes) and non-empty.
    let wire = pkt.frame();
    // 8192 blocks + 2048 + 2048 + 256 biomes + headers ≈ 12.5 KiB.
    assert!(wire.len() > 12_000, "unexpected chunk size {}", wire.len());
}

#[test]
fn column_packet_layout_is_exact() {
    // Only (x=1, y=17, z=2) is stone: section 1 is the one present.
    let mut column = vec![BlockStateId(ids::AIR); 65536];
    column[17 * 256 + 2 * 16 + 1] = BlockStateId(ids::STONE);
    let body = chunk_column_packet(-2, 3, &column).body().to_vec();
    assert_eq!(body[0], 0x21);
    assert_eq!(&body[1..5], &(-2i32).to_be_bytes());
    assert_eq!(&body[5..9], &3i32.to_be_bytes());
    assert_eq!(body[9], 1);
    assert_eq!(&body[10..12], &2u16.to_be_bytes());
    // data length 8192 + 4096 + 256 = 12544 = VarInt [0x80, 0x62]
    assert_eq!(&body[12..14], &[0x80, 0x62]);
    let data = &body[14..];
    assert_eq!(data.len(), 12544);
    let i = 1 * 256 + 2 * 16 + 1;
    assert_eq!(&data[2 * i..2 * i + 2], &[0x10, 0x00]);
    assert_eq!(&data[0..2], &[0, 0]);
    assert!(data[8192..12288].iter().all(|&b| b == 0xFF));
    assert!(data[12288..].iter().all(|&b| b == 1));
}

#[test]
fn position_encoding_matches_1_8() {
    // Round-trip a couple of values against the documented layout.
    let enc = encode_position(8, 4, 8);
    let x = (enc >> 38) as i32;
    let y = ((enc << 26) >> 52) as i32; // sign-extend 12-bit middle field
    let z = ((enc << 38) >> 38) as i32;
    assert_eq!(x, 8);
    assert_eq!(y, 4);
    assert_eq!(z, 8);
}

#[test]
fn negative_positions_round_trip() {
    let enc = encode_position(-5, -1, -33554432);
    assert_eq!(enc >> 38, -5);
    assert_eq!((enc << 26) >> 52, -1);
    assert_eq!((enc << 38) >> 38, -33554432);
}

#[test]
fn json_escape_handles_quotes() {
    assert_eq!(json_escape(r#"a"b\c"#), r#"a\"b\\c"#);
    assert_eq!(json_escape("line\nbreak"), "line\\nbreak");
}

#[test]
fn default_config_matches_the_sample() {
    let cfg = Config::default();
    assert_eq!(cfg.server.host, "0.0.0.0");
    assert_eq!(cfg.server.port, 25565);
    assert_eq!(cfg.server.max_players, 20);
    assert_eq!(cfg.server.view_radius, 5);
    assert!(SAMPLE.contains("port = 25565"));
    assert!(SAMPLE.contains("view_radius = 5"));
}

#[test]
fn status_json_reports_players_and_escaped_motd() {
    let mut cfg = ServerConfig::default();
    cfg.motd = "say \"hi\"".to_string();
    cfg.max_players = 123;
    assert_eq!(
        status_json_text(&cfg),
        "{\"version\":{\"name\":\"Aether 1.8.9\",\"protocol\":47},\"players\":{\"max\":123,\"online\":0,\"sample\":[]},\"description\":{\"text\":\"say \\\"hi\\\"\"}}"
    );
    let p = status_response(&cfg);
    let body = p.body();
    assert_eq!(body[0], 0x00);
    let json = status_json_text(&cfg);
    assert!(body.ends_with(json.as_bytes()));
    let prefix = body.len() - json.len();
    let mut len = 0usize;
    for (i, b) in body[1..prefix].iter().enumerate() {
        len |= ((b & 0x7f) as usize) << (7 * i);
    }
    assert_eq!(len, json.len());
}

#[test]
fn join_game_caps_players_at_255() {
    let p = join_game_packet(7, GameMode::Creative, 1000);
    assert_eq!(p.body(), &[0x01, 0, 0, 0, 7, 1, 0, 0, 255, 4, b'f', b'l', b'a', b't', 0][..]);
    let q = join_game_packet(-1, GameMode::Survival, 20);
    assert_eq!(q.body(), &[0x01, 0xff, 0xff, 0xff, 0xff, 0, 0, 0, 20, 4, b'f', b'l', b'a', b't', 0][..]);
}
