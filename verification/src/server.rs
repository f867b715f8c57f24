//! Packets the 1.8.9 server sends: the "Chunk Data" (0x21) packet built from
//! the engine world, packed block positions, and MOTD text escaping.
//!
//! 1.8 column layout, ground-up continuous: for each present 16³ section, an
//! array of `4096` little-endian `u16` block values `(id << 4) | meta`, then a
//! 2048-byte block-light nibble array, then a 2048-byte sky-light nibble array;
//! after all sections, a 256-byte biome map. Light is filled to `0xFF`
//! (full-bright) so the world is always maximally lit.

use vstd::prelude::*;
use crate::block::BlockStateId;
use crate::bytes::{push_u16_le, u16_be, u16_le, u32_be};
use crate::ids;
use crate::names::chars_of;
use crate::player::GameMode;
use crate::text::{digits, push_decimal_u64, push_str};
use crate::proto::PacketOut;
use crate::varint::{leb_bytes, u32_bits};

verus! {

/// Number of 16-block-tall sections in a 1.8 column.
pub const SECTIONS: usize = 16;

/// The vanilla 1.8 numeric block id an engine block is sent as (unknown
/// blocks are sent as stone, so the client always has something solid).
pub open spec fn vanilla_id_spec(id: BlockStateId) -> u16 {
    let r = id.0;
    if r == ids::AIR {
        0
    } else if r == ids::STONE {
        1
    } else if r == ids::GRASS_BLOCK {
        2
    } else if r == ids::DIRT {
        3
    } else if r == ids::BEDROCK {
        7
    } else if r == ids::WATER {
        9
    } else if r == ids::SAND {
        12
    } else if r == ids::GRAVEL {
        13
    } else if r == ids::OAK_LOG {
        17
    } else if r == ids::OAK_LEAVES {
        18
    } else {
        1
    }
}

/// Map an engine block id to a vanilla 1.8 numeric block id.
pub fn vanilla_id(id: BlockStateId) -> (r: u16)
    ensures
        r == vanilla_id_spec(id),
{
    let r = id.0;
    if r == ids::AIR {
        0
    } else if r == ids::STONE {
        1
    } else if r == ids::GRASS_BLOCK {
        2
    } else if r == ids::DIRT {
        3
    } else if r == ids::BEDROCK {
        7
    } else if r == ids::WATER {
        9
    } else if r == ids::SAND {
        12
    } else if r == ids::GRAVEL {
        13
    } else if r == ids::OAK_LOG {
        17
    } else if r == ids::OAK_LEAVES {
        18
    } else {
        1
    }
}

/// The block a vanilla 1.8 numeric id stands for, by the engine's name for
/// it, for the ids the server sends.
pub open spec fn vanilla_block_name(v: u16) -> Option<Seq<char>> {
    if v == 0 {
        Some("minecraft:air"@)
    } else if v == 1 {
        Some("minecraft:stone"@)
    } else if v == 2 {
        Some("minecraft:grass_block"@)
    } else if v == 3 {
        Some("minecraft:dirt"@)
    } else if v == 7 {
        Some("minecraft:bedrock"@)
    } else if v == 9 {
        Some("minecraft:water"@)
    } else if v == 12 {
        Some("minecraft:sand"@)
    } else if v == 13 {
        Some("minecraft:gravel"@)
    } else if v == 17 {
        Some("minecraft:oak_log"@)
    } else if v == 18 {
        Some("minecraft:oak_leaves"@)
    } else {
        None
    }
}

/// Each engine block the client knows is sent as the vanilla id that stands
/// for the same block: for the first ten seeded engine blocks (air, stone,
/// dirt, grass, bedrock, water, sand, gravel, oak log, oak leaves), the
/// vanilla 1.8 block of `vanilla_id` is the block the engine id names. So
/// two different such blocks are never sent alike.
pub proof fn lemma_vanilla_id_keeps_the_block(a: BlockStateId, b: BlockStateId)
    requires
        a.0 <= ids::OAK_LEAVES,
        b.0 <= ids::OAK_LEAVES,
    ensures
        vanilla_block_name(vanilla_id_spec(a)) == Some(crate::registry::seed_names()[a.0 as int]),
        a != b ==> vanilla_id_spec(a) != vanilla_id_spec(b),
{
}

/// A full-bright light array: 2048 bytes = 4096 nibbles, all 15.
pub fn full_light() -> (r: Vec<u8>)
    ensures
        r@ == Seq::new(2048, |_i: int| 0xFFu8),
{
    let mut r: Vec<u8> = Vec::new();
    let mut i: usize = 0;
    while i < 2048
        invariant
            i <= 2048,
            r@ == Seq::new(i as nat, |_i: int| 0xFFu8),
        decreases 2048 - i,
    {
        r.push(0xFF);
        i += 1;
        assert(r@ =~= Seq::new(i as nat, |_i: int| 0xFFu8));
    }
    r
}

/// Little-endian bytes of a run of `u16`s.
pub open spec fn le16s(vs: Seq<u16>) -> Seq<u8>
    decreases vs.len(),
{
    if vs.len() == 0 {
        Seq::empty()
    } else {
        le16s(vs.drop_last()) + u16_le(vs.last())
    }
}

/// The engine block at column index `k` (`k = y * 256 + z * 16 + x`, `y`
/// counted over the whole column).
pub open spec fn section_present(col: Seq<BlockStateId>, sy: int) -> bool {
    exists|i: int| 0 <= i < 4096 && vanilla_id_spec(#[trigger] col[sy * 4096 + i]) != 0
}

/// The block values of section `sy` (meta 0).
pub open spec fn section_values(col: Seq<BlockStateId>, sy: int) -> Seq<u16> {
    Seq::new(4096, |i: int| (vanilla_id_spec(col[sy * 4096 + i]) * 16) as u16)
}

/// The bytes sent for a present section: block values, then full block and
/// sky light.
pub open spec fn section_bytes(col: Seq<BlockStateId>, sy: int) -> Seq<u8> {
    le16s(section_values(col, sy)) + Seq::new(4096, |_i: int| 0xFFu8)
}

/// The data of the first `k` sections (absent ones are not sent).
pub open spec fn sections_data(col: Seq<BlockStateId>, k: nat) -> Seq<u8>
    decreases k,
{
    if k == 0 {
        Seq::empty()
    } else {
        sections_data(col, (k - 1) as nat) + if section_present(col, k - 1) {
            section_bytes(col, k - 1)
        } else {
            Seq::empty()
        }
    }
}

/// The bit mask of present sections among the first `k`.
pub open spec fn sections_mask(col: Seq<BlockStateId>, k: nat) -> nat
    decreases k,
{
    if k == 0 {
        0
    } else {
        sections_mask(col, (k - 1) as nat) + if section_present(col, k - 1) {
            crate::anvil::two_to((k - 1) as nat)
        } else {
            0
        }
    }
}

/// The whole data field: present sections, then the biome map ("plains").
pub open spec fn column_data(col: Seq<BlockStateId>) -> Seq<u8> {
    sections_data(col, 16) + Seq::new(256, |_i: int| 1u8)
}

/// The body of the Chunk Data packet for column `(cx, cz)`.
pub open spec fn chunk_body(cx: i32, cz: i32, col: Seq<BlockStateId>) -> Seq<u8> {
    leb_bytes(u32_bits(0x21)) + u32_be(cx as u32) + u32_be(cz as u32) + seq![1u8] + u16_be(
        sections_mask(col, 16) as u16,
    ) + leb_bytes(u32_bits(column_data(col).len() as i32)) + column_data(col)
}

proof fn lemma_mask_bound(col: Seq<BlockStateId>, k: nat)
    ensures
        sections_mask(col, k) < crate::anvil::two_to(k),
    decreases k,
{
    if k > 0 {
        lemma_mask_bound(col, (k - 1) as nat);
    }
}

proof fn lemma_data_len(col: Seq<BlockStateId>, k: nat)
    ensures
        sections_data(col, k).len() <= k * 12288,
    decreases k,
{
    if k > 0 {
        lemma_data_len(col, (k - 1) as nat);
        lemma_le16s_len(section_values(col, k - 1));
    }
}

proof fn lemma_le16s_len(vs: Seq<u16>)
    ensures
        le16s(vs).len() == 2 * vs.len(),
    decreases vs.len(),
{
    if vs.len() > 0 {
        lemma_le16s_len(vs.drop_last());
    }
}

/// Build the Chunk Data packet for column `(cx, cz)` from a snapshot of its
/// blocks: `column[y * 256 + z * 16 + x]` for `y` in `0..256`.
pub fn chunk_column_packet(cx: i32, cz: i32, column: &Vec<BlockStateId>) -> (p: PacketOut)
    requires
        column@.len() == 65536,
    ensures
        p.body_seq() == chunk_body(cx, cz, column@),
{
    let ghost col = column@;
    let mut data: Vec<u8> = Vec::new();
    let mut bitmask: u32 = 0;
    let mut bit: u32 = 1;
    let mut sy: usize = 0;
    while sy < SECTIONS
        invariant
            sy <= 16,
            col == column@,
            col.len() == 65536,
            data@ == sections_data(col, sy as nat),
            bitmask == sections_mask(col, sy as nat),
            bit == crate::anvil::two_to(sy as nat),
        decreases 16 - sy,
    {
        let mut vals: Vec<u16> = Vec::new();
        let mut any = false;
        let mut i: usize = 0;
        while i < 4096
            invariant
                i <= 4096,
                sy < 16,
                col == column@,
                col.len() == 65536,
                vals@ == section_values(col, sy as int).take(i as int),
                any == exists|j: int| 0 <= j < i && vanilla_id_spec(#[trigger] col[sy * 4096 + j]) != 0,
            decreases 4096 - i,
        {
            let v = vanilla_id(column[sy * 4096 + i]);
            if v != 0 {
                any = true;
            }
            vals.push(v * 16);
            i += 1;
            assert(vals@ =~= section_values(col, sy as int).take(i as int));
        }
        proof {
            lemma_mask_bound(col, sy as nat);
            assert(crate::anvil::two_to((sy + 1) as nat) == 2 * crate::anvil::two_to(sy as nat));
            assert(crate::anvil::two_to(16) == 65536) by {
                reveal_with_fuel(crate::anvil::two_to, 17);
            }
            if sy < 16 {
                assert(crate::anvil::two_to(sy as nat) <= crate::anvil::two_to(15)) by {
                    lemma_two_to_mono(sy as nat, 15);
                }
            }
        }
        if any {
            bitmask = bitmask + bit;
            let ghost before = data@;
            let mut j: usize = 0;
            assert(section_values(col, sy as int).take(0) =~= Seq::<u16>::empty());
            while j < 4096
                invariant
                    j <= 4096,
                    vals@ == section_values(col, sy as int),
                    data@ == before + le16s(vals@.take(j as int)),
                decreases 4096 - j,
            {
                push_u16_le(&mut data, vals[j]);
                proof {
                    assert(vals@.take(j + 1).drop_last() =~= vals@.take(j as int));
                    assert(before + le16s(vals@.take(j as int)) + u16_le(vals@[j as int]) =~= before + (le16s(
                        vals@.take(j as int),
                    ) + u16_le(vals@[j as int])));
                }
                j += 1;
            }
            let light = full_light();
            let mut k: usize = 0;
            let ghost mid = data@;
            while k < 4096
                invariant
                    k <= 4096,
                    light@ == Seq::new(2048, |_i: int| 0xFFu8),
                    data@ == mid + Seq::new(k as nat, |_i: int| 0xFFu8),
                decreases 4096 - k,
            {
                data.push(light[k % 2048]);
                k += 1;
                assert(data@ =~= mid + Seq::new(k as nat, |_i: int| 0xFFu8));
            }
            proof {
                assert(vals@.take(4096) =~= vals@);
                assert(data@ =~= sections_data(col, sy as nat) + section_bytes(col, sy as int));
            }
        } else {
            proof {
                assert(!section_present(col, sy as int));
                assert(data@ =~= sections_data(col, sy as nat) + Seq::<u8>::empty());
            }
        }
        bit = bit * 2;
        sy += 1;
    }
    let ghost before = data@;
    let mut b: usize = 0;
    while b < 256
        invariant
            b <= 256,
            data@ == before + Seq::new(b as nat, |_i: int| 1u8),
        decreases 256 - b,
    {
        data.push(1);
        b += 1;
        assert(data@ =~= before + Seq::new(b as nat, |_i: int| 1u8));
    }
    proof {
        lemma_data_len(col, 16);
        lemma_mask_bound(col, 16);
        assert(crate::anvil::two_to(16) == 65536) by {
            reveal_with_fuel(crate::anvil::two_to, 17);
        }
    }
    let mut p = PacketOut::new(0x21);
    p.i32(cx);
    p.i32(cz);
    p.bool(true);
    p.u16(bitmask as u16);
    p.var_int(data.len() as i32);
    p.bytes(data.as_slice());
    p
}

proof fn lemma_two_to_mono(a: nat, b: nat)
    requires
        a <= b,
    ensures
        crate::anvil::two_to(a) <= crate::anvil::two_to(b),
    decreases b,
{
    if a < b {
        lemma_two_to_mono(a, (b - 1) as nat);
    }
}

/// The absolute block position column index `k` of chunk `(cx, cz)` stands for.
pub open spec fn column_pos(cx: i32, cz: i32, k: int) -> (i32, i32, i32) {
    ((cx * 16 + k % 16) as i32, (k / 256) as i32, (cz * 16 + (k / 16) % 16) as i32)
}

/// Build the Chunk Data packet for column `(cx, cz)`.
///
/// `get` returns the engine block id at absolute `(x, y, z)`; it is asked
/// once for every block of the column, and the packet is built from its
/// answers.
pub fn chunk_data_packet<F: Fn(i32, i32, i32) -> BlockStateId>(cx: i32, cz: i32, get: &F) -> (p: PacketOut)
    requires
        i32::MIN <= cx * 16,
        cx * 16 + 15 <= i32::MAX,
        i32::MIN <= cz * 16,
        cz * 16 + 15 <= i32::MAX,
        forall|x: i32, y: i32, z: i32| get.requires((x, y, z)),
    ensures
        exists|col: Seq<BlockStateId>|
            col.len() == 65536 && (forall|k: int|
                0 <= k < 65536 ==> get.ensures(column_pos(cx, cz, k), #[trigger] col[k]))
                && p.body_seq() == chunk_body(cx, cz, col),
{
    let mut column: Vec<BlockStateId> = Vec::new();
    let mut k: usize = 0;
    while k < 65536
        invariant
            k <= 65536,
            i32::MIN <= cx * 16,
            cx * 16 + 15 <= i32::MAX,
            i32::MIN <= cz * 16,
            cz * 16 + 15 <= i32::MAX,
            forall|x: i32, y: i32, z: i32| get.requires((x, y, z)),
            column@.len() == k,
            forall|j: int| 0 <= j < k ==> get.ensures(column_pos(cx, cz, j), #[trigger] column@[j]),
        decreases 65536 - k,
    {
        let x = cx * 16 + (k % 16) as i32;
        let y = (k / 256) as i32;
        let z = cz * 16 + ((k / 16) % 16) as i32;
        let id = get(x, y, z);
        column.push(id);
        k += 1;
    }
    chunk_column_packet(cx, cz, &column)
}

/// The 1.8 packed block position: 26 bits of `x`, 12 of `y`, 26 of `z`.
pub open spec fn position_spec(x: i64, y: i64, z: i64) -> i64 {
    ((x & 0x3FF_FFFF) << 38u64) | ((y & 0xFFF) << 26u64) | (z & 0x3FF_FFFF)
}

/// Encode a block position into a 1.8 packed `i64`.
pub fn encode_position(x: i64, y: i64, z: i64) -> (r: i64)
    ensures
        r == position_spec(x, y, z),
{
    ((x & 0x3FF_FFFF) << 38u64) | ((y & 0xFFF) << 26u64) | (z & 0x3FF_FFFF)
}

/// Positions in the 1.8 range decode back: `x` from the top 26 bits, `y`
/// from the middle 12 and `z` from the low 26, each sign-extended.
pub proof fn lemma_position_round_trip(x: i64, y: i64, z: i64)
    requires
        -0x200_0000 <= x < 0x200_0000,
        -0x800 <= y < 0x800,
        -0x200_0000 <= z < 0x200_0000,
    ensures
        position_spec(x, y, z) >> 38u64 == x,
        (position_spec(x, y, z) << 26u64) >> 52u64 == y,
        (position_spec(x, y, z) << 38u64) >> 38u64 == z,
{
    assert(((((x & 0x3FF_FFFF) << 38u64) | ((y & 0xFFF) << 26u64) | (z & 0x3FF_FFFF)) >> 38u64 == x) && (((((x
        & 0x3FF_FFFF) << 38u64) | ((y & 0xFFF) << 26u64) | (z & 0x3FF_FFFF)) << 26u64) >> 52u64 == y) && (((((x
        & 0x3FF_FFFF) << 38u64) | ((y & 0xFFF) << 26u64) | (z & 0x3FF_FFFF)) << 38u64) >> 38u64 == z))
        by (bit_vector)
        requires
            -0x200_0000 <= x < 0x200_0000,
            -0x800 <= y < 0x800,
            -0x200_0000 <= z < 0x200_0000,
    ;
}

/// The JSON string-literal escape of one character.
pub open spec fn escape_char(c: char) -> Seq<char> {
    if c == '"' {
        seq!['\\', '"']
    } else if c == '\\' {
        seq!['\\', '\\']
    } else if c == '\n' {
        seq!['\\', 'n']
    } else {
        seq![c]
    }
}

/// The escape of a whole string.
pub open spec fn escape_spec(s: Seq<char>) -> Seq<char>
    decreases s.len(),
{
    if s.len() == 0 {
        Seq::empty()
    } else {
        escape_spec(s.drop_last()) + escape_char(s.last())
    }
}

/// Minimal JSON string escaping for the MOTD.
pub fn json_escape(s: &str) -> (r: String)
    ensures
        r@ == escape_spec(s@),
{
    let cs = chars_of(s);
    let mut out = String::new();
    let mut i: usize = 0;
    while i < cs.len()
        invariant
            i <= cs@.len(),
            cs@ == s@,
            out@ == escape_spec(cs@.take(i as int)),
        decreases cs@.len() - i,
    {
        let c = cs[i];
        let ghost before = out@;
        if c == '"' {
            out.push('\\');
            out.push('"');
        } else if c == '\\' {
            out.push('\\');
            out.push('\\');
        } else if c == '\n' {
            out.push('\\');
            out.push('n');
        } else {
            out.push(c);
        }
        proof {
            assert(cs@.take(i + 1).drop_last() =~= cs@.take(i as int));
            assert(out@ =~= before + escape_char(c));
        }
        i += 1;
    }
    assert(cs@.take(cs@.len() as int) =~= cs@);
    out
}


/// Protocol version spoken (Minecraft 1.8 – 1.8.9).
pub const PROTOCOL: i32 = 47;

/// `[server]` settings.
#[derive(Debug, Clone)]
pub struct ServerConfig {
    /// Bind address.
    pub host: String,
    /// Listen port (vanilla default 25565).
    pub port: u16,
    /// Message-of-the-day shown in the server list.
    pub motd: String,
    /// Reported max player slots.
    pub max_players: u32,
    /// Chunk radius sent around spawn (a `(2r+1)²` grid).
    pub view_radius: i32,
}

impl Default for ServerConfig {
    fn default() -> (r: Self)
        ensures
            r.host@ == "0.0.0.0"@,
            r.port == 25565,
            r.motd@ == "Aether Engine — 1.8.9 demo (full-bright flat world)"@,
            r.max_players == 20,
            r.view_radius == 5,
    {
        ServerConfig {
            host: "0.0.0.0".to_owned(),
            port: 25565,
            motd: "Aether Engine — 1.8.9 demo (full-bright flat world)".to_owned(),
            max_players: 20,
            view_radius: 5,
        }
    }
}

/// Whole server config.
#[derive(Debug, Clone)]
pub struct Config {
    /// Server settings.
    pub server: ServerConfig,
}

impl Default for Config {
    fn default() -> (r: Self)
        ensures
            r.server.host@ == "0.0.0.0"@,
            r.server.port == 25565,
            r.server.motd@ == "Aether Engine — 1.8.9 demo (full-bright flat world)"@,
            r.server.max_players == 20,
            r.server.view_radius == 5,
    {
        Config { server: ServerConfig::default() }
    }
}

/// Sample written when the config file is missing.
pub const SAMPLE: &'static str = "# Aether Engine server configuration (Minecraft 1.8.9 / protocol 47).

[server]
host = \"0.0.0.0\"
port = 25565
motd = \"Aether Engine — 1.8.9 demo (full-bright flat world)\"
max_players = 20
view_radius = 5      # chunk radius sent around spawn
";

/// The status (server-list ping) JSON for a server with MOTD `motd` and
/// `max_players` slots: version, protocol, player counts, and the escaped
/// MOTD as the description.
pub open spec fn status_json(motd: Seq<char>, max_players: nat) -> Seq<char> {
    "{\"version\":{\"name\":\"Aether 1.8.9\",\"protocol\":47},\"players\":{\"max\":"@ + digits(max_players)
        + ",\"online\":0,\"sample\":[]},\"description\":{\"text\":\""@ + escape_spec(motd) + "\"}}"@
}

/// The status response text (packet 0x00 of the status state).
pub fn status_json_text(cfg: &ServerConfig) -> (r: String)
    ensures
        r@ == status_json(cfg.motd@, cfg.max_players as nat),
{
    let motd = json_escape(cfg.motd.as_str());
    let mut json = String::new();
    push_str(&mut json, "{\"version\":{\"name\":\"Aether 1.8.9\",\"protocol\":47},\"players\":{\"max\":");
    push_decimal_u64(&mut json, cfg.max_players as u64);
    push_str(&mut json, ",\"online\":0,\"sample\":[]},\"description\":{\"text\":\"");
    push_str(&mut json, motd.as_str());
    push_str(&mut json, "\"}}");
    proof {
        assert(json@ =~= status_json(cfg.motd@, cfg.max_players as nat));
    }
    json
}

/// The status response packet: id 0x00 carrying [`status_json`] as a string.
pub fn status_response(cfg: &ServerConfig) -> (p: PacketOut)
    ensures
        ({
            let bytes = vstd::utf8::encode_utf8(status_json(cfg.motd@, cfg.max_players as nat));
            p.body_seq() == leb_bytes(u32_bits(0)) + leb_bytes(u32_bits(bytes.len() as i32)) + bytes
        }),
{
    let json = status_json_text(cfg);
    let mut p = PacketOut::new(0x00);
    p.string(json.as_str());
    p
}

/// The Join Game packet (0x01): entity id, game mode, overworld, peaceful,
/// the player cap (at most 255), the `flat` level type, full debug info.
pub fn join_game_packet(eid: i32, mode: GameMode, max_players: u32) -> (p: PacketOut)
    ensures
        p.body_seq() == leb_bytes(u32_bits(1)) + u32_be(eid as u32) + seq![
            mode.as_u8_spec(),
            0u8,
            0u8,
            (if max_players < 255 { max_players } else { 255 }) as u8,
        ] + leb_bytes(u32_bits(vstd::utf8::encode_utf8("flat"@).len() as i32)) + vstd::utf8::encode_utf8("flat"@) + seq![0u8],
{
    let cap: u8 = if max_players < 255 {
        max_players as u8
    } else {
        255
    };
    let mut p = PacketOut::new(0x01);
    p.i32(eid).u8(mode.as_u8()).u8(0).u8(0).u8(cap).string("flat").bool(false);
    proof {
        let b = p.body_seq();
        assert(b =~= leb_bytes(u32_bits(1)) + u32_be(eid as u32) + seq![mode.as_u8_spec(), 0u8, 0u8, cap]
            + leb_bytes(u32_bits(vstd::utf8::encode_utf8("flat"@).len() as i32)) + vstd::utf8::encode_utf8("flat"@)
            + seq![0u8]);
    }
    p
}

} // verus!
