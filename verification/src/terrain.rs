//! Integer side of noise terrain: which block a column holds at each height
//! given its surface, where procedural structures go, and how they are laid
//! out. The surface heights and cave decisions come from a noise field and
//! are handed in.

use vstd::prelude::*;
use vstd::wrapping::u64_specs::{wrapping_add, wrapping_mul};
use crate::block::BlockStateId;
use crate::ids;
use crate::worldgen::{draws_on, ColumnBuilder};

verus! {

/// A clean-room procedural structure kind (no Vanilla code or assets).
#[derive(Debug, Clone, Copy, PartialEq, Eq, Structural)]
pub enum Structure {
    /// An underground cobblestone room with a spawner and chests.
    Dungeon,
    /// A small surface hut of planks and logs with a doorway.
    Hut,
}

/// The SplitMix64-style hash of chunk `(cx, cz)` under `seed`.
pub open spec fn structure_hash(seed: u64, cx: i32, cz: i32) -> u64 {
    let mixed = wrapping_add(
        wrapping_add(seed, wrapping_mul(cx as u64, 0xff51_afd7_ed55_8ccd)),
        wrapping_mul(cz as u64, 0xc4ce_b9fe_1a85_ec53),
    );
    let h0 = mixed ^ 0x5372_7563_7455_7265u64;
    let h1 = h0 ^ (h0 >> 33u64);
    let h2 = wrapping_mul(h1, 0xff51_afd7_ed55_8ccd);
    h2 ^ (h2 >> 33u64)
}

/// The structure chunk `(cx, cz)` hosts under `seed`, with its anchor
/// inside the chunk: one chunk in 24 by the hash, the anchor in `2..=8` on
/// both axes so a 7-wide footprint fits, the kind by hash bit 24.
pub open spec fn structure_spec(seed: u64, cx: i32, cz: i32) -> Option<(Structure, usize, usize)> {
    let h = structure_hash(seed, cx, cz);
    if h % 24 != 0 {
        None
    } else {
        Some(
            (
                if (h >> 24u64) & 1 == 0 {
                    Structure::Dungeon
                } else {
                    Structure::Hut
                },
                (2 + (h >> 8u64) % 7) as usize,
                (2 + (h >> 16u64) % 7) as usize,
            ),
        )
    }
}

/// Deterministically decide whether chunk `(cx, cz)` hosts a structure, and
/// where within its footprint.
pub fn structure_at(seed: u64, cx: i32, cz: i32) -> (r: Option<(Structure, usize, usize)>)
    ensures
        r == structure_spec(seed, cx, cz),
        r matches Some(t) ==> 2 <= t.1 <= 8 && 2 <= t.2 <= 8,
{
    let mut h = seed.wrapping_add((cx as u64).wrapping_mul(0xff51_afd7_ed55_8ccd)).wrapping_add(
        (cz as u64).wrapping_mul(0xc4ce_b9fe_1a85_ec53),
    ) ^ 0x5372_7563_7455_7265;
    h ^= h >> 33;
    h = h.wrapping_mul(0xff51_afd7_ed55_8ccd);
    h ^= h >> 33;
    if h % 24 != 0 {
        return None;
    }
    let ax = 2 + ((h >> 8) % 7) as usize;
    let az = 2 + ((h >> 16) % 7) as usize;
    let kind = if (h >> 24) & 1 == 0 {
        Structure::Dungeon
    } else {
        Structure::Hut
    };
    Some((kind, ax, az))
}

/// The 64-bit avalanche hash of lattice point `(xi, zi)` under `seed`
/// (SplitMix64's finaliser over the mixed coordinates).
pub open spec fn lattice_hash_spec(seed: u64, xi: i64, zi: i64) -> u64 {
    let mixed = wrapping_add(
        wrapping_add(seed, wrapping_mul(xi as u64, 0x9e37_79b9_7f4a_7c15)),
        wrapping_mul(zi as u64, 0xc2b2_ae3d_27d4_eb4f),
    );
    let h1 = mixed ^ (mixed >> 30u64);
    let h2 = wrapping_mul(h1, 0xbf58_476d_1ce4_e5b9);
    let h3 = h2 ^ (h2 >> 27u64);
    let h4 = wrapping_mul(h3, 0x94d0_49bb_1331_11eb);
    h4 ^ (h4 >> 31u64)
}

/// Hash lattice point `(xi, zi)` of a value-noise field seeded with `seed`;
/// its top 53 bits, scaled into `[0, 1)`, are the lattice value.
pub fn lattice_hash(seed: u64, xi: i64, zi: i64) -> (r: u64)
    ensures
        r == lattice_hash_spec(seed, xi, zi),
{
    let mut h = seed.wrapping_add((xi as u64).wrapping_mul(0x9e37_79b9_7f4a_7c15)).wrapping_add(
        (zi as u64).wrapping_mul(0xc2b2_ae3d_27d4_eb4f),
    );
    h ^= h >> 30;
    h = h.wrapping_mul(0xbf58_476d_1ce4_e5b9);
    h ^= h >> 27;
    h = h.wrapping_mul(0x94d0_49bb_1331_11eb);
    h ^= h >> 31;
    h
}

/// The block of the terrain strata at height `y` of a column whose surface
/// is at `surface`: bedrock at the floor, grass on the surface (sand when
/// the surface is under `sea_level`), three layers of dirt below it, stone
/// further down.
pub open spec fn strata_spec(y: int, surface: int, sea_level: int) -> u32 {
    if y == 0 {
        ids::BEDROCK
    } else if y == surface {
        if surface < sea_level {
            ids::SAND
        } else {
            ids::GRASS_BLOCK
        }
    } else if y >= surface - 3 {
        ids::DIRT
    } else {
        ids::STONE
    }
}

/// The strata block at height `y` (`0 <= y <= surface`).
pub fn strata_block(y: i32, surface: i32, sea_level: i32) -> (r: u32)
    requires
        0 <= y <= surface,
    ensures
        r == strata_spec(y as int, surface as int, sea_level as int),
{
    if y == 0 {
        ids::BEDROCK
    } else if y == surface {
        if surface < sea_level {
            ids::SAND
        } else {
            ids::GRASS_BLOCK
        }
    } else if y >= surface - 3 {
        ids::DIRT
    } else {
        ids::STONE
    }
}

/// The block filling a column with surface `top` puts at height `y`: the
/// strata from the floor up to the surface, water above it up to
/// `sea_level`.
pub open spec fn terrain_cell(top: int, sea_level: int, y: int) -> Option<BlockStateId> {
    if 0 <= y <= top {
        Some(BlockStateId(strata_spec(y, top, sea_level)))
    } else if top < y <= sea_level {
        Some(BlockStateId(ids::WATER))
    } else {
        None
    }
}

/// Whether the terrain cell at `(x, y, z)` is written once the fill has
/// done the columns before `(lx, lz)` and, in that column, the strata below
/// `ys` and the water below `ws`.
spec fn fill_done(tops: Seq<i32>, sea_level: int, lz: int, lx: int, ys: int, ws: int, x: int, y: int, z: int) -> bool {
    let top = tops[z * 16 + x] as int;
    ||| (z < lz || (z == lz && x < lx)) && terrain_cell(top, sea_level, y) is Some
    ||| z == lz && x == lx && ((0 <= y < ys && y <= top) || (top < y < ws && y <= sea_level))
}

/// Fill the column at chunk `(cx, cz)`: for each `(lx, lz)` with surface
/// `surface[lz * 16 + lx]`, the strata from the floor up to the surface
/// (skipping the interior heights `cave` carves), then water up to
/// `sea_level`.
///
/// Nothing outside those cells changes. Where the builder's palettes draw
/// on at most 4096 ids counting the terrain's blocks, every such cell in the
/// world's height range holds its block, but for an interior height that
/// `cave` may carve, which keeps what it held.
pub fn fill_terrain<C: Fn(i32, i32, i32) -> bool>(
    b: &mut ColumnBuilder,
    cx: i32,
    cz: i32,
    surface: &[i32],
    sea_level: i32,
    cave: &C,
)
    requires
        old(b).wf(),
        surface@.len() == 256,
        -134_217_728 <= cx <= 134_217_727,
        -134_217_728 <= cz <= 134_217_727,
        forall|x: i32, y: i32, z: i32| cave.requires((x, y, z)),
    ensures
        final(b).wf(),
        final(b).registry_of() == old(b).registry_of(),
        forall|x: int, y: int, z: int|
            0 <= x < 16 && 0 <= z < 16 && terrain_cell(surface@[z * 16 + x] as int, sea_level as int, y) is None
                ==> #[trigger] final(b).block(x, y, z) == old(b).block(x, y, z),
        forall|pool: Set<BlockStateId>|
            #[trigger] draws_on(old(b).section_seq(), pool) && pool.contains(BlockStateId(ids::BEDROCK)) && pool.contains(BlockStateId(ids::SAND)) && pool.contains(BlockStateId(ids::GRASS_BLOCK)) && pool.contains(BlockStateId(ids::DIRT)) && pool.contains(BlockStateId(ids::STONE)) && pool.contains(BlockStateId(ids::WATER)) ==> forall|x: int, y: int, z: int|
                0 <= x < 16 && 0 <= z < 16 && -2048 <= y < 2048 && terrain_cell(surface@[z * 16 + x] as int, sea_level as int, y) is Some
                    ==> #[trigger] final(b).block(x, y, z) == terrain_cell(surface@[z * 16 + x] as int, sea_level as int, y)->0 || (0 < y < surface@[z * 16 + x] && cave.ensures(((cx * 16 + x) as i32, y as i32, (cz * 16 + z) as i32), true) && final(b).block(x, y, z) == old(b).block(x, y, z)),
{
    let ghost roomy = exists|pool: Set<BlockStateId>| #[trigger] draws_on(old(b).section_seq(), pool) && pool.contains(BlockStateId(ids::BEDROCK)) && pool.contains(BlockStateId(ids::SAND)) && pool.contains(BlockStateId(ids::GRASS_BLOCK)) && pool.contains(BlockStateId(ids::DIRT)) && pool.contains(BlockStateId(ids::STONE)) && pool.contains(BlockStateId(ids::WATER));
    let mut lz: usize = 0;
    while lz < 16
        invariant
            b.wf(),
            b.registry_of() == old(b).registry_of(),
            surface@.len() == 256,
            -134_217_728 <= cx <= 134_217_727,
            -134_217_728 <= cz <= 134_217_727,
            forall|x: i32, y: i32, z: i32| cave.requires((x, y, z)),
            roomy == exists|pool: Set<BlockStateId>| #[trigger] draws_on(old(b).section_seq(), pool) && pool.contains(BlockStateId(ids::BEDROCK)) && pool.contains(BlockStateId(ids::SAND)) && pool.contains(BlockStateId(ids::GRASS_BLOCK)) && pool.contains(BlockStateId(ids::DIRT)) && pool.contains(BlockStateId(ids::STONE)) && pool.contains(BlockStateId(ids::WATER)),
            forall|pool: Set<BlockStateId>| #[trigger] draws_on(old(b).section_seq(), pool) && pool.contains(BlockStateId(ids::BEDROCK)) && pool.contains(BlockStateId(ids::SAND)) && pool.contains(BlockStateId(ids::GRASS_BLOCK)) && pool.contains(BlockStateId(ids::DIRT)) && pool.contains(BlockStateId(ids::STONE)) && pool.contains(BlockStateId(ids::WATER)) ==> draws_on(b.section_seq(), pool),
            forall|x: int, y: int, z: int| 0 <= x < 16 && 0 <= z < 16 && !fill_done(surface@, sea_level as int, lz as int, 0, 0, i32::MIN as int, x, y, z) ==> #[trigger] b.block(x, y, z) == old(b).block(x, y, z),
            roomy ==> forall|x: int, y: int, z: int| 0 <= x < 16 && 0 <= z < 16 && -2048 <= y < 2048 && fill_done(surface@, sea_level as int, lz as int, 0, 0, i32::MIN as int, x, y, z) ==> #[trigger] b.block(x, y, z) == terrain_cell(surface@[z * 16 + x] as int, sea_level as int, y)->0 || (0 < y < surface@[z * 16 + x] && cave.ensures(((cx * 16 + x) as i32, y as i32, (cz * 16 + z) as i32), true) && b.block(x, y, z) == old(b).block(x, y, z)),
            lz <= 16,
        decreases 16 - lz,
    {
        let mut lx: usize = 0;
        while lx < 16
            invariant
                b.wf(),
                b.registry_of() == old(b).registry_of(),
                surface@.len() == 256,
                -134_217_728 <= cx <= 134_217_727,
                -134_217_728 <= cz <= 134_217_727,
                forall|x: i32, y: i32, z: i32| cave.requires((x, y, z)),
                roomy == exists|pool: Set<BlockStateId>| #[trigger] draws_on(old(b).section_seq(), pool) && pool.contains(BlockStateId(ids::BEDROCK)) && pool.contains(BlockStateId(ids::SAND)) && pool.contains(BlockStateId(ids::GRASS_BLOCK)) && pool.contains(BlockStateId(ids::DIRT)) && pool.contains(BlockStateId(ids::STONE)) && pool.contains(BlockStateId(ids::WATER)),
                forall|pool: Set<BlockStateId>| #[trigger] draws_on(old(b).section_seq(), pool) && pool.contains(BlockStateId(ids::BEDROCK)) && pool.contains(BlockStateId(ids::SAND)) && pool.contains(BlockStateId(ids::GRASS_BLOCK)) && pool.contains(BlockStateId(ids::DIRT)) && pool.contains(BlockStateId(ids::STONE)) && pool.contains(BlockStateId(ids::WATER)) ==> draws_on(b.section_seq(), pool),
                forall|x: int, y: int, z: int| 0 <= x < 16 && 0 <= z < 16 && !fill_done(surface@, sea_level as int, lz as int, lx as int, 0, i32::MIN as int, x, y, z) ==> #[trigger] b.block(x, y, z) == old(b).block(x, y, z),
                roomy ==> forall|x: int, y: int, z: int| 0 <= x < 16 && 0 <= z < 16 && -2048 <= y < 2048 && fill_done(surface@, sea_level as int, lz as int, lx as int, 0, i32::MIN as int, x, y, z) ==> #[trigger] b.block(x, y, z) == terrain_cell(surface@[z * 16 + x] as int, sea_level as int, y)->0 || (0 < y < surface@[z * 16 + x] && cave.ensures(((cx * 16 + x) as i32, y as i32, (cz * 16 + z) as i32), true) && b.block(x, y, z) == old(b).block(x, y, z)),
                lx <= 16,
                lz < 16,
            decreases 16 - lx,
        {
            let wx = cx * 16 + lx as i32;
            let wz = cz * 16 + lz as i32;
            let top = surface[lz * 16 + lx];
            let mut h: i64 = 0;
            while h <= top as i64
                invariant
                    b.wf(),
                    b.registry_of() == old(b).registry_of(),
                    surface@.len() == 256,
                    -134_217_728 <= cx <= 134_217_727,
                    -134_217_728 <= cz <= 134_217_727,
                    forall|x: i32, y: i32, z: i32| cave.requires((x, y, z)),
                    roomy == exists|pool: Set<BlockStateId>| #[trigger] draws_on(old(b).section_seq(), pool) && pool.contains(BlockStateId(ids::BEDROCK)) && pool.contains(BlockStateId(ids::SAND)) && pool.contains(BlockStateId(ids::GRASS_BLOCK)) && pool.contains(BlockStateId(ids::DIRT)) && pool.contains(BlockStateId(ids::STONE)) && pool.contains(BlockStateId(ids::WATER)),
                    forall|pool: Set<BlockStateId>| #[trigger] draws_on(old(b).section_seq(), pool) && pool.contains(BlockStateId(ids::BEDROCK)) && pool.contains(BlockStateId(ids::SAND)) && pool.contains(BlockStateId(ids::GRASS_BLOCK)) && pool.contains(BlockStateId(ids::DIRT)) && pool.contains(BlockStateId(ids::STONE)) && pool.contains(BlockStateId(ids::WATER)) ==> draws_on(b.section_seq(), pool),
                    forall|x: int, y: int, z: int| 0 <= x < 16 && 0 <= z < 16 && !fill_done(surface@, sea_level as int, lz as int, lx as int, h as int, i32::MIN as int, x, y, z) ==> #[trigger] b.block(x, y, z) == old(b).block(x, y, z),
                    roomy ==> forall|x: int, y: int, z: int| 0 <= x < 16 && 0 <= z < 16 && -2048 <= y < 2048 && fill_done(surface@, sea_level as int, lz as int, lx as int, h as int, i32::MIN as int, x, y, z) ==> #[trigger] b.block(x, y, z) == terrain_cell(surface@[z * 16 + x] as int, sea_level as int, y)->0 || (0 < y < surface@[z * 16 + x] && cave.ensures(((cx * 16 + x) as i32, y as i32, (cz * 16 + z) as i32), true) && b.block(x, y, z) == old(b).block(x, y, z)),
                    0 <= h,
                    h <= if top >= 0 { top + 1 } else { 0 },
                    lx < 16,
                    lz < 16,
                    top == surface@[lz * 16 + lx],
                    wx == cx * 16 + lx,
                    wz == cz * 16 + lz,
                decreases top + 1 - h,
            {
                let yy = h as i32;
                if !(yy > 0 && yy < top && cave(wx, yy, wz)) {
                    let id = strata_block(yy, top, sea_level);
                    let ghost pre = *b;
                    proof {
                        if roomy {
                            let pool = choose|pool: Set<BlockStateId>| #[trigger] draws_on(old(b).section_seq(), pool) && pool.contains(BlockStateId(ids::BEDROCK)) && pool.contains(BlockStateId(ids::SAND)) && pool.contains(BlockStateId(ids::GRASS_BLOCK)) && pool.contains(BlockStateId(ids::DIRT)) && pool.contains(BlockStateId(ids::STONE)) && pool.contains(BlockStateId(ids::WATER));
                            b.lemma_accepts(pool, (yy) as int, BlockStateId(id));
                        }
                    }
                    b.set(lx, yy, lz, BlockStateId(id));
                    proof {
                        assert forall|x: int, y: int, z: int| 0 <= x < 16 && 0 <= z < 16 implies #[trigger] b.block(x, y, z) == (if x == (lx) as int && y == (yy) as int && z == (lz) as int && -2048 <= y < 2048 && roomy { BlockStateId(id) } else { pre.block(x, y, z) }) || (x == (lx) as int && y == (yy) as int && z == (lz) as int && !roomy) by {
                            if roomy && -2048 <= (yy) as int && ((yy) as int) < 2048 {
                                assert(pre.accepts((yy) as int, BlockStateId(id)));
                            }
                        }
                    }
                }
                h += 1;
            }
            let mut w: i64 = top as i64 + 1;
            while w <= sea_level as i64
                invariant
                    b.wf(),
                    b.registry_of() == old(b).registry_of(),
                    surface@.len() == 256,
                    -134_217_728 <= cx <= 134_217_727,
                    -134_217_728 <= cz <= 134_217_727,
                    forall|x: i32, y: i32, z: i32| cave.requires((x, y, z)),
                    roomy == exists|pool: Set<BlockStateId>| #[trigger] draws_on(old(b).section_seq(), pool) && pool.contains(BlockStateId(ids::BEDROCK)) && pool.contains(BlockStateId(ids::SAND)) && pool.contains(BlockStateId(ids::GRASS_BLOCK)) && pool.contains(BlockStateId(ids::DIRT)) && pool.contains(BlockStateId(ids::STONE)) && pool.contains(BlockStateId(ids::WATER)),
                    forall|pool: Set<BlockStateId>| #[trigger] draws_on(old(b).section_seq(), pool) && pool.contains(BlockStateId(ids::BEDROCK)) && pool.contains(BlockStateId(ids::SAND)) && pool.contains(BlockStateId(ids::GRASS_BLOCK)) && pool.contains(BlockStateId(ids::DIRT)) && pool.contains(BlockStateId(ids::STONE)) && pool.contains(BlockStateId(ids::WATER)) ==> draws_on(b.section_seq(), pool),
                    forall|x: int, y: int, z: int| 0 <= x < 16 && 0 <= z < 16 && !fill_done(surface@, sea_level as int, lz as int, lx as int, top as int + 1, w as int, x, y, z) ==> #[trigger] b.block(x, y, z) == old(b).block(x, y, z),
                    roomy ==> forall|x: int, y: int, z: int| 0 <= x < 16 && 0 <= z < 16 && -2048 <= y < 2048 && fill_done(surface@, sea_level as int, lz as int, lx as int, top as int + 1, w as int, x, y, z) ==> #[trigger] b.block(x, y, z) == terrain_cell(surface@[z * 16 + x] as int, sea_level as int, y)->0 || (0 < y < surface@[z * 16 + x] && cave.ensures(((cx * 16 + x) as i32, y as i32, (cz * 16 + z) as i32), true) && b.block(x, y, z) == old(b).block(x, y, z)),
                    top < w,
                    w <= if top < sea_level { sea_level + 1 } else { top + 1 },
                    lx < 16,
                    lz < 16,
                    top == surface@[lz * 16 + lx],
                decreases sea_level + 1 - w,
            {
                let ghost pre = *b;
                proof {
                    if roomy {
                        let pool = choose|pool: Set<BlockStateId>| #[trigger] draws_on(old(b).section_seq(), pool) && pool.contains(BlockStateId(ids::BEDROCK)) && pool.contains(BlockStateId(ids::SAND)) && pool.contains(BlockStateId(ids::GRASS_BLOCK)) && pool.contains(BlockStateId(ids::DIRT)) && pool.contains(BlockStateId(ids::STONE)) && pool.contains(BlockStateId(ids::WATER));
                        b.lemma_accepts(pool, (w as i32) as int, BlockStateId(ids::WATER));
                    }
                }
                b.set(lx, w as i32, lz, BlockStateId(ids::WATER));
                proof {
                    assert forall|x: int, y: int, z: int| 0 <= x < 16 && 0 <= z < 16 implies #[trigger] b.block(x, y, z) == (if x == (lx) as int && y == (w as i32) as int && z == (lz) as int && -2048 <= y < 2048 && roomy { BlockStateId(ids::WATER) } else { pre.block(x, y, z) }) || (x == (lx) as int && y == (w as i32) as int && z == (lz) as int && !roomy) by {
                        if roomy && -2048 <= (w as i32) as int && ((w as i32) as int) < 2048 {
                            assert(pre.accepts((w as i32) as int, BlockStateId(ids::WATER)));
                        }
                    }
                }
                w += 1;
            }
            lx += 1;
        }
        lz += 1;
    }
    proof {
        assert forall|pool: Set<BlockStateId>|
            #[trigger] draws_on(old(b).section_seq(), pool) && pool.contains(BlockStateId(ids::BEDROCK)) && pool.contains(BlockStateId(ids::SAND)) && pool.contains(BlockStateId(ids::GRASS_BLOCK)) && pool.contains(BlockStateId(ids::DIRT)) && pool.contains(BlockStateId(ids::STONE)) && pool.contains(BlockStateId(ids::WATER)) implies forall|x: int, y: int, z: int|
                0 <= x < 16 && 0 <= z < 16 && -2048 <= y < 2048 && terrain_cell(surface@[z * 16 + x] as int, sea_level as int, y) is Some
                    ==> #[trigger] b.block(x, y, z) == terrain_cell(surface@[z * 16 + x] as int, sea_level as int, y)->0 || (0 < y < surface@[z * 16 + x] && cave.ensures(((cx * 16 + x) as i32, y as i32, (cz * 16 + z) as i32), true) && b.block(x, y, z) == old(b).block(x, y, z)) by {
            assert(roomy);
        }
    }
}

/// Whether the room's stone at column `(lx, lz)`, `dy` above its floor, is
/// mossy.
pub open spec fn mossy(lx: int, lz: int, dy: int) -> bool {
    (((lx * 31) as usize) ^ ((lz * 17) as usize) ^ (dy as usize)) & 3 == 0
}

/// The block the room's walls, floor and ceiling put at offset
/// `(dx, dy, dz)` from the corner of its floor (local column `(lx, lz)`),
/// air inside.
pub open spec fn room_cell(lx: int, lz: int, dx: int, dy: int, dz: int) -> Option<BlockStateId> {
    if !(0 <= dx < 7 && 0 <= dz < 7 && 0 <= dy < 5) {
        None
    } else if dx == 0 || dx == 6 || dz == 0 || dz == 6 || dy == 0 || dy == 4 {
        if mossy(lx, lz, dy) {
            Some(BlockStateId(ids::MOSSY_COBBLESTONE))
        } else {
            Some(BlockStateId(ids::COBBLESTONE))
        }
    } else {
        Some(BlockStateId(0))
    }
}

/// The block the dungeon puts at offset `(dx, dy, dz)` from the corner of
/// its floor (local column `(lx, lz)`): the room, a spawner in the middle of
/// the floor and two chests in opposite inner corners.
pub open spec fn dungeon_cell(lx: int, lz: int, dx: int, dy: int, dz: int) -> Option<BlockStateId> {
    if dy == 1 && dx == 3 && dz == 3 {
        Some(BlockStateId(ids::SPAWNER))
    } else if dy == 1 && ((dx == 1 && dz == 1) || (dx == 5 && dz == 5)) {
        Some(BlockStateId(ids::CHEST))
    } else {
        room_cell(lx, lz, dx, dy, dz)
    }
}

/// Whether the room cell at `(x, y, z)` is laid once the writes have reached
/// offset `(dx, dz, dy)`: columns along Z within rows along X, bottom up.
spec fn room_laid(ax: int, az: int, floor: int, dx: int, dz: int, dy: int, x: int, y: int, z: int) -> bool {
    &&& room_cell(x, z, x - ax, y - floor, z - az) is Some
    &&& (x - ax < dx || (x - ax == dx && (z - az < dz || (z - az == dz && y - floor < dy))))
}

/// A 7×5×7 hollow cobblestone room buried below the surface, with a spawner
/// and two chests on the floor; nothing when it would reach the bedrock
/// floor.
///
/// The room's floor is 10 below `surface`. Nothing outside its cells
/// changes. Where the builder's palettes draw on at most 4096 ids counting
/// the room's blocks, every room cell in the world's height range holds its
/// block.
pub fn stamp_dungeon(ax: usize, az: usize, surface: i32, b: &mut ColumnBuilder)
    requires
        old(b).wf(),
        ax <= 9,
        az <= 9,
        i32::MIN + 10 <= surface,
    ensures
        final(b).wf(),
        final(b).registry_of() == old(b).registry_of(),
        surface - 10 < 2 ==> *final(b) == *old(b),
        forall|x: int, y: int, z: int|
            0 <= x < 16 && 0 <= z < 16 && dungeon_cell(x, z, x - ax, y - (surface - 10), z - az) is None
                ==> #[trigger] final(b).block(x, y, z) == old(b).block(x, y, z),
        surface - 10 >= 2 ==> forall|pool: Set<BlockStateId>|
            #[trigger] draws_on(old(b).section_seq(), pool) && pool.contains(BlockStateId(ids::COBBLESTONE)) && pool.contains(BlockStateId(ids::MOSSY_COBBLESTONE)) && pool.contains(BlockStateId(ids::SPAWNER)) && pool.contains(BlockStateId(ids::CHEST))
                ==> forall|x: int, y: int, z: int|
                0 <= x < 16 && 0 <= z < 16 && -2048 <= y < 2048 && dungeon_cell(x, z, x - ax, y - (surface - 10), z - az) is Some
                    ==> #[trigger] final(b).block(x, y, z) == dungeon_cell(x, z, x - ax, y - (surface - 10), z - az)->0,
{
    let ceiling = surface - 6;
    let floor = ceiling - 4;
    if floor < 2 {
        return;
    }
    let ghost roomy = exists|pool: Set<BlockStateId>| #[trigger] draws_on(old(b).section_seq(), pool) && pool.contains(BlockStateId(ids::COBBLESTONE)) && pool.contains(BlockStateId(ids::MOSSY_COBBLESTONE)) && pool.contains(BlockStateId(ids::SPAWNER)) && pool.contains(BlockStateId(ids::CHEST));
    let mut dx: usize = 0;
    while dx < 7
        invariant
            b.wf(),
            b.registry_of() == old(b).registry_of(),
            ax <= 9,
            az <= 9,
            2 <= floor,
            floor == surface - 10,
            roomy == exists|pool: Set<BlockStateId>| #[trigger] draws_on(old(b).section_seq(), pool) && pool.contains(BlockStateId(ids::COBBLESTONE)) && pool.contains(BlockStateId(ids::MOSSY_COBBLESTONE)) && pool.contains(BlockStateId(ids::SPAWNER)) && pool.contains(BlockStateId(ids::CHEST)),
            forall|pool: Set<BlockStateId>| #[trigger] draws_on(old(b).section_seq(), pool) && pool.contains(BlockStateId(ids::COBBLESTONE)) && pool.contains(BlockStateId(ids::MOSSY_COBBLESTONE)) && pool.contains(BlockStateId(ids::SPAWNER)) && pool.contains(BlockStateId(ids::CHEST)) ==> draws_on(b.section_seq(), pool),
            forall|x: int, y: int, z: int| 0 <= x < 16 && 0 <= z < 16 && !room_laid(ax as int, az as int, floor as int, dx as int, 0, 0, x, y, z) ==> #[trigger] b.block(x, y, z) == old(b).block(x, y, z),
            roomy ==> forall|x: int, y: int, z: int| 0 <= x < 16 && 0 <= z < 16 && -2048 <= y < 2048 && room_laid(ax as int, az as int, floor as int, dx as int, 0, 0, x, y, z) ==> #[trigger] b.block(x, y, z) == room_cell(x, z, x - ax, y - floor, z - az)->0,
            dx <= 7,
        decreases 7 - dx,
    {
        let mut dz: usize = 0;
        while dz < 7
            invariant
                b.wf(),
                b.registry_of() == old(b).registry_of(),
                ax <= 9,
                az <= 9,
                2 <= floor,
                floor == surface - 10,
                roomy == exists|pool: Set<BlockStateId>| #[trigger] draws_on(old(b).section_seq(), pool) && pool.contains(BlockStateId(ids::COBBLESTONE)) && pool.contains(BlockStateId(ids::MOSSY_COBBLESTONE)) && pool.contains(BlockStateId(ids::SPAWNER)) && pool.contains(BlockStateId(ids::CHEST)),
                forall|pool: Set<BlockStateId>| #[trigger] draws_on(old(b).section_seq(), pool) && pool.contains(BlockStateId(ids::COBBLESTONE)) && pool.contains(BlockStateId(ids::MOSSY_COBBLESTONE)) && pool.contains(BlockStateId(ids::SPAWNER)) && pool.contains(BlockStateId(ids::CHEST)) ==> draws_on(b.section_seq(), pool),
                forall|x: int, y: int, z: int| 0 <= x < 16 && 0 <= z < 16 && !room_laid(ax as int, az as int, floor as int, dx as int, dz as int, 0, x, y, z) ==> #[trigger] b.block(x, y, z) == old(b).block(x, y, z),
                roomy ==> forall|x: int, y: int, z: int| 0 <= x < 16 && 0 <= z < 16 && -2048 <= y < 2048 && room_laid(ax as int, az as int, floor as int, dx as int, dz as int, 0, x, y, z) ==> #[trigger] b.block(x, y, z) == room_cell(x, z, x - ax, y - floor, z - az)->0,
                dx < 7,
                dz <= 7,
            decreases 7 - dz,
        {
            let mut dy: usize = 0;
            while dy < 5
                invariant
                    b.wf(),
                    b.registry_of() == old(b).registry_of(),
                    ax <= 9,
                    az <= 9,
                    2 <= floor,
                    floor == surface - 10,
                    roomy == exists|pool: Set<BlockStateId>| #[trigger] draws_on(old(b).section_seq(), pool) && pool.contains(BlockStateId(ids::COBBLESTONE)) && pool.contains(BlockStateId(ids::MOSSY_COBBLESTONE)) && pool.contains(BlockStateId(ids::SPAWNER)) && pool.contains(BlockStateId(ids::CHEST)),
                    forall|pool: Set<BlockStateId>| #[trigger] draws_on(old(b).section_seq(), pool) && pool.contains(BlockStateId(ids::COBBLESTONE)) && pool.contains(BlockStateId(ids::MOSSY_COBBLESTONE)) && pool.contains(BlockStateId(ids::SPAWNER)) && pool.contains(BlockStateId(ids::CHEST)) ==> draws_on(b.section_seq(), pool),
                    forall|x: int, y: int, z: int| 0 <= x < 16 && 0 <= z < 16 && !room_laid(ax as int, az as int, floor as int, dx as int, dz as int, dy as int, x, y, z) ==> #[trigger] b.block(x, y, z) == old(b).block(x, y, z),
                    roomy ==> forall|x: int, y: int, z: int| 0 <= x < 16 && 0 <= z < 16 && -2048 <= y < 2048 && room_laid(ax as int, az as int, floor as int, dx as int, dz as int, dy as int, x, y, z) ==> #[trigger] b.block(x, y, z) == room_cell(x, z, x - ax, y - floor, z - az)->0,
                    dx < 7,
                    dz < 7,
                    dy <= 5,
                decreases 5 - dy,
            {
                let lx = ax + dx;
                let lz = az + dz;
                let wy = floor + dy as i32;
                let shell = dx == 0 || dx == 6 || dz == 0 || dz == 6 || dy == 0 || dy == 4;
                if shell {
                    let m1 = lx.wrapping_mul(31);
                    let m2 = lz.wrapping_mul(17);
                    proof {
                        vstd::arithmetic::div_mod::lemma_small_mod((lx * 31) as nat, usize::MAX as nat + 1);
                        vstd::arithmetic::div_mod::lemma_small_mod((lz * 17) as nat, usize::MAX as nat + 1);
                    }
                    let mossy = (m1 ^ m2 ^ dy) & 3 == 0;
                    let id = if mossy {
                        ids::MOSSY_COBBLESTONE
                    } else {
                        ids::COBBLESTONE
                    };
                    proof {
                        assert(mossy == crate::terrain::mossy(lx as int, lz as int, dy as int));
                    }
                    let ghost pre = *b;
                    proof {
                        if roomy {
                            let pool = choose|pool: Set<BlockStateId>| #[trigger] draws_on(old(b).section_seq(), pool) && pool.contains(BlockStateId(ids::COBBLESTONE)) && pool.contains(BlockStateId(ids::MOSSY_COBBLESTONE)) && pool.contains(BlockStateId(ids::SPAWNER)) && pool.contains(BlockStateId(ids::CHEST));
                            b.lemma_accepts(pool, (wy) as int, BlockStateId(id));
                        }
                    }
                    b.set(lx, wy, lz, BlockStateId(id));
                    proof {
                        assert forall|x: int, y: int, z: int| 0 <= x < 16 && 0 <= z < 16 implies #[trigger] b.block(x, y, z) == (if x == (lx) as int && y == (wy) as int && z == (lz) as int && -2048 <= y < 2048 && roomy { BlockStateId(id) } else { pre.block(x, y, z) }) || (x == (lx) as int && y == (wy) as int && z == (lz) as int && !roomy) by {
                            if roomy && -2048 <= (wy) as int && ((wy) as int) < 2048 {
                                assert(pre.accepts((wy) as int, BlockStateId(id)));
                            }
                        }
                    }
                } else {
                    let ghost pre = *b;
                    b.clear(lx, wy, lz);
                    proof {
                        assert forall|x: int, y: int, z: int| 0 <= x < 16 && 0 <= z < 16 implies #[trigger] b.block(x, y, z) == (if x == lx as int && y == wy as int && z == lz as int {
                            BlockStateId(0)
                        } else {
                            pre.block(x, y, z)
                        }) by {}
                    }
                }
                dy += 1;
            }
            dz += 1;
        }
        dx += 1;
    }
    let ghost pre = *b;
    proof {
        if roomy {
            let pool = choose|pool: Set<BlockStateId>| #[trigger] draws_on(old(b).section_seq(), pool) && pool.contains(BlockStateId(ids::COBBLESTONE)) && pool.contains(BlockStateId(ids::MOSSY_COBBLESTONE)) && pool.contains(BlockStateId(ids::SPAWNER)) && pool.contains(BlockStateId(ids::CHEST));
            b.lemma_accepts(pool, (floor + 1) as int, BlockStateId(ids::SPAWNER));
        }
    }
    b.set(ax + 3, floor + 1, az + 3, BlockStateId(ids::SPAWNER));
    proof {
        assert forall|x: int, y: int, z: int| 0 <= x < 16 && 0 <= z < 16 implies #[trigger] b.block(x, y, z) == (if x == (ax + 3) as int && y == (floor + 1) as int && z == (az + 3) as int && -2048 <= y < 2048 && roomy { BlockStateId(ids::SPAWNER) } else { pre.block(x, y, z) }) || (x == (ax + 3) as int && y == (floor + 1) as int && z == (az + 3) as int && !roomy) by {
            if roomy && -2048 <= (floor + 1) as int && ((floor + 1) as int) < 2048 {
                assert(pre.accepts((floor + 1) as int, BlockStateId(ids::SPAWNER)));
            }
        }
    }
    let ghost pre = *b;
    proof {
        if roomy {
            let pool = choose|pool: Set<BlockStateId>| #[trigger] draws_on(old(b).section_seq(), pool) && pool.contains(BlockStateId(ids::COBBLESTONE)) && pool.contains(BlockStateId(ids::MOSSY_COBBLESTONE)) && pool.contains(BlockStateId(ids::SPAWNER)) && pool.contains(BlockStateId(ids::CHEST));
            b.lemma_accepts(pool, (floor + 1) as int, BlockStateId(ids::CHEST));
        }
    }
    b.set(ax + 1, floor + 1, az + 1, BlockStateId(ids::CHEST));
    proof {
        assert forall|x: int, y: int, z: int| 0 <= x < 16 && 0 <= z < 16 implies #[trigger] b.block(x, y, z) == (if x == (ax + 1) as int && y == (floor + 1) as int && z == (az + 1) as int && -2048 <= y < 2048 && roomy { BlockStateId(ids::CHEST) } else { pre.block(x, y, z) }) || (x == (ax + 1) as int && y == (floor + 1) as int && z == (az + 1) as int && !roomy) by {
            if roomy && -2048 <= (floor + 1) as int && ((floor + 1) as int) < 2048 {
                assert(pre.accepts((floor + 1) as int, BlockStateId(ids::CHEST)));
            }
        }
    }
    let ghost pre = *b;
    proof {
        if roomy {
            let pool = choose|pool: Set<BlockStateId>| #[trigger] draws_on(old(b).section_seq(), pool) && pool.contains(BlockStateId(ids::COBBLESTONE)) && pool.contains(BlockStateId(ids::MOSSY_COBBLESTONE)) && pool.contains(BlockStateId(ids::SPAWNER)) && pool.contains(BlockStateId(ids::CHEST));
            b.lemma_accepts(pool, (floor + 1) as int, BlockStateId(ids::CHEST));
        }
    }
    b.set(ax + 5, floor + 1, az + 5, BlockStateId(ids::CHEST));
    proof {
        assert forall|x: int, y: int, z: int| 0 <= x < 16 && 0 <= z < 16 implies #[trigger] b.block(x, y, z) == (if x == (ax + 5) as int && y == (floor + 1) as int && z == (az + 5) as int && -2048 <= y < 2048 && roomy { BlockStateId(ids::CHEST) } else { pre.block(x, y, z) }) || (x == (ax + 5) as int && y == (floor + 1) as int && z == (az + 5) as int && !roomy) by {
            if roomy && -2048 <= (floor + 1) as int && ((floor + 1) as int) < 2048 {
                assert(pre.accepts((floor + 1) as int, BlockStateId(ids::CHEST)));
            }
        }
    }
    proof {
        assert forall|pool: Set<BlockStateId>|
            #[trigger] draws_on(old(b).section_seq(), pool) && pool.contains(BlockStateId(ids::COBBLESTONE)) && pool.contains(BlockStateId(ids::MOSSY_COBBLESTONE)) && pool.contains(BlockStateId(ids::SPAWNER)) && pool.contains(BlockStateId(ids::CHEST)) implies forall|x: int, y: int, z: int|
                0 <= x < 16 && 0 <= z < 16 && -2048 <= y < 2048 && dungeon_cell(x, z, x - ax, y - (surface - 10), z - az) is Some
                    ==> #[trigger] b.block(x, y, z) == dungeon_cell(x, z, x - ax, y - (surface - 10), z - az)->0 by {
            assert(roomy);
        }
    }
}

/// The block the hut puts at offset `(dx, dy, dz)` from the corner of its
/// floor, if it puts one there: a plank floor and roof, log corners, plank
/// walls with a two-high doorway in the middle of the `-Z` wall.
pub open spec fn hut_cell(dx: int, dy: int, dz: int) -> Option<BlockStateId> {
    if !(0 <= dx < 5 && 0 <= dz < 5 && 0 <= dy <= 4) {
        None
    } else if dy == 0 || dy == 4 {
        Some(BlockStateId(ids::OAK_PLANKS))
    } else if (dx == 0 || dx == 4 || dz == 0 || dz == 4) && !(dz == 0 && dx == 2 && dy <= 2) {
        if (dx == 0 || dx == 4) && (dz == 0 || dz == 4) {
            Some(BlockStateId(ids::OAK_LOG))
        } else {
            Some(BlockStateId(ids::OAK_PLANKS))
        }
    } else {
        None
    }
}

/// Whether the hut cell at `(x, y, z)` is laid once the writes have reached
/// offset `(dx, dy, dz)`: the hut is laid layer by layer, rows along X.
spec fn hut_laid(ax: int, az: int, base: int, dy: int, dx: int, dz: int, x: int, y: int, z: int) -> bool {
    &&& hut_cell(x - ax, y - base, z - az) is Some
    &&& (y - base < dy || (y - base == dy && (x - ax < dx || (x - ax == dx && z - az < dz))))
}

/// A small 5×5 plank hut on the surface: log corners, three-high walls
/// with a two-high doorway in the middle of the `-Z` wall, a plank floor and
/// roof.
///
/// Nothing outside the hut's cells changes. Where the builder's palettes
/// draw on at most 4096 ids counting planks and logs, every hut cell in the
/// world's height range holds its block.
pub fn stamp_hut(ax: usize, az: usize, surface: i32, b: &mut ColumnBuilder)
    requires
        old(b).wf(),
        ax <= 11,
        az <= 11,
        surface <= i32::MAX - 5,
    ensures
        final(b).wf(),
        final(b).registry_of() == old(b).registry_of(),
        forall|x: int, y: int, z: int|
            0 <= x < 16 && 0 <= z < 16 && hut_cell(x - ax, y - (surface + 1), z - az) is None
                ==> #[trigger] final(b).block(x, y, z) == old(b).block(x, y, z),
        forall|pool: Set<BlockStateId>|
            #[trigger] draws_on(old(b).section_seq(), pool) && pool.contains(BlockStateId(ids::OAK_PLANKS)) && pool.contains(BlockStateId(ids::OAK_LOG))
                ==> forall|x: int, y: int, z: int|
                0 <= x < 16 && 0 <= z < 16 && -2048 <= y < 2048 && hut_cell(x - ax, y - (surface + 1), z - az) is Some
                    ==> #[trigger] final(b).block(x, y, z) == hut_cell(x - ax, y - (surface + 1), z - az)->0,
{
    let base = surface + 1;
    let ghost roomy = exists|pool: Set<BlockStateId>| #[trigger] draws_on(old(b).section_seq(), pool) && pool.contains(BlockStateId(ids::OAK_PLANKS)) && pool.contains(BlockStateId(ids::OAK_LOG));
    let mut dx: usize = 0;
    while dx < 5
        invariant
            b.wf(),
            b.registry_of() == old(b).registry_of(),
            ax <= 11,
            az <= 11,
            base == surface + 1,
            surface <= i32::MAX - 5,
            roomy == exists|pool: Set<BlockStateId>| #[trigger] draws_on(old(b).section_seq(), pool) && pool.contains(BlockStateId(ids::OAK_PLANKS)) && pool.contains(BlockStateId(ids::OAK_LOG)),
            forall|pool: Set<BlockStateId>| #[trigger] draws_on(old(b).section_seq(), pool) && pool.contains(BlockStateId(ids::OAK_PLANKS)) && pool.contains(BlockStateId(ids::OAK_LOG)) ==> draws_on(b.section_seq(), pool),
            forall|x: int, y: int, z: int| 0 <= x < 16 && 0 <= z < 16 && !hut_laid(ax as int, az as int, base as int, 0, dx as int, 0, x, y, z) ==> #[trigger] b.block(x, y, z) == old(b).block(x, y, z),
            roomy ==> forall|x: int, y: int, z: int| 0 <= x < 16 && 0 <= z < 16 && -2048 <= y < 2048 && hut_laid(ax as int, az as int, base as int, 0, dx as int, 0, x, y, z) ==> #[trigger] b.block(x, y, z) == hut_cell(x - ax, y - base, z - az)->0,
            dx <= 5,
        decreases 5 - dx,
    {
        let mut dz: usize = 0;
        while dz < 5
            invariant
                b.wf(),
                b.registry_of() == old(b).registry_of(),
                ax <= 11,
                az <= 11,
                base == surface + 1,
                surface <= i32::MAX - 5,
                roomy == exists|pool: Set<BlockStateId>| #[trigger] draws_on(old(b).section_seq(), pool) && pool.contains(BlockStateId(ids::OAK_PLANKS)) && pool.contains(BlockStateId(ids::OAK_LOG)),
                forall|pool: Set<BlockStateId>| #[trigger] draws_on(old(b).section_seq(), pool) && pool.contains(BlockStateId(ids::OAK_PLANKS)) && pool.contains(BlockStateId(ids::OAK_LOG)) ==> draws_on(b.section_seq(), pool),
                forall|x: int, y: int, z: int| 0 <= x < 16 && 0 <= z < 16 && !hut_laid(ax as int, az as int, base as int, 0, dx as int, dz as int, x, y, z) ==> #[trigger] b.block(x, y, z) == old(b).block(x, y, z),
                roomy ==> forall|x: int, y: int, z: int| 0 <= x < 16 && 0 <= z < 16 && -2048 <= y < 2048 && hut_laid(ax as int, az as int, base as int, 0, dx as int, dz as int, x, y, z) ==> #[trigger] b.block(x, y, z) == hut_cell(x - ax, y - base, z - az)->0,
                dx < 5,
                dz <= 5,
            decreases 5 - dz,
        {
            let ghost pre = *b;
            proof {
                if roomy {
                    let pool = choose|pool: Set<BlockStateId>| #[trigger] draws_on(old(b).section_seq(), pool) && pool.contains(BlockStateId(ids::OAK_PLANKS)) && pool.contains(BlockStateId(ids::OAK_LOG));
                    b.lemma_accepts(pool, (base) as int, BlockStateId(ids::OAK_PLANKS));
                }
            }
            b.set(ax + dx, base, az + dz, BlockStateId(ids::OAK_PLANKS));
            proof {
                assert forall|x: int, y: int, z: int| 0 <= x < 16 && 0 <= z < 16 implies #[trigger] b.block(x, y, z) == (if x == (ax + dx) as int && y == (base) as int && z == (az + dz) as int && -2048 <= y < 2048 && roomy { BlockStateId(ids::OAK_PLANKS) } else { pre.block(x, y, z) }) || (x == (ax + dx) as int && y == (base) as int && z == (az + dz) as int && !roomy) by {
                    if roomy && -2048 <= (base) as int && ((base) as int) < 2048 {
                        assert(pre.accepts((base) as int, BlockStateId(ids::OAK_PLANKS)));
                    }
                }
            }
            dz += 1;
        }
        dx += 1;
    }
    let mut dy: i32 = 1;
    while dy < 4
        invariant
            b.wf(),
            b.registry_of() == old(b).registry_of(),
            ax <= 11,
            az <= 11,
            base == surface + 1,
            surface <= i32::MAX - 5,
            roomy == exists|pool: Set<BlockStateId>| #[trigger] draws_on(old(b).section_seq(), pool) && pool.contains(BlockStateId(ids::OAK_PLANKS)) && pool.contains(BlockStateId(ids::OAK_LOG)),
            forall|pool: Set<BlockStateId>| #[trigger] draws_on(old(b).section_seq(), pool) && pool.contains(BlockStateId(ids::OAK_PLANKS)) && pool.contains(BlockStateId(ids::OAK_LOG)) ==> draws_on(b.section_seq(), pool),
            forall|x: int, y: int, z: int| 0 <= x < 16 && 0 <= z < 16 && !hut_laid(ax as int, az as int, base as int, dy as int, 0, 0, x, y, z) ==> #[trigger] b.block(x, y, z) == old(b).block(x, y, z),
            roomy ==> forall|x: int, y: int, z: int| 0 <= x < 16 && 0 <= z < 16 && -2048 <= y < 2048 && hut_laid(ax as int, az as int, base as int, dy as int, 0, 0, x, y, z) ==> #[trigger] b.block(x, y, z) == hut_cell(x - ax, y - base, z - az)->0,
            1 <= dy <= 4,
        decreases 4 - dy,
    {
        let mut dx: usize = 0;
        while dx < 5
            invariant
                b.wf(),
                b.registry_of() == old(b).registry_of(),
                ax <= 11,
                az <= 11,
                base == surface + 1,
                surface <= i32::MAX - 5,
                roomy == exists|pool: Set<BlockStateId>| #[trigger] draws_on(old(b).section_seq(), pool) && pool.contains(BlockStateId(ids::OAK_PLANKS)) && pool.contains(BlockStateId(ids::OAK_LOG)),
                forall|pool: Set<BlockStateId>| #[trigger] draws_on(old(b).section_seq(), pool) && pool.contains(BlockStateId(ids::OAK_PLANKS)) && pool.contains(BlockStateId(ids::OAK_LOG)) ==> draws_on(b.section_seq(), pool),
                forall|x: int, y: int, z: int| 0 <= x < 16 && 0 <= z < 16 && !hut_laid(ax as int, az as int, base as int, dy as int, dx as int, 0, x, y, z) ==> #[trigger] b.block(x, y, z) == old(b).block(x, y, z),
                roomy ==> forall|x: int, y: int, z: int| 0 <= x < 16 && 0 <= z < 16 && -2048 <= y < 2048 && hut_laid(ax as int, az as int, base as int, dy as int, dx as int, 0, x, y, z) ==> #[trigger] b.block(x, y, z) == hut_cell(x - ax, y - base, z - az)->0,
                1 <= dy < 4,
                dx <= 5,
            decreases 5 - dx,
        {
            let mut dz: usize = 0;
            while dz < 5
                invariant
                    b.wf(),
                    b.registry_of() == old(b).registry_of(),
                    ax <= 11,
                    az <= 11,
                    base == surface + 1,
                    surface <= i32::MAX - 5,
                    roomy == exists|pool: Set<BlockStateId>| #[trigger] draws_on(old(b).section_seq(), pool) && pool.contains(BlockStateId(ids::OAK_PLANKS)) && pool.contains(BlockStateId(ids::OAK_LOG)),
                    forall|pool: Set<BlockStateId>| #[trigger] draws_on(old(b).section_seq(), pool) && pool.contains(BlockStateId(ids::OAK_PLANKS)) && pool.contains(BlockStateId(ids::OAK_LOG)) ==> draws_on(b.section_seq(), pool),
                    forall|x: int, y: int, z: int| 0 <= x < 16 && 0 <= z < 16 && !hut_laid(ax as int, az as int, base as int, dy as int, dx as int, dz as int, x, y, z) ==> #[trigger] b.block(x, y, z) == old(b).block(x, y, z),
                    roomy ==> forall|x: int, y: int, z: int| 0 <= x < 16 && 0 <= z < 16 && -2048 <= y < 2048 && hut_laid(ax as int, az as int, base as int, dy as int, dx as int, dz as int, x, y, z) ==> #[trigger] b.block(x, y, z) == hut_cell(x - ax, y - base, z - az)->0,
                    1 <= dy < 4,
                    dx < 5,
                    dz <= 5,
                decreases 5 - dz,
            {
                let perimeter = dx == 0 || dx == 4 || dz == 0 || dz == 4;
                let doorway = dz == 0 && dx == 2 && dy <= 2;
                if perimeter && !doorway {
                    let corner = (dx == 0 || dx == 4) && (dz == 0 || dz == 4);
                    let id = if corner {
                        ids::OAK_LOG
                    } else {
                        ids::OAK_PLANKS
                    };
                    let ghost pre = *b;
                    proof {
                        if roomy {
                            let pool = choose|pool: Set<BlockStateId>| #[trigger] draws_on(old(b).section_seq(), pool) && pool.contains(BlockStateId(ids::OAK_PLANKS)) && pool.contains(BlockStateId(ids::OAK_LOG));
                            b.lemma_accepts(pool, (base + dy) as int, BlockStateId(id));
                        }
                    }
                    b.set(ax + dx, base + dy, az + dz, BlockStateId(id));
                    proof {
                        assert forall|x: int, y: int, z: int| 0 <= x < 16 && 0 <= z < 16 implies #[trigger] b.block(x, y, z) == (if x == (ax + dx) as int && y == (base + dy) as int && z == (az + dz) as int && -2048 <= y < 2048 && roomy { BlockStateId(id) } else { pre.block(x, y, z) }) || (x == (ax + dx) as int && y == (base + dy) as int && z == (az + dz) as int && !roomy) by {
                            if roomy && -2048 <= (base + dy) as int && ((base + dy) as int) < 2048 {
                                assert(pre.accepts((base + dy) as int, BlockStateId(id)));
                            }
                        }
                    }
                }
                dz += 1;
            }
            dx += 1;
        }
        dy += 1;
    }
    let mut dx: usize = 0;
    while dx < 5
        invariant
            b.wf(),
            b.registry_of() == old(b).registry_of(),
            ax <= 11,
            az <= 11,
            base == surface + 1,
            surface <= i32::MAX - 5,
            roomy == exists|pool: Set<BlockStateId>| #[trigger] draws_on(old(b).section_seq(), pool) && pool.contains(BlockStateId(ids::OAK_PLANKS)) && pool.contains(BlockStateId(ids::OAK_LOG)),
            forall|pool: Set<BlockStateId>| #[trigger] draws_on(old(b).section_seq(), pool) && pool.contains(BlockStateId(ids::OAK_PLANKS)) && pool.contains(BlockStateId(ids::OAK_LOG)) ==> draws_on(b.section_seq(), pool),
            forall|x: int, y: int, z: int| 0 <= x < 16 && 0 <= z < 16 && !hut_laid(ax as int, az as int, base as int, 4, dx as int, 0, x, y, z) ==> #[trigger] b.block(x, y, z) == old(b).block(x, y, z),
            roomy ==> forall|x: int, y: int, z: int| 0 <= x < 16 && 0 <= z < 16 && -2048 <= y < 2048 && hut_laid(ax as int, az as int, base as int, 4, dx as int, 0, x, y, z) ==> #[trigger] b.block(x, y, z) == hut_cell(x - ax, y - base, z - az)->0,
            dx <= 5,
        decreases 5 - dx,
    {
        let mut dz: usize = 0;
        while dz < 5
            invariant
                b.wf(),
                b.registry_of() == old(b).registry_of(),
                ax <= 11,
                az <= 11,
                base == surface + 1,
                surface <= i32::MAX - 5,
                roomy == exists|pool: Set<BlockStateId>| #[trigger] draws_on(old(b).section_seq(), pool) && pool.contains(BlockStateId(ids::OAK_PLANKS)) && pool.contains(BlockStateId(ids::OAK_LOG)),
                forall|pool: Set<BlockStateId>| #[trigger] draws_on(old(b).section_seq(), pool) && pool.contains(BlockStateId(ids::OAK_PLANKS)) && pool.contains(BlockStateId(ids::OAK_LOG)) ==> draws_on(b.section_seq(), pool),
                forall|x: int, y: int, z: int| 0 <= x < 16 && 0 <= z < 16 && !hut_laid(ax as int, az as int, base as int, 4, dx as int, dz as int, x, y, z) ==> #[trigger] b.block(x, y, z) == old(b).block(x, y, z),
                roomy ==> forall|x: int, y: int, z: int| 0 <= x < 16 && 0 <= z < 16 && -2048 <= y < 2048 && hut_laid(ax as int, az as int, base as int, 4, dx as int, dz as int, x, y, z) ==> #[trigger] b.block(x, y, z) == hut_cell(x - ax, y - base, z - az)->0,
                dx < 5,
                dz <= 5,
            decreases 5 - dz,
        {
            let ghost pre = *b;
            proof {
                if roomy {
                    let pool = choose|pool: Set<BlockStateId>| #[trigger] draws_on(old(b).section_seq(), pool) && pool.contains(BlockStateId(ids::OAK_PLANKS)) && pool.contains(BlockStateId(ids::OAK_LOG));
                    b.lemma_accepts(pool, (base + 4) as int, BlockStateId(ids::OAK_PLANKS));
                }
            }
            b.set(ax + dx, base + 4, az + dz, BlockStateId(ids::OAK_PLANKS));
            proof {
                assert forall|x: int, y: int, z: int| 0 <= x < 16 && 0 <= z < 16 implies #[trigger] b.block(x, y, z) == (if x == (ax + dx) as int && y == (base + 4) as int && z == (az + dz) as int && -2048 <= y < 2048 && roomy { BlockStateId(ids::OAK_PLANKS) } else { pre.block(x, y, z) }) || (x == (ax + dx) as int && y == (base + 4) as int && z == (az + dz) as int && !roomy) by {
                    if roomy && -2048 <= (base + 4) as int && ((base + 4) as int) < 2048 {
                        assert(pre.accepts((base + 4) as int, BlockStateId(ids::OAK_PLANKS)));
                    }
                }
            }
            dz += 1;
        }
        dx += 1;
    }
    proof {
        assert forall|pool: Set<BlockStateId>|
            #[trigger] draws_on(old(b).section_seq(), pool) && pool.contains(BlockStateId(ids::OAK_PLANKS)) && pool.contains(BlockStateId(ids::OAK_LOG)) implies forall|x: int, y: int, z: int|
                0 <= x < 16 && 0 <= z < 16 && -2048 <= y < 2048 && hut_cell(x - ax, y - (surface + 1), z - az) is Some
                    ==> #[trigger] b.block(x, y, z) == hut_cell(x - ax, y - (surface + 1), z - az)->0 by {
            assert(roomy);
        }
    }
}

/// The block a structure of `kind` anchored at `(ax, az)` over a surface at
/// `surface` puts at local `(x, y, z)`, if it puts one there.
pub open spec fn structure_cell(kind: Structure, ax: int, az: int, surface: int, x: int, y: int, z: int) -> Option<
    BlockStateId,
> {
    match kind {
        Structure::Dungeon => if surface - 10 < 2 {
            None
        } else {
            dungeon_cell(x, z, x - ax, y - (surface - 10), z - az)
        },
        Structure::Hut => hut_cell(x - ax, y - (surface + 1), z - az),
    }
}

/// Stamp a structure of `kind` anchored at `(ax, az)` into the column whose
/// surface at the anchor is `surface`.
///
/// Nothing outside the structure's cells changes. Where the builder's
/// palettes draw on at most 4096 ids counting the structures' blocks, every
/// structure cell in the world's height range holds its block.
pub fn stamp_structure(kind: Structure, ax: usize, az: usize, surface: i32, b: &mut ColumnBuilder)
    requires
        old(b).wf(),
        2 <= ax <= 8,
        2 <= az <= 8,
        i32::MIN + 10 <= surface <= i32::MAX - 5,
    ensures
        final(b).wf(),
        final(b).registry_of() == old(b).registry_of(),
        forall|x: int, y: int, z: int|
            0 <= x < 16 && 0 <= z < 16 && structure_cell(kind, ax as int, az as int, surface as int, x, y, z) is None
                ==> #[trigger] final(b).block(x, y, z) == old(b).block(x, y, z),
        forall|pool: Set<BlockStateId>|
            #[trigger] draws_on(old(b).section_seq(), pool) && pool.contains(BlockStateId(ids::OAK_PLANKS)) && pool.contains(BlockStateId(ids::OAK_LOG)) && pool.contains(BlockStateId(ids::COBBLESTONE)) && pool.contains(BlockStateId(ids::MOSSY_COBBLESTONE)) && pool.contains(BlockStateId(ids::SPAWNER)) && pool.contains(BlockStateId(ids::CHEST))
                ==> forall|x: int, y: int, z: int|
                0 <= x < 16 && 0 <= z < 16 && -2048 <= y < 2048 && structure_cell(kind, ax as int, az as int, surface as int, x, y, z) is Some
                    ==> #[trigger] final(b).block(x, y, z) == structure_cell(kind, ax as int, az as int, surface as int, x, y, z)->0,
{
    match kind {
        Structure::Dungeon => stamp_dungeon(ax, az, surface, b),
        Structure::Hut => stamp_hut(ax, az, surface, b),
    }
}

} // verus!
