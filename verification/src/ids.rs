//! Fixed raw ids of the well-known blocks every [`crate::registry::BlockRegistry`]
//! seeds (index == numeric id).

use vstd::prelude::*;

verus! {

/// `minecraft:air`
pub const AIR: u32 = 0;
/// `minecraft:stone`
pub const STONE: u32 = 1;
/// `minecraft:dirt`
pub const DIRT: u32 = 2;
/// `minecraft:grass_block`
pub const GRASS_BLOCK: u32 = 3;
/// `minecraft:bedrock`
pub const BEDROCK: u32 = 4;
/// `minecraft:water`
pub const WATER: u32 = 5;
/// `minecraft:sand`
pub const SAND: u32 = 6;
/// `minecraft:gravel`
pub const GRAVEL: u32 = 7;
/// `minecraft:oak_log`
pub const OAK_LOG: u32 = 8;
/// `minecraft:oak_leaves`
pub const OAK_LEAVES: u32 = 9;
/// `minecraft:redstone_wire`
pub const REDSTONE_WIRE: u32 = 10;
/// `minecraft:torch` — a non-solid block-light source (emits 14).
pub const TORCH: u32 = 11;
/// `minecraft:glowstone` — an opaque block-light source (emits 15).
pub const GLOWSTONE: u32 = 12;
/// `minecraft:cobblestone`
pub const COBBLESTONE: u32 = 13;
/// `minecraft:oak_planks`
pub const OAK_PLANKS: u32 = 14;
/// `minecraft:mossy_cobblestone`
pub const MOSSY_COBBLESTONE: u32 = 15;
/// `minecraft:chest`
pub const CHEST: u32 = 16;
/// `minecraft:spawner`
pub const SPAWNER: u32 = 17;

} // verus!
