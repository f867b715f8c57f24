//! Aether engine core library: the world memory model (palette-compressed
//! sub-chunks, SoA masks, Morton order), persistence formats, lighting,
//! redstone, crowd navigation and the wire codecs, with their behaviour
//! stated as contracts and proved.

pub mod morton;
pub mod block;
pub mod cell;
pub mod palette;
pub mod subchunk;
pub mod bytes;
pub mod format;
pub mod storage;
pub mod names;
pub mod ids;
pub mod registry;
pub mod redstone;
pub mod nav;
pub mod varint;
pub mod light;
pub mod column_light;
pub mod block_entity;
pub mod proto;
pub mod nbt;
pub mod block_map;
pub mod anvil;
pub mod vanilla_registry;
pub mod vanilla_section;
pub mod server;
pub mod worldgen;
pub mod entity;
pub mod player;
pub mod simd;
pub mod convert;
pub mod fjall_store;
pub mod text;
pub mod telemetry;
pub mod world;
pub mod terrain;
pub mod survey;
