pub mod byte_order;
pub mod dimension;
pub mod error;
pub mod nbt_frame;
pub mod nbt_net_scan;
pub mod sub_chunk;
pub mod sub_chunk_format;
pub mod world_block;
pub mod format_round_trip;
pub mod format_laws;
pub mod serde_store;
pub mod file_interface;
pub mod level;
