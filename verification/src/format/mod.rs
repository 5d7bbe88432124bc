//! Pure, synchronous codec for the block-based table format. Every function
//! here works on bytes already in memory.

pub mod block;
pub mod block_builder;
pub mod checksum;
pub mod codec;
pub mod footer;
pub mod index;
pub mod internal_key;
pub mod laws;
pub mod properties;
pub mod sst_builder;
pub mod varint;
