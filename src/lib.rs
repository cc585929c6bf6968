//! Chunked tile storage with change tracking, a chunk/handle bijection and
//! the cache protocol that keeps derived render resources in step with it.
pub mod tile;
pub mod chunk;
pub mod chunk_index;
pub mod coord_table;
pub mod tile_map;
pub mod updates;
pub mod access;
pub mod chunk_map;
pub mod sync;
pub mod laws;
