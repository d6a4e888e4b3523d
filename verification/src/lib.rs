//! Deterministic world generation and viewport bookkeeping for an endless
//! two-dimensional grid of cities.
//!
//! The world is cut into square chunks. Each chunk's cities are drawn from a
//! reproducible random stream seeded by the world seed and the chunk's
//! coordinate, so that every party holding the seed derives the same world.
//! A bounded cache keeps the chunks that were looked at last, a resolver
//! lists the chunks under a viewport, and the path functions frame the
//! buffer that carries agent paths and find where on its path an agent is.

pub mod cache;
pub mod chunk;
pub mod generator;
pub mod paths;
pub mod stream;
pub mod visibility;

pub use cache::{ChunkCache, FrameStats};
pub use chunk::{
    ChunkCoord, ChunkData, ChunkRecord, City, CHUNK_SIZE, MAX_CACHED_CHUNKS, TARGET_CITY_COUNT,
};
pub use generator::{generate_chunk, get_city_count};
