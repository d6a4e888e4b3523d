//! The world's units: chunk coordinates, cities, and a chunk's contents.

use vstd::prelude::*;

verus! {

/// Side length of a chunk, in world units.
pub const CHUNK_SIZE: i32 = 64;

/// Number of grid cells in one chunk.
pub const CELLS_PER_CHUNK: usize = 4096;

/// Cities aimed at per hundred cells.
pub const CITIES_PER_HUNDRED_CELLS: usize = 2;

/// Number of candidate cities drawn for every chunk: the density applied to
/// the chunk's area, rounded to the nearest whole number.
pub const TARGET_CITY_COUNT: usize = 82;

/// Most chunks a cache keeps alive.
pub const MAX_CACHED_CHUNKS: usize = 100;

/// A city's payload keeps the low thirty bits of the word drawn for it.
pub const CITY_SEED_MASK: u32 = 0x3FFF_FFFF;

/// The target count is the nearest whole number to
/// `CELLS_PER_CHUNK * CITIES_PER_HUNDRED_CELLS / 100`.
pub proof fn lemma_target_is_rounded_density()
    ensures
        2 * (100 * TARGET_CITY_COUNT - CELLS_PER_CHUNK * CITIES_PER_HUNDRED_CELLS) < 100,
        2 * (CELLS_PER_CHUNK * CITIES_PER_HUNDRED_CELLS - 100 * TARGET_CITY_COUNT) < 100,
        CELLS_PER_CHUNK == CHUNK_SIZE * CHUNK_SIZE,
{
}

/// Position of a chunk on the unbounded integer grid.
#[derive(Clone, Copy, PartialEq, Eq, Hash, Debug, Structural)]
pub struct ChunkCoord {
    pub x: i32,
    pub y: i32,
}

impl ChunkCoord {
    pub fn new(x: i32, y: i32) -> (coord: Self)
        ensures
            coord.x == x,
            coord.y == y,
    {
        Self { x, y }
    }
}

/// A city: its cell within the chunk that owns it, and an opaque payload.
#[derive(Clone, Copy, PartialEq, Eq, Debug, Structural)]
pub struct City {
    pub grid_x: i32,
    pub grid_y: i32,
    pub seed: u32,
}

impl City {
    /// A city lies on the grid when its cell is inside the chunk and its
    /// payload fits in thirty bits.
    pub open spec fn on_grid(&self) -> bool {
        &&& 0 <= self.grid_x < CHUNK_SIZE
        &&& 0 <= self.grid_y < CHUNK_SIZE
        &&& self.seed <= CITY_SEED_MASK
    }

    pub open spec fn spec_world_x(&self, chunk: ChunkCoord) -> int {
        chunk.x * CHUNK_SIZE + self.grid_x
    }

    pub open spec fn spec_world_y(&self, chunk: ChunkCoord) -> int {
        chunk.y * CHUNK_SIZE + self.grid_y
    }

    /// World x coordinate of the city, given the chunk that owns it.
    pub fn world_x(&self, chunk: &ChunkCoord) -> (wx: i64)
        ensures
            wx == self.spec_world_x(*chunk),
    {
        let base: i64 = (chunk.x as i64) * 64;
        base + (self.grid_x as i64)
    }

    /// World y coordinate of the city, given the chunk that owns it.
    pub fn world_y(&self, chunk: &ChunkCoord) -> (wy: i64)
        ensures
            wy == self.spec_world_y(*chunk),
    {
        let base: i64 = (chunk.y as i64) * 64;
        base + (self.grid_y as i64)
    }
}

/// What a chunk holds, as plain values.
pub struct ChunkRecord {
    pub coord: ChunkCoord,
    pub cities: Seq<City>,
    pub last_used: u64,
}

/// A generated chunk: its cities in the order they were drawn, and the frame
/// in which it was last asked for.
pub struct ChunkData {
    pub coord: ChunkCoord,
    pub cities: Vec<City>,
    pub last_used: u64,
}

impl View for ChunkData {
    type V = ChunkRecord;

    open spec fn view(&self) -> ChunkRecord {
        ChunkRecord { coord: self.coord, cities: self.cities@, last_used: self.last_used }
    }
}

} // verus!
