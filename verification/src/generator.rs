//! The chunk generator: from a world seed and a chunk coordinate to the
//! chunk's cities, the same on every machine.

use crate::chunk::{ChunkCoord, City, CHUNK_SIZE, CITY_SEED_MASK, TARGET_CITY_COUNT};
use crate::stream::{cell_draw, draw_cell, draw_word, seeded_stream, seeded_words, stream_words, word_draw};
use std::collections::HashSet;
use vstd::prelude::*;

verus! {

broadcast use vstd::std_specs::hash::group_hash_axioms;

/// Multiplier applied to a chunk's x coordinate when mixing the stream seed.
pub const SEED_MIX_X: i64 = 73856093;

/// Multiplier applied to a chunk's y coordinate when mixing the stream seed.
pub const SEED_MIX_Y: i64 = 19349663;

/// Seed of a chunk's stream: the world seed, the x coordinate times
/// `SEED_MIX_X` and the y coordinate times `SEED_MIX_Y`, as 64-bit
/// two's-complement words, combined bit by bit with exclusive or.
pub open spec fn spec_chunk_seed(world_seed: u32, coord: ChunkCoord) -> u64 {
    (world_seed as u64) ^ ((coord.x * SEED_MIX_X) as i64 as u64) ^ ((coord.y * SEED_MIX_Y) as i64
        as u64)
}

/// Computes the seed of a chunk's stream.
pub fn chunk_seed(world_seed: u32, coord: ChunkCoord) -> (seed: u64)
    ensures
        seed == spec_chunk_seed(world_seed, coord),
{
    let mixed_x: i64 = (coord.x as i64) * SEED_MIX_X;
    let mixed_y: i64 = (coord.y as i64) * SEED_MIX_Y;
    (world_seed as u64) ^ (mixed_x as u64) ^ (mixed_y as u64)
}

/// For one chunk coordinate, different world seeds seed different streams.
pub proof fn lemma_world_seeds_give_distinct_chunk_seeds(a: u32, b: u32, coord: ChunkCoord)
    requires
        a != b,
    ensures
        spec_chunk_seed(a, coord) != spec_chunk_seed(b, coord),
{
    let mx = (coord.x * SEED_MIX_X) as i64 as u64;
    let my = (coord.y * SEED_MIX_Y) as i64 as u64;
    let wa = a as u64;
    let wb = b as u64;
    assert(wa != wb ==> (wa ^ mx ^ my) != (wb ^ mx ^ my)) by (bit_vector);
}

/// Whether some city of `cities` sits on cell `(grid_x, grid_y)`.
pub open spec fn occupied(cities: Seq<City>, grid_x: i32, grid_y: i32) -> bool {
    exists|i: int|
        0 <= i < cities.len() && (#[trigger] cities[i]).grid_x == grid_x && cities[i].grid_y
            == grid_y
}

/// No two cities of `cities` share a cell.
pub open spec fn distinct_cells(cities: Seq<City>) -> bool {
    forall|i: int, j: int|
        0 <= i < j < cities.len() ==> !((#[trigger] cities[i]).grid_x == (#[trigger] cities[j]).grid_x
            && cities[i].grid_y == cities[j].grid_y)
}

/// Every city of `cities` lies on the grid.
pub open spec fn all_on_grid(cities: Seq<City>) -> bool {
    forall|i: int| 0 <= i < cities.len() ==> (#[trigger] cities[i]).on_grid()
}

/// The city made from a cell and the word drawn for it.
pub open spec fn city_from_draw(grid_x: i32, grid_y: i32, word: u32) -> City {
    City { grid_x, grid_y, seed: word & CITY_SEED_MASK }
}

/// Whether `(grid_x, grid_y)` is a cell of the chunk.
pub open spec fn on_chunk(grid_x: i32, grid_y: i32) -> bool {
    0 <= grid_x < CHUNK_SIZE && 0 <= grid_y < CHUNK_SIZE
}

/// The cities accepted so far for a chunk under construction, with the index
/// of occupied cells that decides whether a candidate is dropped.
pub struct ChunkBuilder {
    cities: Vec<City>,
    used: HashSet<i32>,
}

impl ChunkBuilder {
    /// The cities accepted so far, in the order they were accepted.
    pub closed spec fn cities(&self) -> Seq<City> {
        self.cities@
    }

    /// The builder's invariant: the cities lie on the grid on distinct
    /// cells, and the index holds exactly their cells.
    pub closed spec fn wf(&self) -> bool {
        &&& all_on_grid(self.cities@)
        &&& distinct_cells(self.cities@)
        &&& forall|gx: i32, gy: i32|
            on_chunk(gx, gy) ==> (self.used@.contains(#[trigger] cell_key(gx, gy)) <==> occupied(
                self.cities@,
                gx,
                gy,
            ))
    }

    /// A builder with no city.
    pub fn new() -> (builder: Self)
        ensures
            builder.wf(),
            builder.cities() == Seq::<City>::empty(),
    {
        ChunkBuilder { cities: Vec::new(), used: HashSet::new() }
    }

    /// Whether a city already sits on the cell. A cell outside the chunk is
    /// never taken.
    pub fn is_taken(&self, grid_x: i32, grid_y: i32) -> (taken: bool)
        requires
            self.wf(),
        ensures
            taken == occupied(self.cities(), grid_x, grid_y),
    {
        if 0 <= grid_x && grid_x < CHUNK_SIZE && 0 <= grid_y && grid_y < CHUNK_SIZE {
            let key: i32 = grid_y * CHUNK_SIZE + grid_x;
            assert(key == cell_key(grid_x, grid_y));
            self.used.contains(&key)
        } else {
            proof {
                if occupied(self.cities@, grid_x, grid_y) {
                    let i = choose|i: int|
                        0 <= i < self.cities@.len() && (#[trigger] self.cities@[i]).grid_x == grid_x
                            && self.cities@[i].grid_y == grid_y;
                    assert(self.cities@[i].on_grid());
                }
            }
            false
        }
    }

    /// Accepts a candidate: if the cell is inside the chunk and free, a city
    /// with the low thirty bits of `word` as its payload is appended and
    /// `true` is returned. Otherwise nothing changes.
    pub fn place(&mut self, grid_x: i32, grid_y: i32, word: u32) -> (accepted: bool)
        requires
            old(self).wf(),
        ensures
            final(self).wf(),
            accepted == (on_chunk(grid_x, grid_y) && !occupied(old(self).cities(), grid_x, grid_y)),
            accepted ==> final(self).cities() == old(self).cities().push(
                city_from_draw(grid_x, grid_y, word),
            ),
            !accepted ==> final(self).cities() == old(self).cities(),
    {
        if !(0 <= grid_x && grid_x < CHUNK_SIZE && 0 <= grid_y && grid_y < CHUNK_SIZE) {
            return false;
        }
        if self.is_taken(grid_x, grid_y) {
            return false;
        }
        let key: i32 = grid_y * CHUNK_SIZE + grid_x;
        let seed: u32 = word & CITY_SEED_MASK;
        let city = City { grid_x, grid_y, seed };
        let ghost before = self.cities@;
        self.used.insert(key);
        self.cities.push(city);
        proof {
            assert(seed <= CITY_SEED_MASK) by (bit_vector)
                requires
                    seed == word & 0x3FFF_FFFFu32,
                    CITY_SEED_MASK == 0x3FFF_FFFFu32,
            ;
            let after = self.cities@;
            assert(after == before.push(city));
            assert(forall|i: int| 0 <= i < before.len() ==> after[i] == before[i]);
            assert(all_on_grid(after));
            assert(distinct_cells(after)) by {
                assert forall|i: int, j: int| 0 <= i < j < after.len() implies !((
                #[trigger] after[i]).grid_x == (#[trigger] after[j]).grid_x && after[i].grid_y
                    == after[j].grid_y) by {
                    if j < before.len() {
                        assert(before[i] == after[i] && before[j] == after[j]);
                    } else {
                        assert(before[i] == after[i]);
                    }
                }
            }
            assert forall|gx: i32, gy: i32| on_chunk(gx, gy) implies (self.used@.contains(
                #[trigger] cell_key(gx, gy),
            ) <==> occupied(after, gx, gy)) by {
                lemma_cell_key_injective(gx, gy, grid_x, grid_y);
                if occupied(before, gx, gy) {
                    let i = choose|i: int|
                        0 <= i < before.len() && (#[trigger] before[i]).grid_x == gx
                            && before[i].grid_y == gy;
                    assert(after[i] == before[i]);
                }
                if gx == grid_x && gy == grid_y {
                    assert(after[before.len() as int] == city);
                }
                if occupied(after, gx, gy) {
                    let i = choose|i: int|
                        0 <= i < after.len() && (#[trigger] after[i]).grid_x == gx
                            && after[i].grid_y == gy;
                    if i < before.len() {
                        assert(before[i] == after[i]);
                    }
                }
            }
        }
        true
    }

    /// Hands out the accepted cities.
    pub fn finish(self) -> (cities: Vec<City>)
        requires
            self.wf(),
        ensures
            cities@ == self.cities(),
            all_on_grid(cities@),
            distinct_cells(cities@),
    {
        self.cities
    }
}

/// The number under which the index of occupied cells files a cell.
pub open spec fn cell_key(grid_x: i32, grid_y: i32) -> i32 {
    (grid_y * CHUNK_SIZE + grid_x) as i32
}

proof fn lemma_cell_key_injective(ax: i32, ay: i32, bx: i32, by: i32)
    requires
        on_chunk(ax, ay),
        on_chunk(bx, by),
    ensures
        cell_key(ax, ay) == cell_key(bx, by) <==> (ax == bx && ay == by),
{
}

/// The cities of a chunk whose stream holds `words`, after `cities` were
/// accepted and with `remaining` candidates still to draw. Every candidate
/// takes three draws from the stream, kept or not: its two cell coordinates
/// and its payload word. One that lands on an occupied cell is dropped, and
/// nothing is drawn in its place. So a candidate always reads the same
/// places of the stream, whatever became of those before it.
pub open spec fn drawn_cities(words: Seq<u64>, cities: Seq<City>, remaining: nat) -> Seq<City>
    decreases remaining,
{
    if remaining == 0 {
        cities
    } else {
        let (grid_x, after_x) = cell_draw(words, CHUNK_SIZE);
        let (grid_y, after_y) = cell_draw(after_x, CHUNK_SIZE);
        let (word, after_word) = word_draw(after_y);
        if occupied(cities, grid_x, grid_y) {
            drawn_cities(after_word, cities, (remaining - 1) as nat)
        } else {
            drawn_cities(
                after_word,
                cities.push(city_from_draw(grid_x, grid_y, word)),
                (remaining - 1) as nat,
            )
        }
    }
}

/// The words that a stream holds after `candidates` candidates were drawn
/// from it. They do not depend on which candidates were kept.
pub open spec fn words_after(words: Seq<u64>, candidates: nat) -> Seq<u64>
    decreases candidates,
{
    if candidates == 0 {
        words
    } else {
        let after_x = cell_draw(words, CHUNK_SIZE).1;
        let after_y = cell_draw(after_x, CHUNK_SIZE).1;
        words_after(word_draw(after_y).1, (candidates - 1) as nat)
    }
}

/// Drawing `first` candidates and then `rest` more gives what drawing all
/// of them at once gives: the later candidates start from the words that
/// `first` candidates leave behind, whichever of these were kept.
pub proof fn lemma_candidates_read_fixed_places(
    words: Seq<u64>,
    cities: Seq<City>,
    first: nat,
    rest: nat,
)
    ensures
        drawn_cities(words, cities, first + rest) == drawn_cities(
            words_after(words, first),
            drawn_cities(words, cities, first),
            rest,
        ),
    decreases first,
{
    if first > 0 {
        let (grid_x, after_x) = cell_draw(words, CHUNK_SIZE);
        let (grid_y, after_y) = cell_draw(after_x, CHUNK_SIZE);
        let (word, after_word) = word_draw(after_y);
        let next = if occupied(cities, grid_x, grid_y) {
            cities
        } else {
            cities.push(city_from_draw(grid_x, grid_y, word))
        };
        lemma_candidates_read_fixed_places(after_word, next, (first - 1) as nat, rest);
        assert(drawn_cities(words, cities, first + rest) == drawn_cities(
            after_word,
            next,
            (first - 1 + rest) as nat,
        ));
        assert(drawn_cities(words, cities, first) == drawn_cities(
            after_word,
            next,
            (first - 1) as nat,
        ));
    }
}

/// The cities of chunk `coord` in the world grown from `world_seed`.
pub open spec fn generated_cities(world_seed: u32, coord: ChunkCoord) -> Seq<City> {
    drawn_cities(
        seeded_words(spec_chunk_seed(world_seed, coord)),
        Seq::<City>::empty(),
        TARGET_CITY_COUNT as nat,
    )
}

/// Drawing further candidates keeps the cities already accepted apart and
/// adds at most one city per candidate.
pub proof fn lemma_drawn_cities_stay_distinct(words: Seq<u64>, cities: Seq<City>, remaining: nat)
    requires
        distinct_cells(cities),
    ensures
        distinct_cells(drawn_cities(words, cities, remaining)),
        cities.len() <= drawn_cities(words, cities, remaining).len() <= cities.len() + remaining,
    decreases remaining,
{
    if remaining > 0 {
        let (grid_x, after_x) = cell_draw(words, CHUNK_SIZE);
        let (grid_y, after_y) = cell_draw(after_x, CHUNK_SIZE);
        let (word, after_word) = word_draw(after_y);
        if occupied(cities, grid_x, grid_y) {
            lemma_drawn_cities_stay_distinct(after_word, cities, (remaining - 1) as nat);
        } else {
            let grown = cities.push(city_from_draw(grid_x, grid_y, word));
            assert forall|i: int, j: int| 0 <= i < j < grown.len() implies !((
            #[trigger] grown[i]).grid_x == (#[trigger] grown[j]).grid_x && grown[i].grid_y
                == grown[j].grid_y) by {
                assert(grown[i] == cities[i]);
                if j < cities.len() {
                    assert(grown[j] == cities[j]);
                }
            }
            lemma_drawn_cities_stay_distinct(after_word, grown, (remaining - 1) as nat);
        }
    }
}

/// Every chunk of every world has at most `TARGET_CITY_COUNT` cities, and no
/// two of them share a cell.
pub proof fn lemma_generated_cities_bounded_and_distinct(world_seed: u32, coord: ChunkCoord)
    ensures
        generated_cities(world_seed, coord).len() <= TARGET_CITY_COUNT,
        distinct_cells(generated_cities(world_seed, coord)),
{
    lemma_drawn_cities_stay_distinct(
        seeded_words(spec_chunk_seed(world_seed, coord)),
        Seq::<City>::empty(),
        TARGET_CITY_COUNT as nat,
    );
}

/// Generation is deterministic: whatever two calls of `generate_chunk` with
/// the same world seed and the same coordinate return, it is the same list
/// of cities in the same order.
pub proof fn lemma_generation_is_deterministic(
    world_seed: u32,
    coord: ChunkCoord,
    first: Seq<City>,
    second: Seq<City>,
)
    requires
        first == generated_cities(world_seed, coord),
        second == generated_cities(world_seed, coord),
    ensures
        first == second,
        first.len() == second.len(),
        forall|i: int| 0 <= i < first.len() ==> first[i] == second[i],
{
}

/// Generates the cities of chunk `(chunk_x, chunk_y)`.
///
/// The result is a function of the three arguments alone, so any two calls
/// with the same arguments return the same cities in the same order. At most
/// `TARGET_CITY_COUNT` cities come back, all on the grid, no two on one cell.
/// Exactly `TARGET_CITY_COUNT` candidates are drawn, three draws each; a
/// candidate on an occupied cell is dropped and not drawn again.
pub fn generate_chunk(world_seed: u32, chunk_x: i32, chunk_y: i32) -> (cities: Vec<City>)
    ensures
        cities@ == generated_cities(world_seed, ChunkCoord { x: chunk_x, y: chunk_y }),
        cities@.len() <= TARGET_CITY_COUNT,
        all_on_grid(cities@),
        distinct_cells(cities@),
{
    let coord = ChunkCoord::new(chunk_x, chunk_y);
    let mut rng = seeded_stream(chunk_seed(world_seed, coord));
    let mut builder = ChunkBuilder::new();
    let mut drawn: usize = 0;
    while drawn < TARGET_CITY_COUNT
        invariant
            drawn <= TARGET_CITY_COUNT,
            builder.wf(),
            builder.cities().len() <= drawn,
            drawn_cities(
                stream_words(rng),
                builder.cities(),
                (TARGET_CITY_COUNT - drawn) as nat,
            ) == generated_cities(world_seed, coord),
        decreases TARGET_CITY_COUNT - drawn,
    {
        let grid_x = draw_cell(&mut rng, CHUNK_SIZE);
        let grid_y = draw_cell(&mut rng, CHUNK_SIZE);
        let word = draw_word(&mut rng);
        builder.place(grid_x, grid_y, word);
        drawn += 1;
    }
    builder.finish()
}

/// The number of cities in chunk `(chunk_x, chunk_y)`.
pub fn get_city_count(world_seed: u32, chunk_x: i32, chunk_y: i32) -> (count: usize)
    ensures
        count == generated_cities(world_seed, ChunkCoord { x: chunk_x, y: chunk_y }).len(),
        count <= TARGET_CITY_COUNT,
{
    generate_chunk(world_seed, chunk_x, chunk_y).len()
}

} // verus!
