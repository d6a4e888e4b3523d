//! A bounded cache of generated chunks that evicts the chunk asked for
//! longest ago.
//!
//! The cache keeps its chunks in the order in which they were last asked
//! for. Its contents are modelled as a sequence of [`ChunkRecord`]s, and
//! every operation is stated as a function on that sequence.

use crate::chunk::{ChunkCoord, ChunkData, ChunkRecord, MAX_CACHED_CHUNKS, TARGET_CITY_COUNT};
use crate::visibility::{
    chunks_in_range, covers_viewport, lemma_visible_chunks_are_a_cover, spec_visible_range,
    visible_range,
};
use crate::generator::{
    all_on_grid, distinct_cells, generate_chunk, generated_cities,
    lemma_generated_cities_bounded_and_distinct,
};
use vstd::prelude::*;

verus! {

/// Whether `entries` has a record for `coord`.
pub open spec fn holds(entries: Seq<ChunkRecord>, coord: ChunkCoord) -> bool {
    exists|i: int| 0 <= i < entries.len() && (#[trigger] entries[i]).coord == coord
}

/// The place of the record for `coord`, where `entries` has one.
pub open spec fn index_of(entries: Seq<ChunkRecord>, coord: ChunkCoord) -> int {
    choose|i: int| 0 <= i < entries.len() && (#[trigger] entries[i]).coord == coord
}

/// Whether the record at `i` is the one to evict: none was used earlier, and
/// of those used in the same frame it comes first.
pub open spec fn is_oldest(entries: Seq<ChunkRecord>, i: int) -> bool {
    &&& 0 <= i < entries.len()
    &&& forall|j: int|
        0 <= j < entries.len() ==> entries[i].last_used <= (#[trigger] entries[j]).last_used
    &&& forall|j: int| 0 <= j < i ==> entries[i].last_used < (#[trigger] entries[j]).last_used
}

/// The place of the record to evict from a non-empty sequence.
pub open spec fn oldest_index(entries: Seq<ChunkRecord>) -> int {
    choose|i: int| is_oldest(entries, i)
}

/// `entries` after eviction: while there are more than `MAX_CACHED_CHUNKS`
/// records, the oldest one leaves.
pub open spec fn evicted(entries: Seq<ChunkRecord>) -> Seq<ChunkRecord>
    decreases entries.len(),
{
    if entries.len() <= MAX_CACHED_CHUNKS {
        entries
    } else {
        proof {
            lemma_oldest_exists(entries);
        }
        evicted(entries.remove(oldest_index(entries)))
    }
}

/// The record of a chunk generated in frame `frame`.
pub open spec fn fresh_record(world_seed: u32, coord: ChunkCoord, frame: u64) -> ChunkRecord {
    ChunkRecord { coord, cities: generated_cities(world_seed, coord), last_used: frame }
}

/// `entries` after `coord` was asked for in frame `frame`. A record that is
/// there moves to the back with its stamp renewed. Otherwise the chunk is
/// generated and appended, and then the cache evicts.
pub open spec fn requested(
    entries: Seq<ChunkRecord>,
    world_seed: u32,
    frame: u64,
    coord: ChunkCoord,
) -> Seq<ChunkRecord> {
    if holds(entries, coord) {
        let i = index_of(entries, coord);
        entries.remove(i).push(
            ChunkRecord { coord: entries[i].coord, cities: entries[i].cities, last_used: frame },
        )
    } else {
        evicted(entries.push(fresh_record(world_seed, coord, frame)))
    }
}

/// `entries` after the chunks at `coords` were asked for one after the other
/// in frame `frame`.
pub open spec fn requested_all(
    entries: Seq<ChunkRecord>,
    world_seed: u32,
    frame: u64,
    coords: Seq<ChunkCoord>,
) -> Seq<ChunkRecord>
    decreases coords.len(),
{
    if coords.len() == 0 {
        entries
    } else {
        requested(
            requested_all(entries, world_seed, frame, coords.drop_last()),
            world_seed,
            frame,
            coords.last(),
        )
    }
}

/// The number of cities in the chunks at `coords`, a chunk counted as often
/// as it is named.
pub open spec fn total_cities(world_seed: u32, coords: Seq<ChunkCoord>) -> nat
    decreases coords.len(),
{
    if coords.len() == 0 {
        0
    } else {
        total_cities(world_seed, coords.drop_last()) + generated_cities(
            world_seed,
            coords.last(),
        ).len()
    }
}

/// What holds of the records of a cache, whatever their number: each was
/// generated from the world seed for its coordinate, none is stamped later
/// than the current frame, and no coordinate occurs twice.
pub open spec fn records_sound(entries: Seq<ChunkRecord>, world_seed: u32, frame: u64) -> bool {
    &&& forall|i: int|
        0 <= i < entries.len() ==> (#[trigger] entries[i]).cities == generated_cities(
            world_seed,
            entries[i].coord,
        )
    &&& forall|i: int| 0 <= i < entries.len() ==> (#[trigger] entries[i]).last_used <= frame
    &&& forall|i: int, j: int|
        0 <= i < j < entries.len() ==> (#[trigger] entries[i]).coord != (#[trigger] entries[j]).coord
}

/// The invariant of a cache: sound records, and no more of them than
/// `MAX_CACHED_CHUNKS`.
pub open spec fn cache_invariant(entries: Seq<ChunkRecord>, world_seed: u32, frame: u64) -> bool {
    &&& records_sound(entries, world_seed, frame)
    &&& entries.len() <= MAX_CACHED_CHUNKS
}

/// Every city of every record lies on the grid.
pub open spec fn cities_on_grid(entries: Seq<ChunkRecord>) -> bool {
    forall|i: int| 0 <= i < entries.len() ==> all_on_grid((#[trigger] entries[i]).cities)
}

/// A sequence has at most one oldest record.
pub proof fn lemma_oldest_is_unique(entries: Seq<ChunkRecord>, i: int, j: int)
    requires
        is_oldest(entries, i),
        is_oldest(entries, j),
    ensures
        i == j,
{
    if i < j {
        assert(entries[j].last_used < entries[i].last_used);
    } else if j < i {
        assert(entries[i].last_used < entries[j].last_used);
    }
}

/// Where no coordinate occurs twice, a coordinate has one place.
pub proof fn lemma_index_of_is_unique(entries: Seq<ChunkRecord>, coord: ChunkCoord, i: int)
    requires
        forall|a: int, b: int|
            0 <= a < b < entries.len() ==> (#[trigger] entries[a]).coord != (
            #[trigger] entries[b]).coord,
        0 <= i < entries.len(),
        entries[i].coord == coord,
    ensures
        holds(entries, coord),
        index_of(entries, coord) == i,
{
    let k = index_of(entries, coord);
    if k < i {
        assert(entries[k].coord != entries[i].coord);
    } else if i < k {
        assert(entries[i].coord != entries[k].coord);
    }
}

/// What one rendering pass saw.
#[derive(Clone, Copy, PartialEq, Eq, Debug, Structural)]
pub struct FrameStats {
    /// Chunks in view.
    pub visible_chunks: usize,
    /// Chunks in the cache after the pass.
    pub cached_chunks: usize,
    /// Cities in the chunks in view.
    pub total_cities: u64,
}

/// The cache: the world seed it generates from, its chunks, and the frame
/// counter that stamps them.
pub struct ChunkCache {
    world_seed: u32,
    entries: Vec<ChunkData>,
    frame_counter: u64,
}

impl View for ChunkCache {
    type V = Seq<ChunkRecord>;

    /// The cached chunks, least recently asked for first.
    closed spec fn view(&self) -> Seq<ChunkRecord> {
        self.entries@.map_values(|data: ChunkData| data@)
    }
}

impl ChunkCache {
    /// The world seed, fixed when the cache is made.
    pub closed spec fn seed(&self) -> u32 {
        self.world_seed
    }

    /// The current frame.
    pub closed spec fn frame(&self) -> u64 {
        self.frame_counter
    }

    /// The cache's invariant, which `new` establishes and every method keeps.
    pub open spec fn wf(&self) -> bool {
        &&& cache_invariant(self@, self.seed(), self.frame())
        &&& cities_on_grid(self@)
    }

    /// An empty cache for the world grown from `world_seed`, at frame zero.
    pub fn new(world_seed: u32) -> (cache: Self)
        ensures
            cache.wf(),
            cache@ == Seq::<ChunkRecord>::empty(),
            cache.seed() == world_seed,
            cache.frame() == 0,
    {
        let cache = ChunkCache { world_seed, entries: Vec::new(), frame_counter: 0 };
        assert(cache@ =~= Seq::<ChunkRecord>::empty());
        cache
    }

    /// The world seed that the cache generates from.
    pub fn world_seed(&self) -> (world_seed: u32)
        ensures
            world_seed == self.seed(),
    {
        self.world_seed
    }

    /// The current frame: the stamp that a chunk asked for now would get.
    pub fn current_frame(&self) -> (frame: u64)
        ensures
            frame == self.frame(),
    {
        self.frame_counter
    }

    /// The place of the chunk at `coord`, if it is cached.
    fn position(&self, coord: ChunkCoord) -> (found: Option<usize>)
        ensures
            match found {
                Some(i) => i < self@.len() && self@[i as int].coord == coord,
                None => !holds(self@, coord),
            },
    {
        let mut i: usize = 0;
        while i < self.entries.len()
            invariant
                i <= self.entries.len(),
                self@.len() == self.entries.len(),
                forall|k: int| 0 <= k < i ==> (#[trigger] self@[k]).coord != coord,
            decreases self.entries.len() - i,
        {
            assert(self@[i as int] == self.entries@[i as int]@);
            if self.entries[i].coord.x == coord.x && self.entries[i].coord.y == coord.y {
                return Some(i);
            }
            i += 1;
        }
        None
    }

    /// The place of the chunk to evict.
    fn oldest(&self) -> (at: usize)
        requires
            self@.len() > 0,
        ensures
            is_oldest(self@, at as int),
    {
        let mut best: usize = 0;
        let mut i: usize = 1;
        while i < self.entries.len()
            invariant
                1 <= i <= self.entries.len(),
                self@.len() == self.entries.len(),
                is_oldest(self@.take(i as int), best as int),
            decreases self.entries.len() - i,
        {
            let ghost seen = self@.take(i as int);
            let ghost grown = self@.take(i + 1);
            assert(self@[i as int] == self.entries@[i as int]@);
            assert(self@[best as int] == self.entries@[best as int]@);
            assert(forall|k: int| 0 <= k < i ==> seen[k] == grown[k]);
            assert(grown[i as int] == self@[i as int]);
            if self.entries[i].last_used < self.entries[best].last_used {
                assert(seen[best as int] == self@[best as int]);
                assert forall|k: int| 0 <= k < i implies grown[i as int].last_used < (
                #[trigger] grown[k]).last_used by {
                    assert(seen[best as int].last_used <= seen[k].last_used);
                }
                best = i;
            } else {
                assert forall|k: int| 0 <= k < grown.len() implies grown[best as int].last_used <= (
                #[trigger] grown[k]).last_used by {
                    if k < i {
                        assert(seen[best as int].last_used <= seen[k].last_used);
                    }
                }
                assert forall|k: int| 0 <= k < best implies grown[best as int].last_used < (
                #[trigger] grown[k]).last_used by {
                    assert(seen[best as int].last_used < seen[k].last_used);
                }
            }
            i += 1;
        }
        assert(self@.take(i as int) =~= self@);
        best
    }

    /// Evicts the oldest chunks while there are more than the cache may keep.
    fn evict_if_needed(&mut self)
        ensures
            final(self)@ == evicted(old(self)@),
            final(self).seed() == old(self).seed(),
            final(self).frame() == old(self).frame(),
            cities_on_grid(old(self)@) ==> cities_on_grid(final(self)@),
    {
        while self.entries.len() > MAX_CACHED_CHUNKS
            invariant
                evicted(self@) == evicted(old(self)@),
                cities_on_grid(old(self)@) ==> cities_on_grid(self@),
                self@.len() == self.entries.len(),
                self.world_seed == old(self).world_seed,
                self.frame_counter == old(self).frame_counter,
            decreases self.entries.len(),
        {
            let ghost before = self@;
            let at = self.oldest();
            proof {
                lemma_oldest_is_unique(before, at as int, oldest_index(before));
            }
            self.entries.remove(at);
            assert(self@ =~= before.remove(at as int));
            assert forall|k: int| 0 <= k < self@.len() implies (#[trigger] self@[k]) == before[if k
                < at {
                k
            } else {
                k + 1
            }] by {}
        }
    }

    /// Returns the chunk at `coord`, generating it first if the cache does
    /// not hold it.
    ///
    /// The chunk returned holds the cities that the generator gives for the
    /// cache's world seed and `coord`, and is stamped with the current
    /// frame. It ends up at the back of the cache. If the chunk had to be
    /// generated and the cache was full, the oldest chunk has left.
    pub fn get_or_generate(&mut self, coord: ChunkCoord) -> (data: &ChunkData)
        requires
            old(self).wf(),
        ensures
            final(self).wf(),
            final(self).seed() == old(self).seed(),
            final(self).frame() == old(self).frame(),
            final(self)@ == requested(old(self)@, old(self).seed(), old(self).frame(), coord),
            data@ == fresh_record(old(self).seed(), coord, old(self).frame()),
            final(self)@.len() > 0,
            final(self)@.last() == data@,
            data.cities@.len() <= TARGET_CITY_COUNT,
            all_on_grid(data.cities@),
            distinct_cells(data.cities@),
    {
        let ghost before = self@;
        proof {
            lemma_request_keeps_invariant(before, self.seed(), self.frame(), coord);
            lemma_generated_cities_bounded_and_distinct(self.seed(), coord);
        }
        match self.position(coord) {
            Some(i) => {
                proof {
                    lemma_index_of_is_unique(before, coord, i as int);
                }
                let mut data = self.entries.remove(i);
                data.last_used = self.frame_counter;
                self.entries.push(data);
                assert(self@ =~= requested(before, self.seed(), self.frame(), coord));
                assert forall|k: int| 0 <= k < self@.len() implies all_on_grid(
                    (#[trigger] self@[k]).cities,
                ) by {
                    if k < self@.len() - 1 {
                        assert(self@[k] == before[if k < i { k } else { k + 1 }]);
                    } else {
                        assert(self@[k].cities == before[i as int].cities);
                    }
                }
            },
            None => {
                let cities = generate_chunk(self.world_seed, coord.x, coord.y);
                let data = ChunkData { coord, cities, last_used: self.frame_counter };
                self.entries.push(data);
                assert(self@ =~= before.push(fresh_record(self.seed(), coord, self.frame())));
                assert forall|k: int| 0 <= k < self@.len() implies all_on_grid(
                    (#[trigger] self@[k]).cities,
                ) by {
                    if k < before.len() {
                        assert(self@[k] == before[k]);
                    }
                }
                self.evict_if_needed();
            },
        }
        let last = self.entries.len() - 1;
        assert(self@[last as int] == self.entries@[last as int]@);
        &self.entries[last]
    }

    /// Lists the chunks that cover the viewport rectangle
    /// `[left, right] x [top, bottom]`, given in whole world units: column by
    /// column from left to right, each column from top to bottom. The chunk
    /// of every world cell of the rectangle is in the list, and none twice.
    pub fn get_visible_chunks(&self, left: i64, top: i64, right: i64, bottom: i64) -> (chunks: Vec<
        ChunkCoord,
    >)
        requires
            spec_visible_range(left as int, top as int, right as int, bottom as int).count()
                <= usize::MAX,
        ensures
            chunks@ == spec_visible_range(
                left as int,
                top as int,
                right as int,
                bottom as int,
            ).coords(),
            covers_viewport(chunks@, left as int, top as int, right as int, bottom as int),
            chunks@.no_duplicates(),
            left <= right && top <= bottom ==> chunks@.len() > 0,
    {
        let range = visible_range(left, top, right, bottom);
        proof {
            lemma_visible_chunks_are_a_cover(left as int, top as int, right as int, bottom as int);
        }
        chunks_in_range(&range)
    }

    /// One rendering pass: asks for every chunk in view, in order, counts
    /// their cities, and moves on to the next frame.
    pub fn load_frame(&mut self, visible: &Vec<ChunkCoord>) -> (stats: FrameStats)
        requires
            old(self).wf(),
            old(self).frame() < u64::MAX,
            visible@.len() * TARGET_CITY_COUNT <= u64::MAX,
        ensures
            final(self).wf(),
            final(self).seed() == old(self).seed(),
            final(self).frame() == old(self).frame() + 1,
            final(self)@ == requested_all(
                old(self)@,
                old(self).seed(),
                old(self).frame(),
                visible@,
            ),
            stats.visible_chunks == visible@.len(),
            stats.cached_chunks == final(self)@.len(),
            stats.total_cities == total_cities(old(self).seed(), visible@),
    {
        let mut total: u64 = 0;
        let mut i: usize = 0;
        while i < visible.len()
            invariant
                i <= visible@.len(),
                visible@.len() * TARGET_CITY_COUNT <= u64::MAX,
                self.wf(),
                self.seed() == old(self).seed(),
                self.frame() == old(self).frame(),
                self@ == requested_all(
                    old(self)@,
                    old(self).seed(),
                    old(self).frame(),
                    visible@.take(i as int),
                ),
                total == total_cities(old(self).seed(), visible@.take(i as int)),
                total <= i * TARGET_CITY_COUNT,
            decreases visible@.len() - i,
        {
            assert(visible@.take(i + 1).drop_last() =~= visible@.take(i as int));
            assert(visible@.take(i + 1).last() == visible@[i as int]);
            let data = self.get_or_generate(visible[i]);
            let count = data.cities.len();
            assert((i + 1) * TARGET_CITY_COUNT <= visible@.len() * TARGET_CITY_COUNT)
                by (nonlinear_arith)
                requires
                    i + 1 <= visible@.len(),
            ;
            total += count as u64;
            i += 1;
        }
        assert(visible@.take(i as int) =~= visible@);
        self.advance_frame();
        FrameStats {
            visible_chunks: visible.len(),
            cached_chunks: self.entries.len(),
            total_cities: total,
        }
    }

    /// Moves on to the next frame. Call once per rendering pass, after the
    /// pass has asked for its chunks.
    pub fn advance_frame(&mut self)
        requires
            old(self).wf(),
            old(self).frame() < u64::MAX,
        ensures
            final(self).wf(),
            final(self).frame() == old(self).frame() + 1,
            final(self).seed() == old(self).seed(),
            final(self)@ == old(self)@,
    {
        self.frame_counter += 1;
    }

    /// The number of cached chunks.
    pub fn cached_count(&self) -> (count: usize)
        ensures
            count == self@.len(),
            self.wf() ==> count <= MAX_CACHED_CHUNKS,
    {
        self.entries.len()
    }

    /// The cached chunks, least recently asked for first.
    pub fn iter(&self) -> (chunks: &Vec<ChunkData>)
        ensures
            chunks@.len() == self@.len(),
            forall|i: int| 0 <= i < chunks@.len() ==> (#[trigger] chunks@[i])@ == self@[i],
    {
        &self.entries
    }
}

/// In a sequence of sound records with at least two of them, where the last
/// one is stamped with the current frame, the oldest is not the last.
pub proof fn lemma_oldest_is_not_newest(entries: Seq<ChunkRecord>, world_seed: u32, frame: u64)
    requires
        records_sound(entries, world_seed, frame),
        entries.len() >= 2,
        entries.last().last_used == frame,
    ensures
        is_oldest(entries, oldest_index(entries)),
        oldest_index(entries) < entries.len() - 1,
{
    lemma_oldest_exists(entries);
    let at = oldest_index(entries);
    if at == entries.len() - 1 {
        assert(entries[at].last_used < entries[0].last_used);
    }
}

/// Every non-empty sequence has an oldest record.
pub proof fn lemma_oldest_exists(entries: Seq<ChunkRecord>)
    requires
        entries.len() > 0,
    ensures
        is_oldest(entries, oldest_index(entries)),
    decreases entries.len(),
{
    if entries.len() == 1 {
        assert(is_oldest(entries, 0));
    } else {
        let front = entries.drop_last();
        lemma_oldest_exists(front);
        let best = oldest_index(front);
        let last = entries.len() - 1;
        assert(forall|k: int| 0 <= k < last ==> front[k] == entries[k]);
        if entries[last].last_used < entries[best].last_used {
            assert forall|k: int| 0 <= k < entries.len() implies entries[last].last_used <= (
            #[trigger] entries[k]).last_used by {
                if k < last {
                    assert(front[best].last_used <= front[k].last_used);
                }
            }
            assert forall|k: int| 0 <= k < last implies entries[last].last_used < (
            #[trigger] entries[k]).last_used by {
                assert(front[best].last_used <= front[k].last_used);
            }
            assert(is_oldest(entries, last));
        } else {
            assert forall|k: int| 0 <= k < entries.len() implies entries[best].last_used <= (
            #[trigger] entries[k]).last_used by {
                if k < last {
                    assert(front[best].last_used <= front[k].last_used);
                }
            }
            assert forall|k: int| 0 <= k < best implies entries[best].last_used < (
            #[trigger] entries[k]).last_used by {
                assert(front[best].last_used < front[k].last_used);
            }
            assert(is_oldest(entries, best));
        }
    }
}

/// Asking for a chunk keeps the cache's invariant, so however many chunks are
/// asked for, the cache never holds more than `MAX_CACHED_CHUNKS`. The chunk
/// asked for is at the back afterwards, stamped with the current frame.
pub proof fn lemma_request_keeps_invariant(
    entries: Seq<ChunkRecord>,
    world_seed: u32,
    frame: u64,
    coord: ChunkCoord,
)
    requires
        cache_invariant(entries, world_seed, frame),
    ensures
        cache_invariant(requested(entries, world_seed, frame, coord), world_seed, frame),
        requested(entries, world_seed, frame, coord).len() > 0,
        requested(entries, world_seed, frame, coord).last() == fresh_record(
            world_seed,
            coord,
            frame,
        ),
{
    let after = requested(entries, world_seed, frame, coord);
    if holds(entries, coord) {
        let i = index_of(entries, coord);
        let moved = ChunkRecord {
            coord: entries[i].coord,
            cities: entries[i].cities,
            last_used: frame,
        };
        let rest = entries.remove(i);
        assert(after == rest.push(moved));
        assert forall|k: int| 0 <= k < rest.len() implies (#[trigger] rest[k]) == entries[if k
            < i {
            k
        } else {
            k + 1
        }] by {}
        assert forall|a: int, b: int| 0 <= a < b < after.len() implies (#[trigger] after[a]).coord
            != (#[trigger] after[b]).coord by {
            let ea = if a < i { a } else { a + 1 };
            assert(after[a] == entries[ea]);
            if b < rest.len() {
                let eb = if b < i { b } else { b + 1 };
                assert(after[b] == entries[eb]);
            } else {
                assert(after[b].coord == entries[i].coord);
                if ea < i {
                    assert(entries[ea].coord != entries[i].coord);
                } else {
                    assert(entries[i].coord != entries[ea].coord);
                }
            }
        }
        assert forall|k: int| 0 <= k < after.len() implies (#[trigger] after[k]).cities
            == generated_cities(world_seed, after[k].coord) && after[k].last_used <= frame by {
            if k < rest.len() {
                let ek = if k < i { k } else { k + 1 };
                assert(after[k] == entries[ek]);
            }
        }
        assert(after.last() == moved);
    } else {
        let grown = entries.push(fresh_record(world_seed, coord, frame));
        assert forall|k: int| 0 <= k < entries.len() implies (#[trigger] grown[k]) == entries[k] by {}
        assert(records_sound(grown, world_seed, frame)) by {
            assert forall|a: int, b: int| 0 <= a < b < grown.len() implies (
            #[trigger] grown[a]).coord != (#[trigger] grown[b]).coord by {
                assert(grown[a] == entries[a]);
                if b < entries.len() {
                    assert(grown[b] == entries[b]);
                }
            }
        }
        if grown.len() <= MAX_CACHED_CHUNKS {
            assert(after == grown);
        } else {
            lemma_oldest_is_not_newest(grown, world_seed, frame);
            let at = oldest_index(grown);
            let kept = grown.remove(at);
            assert(evicted(grown) == evicted(kept));
            assert(kept.len() == MAX_CACHED_CHUNKS);
            assert(after == kept);
            assert forall|k: int| 0 <= k < kept.len() implies (#[trigger] kept[k]) == grown[if k
                < at {
                k
            } else {
                k + 1
            }] by {}
            assert(records_sound(kept, world_seed, frame)) by {
                assert forall|a: int, b: int| 0 <= a < b < kept.len() implies (
                #[trigger] kept[a]).coord != (#[trigger] kept[b]).coord by {
                    let ga = if a < at { a } else { a + 1 };
                    let gb = if b < at { b } else { b + 1 };
                    assert(kept[a] == grown[ga] && kept[b] == grown[gb]);
                }
                assert forall|k: int| 0 <= k < kept.len() implies (#[trigger] kept[k]).cities
                    == generated_cities(world_seed, kept[k].coord) && kept[k].last_used
                    <= frame by {
                    let gk = if k < at { k } else { k + 1 };
                    assert(kept[k] == grown[gk]);
                }
            }
            assert(kept.last() == grown.last());
        }
    }
}

/// Pushing a record adds its coordinate to those the sequence has.
pub proof fn lemma_push_holds(entries: Seq<ChunkRecord>, record: ChunkRecord, coord: ChunkCoord)
    ensures
        holds(entries.push(record), coord) <==> (holds(entries, coord) || coord == record.coord),
{
    let grown = entries.push(record);
    if holds(entries, coord) {
        let i = index_of(entries, coord);
        assert(grown[i] == entries[i]);
    }
    if coord == record.coord {
        assert(grown[entries.len() as int] == record);
    }
    if holds(grown, coord) {
        let i = index_of(grown, coord);
        if i < entries.len() {
            assert(grown[i] == entries[i]);
        }
    }
}

/// Where no coordinate occurs twice, removing a record takes its coordinate
/// from those the sequence has, and no other.
pub proof fn lemma_remove_holds(entries: Seq<ChunkRecord>, at: int, coord: ChunkCoord)
    requires
        0 <= at < entries.len(),
        forall|a: int, b: int|
            0 <= a < b < entries.len() ==> (#[trigger] entries[a]).coord != (
            #[trigger] entries[b]).coord,
    ensures
        holds(entries.remove(at), coord) <==> (holds(entries, coord) && coord
            != entries[at].coord),
{
    let rest = entries.remove(at);
    assert forall|k: int| 0 <= k < rest.len() implies (#[trigger] rest[k]) == entries[if k < at {
        k
    } else {
        k + 1
    }] by {}
    if holds(entries, coord) && coord != entries[at].coord {
        let i = index_of(entries, coord);
        if i < at {
            assert(rest[i] == entries[i]);
        } else {
            assert(rest[i - 1] == entries[i]);
        }
    }
    if holds(rest, coord) {
        let k = index_of(rest, coord);
        let e = if k < at { k } else { k + 1 };
        assert(rest[k] == entries[e]);
        if e < at {
            assert(entries[e].coord != entries[at].coord);
        } else {
            assert(entries[at].coord != entries[e].coord);
        }
    }
}

/// However many chunks are asked for in a frame, the cache's invariant
/// holds afterwards: in particular it holds no more than
/// `MAX_CACHED_CHUNKS` chunks.
pub proof fn lemma_requests_keep_invariant(
    entries: Seq<ChunkRecord>,
    world_seed: u32,
    frame: u64,
    coords: Seq<ChunkCoord>,
)
    requires
        cache_invariant(entries, world_seed, frame),
    ensures
        cache_invariant(requested_all(entries, world_seed, frame, coords), world_seed, frame),
        requested_all(entries, world_seed, frame, coords).len() <= MAX_CACHED_CHUNKS,
    decreases coords.len(),
{
    if coords.len() > 0 {
        lemma_requests_keep_invariant(entries, world_seed, frame, coords.drop_last());
        lemma_request_keeps_invariant(
            requested_all(entries, world_seed, frame, coords.drop_last()),
            world_seed,
            frame,
            coords.last(),
        );
    }
}

/// The invariant of a cache survives the move to a later frame.
pub proof fn lemma_invariant_lasts(
    entries: Seq<ChunkRecord>,
    world_seed: u32,
    frame: u64,
    later: u64,
)
    requires
        cache_invariant(entries, world_seed, frame),
        frame <= later,
    ensures
        cache_invariant(entries, world_seed, later),
{
}

/// Least-recently-used eviction. Take a full cache, ask for a chunk it
/// holds and then for one it does not hold. Exactly one chunk leaves. It is
/// a chunk that the cache held before, stamped no later than any other, and
/// it is neither of the two chunks asked for.
pub proof fn lemma_eviction_spares_recent(
    entries: Seq<ChunkRecord>,
    world_seed: u32,
    frame: u64,
    hit: ChunkCoord,
    miss: ChunkCoord,
)
    requires
        cache_invariant(entries, world_seed, frame),
        entries.len() == MAX_CACHED_CHUNKS,
        holds(entries, hit),
        !holds(entries, miss),
    ensures
        ({
            let touched = requested(entries, world_seed, frame, hit);
            let after = requested(touched, world_seed, frame, miss);
            let victim = touched[oldest_index(touched)];
            &&& after.len() == MAX_CACHED_CHUNKS
            &&& holds(entries, victim.coord)
            &&& victim.coord != hit
            &&& victim.coord != miss
            &&& forall|k: int|
                0 <= k < touched.len() ==> victim.last_used <= (#[trigger] touched[k]).last_used
            &&& forall|coord: ChunkCoord|
                #![trigger holds(after, coord)]
                holds(after, coord) <==> (coord == miss || (holds(entries, coord) && coord
                    != victim.coord))
        }),
{
    let touched = requested(entries, world_seed, frame, hit);
    let after = requested(touched, world_seed, frame, miss);
    lemma_request_keeps_invariant(entries, world_seed, frame, hit);
    let i = index_of(entries, hit);
    let moved = ChunkRecord { coord: entries[i].coord, cities: entries[i].cities, last_used: frame };
    let rest = entries.remove(i);
    assert(touched == rest.push(moved));
    assert(touched.len() == MAX_CACHED_CHUNKS);
    assert forall|coord: ChunkCoord| holds(touched, coord) <==> holds(entries, coord) by {
        lemma_remove_holds(entries, i, coord);
        lemma_push_holds(rest, moved, coord);
    }
    let fresh = fresh_record(world_seed, miss, frame);
    let grown = touched.push(fresh);
    assert(after == evicted(grown));
    assert forall|k: int| 0 <= k < touched.len() implies (#[trigger] grown[k]) == touched[k] by {}
    assert(records_sound(grown, world_seed, frame)) by {
        assert forall|a: int, b: int| 0 <= a < b < grown.len() implies (#[trigger] grown[a]).coord
            != (#[trigger] grown[b]).coord by {
            assert(grown[a] == touched[a]);
            if b < touched.len() {
                assert(grown[b] == touched[b]);
            }
        }
    }
    lemma_oldest_is_not_newest(grown, world_seed, frame);
    let at = oldest_index(grown);
    let last = touched.len() - 1;
    assert(at < last) by {
        if at == last {
            assert(grown[0].last_used <= frame);
            assert(grown[at].last_used < grown[0].last_used);
        }
    }
    assert(is_oldest(touched, at)) by {
        assert forall|j: int| 0 <= j < touched.len() implies touched[at].last_used <= (
        #[trigger] touched[j]).last_used by {
            assert(grown[at].last_used <= grown[j].last_used);
        }
        assert forall|j: int| 0 <= j < at implies touched[at].last_used < (
        #[trigger] touched[j]).last_used by {
            assert(grown[at].last_used < grown[j].last_used);
        }
    }
    lemma_oldest_is_unique(touched, at, oldest_index(touched));
    let victim = touched[at];
    let kept = grown.remove(at);
    assert(evicted(grown) == evicted(kept));
    assert(after == kept);
    assert(victim.coord != hit) by {
        assert(touched[last].coord == hit);
        assert(touched[at].coord != touched[last].coord);
    }
    assert(holds(touched, victim.coord));
    assert forall|coord: ChunkCoord|
        #![trigger holds(after, coord)]
        holds(after, coord) <==> (coord == miss || (holds(entries, coord) && coord
            != victim.coord)) by {
        lemma_remove_holds(grown, at, coord);
        lemma_push_holds(touched, fresh, coord);
    }
}

} // verus!
