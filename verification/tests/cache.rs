use opengrid::cache::{ChunkCache, FrameStats};
use opengrid::chunk::{ChunkCoord, MAX_CACHED_CHUNKS};
use opengrid::generator::generate_chunk;

fn cached_coords(cache: &ChunkCache) -> Vec<ChunkCoord> {
    cache.iter().iter().map(|data| data.coord).collect()
}

#[test]
fn new_cache_is_empty() {
    let cache = ChunkCache::new(42);
    assert_eq!(cache.cached_count(), 0);
    assert!(cache.iter().is_empty());
}

#[test]
fn cached_chunk_holds_the_generated_cities() {
    let mut cache = ChunkCache::new(42);
    let data = cache.get_or_generate(ChunkCoord::new(0, 0));
    assert_eq!(data.coord, ChunkCoord::new(0, 0));
    assert_eq!(data.cities, generate_chunk(42, 0, 0));
    assert_eq!(data.cities.len(), 81);
    assert_eq!(data.last_used, 0);
    let again = cache.get_or_generate(ChunkCoord::new(0, 0));
    assert_eq!(again.cities, generate_chunk(42, 0, 0));
    assert_eq!(cache.cached_count(), 1);
}

#[test]
fn chunk_requested_twice_is_the_same() {
    let mut cache = ChunkCache::new(42);
    let first = cache.get_or_generate(ChunkCoord::new(0, 0)).cities.clone();
    let other = cache.get_or_generate(ChunkCoord::new(1, 0)).cities.clone();
    let second = cache.get_or_generate(ChunkCoord::new(0, 0)).cities.clone();
    assert_eq!(first, second);
    assert_ne!(first, other);
    assert_eq!(cache.cached_count(), 2);
}

#[test]
fn one_hundred_and_one_chunks_leave_one_hundred_cached() {
    let mut cache = ChunkCache::new(42);
    for x in 0..101 {
        cache.get_or_generate(ChunkCoord::new(x, 0));
    }
    assert_eq!(cache.cached_count(), 100);
    let coords = cached_coords(&cache);
    assert!(!coords.contains(&ChunkCoord::new(0, 0)));
    for x in 1..101 {
        assert!(coords.contains(&ChunkCoord::new(x, 0)));
    }
}

#[test]
fn cache_never_grows_past_its_bound() {
    let mut cache = ChunkCache::new(5);
    for step in 0..400 {
        let coord = ChunkCoord::new((step * 7) % 131 - 60, (step * 13) % 17 - 8);
        cache.get_or_generate(coord);
        assert!(cache.cached_count() <= MAX_CACHED_CHUNKS);
        assert!(cache.cached_count() <= 100);
        if step % 9 == 0 {
            cache.advance_frame();
        }
    }
}

#[test]
fn stamp_follows_the_frame_counter() {
    let mut cache = ChunkCache::new(1);
    assert_eq!(cache.get_or_generate(ChunkCoord::new(0, 0)).last_used, 0);
    cache.advance_frame();
    assert_eq!(cache.get_or_generate(ChunkCoord::new(1, 0)).last_used, 1);
    cache.advance_frame();
    cache.advance_frame();
    assert_eq!(cache.get_or_generate(ChunkCoord::new(0, 0)).last_used, 3);
    let stamps: Vec<(ChunkCoord, u64)> = cache.iter().iter().map(|d| (d.coord, d.last_used)).collect();
    assert_eq!(stamps, vec![(ChunkCoord::new(1, 0), 1), (ChunkCoord::new(0, 0), 3)]);
}

#[test]
fn eviction_takes_the_oldest_and_spares_the_chunk_just_used() {
    let mut cache = ChunkCache::new(42);
    for x in 0..100 {
        cache.get_or_generate(ChunkCoord::new(x, 0));
        cache.advance_frame();
    }
    assert_eq!(cache.cached_count(), 100);
    // Chunk 0 is the oldest. Using it again makes chunk 1 the oldest.
    cache.get_or_generate(ChunkCoord::new(0, 0));
    cache.get_or_generate(ChunkCoord::new(500, 500));
    assert_eq!(cache.cached_count(), 100);
    let coords = cached_coords(&cache);
    assert!(coords.contains(&ChunkCoord::new(0, 0)));
    assert!(coords.contains(&ChunkCoord::new(500, 500)));
    assert!(!coords.contains(&ChunkCoord::new(1, 0)));
    for x in 2..100 {
        assert!(coords.contains(&ChunkCoord::new(x, 0)));
    }
}

#[test]
fn eviction_among_equal_stamps_spares_the_chunk_just_used() {
    let mut cache = ChunkCache::new(42);
    for x in 0..100 {
        cache.get_or_generate(ChunkCoord::new(x, 0));
    }
    cache.get_or_generate(ChunkCoord::new(0, 0));
    cache.get_or_generate(ChunkCoord::new(0, 1));
    let coords = cached_coords(&cache);
    assert_eq!(coords.len(), 100);
    assert!(coords.contains(&ChunkCoord::new(0, 0)));
    assert!(coords.contains(&ChunkCoord::new(0, 1)));
    assert!(!coords.contains(&ChunkCoord::new(1, 0)));
}

#[test]
fn eviction_is_by_stamp_not_by_order_of_arrival() {
    let mut cache = ChunkCache::new(3);
    for x in 0..100 {
        cache.get_or_generate(ChunkCoord::new(x, 0));
    }
    cache.advance_frame();
    // Everything but chunk 40 is used again in frame 1.
    for x in 0..100 {
        if x != 40 {
            cache.get_or_generate(ChunkCoord::new(x, 0));
        }
    }
    cache.get_or_generate(ChunkCoord::new(0, 9));
    let coords = cached_coords(&cache);
    assert_eq!(coords.len(), 100);
    assert!(!coords.contains(&ChunkCoord::new(40, 0)));
    assert!(coords.contains(&ChunkCoord::new(0, 0)));
    assert!(coords.contains(&ChunkCoord::new(0, 9)));
}

#[test]
fn chunks_are_listed_least_recently_used_first() {
    let mut cache = ChunkCache::new(8);
    cache.get_or_generate(ChunkCoord::new(1, 1));
    cache.get_or_generate(ChunkCoord::new(2, 2));
    cache.get_or_generate(ChunkCoord::new(3, 3));
    cache.get_or_generate(ChunkCoord::new(1, 1));
    assert_eq!(
        cached_coords(&cache),
        vec![ChunkCoord::new(2, 2), ChunkCoord::new(3, 3), ChunkCoord::new(1, 1)]
    );
}

#[test]
fn a_rendering_pass_counts_and_advances() {
    let mut cache = ChunkCache::new(42);
    let visible = vec![ChunkCoord::new(0, 0), ChunkCoord::new(1, 0), ChunkCoord::new(7, 7)];
    let stats = cache.load_frame(&visible);
    assert_eq!(stats, FrameStats { visible_chunks: 3, cached_chunks: 3, total_cities: 81 + 82 + 80 });
    // The pass moved on to frame 1.
    assert_eq!(cache.get_or_generate(ChunkCoord::new(0, 0)).last_used, 1);
    let stamps: Vec<u64> = cache.iter().iter().map(|d| d.last_used).collect();
    assert_eq!(stamps, vec![0, 0, 1]);
}

#[test]
fn a_rendering_pass_over_nothing_only_advances() {
    let mut cache = ChunkCache::new(42);
    let stats = cache.load_frame(&Vec::new());
    assert_eq!(stats, FrameStats { visible_chunks: 0, cached_chunks: 0, total_cities: 0 });
    assert_eq!(cache.get_or_generate(ChunkCoord::new(0, 0)).last_used, 1);
}

#[test]
fn a_rendering_pass_wider_than_the_cache_keeps_the_last_chunks() {
    let mut cache = ChunkCache::new(42);
    let visible: Vec<ChunkCoord> = (0..150).map(|x| ChunkCoord::new(x, -2)).collect();
    let stats = cache.load_frame(&visible);
    assert_eq!(stats.visible_chunks, 150);
    assert_eq!(stats.cached_chunks, 100);
    let expected: u64 = visible.iter().map(|c| generate_chunk(42, c.x, c.y).len() as u64).sum();
    assert_eq!(stats.total_cities, expected);
    assert_eq!(cached_coords(&cache), visible[50..].to_vec());
}

#[test]
fn visible_chunks_of_a_small_viewport() {
    let cache = ChunkCache::new(42);
    // An 800 by 600 viewport at 20 pixels per unit shows 40 by 30 units.
    assert_eq!(
        cache.get_visible_chunks(0, 0, 40, 30),
        vec![ChunkCoord::new(0, 0), ChunkCoord::new(0, 1), ChunkCoord::new(1, 0), ChunkCoord::new(1, 1)]
    );
}

#[test]
fn cache_reports_its_seed_and_frame() {
    let mut cache = ChunkCache::new(77);
    assert_eq!(cache.world_seed(), 77);
    assert_eq!(cache.current_frame(), 0);
    cache.advance_frame();
    cache.advance_frame();
    assert_eq!(cache.current_frame(), 2);
    cache.load_frame(&vec![ChunkCoord::new(0, 0)]);
    assert_eq!(cache.current_frame(), 3);
    assert_eq!(cache.world_seed(), 77);
    assert_eq!(cache.iter()[0].last_used, 2);
}
