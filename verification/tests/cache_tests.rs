use mips_workbench::{CacheConfig, CacheError, SetAssociativeCache};

#[test]
fn direct_mapped_cache_tracks_conflict_misses() {
    let mut cache =
        SetAssociativeCache::new(CacheConfig { sets: 2, ways: 1, line_bytes: 16 }).expect("valid");
    assert!(!cache.access(0));
    assert!(cache.access(4));
    assert!(!cache.access(32));
    assert!(!cache.access(0));
    assert_eq!(cache.stats().hits, 1);
    assert_eq!(cache.stats().misses, 3);
}

#[test]
fn two_way_cache_replaces_least_recently_used_line() {
    let mut cache =
        SetAssociativeCache::new(CacheConfig { sets: 1, ways: 2, line_bytes: 4 }).expect("valid");
    assert!(!cache.access(0));
    assert!(!cache.access(4));
    assert!(cache.access(0));
    assert!(!cache.access(8));
    assert!(cache.access(0));
    assert!(!cache.access(4));
}

#[test]
fn reset_clears_lines_and_statistics() {
    let mut cache =
        SetAssociativeCache::new(CacheConfig { sets: 4, ways: 2, line_bytes: 16 }).expect("valid");
    cache.access(0);
    cache.access(0);
    cache.reset();
    let stats = cache.stats();
    assert_eq!(stats.accesses, 0);
    let hit_ratio = if stats.accesses == 0 { 0.0 } else { stats.hits as f64 / stats.accesses as f64 };
    assert!(hit_ratio.abs() < f64::EPSILON);
    assert!(!cache.access(0));
}

#[test]
fn rejects_invalid_cache_dimensions() {
    assert_eq!(
        SetAssociativeCache::new(CacheConfig { sets: 0, ways: 1, line_bytes: 4 }),
        Err(CacheError::ZeroSets)
    );
    assert_eq!(
        SetAssociativeCache::new(CacheConfig { sets: 1, ways: 0, line_bytes: 4 }),
        Err(CacheError::ZeroWays)
    );
    assert_eq!(
        SetAssociativeCache::new(CacheConfig { sets: 1, ways: 1, line_bytes: 3 }),
        Err(CacheError::InvalidLineSize)
    );
}

#[test]
fn repeated_access_hits_and_counters_add_up() {
    let mut cache =
        SetAssociativeCache::new(CacheConfig { sets: 4, ways: 2, line_bytes: 8 }).expect("valid");
    for address in [0u32, 100, 4000, 7, 0xffff_fff8] {
        cache.access(address);
        assert!(cache.access(address));
    }
    let stats = cache.stats();
    assert_eq!(stats.accesses, 10);
    assert_eq!(stats.hits + stats.misses, stats.accesses);
}

#[test]
fn line_size_zero_is_rejected_and_errors_render() {
    assert_eq!(
        SetAssociativeCache::new(CacheConfig { sets: 1, ways: 1, line_bytes: 0 }),
        Err(CacheError::InvalidLineSize)
    );
    assert_eq!(CacheError::ZeroSets.to_string(), "cache must contain at least one set");
    assert_eq!(CacheError::ZeroWays.to_string(), "cache must contain at least one way");
    assert_eq!(
        CacheError::InvalidLineSize.to_string(),
        "cache line size must be a non-zero power of two"
    );
}

#[test]
fn cloned_cache_keeps_lines_and_counters() {
    let mut cache =
        SetAssociativeCache::new(CacheConfig { sets: 2, ways: 1, line_bytes: 16 }).expect("valid");
    assert!(!cache.access(0));
    let copy = cache.clone();
    assert!(cache.access(0));
    let mut other = copy.clone();
    assert!(other.access(0));
    assert_eq!(copy.stats().hits, 0);
    assert_eq!(cache.stats().hits, 1);
}

#[test]
fn counters_match_the_outcomes_of_a_sequence_of_accesses() {
    let mut cache =
        SetAssociativeCache::new(CacheConfig { sets: 2, ways: 2, line_bytes: 16 }).expect("valid");
    let mut hits = 0_u64;
    let mut misses = 0_u64;
    for address in [0_u32, 4, 32, 64, 0, 96, 32, 0, 16, 16] {
        if cache.access(address) {
            hits += 1;
        } else {
            misses += 1;
        }
    }
    let stats = cache.stats();
    assert_eq!((stats.hits, stats.misses, stats.accesses), (hits, misses, 10));
    cache.reset();
    assert!(!cache.access(0));
    assert_eq!((cache.stats().hits, cache.stats().misses), (0, 1));
}

#[test]
fn block_survives_fewer_other_blocks_than_ways() {
    let config = CacheConfig { sets: 1, ways: 4, line_bytes: 16 };
    let mut cache = SetAssociativeCache::new(config).expect("valid");
    assert!(!cache.access(0));
    for address in [16_u32, 32, 48, 16, 32, 48] {
        cache.access(address);
    }
    assert!(cache.access(0));
    for address in [16_u32, 32, 48, 64] {
        cache.access(address);
    }
    assert!(!cache.access(0));
}

#[test]
fn never_used_block_misses_and_displaced_block_misses() {
    let config = CacheConfig { sets: 2, ways: 2, line_bytes: 16 };
    let mut cache = SetAssociativeCache::new(config).expect("valid");
    // Blocks 0, 2, 4 map to set 0; block 1 to set 1.
    for address in [0_u32, 16, 32, 0] {
        cache.access(address);
    }
    assert!(!cache.access(64));
    let mut cache = SetAssociativeCache::new(config).expect("valid");
    assert!(!cache.access(0));
    assert!(!cache.access(32));
    assert!(!cache.access(16));
    assert!(!cache.access(64));
    assert!(!cache.access(0));
}
