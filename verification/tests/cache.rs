use quantizr::cache::{cache_index_of_channels, CACHE_BITS, CACHE_SHIFT, CACHE_SIZE};

#[test]
fn cache_constants() {
    assert_eq!(CACHE_BITS, 5);
    assert_eq!(CACHE_SHIFT, 3);
    assert_eq!(CACHE_SIZE, 32768);
    assert_eq!(CACHE_SIZE, 1usize << (CACHE_BITS * 3));
}

#[test]
fn cache_index_packs_buckets() {
    assert_eq!(cache_index_of_channels(0, 0, 0), 0);
    assert_eq!(cache_index_of_channels(8, 0, 0), 1);
    assert_eq!(cache_index_of_channels(0, 8, 0), 32);
    assert_eq!(cache_index_of_channels(0, 0, 8), 1024);
    assert_eq!(cache_index_of_channels(255, 255, 255), CACHE_SIZE - 1);
    assert_eq!(cache_index_of_channels(255, 255, 255), 32767);
    assert_eq!(cache_index_of_channels(10, 200, 77), 1 + 32 * 25 + 1024 * 9);
}

#[test]
fn cache_index_shares_bucket() {
    assert_eq!(cache_index_of_channels(8, 9, 10), cache_index_of_channels(15, 8, 14));
    assert_ne!(cache_index_of_channels(7, 9, 10), cache_index_of_channels(8, 9, 10));
}

#[test]
fn cache_index_collision_free_over_buckets() {
    let mut seen = vec![false; CACHE_SIZE];
    for r in 0..32u32 {
        for g in 0..32u32 {
            for b in 0..32u32 {
                let i = cache_index_of_channels((r * 8) as u8, (g * 8 + 7) as u8, (b * 8 + 3) as u8);
                assert!(i < CACHE_SIZE);
                assert!(!seen[i]);
                seen[i] = true;
            }
        }
    }
    assert!(seen.iter().all(|&s| s));
}
