use vstd::prelude::*;

verus! {

/// Bits kept of each colour channel in a cache key.
pub const CACHE_BITS: u32 = 5;

/// How far a channel value is shifted right to keep `CACHE_BITS` bits.
pub const CACHE_SHIFT: u32 = 8 - CACHE_BITS;

/// Number of cache entries: one for each triple of channel buckets, a
/// 15-bit key.
pub const CACHE_SIZE: usize = 32768;

/// The bucket of a channel value: its top `CACHE_BITS` bits, so every span of
/// eight neighbouring values shares one bucket.
pub open spec fn bucket(c: u8) -> int {
    c as int / 8
}

/// The cache entry of a colour whose red, green and blue channels are
/// `r`, `g`, `b`: the three buckets laid side by side, red lowest.
pub open spec fn cache_slot(r: u8, g: u8, b: u8) -> int {
    bucket(r) + 32 * bucket(g) + 1024 * bucket(b)
}

/// Index of the direct-mapped cache entry for a colour with channels `r`, `g`, `b`.
pub fn cache_index_of_channels(r: u8, g: u8, b: u8) -> (index: usize)
    ensures
        index as int == cache_slot(r, g, b),
        index < CACHE_SIZE,
{
    let r32: u32 = (r as u32) >> CACHE_SHIFT;
    let g32: u32 = (g as u32) >> CACHE_SHIFT;
    let b32: u32 = (b as u32) >> CACHE_SHIFT;
    assert(r32 < 32 && g32 < 32 && b32 < 32) by (bit_vector)
        requires
            r32 == (r as u32) >> 3u32,
            g32 == (g as u32) >> 3u32,
            b32 == (b as u32) >> 3u32,
    ;
    assert(r32 == r as u32 / 8 && g32 == g as u32 / 8 && b32 == b as u32 / 8) by (bit_vector)
        requires
            r32 == (r as u32) >> 3u32,
            g32 == (g as u32) >> 3u32,
            b32 == (b as u32) >> 3u32,
    ;
    let packed: u32 = r32 | (g32 << CACHE_BITS) | (b32 << (CACHE_BITS * 2));
    assert(packed == r32 + 32 * g32 + 1024 * b32) by (bit_vector)
        requires
            r32 < 32,
            g32 < 32,
            b32 < 32,
            packed == r32 | (g32 << 5u32) | (b32 << 10u32),
    ;
    packed as usize
}

/// Three digits below 32 are read back from their base-32 number.
proof fn lemma_base32_digits(a1: int, b1: int, c1: int, a2: int, b2: int, c2: int)
    requires
        0 <= a1 < 32,
        0 <= b1 < 32,
        0 <= c1 < 32,
        0 <= a2 < 32,
        0 <= b2 < 32,
        0 <= c2 < 32,
    ensures
        a1 + 32 * b1 + 1024 * c1 == a2 + 32 * b2 + 1024 * c2 <==> (a1 == a2 && b1 == b2 && c1 == c2),
        0 <= a1 + 32 * b1 + 1024 * c1 < 32768,
{
}

/// Every bucket lies below 32.
proof fn lemma_bucket_range(c: u8)
    ensures
        0 <= bucket(c) < 32,
{
}

/// Two colours share a cache entry exactly when their red, green and blue
/// channels fall in the same buckets: the direct mapping has no collisions.
pub proof fn lemma_cache_slot_collision_free(r1: u8, g1: u8, b1: u8, r2: u8, g2: u8, b2: u8)
    ensures
        cache_slot(r1, g1, b1) == cache_slot(r2, g2, b2) <==> (bucket(r1) == bucket(r2)
            && bucket(g1) == bucket(g2) && bucket(b1) == bucket(b2)),
        0 <= cache_slot(r1, g1, b1) < CACHE_SIZE,
{
    lemma_bucket_range(r1);
    lemma_bucket_range(g1);
    lemma_bucket_range(b1);
    lemma_bucket_range(r2);
    lemma_bucket_range(g2);
    lemma_bucket_range(b2);
    lemma_base32_digits(bucket(r1), bucket(g1), bucket(b1), bucket(r2), bucket(g2), bucket(b2));
}

} // verus!
