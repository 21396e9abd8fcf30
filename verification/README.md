# quantizr

Integer core of a palette quantizer, verified with Verus.

- `src/pixel.rs` — reading RGBA pixels; a fully transparent pixel counts as all zeros.
- `src/cache.rs` — slots of the direct-mapped colour cache: a 15-bit key, 5 bits a channel, into 32768 entries, collision-free over channel buckets.
- `src/scan.rs` — the serpentine scan of error-diffusion dithering and the error-row slots each pixel feeds.
- `src/remap.rs` — the library's errors and the output-buffer check.
- `src/vptree.rs` — the vantage-point tree over palette entries, built from order keys of weights and pairwise distances, with its exact shape and the vantage-point property proved.
- `app/` — the `f32` side: nearest-colour search with SIMD distances (via `archmage`), dithering arithmetic and remapping.
