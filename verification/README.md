# journey_kernel

Verified core of a map "fog of war" tile kernel: quadtrees of tiles whose leaves hold
binary bitmaps of visited pixels, with mipmap pyramids, pixel encodings and a byte format.

- `src/bits.rs` — the bit-vector type, backed by the `bitvec` crate, and the contracts of
  the `bitvec` calls the library makes.
- `src/bitmap2d.rs` — square power-of-two bitmaps, 2x2 OR reduction, LOD pyramids, and
  LSB-first packing of bits into bytes.
- `src/pixel_encoding.rs` — tile bitmap, coordinate-list and packed-index encodings.
- `src/tile.rs` — the tile tree: slots, mipmaps, readiness checks, pixel listing, mipmap
  extraction (composition of sub-tiles, oversampling, rasterization), and the byte format.
- `src/tile_iter.rs` — the pixel iterators behind `GenericTile::iter_pixels`.
- `src/tile_buffer.rs` — a window of the tile grid holding one leaf bitmap per cell, and
  the pixel queries over single map tiles and ranges of them.
- `src/words.rs` — bit arithmetic on runs of machine words.

Every function of the library is verified with Verus against its `requires`/`ensures`,
except the small trusted wrappers around `bitvec`, `format!` and `sort_unstable` in
`src/bits.rs` and `src/pixel_encoding.rs`, whose contracts are stated from those crates'
documentation and source; `tests/` runs the library on concrete values.
