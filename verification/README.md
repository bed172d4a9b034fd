# texture_cache_rs

A cache for tiled, mip-mapped textures, written in Verus: what each function returns and changes is
stated in its contract and proved.

A tiled image file holds an image together with its smaller levels, each half as wide and half as
high as the one before. The larger levels are stored in square tiles, the smallest ones next to the
header. The cache keeps tiles of any number of such files in a bounded amount of memory: it finds
them in a hash table, says which bytes have to be read when a tile is missing, and frees tiles that
were not used lately.

## Layout

- `src/bytes.rs`, `src/header.rs`: little-endian numbers and the header of a file.
- `src/texel.rs`, `src/power_of_two.rs`, `src/decimal.rs`: texels, tile sizes, numbers in decimal.
- `src/tiles.rs`: the tiles of a level.
- `src/mips.rs`: the smaller levels of an image.
- `src/layout.rs`, `src/create.rs`: where everything stands in a file, and writing one.
- `src/image.rs`: opening a file, and finding texels and tiles in it.
- `src/placement.rs`, `src/round_trip.rs`: what is read of a file is what was written.
- `src/hash_table.rs`, `src/table_laws.rs`: tiles by their identity.
- `src/cache.rs`, `src/cache_laws.rs`: the cache, and what holds of it.
- `src/file_descriptor.rs`: a bounded number of open files.
- `app/`: files, and a cache that many threads share.
- `tests/`: the library at work on concrete values.

The library itself reads no file and waits for nothing. `TextureCache::texel` answers with a texel,
with a read that is to be done, or with the advice to wait for a read that is under way;
`TextureCache::finish_load` takes the bytes that were read.

Texels are taken out of bytes by `bytemuck`. What its functions return is stated at the four
functions in `src/texel.rs` that call them, and taken for granted.
