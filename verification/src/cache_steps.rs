//! What each step of the cache does, slot by slot, tile by tile and byte by byte.
use crate::cache::{
    lemma_asked_is_valid, lemma_freed_tiles, lemma_held_tile, lemma_load_is_valid,
    lemma_loads_without, lemma_taken_is_valid, path_view, tile_count, CacheView, TileLoad, TileStep,
};
use crate::file_laws::law_image_numbers;
use crate::hash_table::TileId;
use crate::image::lemma_texel_in_tile;
use crate::number_laws::{law_identity_of_parts, law_identity_of_wide_parts};
use crate::table_laws::{
    copy_takes_over, law_found_is_held, law_found_matches, law_insert_keeps_tiles,
    law_no_tile_is_lost, law_reclaimed_tiles, takes_over,
};
use vstd::arithmetic::power2::pow2;
use vstd::prelude::*;

verus! {

/// A new cache has as many tiles as its memory holds, each of 12288 bytes, and not one fewer. All
/// are free, none is marked, nothing is in the table, and there are no textures and no loads.
pub proof fn law_new_cache_size(max_memory_mb: nat)
    requires
        max_memory_mb * 1_048_576 <= isize::MAX,
    ensures
        ({
            let cache = CacheView::empty(tile_count(max_memory_mb));
            let count = cache.tiles.len();
            &&& count * 12_288 <= max_memory_mb * 1_048_576 < (count + 1) * 12_288
            &&& cache.memory.len() == count * 12_288
            &&& cache.free_tiles.len() == count
            &&& cache.table.slots.len() == 8 * count
            &&& cache.spare.slots.len() == 8 * count
            &&& cache.mark_free_capacity == 1 + count / 8
            &&& cache.textures.len() == 0
            &&& cache.loads.len() == 0
            &&& forall|i: int|
                0 <= i < count ==> (#[trigger] cache.tiles[i]).index == i && !cache.tiles[i].marked
                    && cache.tiles[i].texels.start == i * 12_288 && cache.tiles[i].texels.end == (i
                    + 1) * 12_288
            &&& forall|i: int| 0 <= i < count ==> #[trigger] cache.free_tiles[i] == i
            &&& forall|i: int| 0 <= i < 8 * count ==> #[trigger] cache.table.slots[i] is None
            &&& forall|i: int| 0 <= i < 8 * count ==> #[trigger] cache.spare.slots[i] is None
        }),
{
}

/// What comes of asking for a tile, and when.
///
/// The tile is ready if and only if one in use has its identity. Otherwise, it has to be waited for
/// if and only if it is being read. Otherwise, it has to be read if and only if a tile can be taken:
/// one is free, or one in use is marked, or none in use is marked and one stands in the first half
/// of the slots. Only where none can be taken is the cache out of tiles.
pub proof fn law_asked_step(cache: CacheView, tile_id: TileId)
    requires
        cache.is_valid(),
        cache.tiles.len() > 0,
        cache.can_load(tile_id),
    ensures
        ({
            let slots = cache.table.slots;
            let step = cache.tile_asked(tile_id).0;
            let held = exists|i: int|
                0 <= i < slots.len() && (#[trigger] slots[i] matches Some(index)
                    && cache.tiles[index as int].tile_id == tile_id);
            let reading = exists|i: int|
                0 <= i < cache.loads.len() && (#[trigger] cache.loads[i]).tile_id == tile_id;
            let some_marked = exists|i: int|
                0 <= i < slots.len() && (#[trigger] slots[i] matches Some(index)
                    && cache.tiles[index as int].marked);
            let in_first_half = exists|i: int|
                0 <= i < slots.len() / 2 && #[trigger] slots[i] is Some;
            let can_be_taken = cache.free_tiles.len() > 0 || some_marked || in_first_half;
            &&& step is Ready <==> held
            &&& step is Wait <==> !held && reading
            &&& step is Load <==> !held && !reading && can_be_taken
            &&& step is OutOfTiles <==> !held && !reading && !can_be_taken
        }),
{
    let slots = cache.table.slots;
    law_found_is_held(cache.table, cache.tiles, tile_id);
    if cache.table.holds_identity(cache.tiles, tile_id) {
        let index = choose|index: usize| #[trigger]
            cache.table.holds(index) && cache.tiles[index as int].tile_id == tile_id;
        let i = choose|i: int| 0 <= i < slots.len() && slots[i] == Some(index);
        assert(slots[i] == Some(index));
    }
    if exists|i: int|
        0 <= i < slots.len() && (#[trigger] slots[i] matches Some(index)
            && cache.tiles[index as int].tile_id == tile_id) {
        let i = choose|i: int|
            0 <= i < slots.len() && (#[trigger] slots[i] matches Some(index)
                && cache.tiles[index as int].tile_id == tile_id);
        assert(cache.table.holds(slots[i]->0));
    }
    law_what_can_be_taken(cache);
}

/// When a tile can be taken: one is free, or one in use is marked, or one in use stands in the
/// first half of the slots. With none marked, those are freed.
pub proof fn law_what_can_be_taken(cache: CacheView)
    requires
        cache.is_valid(),
        cache.tiles.len() > 0,
    ensures
        ({
            let slots = cache.table.slots;
            cache.free_tile_taken().0 is Some <==> {
                ||| cache.free_tiles.len() > 0
                ||| exists|i: int|
                    0 <= i < slots.len() && (#[trigger] slots[i] matches Some(index)
                        && cache.tiles[index as int].marked)
                ||| exists|i: int| 0 <= i < slots.len() / 2 && #[trigger] slots[i] is Some
            }
        }),
{
    let slots = cache.table.slots;
    let size = slots.len();
    let left = cache.table.after_copy(cache.tiles);
    let reclaimed = left.uncopied(size);
    if cache.free_tiles.len() == 0 {
        assert(cache.free_tiles + reclaimed =~= reclaimed);
        if reclaimed.len() > 0 {
            let index = reclaimed[0];
            assert(reclaimed.contains(index));
            law_reclaimed_tiles(left, index);
            let i = choose|i: int|
                0 <= i < size && #[trigger] left.slots[i] == Some(index) && !left.copied[i];
            lemma_stays_behind(cache, i);
            assert(slots[i] == Some(index));
        }
        if cache.table.has_marked(cache.tiles) {
            let i = choose|i: int| 0 <= i < size && #[trigger] cache.table.is_marked(cache.tiles, i);
            lemma_reclaims(cache, i);
        } else if exists|i: int| 0 <= i < size / 2 && #[trigger] slots[i] is Some {
            let i = choose|i: int| 0 <= i < size / 2 && #[trigger] slots[i] is Some;
            lemma_reclaims(cache, i);
        } else {
            assert forall|i: int| 0 <= i < size implies !(#[trigger] slots[i] matches Some(index)
                && cache.tiles[index as int].marked) by {
                assert(!cache.table.is_marked(cache.tiles, i));
            }
        }
        if exists|i: int|
            0 <= i < size && (#[trigger] slots[i] matches Some(index)
                && cache.tiles[index as int].marked) {
            let i = choose|i: int|
                0 <= i < size && (#[trigger] slots[i] matches Some(index)
                    && cache.tiles[index as int].marked);
            assert(cache.table.is_marked(cache.tiles, i));
        }
    }
}

/// A tile that does not go over is one that is marked, or stands in the first half with none
/// marked.
proof fn lemma_stays_behind(cache: CacheView, i: int)
    requires
        0 <= i < cache.table.slots.len(),
        cache.table.slots[i] is Some,
    ensures
        !cache.table.goes_over(cache.tiles, i) <==> cache.tiles[cache.table.slots[i]->0 as int].marked
            || i < cache.table.slots.len() / 2 && forall|j: int|
            0 <= j < cache.table.slots.len() ==> !(#[trigger] cache.table.slots[j] matches Some(
                other,
            ) && cache.tiles[other as int].marked),
{
    if cache.table.has_marked(cache.tiles) {
        let j = choose|j: int|
            0 <= j < cache.table.slots.len() && #[trigger] cache.table.is_marked(cache.tiles, j);
        assert(cache.table.slots[j] matches Some(other) && cache.tiles[other as int].marked);
    } else {
        assert forall|j: int| 0 <= j < cache.table.slots.len() implies !(
        #[trigger] cache.table.slots[j] matches Some(other) && cache.tiles[other as int].marked) by {
            assert(!cache.table.is_marked(cache.tiles, j));
        }
    }
}

/// The tile of a slot that stays behind is reclaimed.
proof fn lemma_reclaims(cache: CacheView, i: int)
    requires
        0 <= i < cache.table.slots.len(),
        cache.table.slots[i] is Some,
        !cache.table.goes_over(cache.tiles, i),
    ensures
        cache.table.after_copy(cache.tiles).uncopied(cache.table.slots.len()).contains(
            cache.table.slots[i]->0,
        ),
{
    let left = cache.table.after_copy(cache.tiles);
    let index = cache.table.slots[i]->0;
    assert(left.slots[i] == Some(index) && !left.copied[i]);
    law_reclaimed_tiles(left, index);
}

/// What a ready tile is, and what becomes of the cache: the texels of the tile with the identity
/// begin at its place times 12288, the tile is no longer marked, and all else stays.
pub proof fn law_ready_tile(cache: CacheView, tile_id: TileId)
    requires
        cache.is_valid(),
        cache.tiles.len() > 0,
    ensures
        cache.tile_asked(tile_id).0 matches TileStep::Ready(start) ==> {
            let after = cache.tile_asked(tile_id).1;
            &&& after.memory == cache.memory
            &&& after.free_tiles == cache.free_tiles
            &&& after.table == cache.table
            &&& after.textures == cache.textures
            &&& after.loads == cache.loads
            &&& after.tiles.len() == cache.tiles.len()
            &&& exists|i: int|
                0 <= i < cache.tiles.len() && (#[trigger] cache.tiles[i]).tile_id == tile_id
                    && start == i * 12_288 && cache.table.slots.contains(Some(i as usize))
                    && !after.tiles[i].marked
            &&& forall|i: int|
                0 <= i < cache.tiles.len() ==> {
                    &&& (#[trigger] after.tiles[i]).tile_id == cache.tiles[i].tile_id
                    &&& after.tiles[i].texels == cache.tiles[i].texels
                    &&& start != i * 12_288 ==> after.tiles[i].marked == cache.tiles[i].marked
                }
        },
{
    if let Some(index) = cache.table.found(cache.tiles, tile_id) {
        law_found_matches(cache.table, cache.tiles, tile_id, 0);
        lemma_held_tile(cache, index);
        let after = cache.tile_asked(tile_id).1;
        let start = cache.tiles[index as int].texels.start;
        assert(cache.tiles[index as int].tile_id == tile_id && start == index * 12_288
            && cache.table.slots.contains(Some(index)) && !after.tiles[index as int].marked);
    }
}

/// Waiting changes nothing.
pub proof fn law_waiting(cache: CacheView, tile_id: TileId)
    ensures
        cache.tile_asked(tile_id).0 is Wait ==> cache.tile_asked(tile_id).1 == cache,
{
}

/// A load is under way from when it is asked for, after those that were. It names the tile and the
/// texture, which is in the low sixteen bits of the identity. The memory and the textures stay.
pub proof fn law_load_begins(cache: CacheView, tile_id: TileId)
    ensures
        cache.tile_asked(tile_id).0 matches TileStep::Load(load) ==> {
            let after = cache.tile_asked(tile_id).1;
            &&& load.tile_id == tile_id
            &&& load.tex_id == tile_id.0 % 0x1_0000
            &&& after.loads == cache.loads.push(load)
            &&& after.memory == cache.memory
            &&& after.textures == cache.textures
        },
{
}

/// Where a tile is free, a load goes into the last of the free tiles; the others stay free, and the
/// tiles in use stay in use. All of those get marked if as many tiles were free as an eighth of
/// all, and one. Otherwise no mark changes.
pub proof fn law_load_into_free_tile(cache: CacheView, tile_id: TileId)
    requires
        cache.is_valid(),
        cache.tiles.len() > 0,
        cache.free_tiles.len() > 0,
    ensures
        cache.tile_asked(tile_id).0 matches TileStep::Load(load) ==> {
            let after = cache.tile_asked(tile_id).1;
            let few = cache.free_tiles.len() == 1 + cache.tiles.len() / 8;
            &&& load.index == cache.free_tiles[cache.free_tiles.len() - 1]
            &&& after.free_tiles == cache.free_tiles.take(cache.free_tiles.len() - 1)
            &&& after.table == cache.table
            &&& after.tiles.len() == cache.tiles.len()
            &&& forall|i: int|
                0 <= i < cache.tiles.len() ==> {
                    &&& (#[trigger] after.tiles[i]).tile_id == cache.tiles[i].tile_id
                    &&& after.tiles[i].texels == cache.tiles[i].texels
                    &&& after.tiles[i].marked == (cache.tiles[i].marked || few
                        && cache.table.slots.contains(Some(i as usize)))
                }
        },
{
    let (taken, left) = cache.free_tile_taken();
    assert(cache.free_tiles.drop_last() =~= cache.free_tiles.take(cache.free_tiles.len() - 1));
    assert(cache.table.slots.take(cache.table.slots.len() as int) =~= cache.table.slots);
}

/// Where no tile is free, tiles in use are freed. Those that are marked become free, one of them is
/// loaded into, and the others stay in use, but for one whose slot is taken over. Where none is
/// marked, those in the first half of the slots become free.
pub proof fn law_load_after_freeing(cache: CacheView, tile_id: TileId, index: usize)
    requires
        cache.is_valid(),
        cache.tiles.len() > 0,
        cache.free_tiles.len() == 0,
    ensures
        cache.tile_asked(tile_id).0 matches TileStep::Load(load) ==> {
            let after = cache.tile_asked(tile_id).1;
            let slots = cache.table.slots;
            let some_marked = exists|i: int|
                0 <= i < slots.len() && (#[trigger] slots[i] matches Some(other)
                    && cache.tiles[other as int].marked);
            let given_up = exists|i: int|
                0 <= i < slots.len() && #[trigger] slots[i] == Some(index) && if some_marked {
                    cache.tiles[index as int].marked
                } else {
                    i < slots.len() / 2
                };
            &&& given_up <==> after.free_tiles.contains(index) || load.index == index
            &&& given_up ==> !after.table.slots.contains(Some(index))
            &&& slots.contains(Some(index)) && !given_up ==> {
                ||| after.table.slots.contains(Some(index))
                ||| exists|i: int|
                    0 <= i < slots.len() && #[trigger] copy_takes_over(
                        cache.table,
                        cache.tiles,
                        cache.spare,
                        i,
                        index,
                    )
            }
            &&& after.table.slots.contains(Some(index)) ==> slots.contains(Some(index))
        },
{
    let slots = cache.table.slots;
    let size = slots.len();
    let gone = cache.table.after_copy(cache.tiles);
    let reclaimed = gone.uncopied(size);
    let (taken, left) = cache.free_tile_taken();
    assert(cache.free_tiles + reclaimed =~= reclaimed);
    law_reclaimed_tiles(gone, index);
    lemma_freed_tiles(cache, index);
    if cache.table.holds(index) {
        law_no_tile_is_lost(cache.table, cache.tiles, cache.spare, index);
    }
    lemma_given_up(cache, index);
    if reclaimed.len() > 0 {
        if reclaimed.contains(index) {
            let k = choose|k: int| 0 <= k < reclaimed.len() && reclaimed[k] == index;
            if k < reclaimed.len() - 1 {
                assert(left.free_tiles[k] == index);
            }
        }
        if left.free_tiles.contains(index) {
            let k = choose|k: int| 0 <= k < left.free_tiles.len() && left.free_tiles[k] == index;
            assert(reclaimed[k] == index);
        }
        assert(reclaimed.contains(reclaimed[reclaimed.len() - 1]));
    }
}

/// Which tiles are given up when tiles are freed.
proof fn lemma_given_up(cache: CacheView, index: usize)
    ensures
        ({
            let slots = cache.table.slots;
            let gone = cache.table.after_copy(cache.tiles);
            let some_marked = exists|i: int|
                0 <= i < slots.len() && (#[trigger] slots[i] matches Some(other)
                    && cache.tiles[other as int].marked);
            (exists|i: int|
                0 <= i < slots.len() && #[trigger] slots[i] == Some(index) && if some_marked {
                    cache.tiles[index as int].marked
                } else {
                    i < slots.len() / 2
                }) <==> exists|i: int|
                0 <= i < gone.slots.len() && #[trigger] gone.slots[i] == Some(index)
                    && !gone.copied[i]
        }),
{
    let slots = cache.table.slots;
    let gone = cache.table.after_copy(cache.tiles);
    assert forall|i: int| 0 <= i < slots.len() && #[trigger] slots[i] == Some(index) implies (
    !gone.copied[i] <==> cache.tiles[index as int].marked || i < slots.len() / 2 && forall|j: int|
        0 <= j < slots.len() ==> !(#[trigger] slots[j] matches Some(other)
            && cache.tiles[other as int].marked)) by {
        lemma_stays_behind(cache, i);
    }
}

/// When tiles were freed and few are free then, all tiles in use are marked. Otherwise no mark
/// changes. No identity and no place changes.
pub proof fn law_marks_after_freeing(cache: CacheView, tile_id: TileId, index: usize)
    requires
        cache.is_valid(),
        cache.tiles.len() > 0,
        cache.free_tiles.len() == 0,
        index < cache.tiles.len(),
    ensures
        cache.tile_asked(tile_id).0 is Load || cache.tile_asked(tile_id).0 is OutOfTiles ==> {
            let after = cache.tile_asked(tile_id).1;
            let taken: int = if cache.tile_asked(tile_id).0 is Load {
                1
            } else {
                0
            };
            let few = after.free_tiles.len() + taken <= 1 + cache.tiles.len() / 8;
            let (was, is) = (cache.tiles[index as int], after.tiles[index as int]);
            &&& after.tiles.len() == cache.tiles.len()
            &&& is.tile_id == was.tile_id
            &&& is.texels == was.texels
            &&& is.marked == (was.marked || few && after.table.slots.contains(Some(index)))
        },
{
    let freed = cache.freed();
    let table = freed.table;
    assert(table.slots.take(table.slots.len() as int) =~= table.slots);
}

/// Out of tiles, nothing is read and nothing is free. The tiles in use that are left are all
/// marked: the next time, they can be freed.
pub proof fn law_out_of_tiles(cache: CacheView, tile_id: TileId)
    requires
        cache.is_valid(),
        cache.tiles.len() > 0,
    ensures
        cache.tile_asked(tile_id).0 is OutOfTiles ==> {
            let after = cache.tile_asked(tile_id).1;
            &&& after.memory == cache.memory
            &&& after.textures == cache.textures
            &&& after.loads == cache.loads
            &&& after.free_tiles.len() == 0
            &&& forall|index: usize| #[trigger]
                after.table.slots.contains(Some(index)) ==> cache.table.slots.contains(Some(index))
                    && after.tiles[index as int].marked
        },
{
    if cache.tile_asked(tile_id).0 is OutOfTiles {
        let after = cache.tile_asked(tile_id).1;
        lemma_taken_is_valid(cache);
        assert forall|index: usize| #[trigger] after.table.slots.contains(Some(index)) implies
            cache.table.slots.contains(Some(index)) && after.tiles[index as int].marked by {
            assert(after.table.holds(index));
            lemma_freed_tiles(cache, index);
            assert(cache.table.holds(index));
            lemma_held_tile(cache, index);
            law_marks_after_freeing(cache, tile_id, index);
        }
    }
}

/// A cache that is out of tiles while tiles are in use is not out of tiles again: what is asked for
/// next can be read, is ready, or is being read.
pub proof fn law_out_of_tiles_once(cache: CacheView, first: TileId, second: TileId)
    requires
        cache.is_valid(),
        cache.tiles.len() > 0,
        cache.can_load(first),
        cache.can_load(second),
        cache.tile_asked(first).0 is OutOfTiles,
        exists|index: usize| #[trigger]
            cache.tile_asked(first).1.table.slots.contains(Some(index)),
    ensures
        !(cache.tile_asked(first).1.tile_asked(second).0 is OutOfTiles),
{
    let after = cache.tile_asked(first).1;
    lemma_asked_is_valid(cache, first);
    lemma_taken_is_valid(cache);
    law_out_of_tiles(cache, first);
    let index = choose|index: usize| #[trigger] after.table.slots.contains(Some(index));
    let i = choose|i: int| 0 <= i < after.table.slots.len() && after.table.slots[i] == Some(index);
    assert(after.table.slots[i] == Some(index));
    assert(after.table.holds(index));
    assert(after.tiles.len() == cache.tiles.len());
    law_what_can_be_taken(after);
}

/// What a load does when it is over: the bytes go where the tile's texels begin, at its place times
/// 12288, and no other byte changes. The tile has the identity that was asked for, and no other
/// tile's changes. No mark changes, no free tile is used up, and the other loads stay under way.
pub proof fn law_load_ends(cache: CacheView, load: TileLoad, bytes: Seq<u8>, other: TileLoad)
    requires
        cache.is_valid(),
        cache.loads.contains(load),
        bytes.len() <= 12_288,
    ensures
        ({
            let after = cache.load_finished(load, bytes);
            let start = load.index * 12_288;
            &&& after.memory.len() == cache.memory.len()
            &&& forall|k: int|
                0 <= k < cache.memory.len() ==> #[trigger] after.memory[k] == (if start <= k < start
                    + bytes.len() {
                    bytes[k - start]
                } else {
                    cache.memory[k]
                })
            &&& after.tiles.len() == cache.tiles.len()
            &&& forall|i: int|
                0 <= i < cache.tiles.len() ==> {
                    &&& (#[trigger] after.tiles[i]).tile_id == (if i == load.index {
                        load.tile_id
                    } else {
                        cache.tiles[i].tile_id
                    })
                    &&& after.tiles[i].texels == cache.tiles[i].texels
                    &&& after.tiles[i].marked == cache.tiles[i].marked
                }
            &&& after.free_tiles == cache.free_tiles
            &&& after.textures == cache.textures
            &&& after.loads.len() == cache.loads.len() - 1
            &&& after.loads.contains(other) <==> cache.loads.contains(other) && other != load
        }),
{
    lemma_load_is_valid(cache, load, bytes);
    lemma_loads_without(cache, load, other);
    let at = cache.loads.index_of(load);
    assert(cache.loads[at] == load);
}

/// The tile that was loaded comes into the table, in one slot. No other slot changes.
pub proof fn law_load_takes_one_slot(cache: CacheView, load: TileLoad, bytes: Seq<u8>)
    requires
        cache.is_valid(),
        cache.loads.contains(load),
        bytes.len() <= 12_288,
    ensures
        ({
            let (before, after) = (cache.table.slots, cache.load_finished(load, bytes).table.slots);
            &&& after.len() == before.len()
            &&& exists|i: int|
                0 <= i < before.len() && after == #[trigger] before.update(i, Some(load.index))
                    && (before[i] matches Some(other) ==> takes_over(
                    cache.table,
                    load.tile_id,
                    other,
                ))
        }),
{
    lemma_load_is_valid(cache, load, bytes);
    let (before, after) = (cache.table.slots, cache.load_finished(load, bytes).table.slots);
    law_insert_keeps_tiles(cache.table, load.tile_id, load.index, load.index);
    assert(!cache.table.holds(load.index));
    let i = choose|i: int| 0 <= i < after.len() && after[i] == Some(load.index);
    assert(before[i] != after[i]);
    assert(after =~= before.update(i, Some(load.index)));
    if let Some(other) = before[i] {
        assert(cache.table.holds(other));
        law_insert_keeps_tiles(cache.table, load.tile_id, load.index, other);
        if cache.load_finished(load, bytes).table.holds(other) {
            let j = choose|j: int| 0 <= j < after.len() && after[j] == Some(other);
            assert(before[j] == Some(other) && j != i);
        }
    }
}

/// The texture that is found under a path is the last one with it.
pub proof fn law_last_texture_is_found(cache: CacheView, path: Seq<Seq<u8>>, count: nat)
    requires
        count <= cache.textures.len(),
    ensures
        match cache.texture_with_path(path, count) {
            Some(i) => i < count && cache.textures[i as int].path == path && forall|k: int|
                i < k < count ==> (#[trigger] cache.textures[k]).path != path,
            None => forall|k: int| 0 <= k < count ==> (#[trigger] cache.textures[k]).path != path,
        },
    decreases count,
{
    if count > 0 {
        law_last_texture_is_found(cache, path, (count - 1) as nat);
    }
}

/// Where a texel stands in the memory: in the tile that begins at `start`, texel by texel and row by
/// row, as many bytes as were asked for.
pub proof fn law_texel_in_tile(
    cache: CacheView,
    tex_id: u32,
    start: usize,
    x: u32,
    y: u32,
    stride: nat,
    c: int,
)
    requires
        cache.is_valid(),
        cache.can_read(tex_id, stride),
        cache.is_tile_start(start),
        0 <= c < stride,
    ensures
        ({
            let image = cache.textures[tex_id as int].image;
            let side = pow2(image.log_tile_size as nat);
            let at = start + ((y as nat % side) * side + x as nat % side) * image.format.stride()
                + c;
            &&& cache.texel_at(tex_id, start, x, y, stride).len() == stride
            &&& 0 <= at < cache.memory.len()
            &&& cache.texel_at(tex_id, start, x, y, stride)[c] == cache.memory[at]
        }),
{
    let image = cache.textures[tex_id as int].image;
    let side = pow2(image.log_tile_size as nat);
    lemma_texel_in_tile(image, x as nat, y as nat);
    assert(image.format.stride() * image.texel_in_tile(x as nat, y as nat) == ((y as nat % side)
        * side + x as nat % side) * image.format.stride()) by (nonlinear_arith)
        requires
            image.texel_in_tile(x as nat, y as nat) == (y as nat % side) * side + x as nat % side,
    ;
}

/// When texels can be read out of the tiles of a texture: it was added, a texel has as many bytes as
/// are asked for, and the texels of a tile have no more than 12288 bytes.
pub proof fn law_can_read(cache: CacheView, tex_id: u32, stride: nat)
    ensures
        ({
            let image = cache.textures[tex_id as int].image;
            let side = pow2(image.log_tile_size as nat);
            cache.can_read(tex_id, stride) <==> tex_id < cache.textures.len() && stride
                <= image.format.stride() && image.log_tile_size < 32 && side * side
                * image.format.stride() <= 12_288
        }),
{
}

/// When a tile can be read: its texture was added, the tile can be addressed in the file of the
/// texture, and the texels of a tile have no more than 12288 bytes.
pub proof fn law_can_load(cache: CacheView, id: TileId)
    ensures
        ({
            let texture = id.0 % 0x1_0000;
            let image = cache.textures[texture as int].image;
            let side = pow2(image.log_tile_size as nat);
            cache.can_load(id) <==> {
                &&& texture < cache.textures.len()
                &&& image.can_address(
                    (id.0 / 0x1_0000_0000 % 0x1_0000) as nat,
                    (id.0 / 0x1_0000_0000_0000 % 0x1_0000) as nat,
                    (id.0 / 0x1_0000 % 0x1_0000) as int,
                )
                &&& side * side * image.format.stride() <= 12_288
            }
        }),
{
}

/// The identity of the tile that holds a texel: the texture, the level, and how many tiles are left
/// of it and above it, in sixteen bits each.
pub proof fn law_tile_of_texel(cache: CacheView, tex_id: u32, level: u32, x: u32, y: u32)
    requires
        tex_id < 0x1_0000,
        level < 0x1_0000,
        x as nat / pow2(cache.textures[tex_id as int].image.log_tile_size as nat) < 0x1_0000,
        y as nat / pow2(cache.textures[tex_id as int].image.log_tile_size as nat) < 0x1_0000,
    ensures
        ({
            let side = pow2(cache.textures[tex_id as int].image.log_tile_size as nat);
            cache.tile_of(tex_id, level, x, y).0 == tex_id + 0x1_0000 * level + 0x1_0000_0000 * (
            x as nat / side) + 0x1_0000_0000_0000 * (y as nat / side)
        }),
{
    let side = pow2(cache.textures[tex_id as int].image.log_tile_size as nat);
    vstd::arithmetic::power2::lemma_pow2_pos(
        cache.textures[tex_id as int].image.log_tile_size as nat,
    );
    vstd::arithmetic::div_mod::lemma_div_pos_is_pos(x as int, side as int);
    vstd::arithmetic::div_mod::lemma_div_pos_is_pos(y as int, side as int);
    law_identity_of_parts(tex_id, level, (x as nat / side) as u32, (y as nat / side) as u32);
}

/// The identity of the tile that holds a texel, whatever the numbers: of the level and of the row of
/// tiles the low sixteen bits count, and the four parts are laid over each other.
pub proof fn law_tile_of_any_texel(cache: CacheView, tex_id: u32, level: u32, x: u32, y: u32)
    ensures
        ({
            let side = pow2(cache.textures[tex_id as int].image.log_tile_size as nat);
            let (tile_x, tile_y) = (x as nat / side, y as nat / side);
            cache.tile_of(tex_id, level, x, y).0 == tex_id as u64 | (0x1_0000 * (level % 0x1_0000))
                as u64 | (0x1_0000_0000 * tile_x) as u64 | (0x1_0000_0000_0000 * (tile_y
                % 0x1_0000)) as u64
        }),
{
    let side = pow2(cache.textures[tex_id as int].image.log_tile_size as nat);
    vstd::arithmetic::power2::lemma_pow2_pos(
        cache.textures[tex_id as int].image.log_tile_size as nat,
    );
    vstd::arithmetic::div_mod::lemma_div_pos_is_pos(x as int, side as int);
    vstd::arithmetic::div_mod::lemma_div_pos_is_pos(y as int, side as int);
    vstd::arithmetic::div_mod::lemma_div_is_ordered_by_denominator(x as int, 1, side as int);
    vstd::arithmetic::div_mod::lemma_div_is_ordered_by_denominator(y as int, 1, side as int);
    law_identity_of_wide_parts(tex_id, level, (x as nat / side) as u32, (y as nat / side) as u32);
}

/// What is read for a tile: as many bytes as the texels of a tile have, from where the tile begins
/// in the file. Here `across` tiles cover the width of the level, and `disk` is the number of bytes
/// of a tile rounded up to 4096.
pub proof fn law_bytes_of_load(cache: CacheView, id: TileId, disk: nat, across: nat)
    requires
        cache.is_valid(),
        cache.can_load(id),
        ({
            let image = cache.textures[(id.0 % 0x1_0000) as int].image;
            let side = pow2(image.log_tile_size as nat);
            let width = image.extents[(id.0 / 0x1_0000 % 0x1_0000) as int].width;
            &&& width <= across * side
            &&& width > 0 ==> (across - 1) * side < width
            &&& width == 0 ==> across == 0
            &&& disk % 4096 == 0
            &&& side * side * image.format.stride() <= disk < side * side * image.format.stride()
                + 4096
        }),
    ensures
        cache.tile_asked(id).0 matches TileStep::Load(load) ==> {
            let image = cache.textures[(id.0 % 0x1_0000) as int].image;
            let side = pow2(image.log_tile_size as nat);
            let column = id.0 / 0x1_0000_0000 % 0x1_0000;
            let row = id.0 / 0x1_0000_0000_0000 % 0x1_0000;
            &&& load.tile_id == id
            &&& load.tex_id == id.0 % 0x1_0000
            &&& load.offset == image.offsets[(id.0 / 0x1_0000 % 0x1_0000) as int] + disk * (row
                * across + column)
            &&& load.bytes == side * side * image.format.stride()
        },
{
    let image = cache.textures[id.texture() as int].image;
    law_image_numbers(image, id.mip() as int, 0, 0, id.column(), id.row(), disk, across);
}

/// When a texel can be asked for: its texture was added and has texels of as many bytes, and either
/// the texel is in a level that is kept in memory, or there are tiles, and its own can be read.
pub proof fn law_can_ask(
    cache: CacheView,
    tex_id: u32,
    level: u32,
    x: u32,
    y: u32,
    stride: nat,
)
    ensures
        ({
            let image = cache.textures[tex_id as int].image;
            let side = pow2(image.log_tile_size as nat);
            cache.can_ask(tex_id, level, x, y, stride) <==> {
                &&& tex_id < cache.textures.len()
                &&& stride <= image.format.stride()
                &&& level >= image.first_in_memory_level ==> level < image.extents.len() && y
                    * image.extents[level as int].width + x < image.extents[level as int].width
                    * image.extents[level as int].height
                &&& level < image.first_in_memory_level ==> cache.tiles.len() > 0
                    && image.log_tile_size < 32 && side * side * image.format.stride() <= 12_288
                    && cache.can_load(cache.tile_of(tex_id, level, x, y))
            }
        }),
{
}

/// Two paths are the same if they have the same components, byte by byte, in the same order.
pub proof fn law_same_path(a: Seq<Vec<u8>>, b: Seq<Vec<u8>>)
    ensures
        path_view(a) == path_view(b) <==> a.len() == b.len() && forall|i: int|
            0 <= i < a.len() ==> (#[trigger] a[i])@ == b[i]@,
{
    if path_view(a) == path_view(b) {
        assert(path_view(a).len() == a.len() && path_view(b).len() == b.len());
        assert forall|i: int| 0 <= i < a.len() implies (#[trigger] a[i])@ == b[i]@ by {
            assert(path_view(a)[i] == path_view(b)[i]);
        }
    }
    if a.len() == b.len() && forall|i: int| 0 <= i < a.len() ==> (#[trigger] a[i])@ == b[i]@ {
        assert(path_view(a) =~= path_view(b));
    }
}

} // verus!
