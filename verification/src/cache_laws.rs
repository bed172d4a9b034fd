//! What holds of the cache, whatever is asked of it.
use crate::cache::{
    lemma_asked_is_valid, lemma_held_tile, lemma_hit_is_valid, lemma_load_is_valid,
    lemma_loads_without, lemma_taken_is_valid, CacheView, TextureView, TileLoad, TileStep,
    TILE_ALLOC_SIZE,
};
use crate::cache_steps::law_asked_step;
use crate::hash_table::{law_tile_id_round_trip, TileId};
use crate::image::{lemma_texel_in_tile, ImageView};
use crate::layout::Pyramid;
use crate::power_of_two::is_power_of_two;
use crate::round_trip::{law_texel_round_trip, law_written_file_opens};
use crate::table_laws::{
    copy_takes_over, law_empty_table_finds_nothing, law_found_is_held, law_found_matches,
    law_insert_keeps_tiles, law_no_tile_is_lost, law_reclaimed_tiles, takes_over,
};
use crate::tiles::lemma_texels_in_bounds;
use vstd::prelude::*;

verus! {

impl CacheView {
    /// Whether a tile has the texels that `disk` has for its identity.
    pub open spec fn agrees(self, index: usize, disk: spec_fn(TileId) -> Seq<u8>) -> bool {
        let start = index * TILE_ALLOC_SIZE;
        let bytes = disk(self.tiles[index as int].tile_id);
        &&& bytes.len() <= TILE_ALLOC_SIZE
        &&& self.memory.subrange(start, start + bytes.len()) == bytes
    }

    /// Whether each tile in use has the texels that `disk` has for its identity.
    pub open spec fn is_coherent(self, disk: spec_fn(TileId) -> Seq<u8>) -> bool {
        forall|index: usize| #[trigger] self.table.holds(index) ==> self.agrees(index, disk)
    }

    /// What files hold for each tile: the bytes that a load of the tile asks for.
    pub open spec fn disk_of(self, files: spec_fn(nat) -> Seq<u8>) -> spec_fn(TileId) -> Seq<u8> {
        |id: TileId|
            {
                let load = self.load_of(id, 0);
                files(id.texture()).subrange(load.offset as int, load.offset + load.bytes)
            }
    }

    /// Whether each tile in use is one of a texture that was added, and has the texels that the
    /// texture's file holds for it.
    pub open spec fn is_faithful(self, files: spec_fn(nat) -> Seq<u8>) -> bool {
        &&& self.is_coherent(self.disk_of(files))
        &&& forall|index: usize| #[trigger]
            self.table.holds(index) ==> self.tiles[index as int].tile_id.texture()
                < self.textures.len()
    }
}

/// In a new cache, all tiles are free, and none is in use.
pub proof fn law_new_cache(count: nat, files: spec_fn(nat) -> Seq<u8>)
    requires
        count <= usize::MAX,
    ensures
        CacheView::empty(count).is_faithful(files),
        forall|index: usize|
            index < count ==> #[trigger] CacheView::empty(count).has_tile(index),
{
    let cache = CacheView::empty(count);
    assert forall|index: usize| index < count implies #[trigger] cache.has_tile(index) by {
        assert(cache.free_tiles[index as int] == index);
    }
}

/// Asking for a tile keeps every tile in use as it should be: it has the texels of its identity.
pub proof fn law_asking_keeps_coherence(
    cache: CacheView,
    tile_id: TileId,
    disk: spec_fn(TileId) -> Seq<u8>,
)
    requires
        cache.is_valid(),
        cache.tiles.len() > 0,
        cache.is_coherent(disk),
    ensures
        cache.tile_asked(tile_id).1.is_coherent(disk),
{
    let left = cache.tile_asked(tile_id).1;
    lemma_freed_keeps(cache);
    assert forall|index: usize| #[trigger] left.table.holds(index) implies left.agrees(
        index,
        disk,
    ) by {
        lemma_asked_keeps_tile(cache, tile_id, index);
        assert(cache.agrees(index, disk));
    }
}

/// A tile that is in use after a tile was asked for was in use, under the same identity.
proof fn lemma_asked_keeps_tile(cache: CacheView, tile_id: TileId, index: usize)
    requires
        cache.is_valid(),
        cache.tiles.len() > 0,
        cache.tile_asked(tile_id).1.table.holds(index),
    ensures
        cache.table.holds(index),
        index < cache.tiles.len(),
        cache.tile_asked(tile_id).1.tiles[index as int].tile_id
            == cache.tiles[index as int].tile_id,
{
    lemma_taken_is_valid(cache);
    let (taken, left) = cache.free_tile_taken();
    if cache.table.found(cache.tiles, tile_id) is None && !cache.is_reading(tile_id) {
        assert(left.table.holds(index));
    }
    assert(cache.table.holds(index));
    lemma_held_tile(cache, index);
    if let Some(found) = cache.table.found(cache.tiles, tile_id) {
        law_found_matches(cache.table, cache.tiles, tile_id, 0);
        lemma_held_tile(cache, found);
    }
}

/// A load with the right bytes keeps every tile in use as it should be, and so is the tile that
/// was loaded.
pub proof fn law_load_keeps_coherence(
    cache: CacheView,
    load: TileLoad,
    disk: spec_fn(TileId) -> Seq<u8>,
)
    requires
        cache.is_valid(),
        load.index < cache.tiles.len(),
        disk(load.tile_id).len() <= TILE_ALLOC_SIZE,
        cache.is_coherent(disk),
    ensures
        cache.load_finished(load, disk(load.tile_id)).is_coherent(disk),
        cache.load_finished(load, disk(load.tile_id)).agrees(load.index, disk),
{
    let bytes = disk(load.tile_id);
    let after = cache.load_finished(load, bytes);
    let start = load.index * TILE_ALLOC_SIZE;
    assert(after.memory.subrange(start, start + bytes.len()) =~= bytes);
    assert forall|index: usize| #[trigger] after.table.holds(index) implies after.agrees(
        index,
        disk,
    ) by {
        law_insert_keeps_tiles(cache.table, load.tile_id, load.index, index);
        if index != load.index {
            assert(cache.table.holds(index));
            assert(cache.agrees(index, disk));
            lemma_held_tile(cache, index);
            let here = index * TILE_ALLOC_SIZE;
            let other = disk(cache.tiles[index as int].tile_id);
            assert(after.memory.subrange(here, here + other.len()) =~= cache.memory.subrange(
                here,
                here + other.len(),
            ));
        }
    }
}

/// Asking for a tile keeps the cache faithful to the files.
pub proof fn law_asking_keeps_faith(
    cache: CacheView,
    tile_id: TileId,
    files: spec_fn(nat) -> Seq<u8>,
)
    requires
        cache.is_valid(),
        cache.tiles.len() > 0,
        cache.is_faithful(files),
    ensures
        cache.tile_asked(tile_id).1.is_faithful(files),
{
    let left = cache.tile_asked(tile_id).1;
    law_asking_keeps_coherence(cache, tile_id, cache.disk_of(files));
    lemma_freed_keeps(cache);
    assert(left.textures == cache.textures);
    assert forall|index: usize| #[trigger] left.table.holds(index) implies left.agrees(
        index,
        left.disk_of(files),
    ) && left.tiles[index as int].tile_id.texture() < left.textures.len() by {
        assert(left.agrees(index, cache.disk_of(files)));
        lemma_asked_keeps_tile(cache, tile_id, index);
        assert(cache.table.holds(index));
    }
}

/// A load that was asked for, ended with the bytes that it names, keeps the cache faithful to the
/// files. Other tiles may have been asked for and loaded in between.
pub proof fn law_load_keeps_faith(
    cache: CacheView,
    load: TileLoad,
    files: spec_fn(nat) -> Seq<u8>,
)
    requires
        cache.is_valid(),
        cache.loads.contains(load),
        load.offset + load.bytes <= files(load.tex_id as nat).len(),
        cache.is_faithful(files),
    ensures
        cache.load_finished(
            load,
            files(load.tex_id as nat).subrange(load.offset as int, load.offset + load.bytes),
        ).is_faithful(files),
{
    let disk = cache.disk_of(files);
    let bytes = files(load.tex_id as nat).subrange(load.offset as int, load.offset + load.bytes);
    let after = cache.load_finished(load, bytes);
    let at = choose|i: int| 0 <= i < cache.loads.len() && cache.loads[i] == load;
    assert(cache.is_load(cache.loads[at]));
    assert(disk(load.tile_id) == bytes);
    law_load_keeps_coherence(cache, load, disk);
    assert forall|index: usize| #[trigger] after.table.holds(index) implies after.agrees(
        index,
        after.disk_of(files),
    ) && after.tiles[index as int].tile_id.texture() < after.textures.len() by {
        assert(after.agrees(index, disk));
        law_insert_keeps_tiles(cache.table, load.tile_id, load.index, index);
        if index != load.index {
            assert(cache.table.holds(index));
        }
    }
}

/// Adding a texture keeps the cache faithful to the files.
pub proof fn law_adding_keeps_faith(
    cache: CacheView,
    texture: TextureView,
    files: spec_fn(nat) -> Seq<u8>,
)
    requires
        cache.is_valid(),
        cache.is_faithful(files),
    ensures
        (CacheView { textures: cache.textures.push(texture), ..cache }).is_faithful(files),
{
    let after = CacheView { textures: cache.textures.push(texture), ..cache };
    assert forall|index: usize| #[trigger] after.table.holds(index) implies after.agrees(
        index,
        after.disk_of(files),
    ) && after.tiles[index as int].tile_id.texture() < after.textures.len() by {
        assert(cache.table.holds(index));
        assert(cache.agrees(index, cache.disk_of(files)));
        let id = cache.tiles[index as int].tile_id;
        assert(after.textures[id.texture() as int] == cache.textures[id.texture() as int]);
        assert(after.load_of(id, 0) == cache.load_of(id, 0));
    }
}

/// The load that is asked for is one into a tile that is neither free nor in use, and names the
/// texture, and the place and the number of the bytes of the tile in the texture's file. It stays
/// one, whatever else is asked for, loaded or added, until it is over.
pub proof fn law_asked_load(cache: CacheView, tile_id: TileId)
    requires
        cache.is_valid(),
        cache.tiles.len() > 0,
        cache.can_load(tile_id),
    ensures
        cache.tile_asked(tile_id).0 matches TileStep::Load(load) ==> load.tile_id == tile_id
            && cache.tile_asked(tile_id).1.loads.contains(load) && cache.tile_asked(
            tile_id,
        ).1.is_load(load),
{
    lemma_asked_is_valid(cache, tile_id);
    let (step, after) = cache.tile_asked(tile_id);
    if let TileStep::Load(load) = step {
        assert(after.loads[cache.loads.len() as int] == load);
    }
}

/// A tile that is found has the texels of the identity that was asked for.
pub proof fn law_hit_has_the_texels(
    cache: CacheView,
    tile_id: TileId,
    disk: spec_fn(TileId) -> Seq<u8>,
)
    requires
        cache.is_valid(),
        cache.tiles.len() > 0,
        cache.is_coherent(disk),
    ensures
        cache.tile_asked(tile_id).0 matches TileStep::Ready(start) ==> cache.is_tile_start(start)
            && cache.memory.subrange(start as int, start + disk(tile_id).len()) == disk(tile_id),
{
    if let Some(index) = cache.table.found(cache.tiles, tile_id) {
        law_found_matches(cache.table, cache.tiles, tile_id, 0);
        lemma_held_tile(cache, index);
        assert(cache.agrees(index, disk));
    }
}

/// A tile that was loaded is in use, with the bytes that were read, and is no longer being read. It
/// is ready at the same place when it is asked for again, and again.
pub proof fn law_loaded_tile_is_ready(cache: CacheView, load: TileLoad, bytes: Seq<u8>)
    requires
        cache.is_valid(),
        cache.loads.contains(load),
        bytes.len() <= TILE_ALLOC_SIZE,
    ensures
        ({
            let after = cache.load_finished(load, bytes);
            let start = load.index * TILE_ALLOC_SIZE;
            let (asked, left) = after.tile_asked(load.tile_id);
            &&& after.table.holds(load.index)
            &&& after.memory.subrange(start, start + bytes.len()) == bytes
            &&& !after.is_reading(load.tile_id)
            &&& asked == TileStep::Ready(start as usize)
            &&& left.memory == after.memory
            &&& left.tile_asked(load.tile_id).0 == TileStep::Ready(start as usize)
        }),
{
    let after = cache.load_finished(load, bytes);
    let start = load.index * TILE_ALLOC_SIZE;
    lemma_load_is_valid(cache, load, bytes);
    law_insert_keeps_tiles(cache.table, load.tile_id, load.index, load.index);
    law_found_is_held(after.table, after.tiles, load.tile_id);
    assert(after.table.holds(load.index));
    assert(after.memory.subrange(start, start + bytes.len()) =~= bytes);
    if after.is_reading(load.tile_id) {
        let i = choose|i: int|
            0 <= i < after.loads.len() && (#[trigger] after.loads[i]).tile_id == load.tile_id;
        assert(after.is_load(after.loads[i]));
        assert(after.table.holds_identity(after.tiles, load.tile_id));
    }
    law_hit_again(after, load.tile_id);
}

/// A tile that was found is found at the same place when it is asked for again.
pub proof fn law_hit_again(cache: CacheView, tile_id: TileId)
    requires
        cache.is_valid(),
        cache.tiles.len() > 0,
    ensures
        cache.tile_asked(tile_id).0 matches TileStep::Ready(start) ==> cache.tile_asked(
            tile_id,
        ).1.tile_asked(tile_id).0 == TileStep::Ready(start),
{
    if let Some(index) = cache.table.found(cache.tiles, tile_id) {
        let left = cache.tile_asked(tile_id).1;
        law_found_matches(cache.table, cache.tiles, tile_id, 0);
        lemma_held_tile(cache, index);
        lemma_hit_is_valid(cache, index);
        law_found_is_held(left.table, left.tiles, tile_id);
        assert(left.table.holds(index));
    }
}

/// A tile in use that is asked for is ready, at its place.
pub proof fn law_held_tile_is_ready(cache: CacheView, index: usize)
    requires
        cache.is_valid(),
        cache.table.holds(index),
    ensures
        cache.tile_asked(cache.tiles[index as int].tile_id).0 == TileStep::Ready(
            (index * TILE_ALLOC_SIZE) as usize,
        ),
{
    lemma_held_tile(cache, index);
    law_found_is_held(cache.table, cache.tiles, cache.tiles[index as int].tile_id);
}

/// A free tile can be taken if there is one, or if tiles can be freed: one in use is marked, or none
/// is and one stands in the first half of the slots. What is taken is one of the tiles, and neither
/// free nor in use any more.
pub proof fn law_free_tile_is_taken(cache: CacheView)
    requires
        cache.is_valid(),
        cache.tiles.len() > 0,
    ensures
        cache.free_tile_taken().0 is Some <==> cache.free_tiles.len() > 0 || exists|i: int|
            0 <= i < cache.table.slots.len() && #[trigger] cache.table.slots[i] is Some
                && !cache.table.goes_over(cache.tiles, i),
        cache.free_tile_taken().0 matches Some(index) ==> index < cache.tiles.len()
            && !cache.free_tile_taken().1.free_tiles.contains(index)
            && !cache.free_tile_taken().1.table.holds(index),
{
    lemma_taken_is_valid(cache);
    let size = cache.table.slots.len();
    let left = cache.table.after_copy(cache.tiles);
    let reclaimed = left.uncopied(size);
    if cache.free_tiles.len() == 0 {
        assert(cache.free_tiles + reclaimed =~= reclaimed);
        if exists|i: int|
            0 <= i < size && #[trigger] cache.table.slots[i] is Some && !cache.table.goes_over(
                cache.tiles,
                i,
            ) {
            let i = choose|i: int|
                0 <= i < size && #[trigger] cache.table.slots[i] is Some && !cache.table.goes_over(
                    cache.tiles,
                    i,
                );
            let index = cache.table.slots[i]->0;
            assert(left.slots[i] == Some(index));
            law_reclaimed_tiles(left, index);
            assert(reclaimed.contains(index));
        }
        if reclaimed.len() > 0 {
            let index = reclaimed[0];
            assert(reclaimed.contains(index));
            law_reclaimed_tiles(left, index);
            let i = choose|i: int|
                0 <= i < size && #[trigger] left.slots[i] == Some(index) && !left.copied[i];
            assert(cache.table.slots[i] is Some && !cache.table.goes_over(cache.tiles, i));
        }
    }
}

/// Where no tile is free, all tiles are in use and all are marked, a tile is freed and taken.
pub proof fn law_marked_tiles_are_freed(cache: CacheView)
    requires
        cache.is_valid(),
        cache.tiles.len() > 0,
        cache.free_tiles.len() == 0,
        forall|index: usize|
            index < cache.tiles.len() ==> #[trigger] cache.table.holds(index)
                && cache.tiles[index as int].marked,
    ensures
        cache.free_tile_taken().0 is Some,
{
    law_free_tile_is_taken(cache);
    assert(cache.table.holds(0));
    let i = choose|i: int|
        0 <= i < cache.table.slots.len() && cache.table.slots[i] == Some(0usize);
    assert(cache.table.slots[i] is Some && cache.table.is_marked(cache.tiles, i));
}

/// In a cache with no tile in use, a tile that is asked for has to be read, into the last of the
/// free tiles.
pub proof fn law_first_ask_loads(cache: CacheView, tile_id: TileId)
    requires
        cache.is_valid(),
        cache.tiles.len() > 0,
        cache.table.is_empty(),
        cache.free_tiles.len() > 0,
        !cache.is_reading(tile_id),
    ensures
        cache.tile_asked(tile_id).0 == TileStep::Load(
            cache.load_of(tile_id, cache.free_tiles.last()),
        ),
{
    law_empty_table_finds_nothing(cache.table, cache.tiles, tile_id);
}

/// No tile is read twice at a time: while it is being read, no second load of it begins, and once
/// a load begins, it is being read.
pub proof fn law_no_second_load(cache: CacheView, tile_id: TileId)
    ensures
        cache.is_reading(tile_id) ==> cache.tile_asked(tile_id).0 !is Load && cache.tile_asked(
            tile_id,
        ).1.loads == cache.loads,
        cache.tile_asked(tile_id).0 is Load ==> cache.tile_asked(tile_id).1.is_reading(tile_id),
{
    let left = cache.tile_asked(tile_id).1;
    if cache.tile_asked(tile_id).0 is Load {
        assert(left.loads[cache.loads.len() as int].tile_id == tile_id);
    }
}

/// When a load is over, it is no longer under way, and the others still are.
pub proof fn law_load_ends_read(cache: CacheView, load: TileLoad, bytes: Seq<u8>, other: TileLoad)
    requires
        cache.is_valid(),
        cache.loads.contains(load),
    ensures
        cache.load_finished(load, bytes).loads.contains(other) <==> cache.loads.contains(other)
            && other != load,
{
    lemma_loads_without(cache, load, other);
}

/// No tile gets lost when one is taken: each that was free or in use still is, or is the one that
/// was taken. The exception is a tile whose slot was taken over when tiles were freed.
pub proof fn law_taking_loses_no_tile(cache: CacheView, index: usize)
    requires
        cache.is_valid(),
        cache.tiles.len() > 0,
        cache.has_tile(index),
    ensures
        ({
            let (taken, left) = cache.free_tile_taken();
            ||| taken == Some(index)
            ||| left.has_tile(index)
            ||| cache.free_tiles.len() == 0 && exists|i: int|
                0 <= i < cache.table.slots.len() && #[trigger] copy_takes_over(
                    cache.table,
                    cache.tiles,
                    cache.spare,
                    i,
                    index,
                )
        }),
{
    let ready = cache.replenished();
    let (taken, left) = cache.free_tile_taken();
    if cache.free_tiles.len() == 0 {
        law_no_tile_is_lost(cache.table, cache.tiles, cache.spare, index);
        let reclaimed = cache.table.after_copy(cache.tiles).uncopied(cache.table.slots.len());
        assert(cache.free_tiles + reclaimed =~= reclaimed);
    }
    if ready.free_tiles.contains(index) {
        let k = choose|k: int| 0 <= k < ready.free_tiles.len() && ready.free_tiles[k] == index;
        if k < ready.free_tiles.len() - 1 {
            assert(left.free_tiles[k] == index);
        }
    }
}

/// No tile gets lost when a load ends: each that was free or in use still is, and so is the one
/// that was loaded. The exception is a tile whose slot is taken over.
pub proof fn law_load_loses_no_tile(cache: CacheView, load: TileLoad, bytes: Seq<u8>, index: usize)
    requires
        cache.is_valid(),
        cache.loads.contains(load),
        cache.has_tile(index) || index == load.index,
    ensures
        cache.load_finished(load, bytes).has_tile(index) || takes_over(
            cache.table,
            load.tile_id,
            index,
        ),
{
    let at = choose|i: int| 0 <= i < cache.loads.len() && cache.loads[i] == load;
    assert(cache.is_load(cache.loads[at]));
    law_insert_keeps_tiles(cache.table, load.tile_id, load.index, index);
}

/// A texture is found under its path once it was added, by the number that it was added under;
/// and adding one changes no other's number.
pub proof fn law_texture_is_found(cache: CacheView, texture: TextureView, path: Seq<Seq<u8>>)
    ensures
        ({
            let after = CacheView { textures: cache.textures.push(texture), ..cache };
            after.texture_with_path(path, after.textures.len()) == (if path == texture.path {
                Some(cache.textures.len())
            } else {
                cache.texture_with_path(path, cache.textures.len())
            })
        }),
{
    let after = CacheView { textures: cache.textures.push(texture), ..cache };
    lemma_same_paths(cache, after, path, cache.textures.len());
}

proof fn lemma_same_paths(a: CacheView, b: CacheView, path: Seq<Seq<u8>>, count: nat)
    requires
        forall|i: int| 0 <= i < count ==> #[trigger] a.textures[i] == b.textures[i],
    ensures
        a.texture_with_path(path, count) == b.texture_with_path(path, count),
    decreases count,
{
    if count > 0 {
        assert(a.textures[count - 1] == b.textures[count - 1]);
        lemma_same_paths(a, b, path, (count - 1) as nat);
    }
}

/// The texture that is found under a path has that path.
pub proof fn law_found_texture_has_path(cache: CacheView, path: Seq<Seq<u8>>, count: nat)
    requires
        count <= cache.textures.len(),
    ensures
        match cache.texture_with_path(path, count) {
            Some(i) => i < count && cache.textures[i as int].path == path,
            None => forall|i: int| 0 <= i < count ==> (#[trigger] cache.textures[i]).path != path,
        },
    decreases count,
{
    if count > 0 {
        law_found_texture_has_path(cache, path, (count - 1) as nat);
    }
}

/// Whether the cache gives a texel of a texture: out of a level that is kept in memory, out of the
/// tile that is found, or out of the tile that is loaded with the bytes that the load names. A load
/// that is waited for is one that is under way, and brings the texel too. Out of tiles is the cache
/// only where no tile has the texel, none is being read, and none can be taken: none is free, none
/// in use is marked, and none in use stands in the first half of the slots.
pub open spec fn gives_texel(
    cache: CacheView,
    file: Seq<u8>,
    tex_id: u32,
    level: u32,
    x: u32,
    y: u32,
    texel: Seq<u8>,
) -> bool {
    let image = cache.textures[tex_id as int].image;
    let stride = image.format.stride();
    let (asked, left) = cache.tile_asked(cache.tile_of(tex_id, level, x, y));
    if level >= image.first_in_memory_level {
        image.in_memory_texel(x as nat, y as nat, level as int) == texel
    } else {
        match asked {
            TileStep::Ready(start) => cache.texel_at(tex_id, start, x, y, stride) == texel,
            TileStep::Load(load) => {
                let bytes = file.subrange(load.offset as int, load.offset + load.bytes);
                let after = left.load_finished(load, bytes);
                let start = (load.index * TILE_ALLOC_SIZE) as usize;
                &&& load.tex_id == tex_id
                &&& load.offset + load.bytes <= file.len()
                &&& after.texel_at(tex_id, start, x, y, stride) == texel
            },
            TileStep::Wait => exists|i: int|
                0 <= i < cache.loads.len() && {
                    let load = #[trigger] cache.loads[i];
                    let bytes = file.subrange(load.offset as int, load.offset + load.bytes);
                    let after = cache.load_finished(load, bytes);
                    let start = (load.index * TILE_ALLOC_SIZE) as usize;
                    &&& load.tile_id == cache.tile_of(tex_id, level, x, y)
                    &&& load.tex_id == tex_id
                    &&& load.offset + load.bytes <= file.len()
                    &&& after.texel_at(tex_id, start, x, y, stride) == texel
                },
            TileStep::OutOfTiles => {
                let id = cache.tile_of(tex_id, level, x, y);
                let slots = cache.table.slots;
                &&& cache.free_tiles.len() == 0
                &&& forall|i: int|
                    0 <= i < slots.len() ==> (#[trigger] slots[i] matches Some(index) ==> i
                        >= slots.len() / 2 && !cache.tiles[index as int].marked
                        && cache.tiles[index as int].tile_id != id)
                &&& forall|i: int|
                    0 <= i < cache.loads.len() ==> (#[trigger] cache.loads[i]).tile_id != id
            },
        }
    }
}

/// Bytes within bytes.
proof fn lemma_part_of_part(whole: Seq<u8>, start: int, len: int, offset: int, count: int)
    requires
        0 <= start,
        0 <= offset,
        0 <= count,
        offset + count <= len,
        start + len <= whole.len(),
    ensures
        whole.subrange(start, start + len).subrange(offset, offset + count) == whole.subrange(
            start + offset,
            start + offset + count,
        ),
{
    assert(whole.subrange(start, start + len).subrange(offset, offset + count) =~= whole.subrange(
        start + offset,
        start + offset + count,
    ));
}

/// Whether the tile of a texel has an identity of its own: texture, level and tile are numbered
/// within sixteen bits.
pub open spec fn has_own_identity(image: ImageView, tex_id: u32, level: u32, x: u32, y: u32) -> bool {
    &&& tex_id < 0x1_0000
    &&& level < 0x1_0000
    &&& x as nat / image.tile_size() < 0x1_0000
    &&& y as nat / image.tile_size() < 0x1_0000
}

/// The cache gives back what was stored: a texel of a texture whose file was made of a pyramid is
/// the pyramid's texel, whether its level is kept in memory, its tile is in the cache, or its tile
/// has to be read.
pub proof fn law_cache_gives_back_texels(
    cache: CacheView,
    pyramid: Pyramid,
    files: spec_fn(nat) -> Seq<u8>,
    tex_id: u32,
    level: u32,
    x: u32,
    y: u32,
)
    requires
        cache.is_valid(),
        cache.is_faithful(files),
        tex_id < cache.textures.len(),
        cache.textures[tex_id as int].image == pyramid.image(),
        files(tex_id as nat) == pyramid.file(),
        pyramid.can_be_stored(),
        pyramid.top_levels_match(),
        pyramid.levels.len() <= u32::MAX,
        is_power_of_two(pyramid.tile_size),
        pyramid.tile_size <= u32::MAX,
        pyramid.has_texel(x as nat, y as nat, level as int),
        forall|smaller: int|
            level < smaller < pyramid.first_in_memory_level() ==> #[trigger] pyramid.is_regular(
                smaller,
            ),
        level < pyramid.first_in_memory_level() ==> cache.tiles.len() > 0
            && pyramid.image().tile_bytes() <= TILE_ALLOC_SIZE && has_own_identity(
            pyramid.image(),
            tex_id,
            level,
            x,
            y,
        ),
    ensures
        cache.can_ask(tex_id, level, x, y, pyramid.format.stride()),
        gives_texel(
            cache,
            pyramid.file(),
            tex_id,
            level,
            x,
            y,
            pyramid.texel(x as nat, y as nat, level as int),
        ),
{
    lemma_stored_texel(pyramid, x as nat, y as nat, level as int);
    if level < pyramid.first_in_memory_level() {
        lemma_cached_texel(
            cache,
            files,
            tex_id,
            level,
            x,
            y,
            pyramid.texel(x as nat, y as nat, level as int),
        );
    }
}

/// Where a texel of a pyramid is in the file, in terms of the image.
proof fn lemma_stored_texel(pyramid: Pyramid, x: nat, y: nat, level: int)
    requires
        pyramid.can_be_stored(),
        pyramid.top_levels_match(),
        pyramid.levels.len() <= u32::MAX,
        is_power_of_two(pyramid.tile_size),
        pyramid.tile_size <= u32::MAX,
        pyramid.has_texel(x, y, level),
        forall|smaller: int|
            level < smaller < pyramid.first_in_memory_level() ==> #[trigger] pyramid.is_regular(
                smaller,
            ),
    ensures
        pyramid.image().format == pyramid.format,
        pyramid.image().log_tile_size < 32,
        pyramid.image().first_in_memory_level == pyramid.first_in_memory_level(),
        level >= pyramid.first_in_memory_level() ==> pyramid.image().has_in_memory(x, y, level)
            && pyramid.image().in_memory_texel(x, y, level) == pyramid.texel(x, y, level),
        level < pyramid.first_in_memory_level() ==> file_gives_texel(
            pyramid.image(),
            pyramid.file(),
            x,
            y,
            level,
            pyramid.texel(x, y, level),
        ),
{
    law_written_file_opens(pyramid);
    law_texel_round_trip(pyramid, x, y, level);
    if level < pyramid.first_in_memory_level() {
        let extent = pyramid.extents[level];
        let stride = pyramid.format.stride();
        assert(pyramid.levels[level].len() == extent.width * extent.height * stride) by {
            assert(pyramid.level_can_be_tiled(level));
        }
        lemma_texels_in_bounds(extent.width as nat, extent.height as nat, stride, x, y, 1);
        assert(1 * stride == stride);
        assert(pyramid.texel(x, y, level).len() == stride);
    }
}

/// Whether the tile of a texel, as the image addresses it in the file, has the texel at its place.
pub open spec fn file_gives_texel(
    image: ImageView,
    file: Seq<u8>,
    x: nat,
    y: nat,
    level: int,
    texel: Seq<u8>,
) -> bool {
    let (tile_x, tile_y) = (x / image.tile_size(), y / image.tile_size());
    let start = image.file_offset(tile_x, tile_y, level) as int;
    let end = start + image.tile_bytes();
    let offset = image.texel_offset(x, y) as int;
    &&& image.can_address(tile_x, tile_y, level)
    &&& end <= file.len()
    &&& file.subrange(start, end).subrange(offset, offset + image.format.stride()) == texel
}

/// A texel whose tile is in the cache or has to be read.
proof fn lemma_cached_texel(
    cache: CacheView,
    files: spec_fn(nat) -> Seq<u8>,
    tex_id: u32,
    level: u32,
    x: u32,
    y: u32,
    texel: Seq<u8>,
)
    requires
        cache.is_valid(),
        cache.tiles.len() > 0,
        cache.is_coherent(cache.disk_of(files)),
        tex_id < cache.textures.len(),
        cache.textures[tex_id as int].image.log_tile_size < 32,
        cache.textures[tex_id as int].image.tile_bytes() <= TILE_ALLOC_SIZE,
        level < cache.textures[tex_id as int].image.first_in_memory_level,
        has_own_identity(cache.textures[tex_id as int].image, tex_id, level, x, y),
        file_gives_texel(
            cache.textures[tex_id as int].image,
            files(tex_id as nat),
            x as nat,
            y as nat,
            level as int,
            texel,
        ),
    ensures
        cache.can_ask(
            tex_id,
            level,
            x,
            y,
            cache.textures[tex_id as int].image.format.stride(),
        ),
        gives_texel(cache, files(tex_id as nat), tex_id, level, x, y, texel),
{
    let image = cache.textures[tex_id as int].image;
    let file = files(tex_id as nat);
    let id = cache.tile_of(tex_id, level, x, y);
    let bytes = cache.disk_of(files)(id);
    lemma_named_bytes(cache, files, tex_id, level, x, y);
    let (asked, left) = cache.tile_asked(id);
    match asked {
        TileStep::Ready(start) => {
            law_hit_has_the_texels(cache, id, cache.disk_of(files));
            lemma_texel_of_tile(cache, tex_id, start, x, y, bytes);
        },
        TileStep::Load(load) => {
            lemma_loaded_bytes(cache, id, load, bytes);
            let after = left.load_finished(load, bytes);
            let start = (load.index * TILE_ALLOC_SIZE) as usize;
            lemma_texel_of_tile(after, tex_id, start, x, y, bytes);
        },
        TileStep::Wait => {
            law_asked_step(cache, id);
            let i = choose|i: int|
                0 <= i < cache.loads.len() && (#[trigger] cache.loads[i]).tile_id == id;
            let load = cache.loads[i];
            assert(cache.is_load(load));
            lemma_load_bytes(cache, load, bytes);
            let after = cache.load_finished(load, bytes);
            let start = (load.index * TILE_ALLOC_SIZE) as usize;
            lemma_texel_of_tile(after, tex_id, start, x, y, bytes);
        },
        TileStep::OutOfTiles => {
            law_asked_step(cache, id);
        },
    }
}

/// The bytes of a tile after a load that was under way.
proof fn lemma_load_bytes(cache: CacheView, load: TileLoad, bytes: Seq<u8>)
    requires
        cache.is_valid(),
        load.index < cache.tiles.len(),
        bytes.len() <= TILE_ALLOC_SIZE,
    ensures
        ({
            let after = cache.load_finished(load, bytes);
            let start = load.index * TILE_ALLOC_SIZE;
            &&& 0 <= start <= usize::MAX
            &&& start + bytes.len() <= after.memory.len()
            &&& after.memory.subrange(start, start + bytes.len()) == bytes
            &&& after.textures == cache.textures
        }),
{
    let after = cache.load_finished(load, bytes);
    let start = load.index * TILE_ALLOC_SIZE;
    assert(after.memory.subrange(start, start + bytes.len()) =~= bytes);
}

/// The tile of a texel, and the bytes that a load of it names.
proof fn lemma_named_bytes(
    cache: CacheView,
    files: spec_fn(nat) -> Seq<u8>,
    tex_id: u32,
    level: u32,
    x: u32,
    y: u32,
)
    requires
        tex_id < cache.textures.len(),
        cache.textures[tex_id as int].image.tile_bytes() <= TILE_ALLOC_SIZE,
        has_own_identity(cache.textures[tex_id as int].image, tex_id, level, x, y),
        cache.textures[tex_id as int].image.can_address(
            x as nat / cache.textures[tex_id as int].image.tile_size(),
            y as nat / cache.textures[tex_id as int].image.tile_size(),
            level as int,
        ),
        cache.textures[tex_id as int].image.file_offset(
            x as nat / cache.textures[tex_id as int].image.tile_size(),
            y as nat / cache.textures[tex_id as int].image.tile_size(),
            level as int,
        ) + cache.textures[tex_id as int].image.tile_bytes() <= files(tex_id as nat).len(),
    ensures
        ({
            let image = cache.textures[tex_id as int].image;
            let side = image.tile_size();
            let id = cache.tile_of(tex_id, level, x, y);
            let start = image.file_offset(x as nat / side, y as nat / side, level as int);
            &&& id.texture() == tex_id
            &&& cache.can_load(id)
            &&& forall|index: usize|
                #![trigger cache.load_of(id, index)]
                cache.load_of(id, index).tex_id == tex_id && cache.load_of(id, index).offset
                    == start && cache.load_of(id, index).bytes == image.tile_bytes()
            &&& cache.disk_of(files)(id) == files(tex_id as nat).subrange(
                start as int,
                (start + image.tile_bytes()) as int,
            )
            &&& cache.disk_of(files)(id).len() == image.tile_bytes()
        }),
{
    let image = cache.textures[tex_id as int].image;
    let side = image.tile_size();
    let (tile_x, tile_y) = (x as nat / side, y as nat / side);
    vstd::arithmetic::power2::lemma_pow2_pos(image.log_tile_size as nat);
    vstd::arithmetic::div_mod::lemma_div_pos_is_pos(x as int, side as int);
    vstd::arithmetic::div_mod::lemma_div_pos_is_pos(y as int, side as int);
    law_tile_id_round_trip(tex_id, level, tile_x as u32, tile_y as u32);
    let load = cache.load_of(cache.tile_of(tex_id, level, x, y), 0);
    assert(load.bytes == image.tile_bytes());
}

/// A texel in a tile with given bytes.
proof fn lemma_texel_of_tile(
    cache: CacheView,
    tex_id: u32,
    start: usize,
    x: u32,
    y: u32,
    bytes: Seq<u8>,
)
    requires
        tex_id < cache.textures.len(),
        start + bytes.len() <= cache.memory.len(),
        cache.memory.subrange(start as int, start + bytes.len()) == bytes,
        bytes.len() == cache.textures[tex_id as int].image.tile_bytes(),
    ensures
        ({
            let image = cache.textures[tex_id as int].image;
            let offset = image.texel_offset(x as nat, y as nat) as int;
            cache.texel_at(tex_id, start, x, y, image.format.stride()) == bytes.subrange(
                offset,
                offset + image.format.stride(),
            )
        }),
{
    let image = cache.textures[tex_id as int].image;
    lemma_texel_in_tile(image, x as nat, y as nat);
    lemma_part_of_part(
        cache.memory,
        start as int,
        bytes.len() as int,
        image.texel_offset(x as nat, y as nat) as int,
        image.format.stride() as int,
    );
}

/// The bytes of a tile after it was loaded.
proof fn lemma_loaded_bytes(cache: CacheView, id: TileId, load: TileLoad, bytes: Seq<u8>)
    requires
        cache.is_valid(),
        cache.tiles.len() > 0,
        cache.tile_asked(id).0 == TileStep::Load(load),
        bytes.len() <= TILE_ALLOC_SIZE,
    ensures
        ({
            let after = cache.tile_asked(id).1.load_finished(load, bytes);
            let start = load.index * TILE_ALLOC_SIZE;
            &&& load == cache.load_of(id, load.index)
            &&& 0 <= start <= usize::MAX
            &&& start + bytes.len() <= after.memory.len()
            &&& after.memory.subrange(start, start + bytes.len()) == bytes
            &&& after.textures == cache.textures
        }),
{
    lemma_taken_is_valid(cache);
    lemma_freed_keeps(cache);
    let after = cache.tile_asked(id).1.load_finished(load, bytes);
    let start = load.index * TILE_ALLOC_SIZE;
    assert(after.memory.subrange(start, start + bytes.len()) =~= bytes);
}

/// Taking a free tile leaves memory and textures as they are.
proof fn lemma_freed_keeps(cache: CacheView)
    ensures
        cache.free_tile_taken().1.memory == cache.memory,
        cache.free_tile_taken().1.textures == cache.textures,
        cache.free_tile_taken().1.tiles.len() == cache.tiles.len(),
{
}

} // verus!
