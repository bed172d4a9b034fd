//! The cache: tiles of textures, loaded when they are needed and given up when room is short.
use crate::hash_table::{after_look_up, TableView, TextureTile, TileHashTable, TileId};
use crate::image::{lemma_texel_in_tile, ImageView, TiledImage};
use crate::table_laws::{
    are_numbered, law_copy_is_orderly, law_found_is_held, law_found_matches,
    law_insert_keeps_order, law_insert_keeps_tiles, law_reclaimed_are_not_copied,
    law_reclaimed_once, law_reclaimed_tiles, lemma_copy_adds, lemma_copy_keeps_size,
    lemma_empty_holds_none, lemma_order_of_held,
};
use crate::texel::Texel;
use std::ops::Range;
use vstd::prelude::*;

verus! {

/// Just enough bytes to store 64x64 texels for the common 3-channel RGB, 8-bit texture format:
/// 3 * 64 * 64.
pub const TILE_ALLOC_SIZE: usize = 12_288;

/// A texture: its path, and its image.
pub struct TextureView {
    pub path: Seq<Seq<u8>>,
    pub image: ImageView,
}

/// What a cache holds.
pub struct CacheView {
    /// The texels of all tiles.
    pub memory: Seq<u8>,
    pub tiles: Seq<TextureTile>,
    /// The tiles that can be loaded into; the last is taken first.
    pub free_tiles: Seq<usize>,
    /// The table in which tiles are looked up.
    pub table: TableView,
    /// The table that takes its place when tiles are freed.
    pub spare: TableView,
    pub textures: Seq<TextureView>,
    /// The loads that are under way.
    pub loads: Seq<TileLoad>,
    /// The number of free tiles at which those in use get marked.
    pub mark_free_capacity: nat,
}

/// The number of tiles for which there is memory.
pub open spec fn tile_count(max_memory_mb: nat) -> nat {
    max_memory_mb * 1_048_576 / TILE_ALLOC_SIZE as nat
}

/// The tiles of a new cache.
pub open spec fn new_tiles(count: nat) -> Seq<TextureTile> {
    Seq::new(
        count,
        |i: int|
            TextureTile {
                index: i as usize,
                tile_id: TileId(0),
                texels: Range {
                    start: (i * TILE_ALLOC_SIZE) as usize,
                    end: ((i + 1) * TILE_ALLOC_SIZE) as usize,
                },
                marked: false,
            },
    )
}

pub open spec fn empty_table(size: nat) -> TableView {
    TableView {
        slots: Seq::new(size, |i: int| None::<usize>),
        copied: Seq::new(size, |i: int| false),
    }
}

/// A load that is to be done: which bytes of which texture's file go into which tile.
#[derive(Clone, Copy, Debug, PartialEq, Eq, Structural)]
pub struct TileLoad {
    /// The place of the tile among all tiles.
    pub index: usize,
    pub tile_id: TileId,
    pub tex_id: u32,
    /// Where the bytes begin in the file.
    pub offset: usize,
    /// How many bytes are to be read.
    pub bytes: usize,
}

/// What comes of asking for a tile.
#[derive(Clone, Copy, Debug, PartialEq, Eq, Structural)]
pub enum TileStep {
    /// The tile is there, with its texels at this place in the memory for tiles.
    Ready(usize),
    /// The tile is already being read: ask again when a read is over.
    Wait,
    /// The tile has to be read.
    Load(TileLoad),
    /// The tile is not there, and no tile could be freed for it.
    OutOfTiles,
}

impl CacheView {
    /// Whether a tile is free or in use.
    pub open spec fn has_tile(self, index: usize) -> bool {
        self.free_tiles.contains(index) || self.table.holds(index)
    }

    /// Whether a tile is being read.
    pub open spec fn is_reading(self, tile_id: TileId) -> bool {
        exists|i: int| 0 <= i < self.loads.len() && (#[trigger] self.loads[i]).tile_id == tile_id
    }

    /// Whether sizes and places fit together.
    pub open spec fn sizes_agree(self) -> bool {
        &&& are_numbered(self.tiles)
        &&& self.memory.len() == self.tiles.len() * TILE_ALLOC_SIZE
        &&& self.memory.len() <= isize::MAX
        &&& forall|i: int|
            0 <= i < self.tiles.len() ==> (#[trigger] self.tiles[i]).texels.start == i
                * TILE_ALLOC_SIZE && self.tiles[i].texels.end == (i + 1) * TILE_ALLOC_SIZE
        &&& self.table.slots.len() == 8 * self.tiles.len()
        &&& self.table.copied.len() == 8 * self.tiles.len()
        &&& self.table.holds_below(self.tiles.len())
        &&& self.spare.slots.len() == 8 * self.tiles.len()
        &&& self.spare.copied.len() == 8 * self.tiles.len()
        &&& self.spare.is_empty()
        &&& self.mark_free_capacity == 1 + self.tiles.len() / 8
        &&& forall|i: int|
            0 <= i < self.textures.len() ==> (#[trigger] self.textures[i]).image.is_consistent()
    }

    /// Whether the tiles in use are in order, and the free tiles are others, each once.
    pub open spec fn tiles_are_apart(self) -> bool {
        &&& forall|i: int|
            0 <= i < self.free_tiles.len() ==> #[trigger] self.free_tiles[i] < self.tiles.len()
        &&& self.free_tiles.no_duplicates()
        &&& forall|index: usize| #[trigger]
            self.table.holds(index) ==> !self.free_tiles.contains(index)
        &&& self.table.is_orderly(self.tiles)
    }

    /// Whether a load is one that the cache can ask for, into a tile that is neither free nor in
    /// use, of an identity that no tile in use has.
    pub open spec fn is_load(self, load: TileLoad) -> bool {
        &&& load.index < self.tiles.len()
        &&& !self.has_tile(load.index)
        &&& self.can_load(load.tile_id)
        &&& load == self.load_of(load.tile_id, load.index)
        &&& !self.table.holds_identity(self.tiles, load.tile_id)
    }

    /// Whether no two of the loads that are under way have a tile or an identity in common.
    pub open spec fn loads_are_apart(self) -> bool {
        &&& forall|i: int| 0 <= i < self.loads.len() ==> self.is_load(#[trigger] self.loads[i])
        &&& forall|i: int, j: int|
            0 <= i < j < self.loads.len() ==> (#[trigger] self.loads[i]).index != (
            #[trigger] self.loads[j]).index && self.loads[i].tile_id != self.loads[j].tile_id
    }

    /// Whether the parts of the cache agree.
    pub open spec fn is_valid(self) -> bool {
        &&& self.sizes_agree()
        &&& self.tiles_are_apart()
        &&& self.loads_are_apart()
    }

    /// A cache with nothing in it.
    pub open spec fn empty(count: nat) -> CacheView {
        CacheView {
            memory: Seq::new((count * TILE_ALLOC_SIZE) as nat, |i: int| 0u8),
            tiles: new_tiles(count),
            free_tiles: Seq::new(count, |i: int| i as usize),
            table: empty_table(8 * count),
            spare: empty_table(8 * count),
            textures: Seq::empty(),
            loads: Seq::empty(),
            mark_free_capacity: 1 + count / 8,
        }
    }

    /// The last texture with the path, among the first `count`.
    pub open spec fn texture_with_path(self, path: Seq<Seq<u8>>, count: nat) -> Option<nat>
        decreases count,
    {
        if count == 0 {
            None
        } else if self.textures[count - 1].path == path {
            Some((count - 1) as nat)
        } else {
            self.texture_with_path(path, (count - 1) as nat)
        }
    }

    pub open spec fn with_all_marked(self) -> CacheView {
        CacheView { tiles: self.table.marked(self.tiles, self.table.slots.len() as int), ..self }
    }

    /// The cache after tiles were freed: those that are not marked are in use, in what was the
    /// spare table; the others are free. If few are free, those in use get marked.
    pub open spec fn freed(self) -> CacheView {
        let left = self.table.after_copy(self.tiles);
        let swapped = CacheView {
            table: self.table.copy_to(self.tiles, self.spare),
            spare: left.cleared(),
            free_tiles: self.free_tiles + left.uncopied(self.table.slots.len()),
            ..self
        };
        if swapped.free_tiles.len() < self.mark_free_capacity {
            swapped.with_all_marked()
        } else {
            swapped
        }
    }

    /// The cache with a free tile, if there is one or one can be freed.
    pub open spec fn replenished(self) -> CacheView {
        if self.free_tiles.len() == 0 {
            self.freed()
        } else {
            self
        }
    }

    /// The free tile that is taken, if any, and the cache that is left.
    pub open spec fn free_tile_taken(self) -> (Option<usize>, CacheView) {
        let ready = self.replenished();
        if ready.free_tiles.len() == 0 {
            (None, ready)
        } else {
            let marked = if ready.free_tiles.len() == self.mark_free_capacity {
                ready.with_all_marked()
            } else {
                ready
            };
            (
                Some(ready.free_tiles.last()),
                CacheView { free_tiles: ready.free_tiles.drop_last(), ..marked },
            )
        }
    }

    /// The load that brings a tile into a place among all tiles.
    pub open spec fn load_of(self, tile_id: TileId, index: usize) -> TileLoad {
        let image = self.textures[tile_id.texture() as int].image;
        TileLoad {
            index,
            tile_id,
            tex_id: tile_id.texture() as u32,
            offset: image.file_offset(tile_id.column(), tile_id.row(), tile_id.mip() as int)
                as usize,
            bytes: image.tile_bytes() as usize,
        }
    }

    /// Whether a tile can be read: the texture is there, the tile can be addressed in its file, and
    /// its texels fit into the memory of a tile.
    pub open spec fn can_load(self, tile_id: TileId) -> bool {
        let image = self.textures[tile_id.texture() as int].image;
        &&& tile_id.texture() < self.textures.len()
        &&& image.can_address(tile_id.column(), tile_id.row(), tile_id.mip() as int)
        &&& image.tile_bytes() <= TILE_ALLOC_SIZE
    }

    /// What comes of asking for a tile, and the cache that is left.
    pub open spec fn tile_asked(self, tile_id: TileId) -> (TileStep, CacheView) {
        match self.table.found(self.tiles, tile_id) {
            Some(index) => (
                TileStep::Ready(self.tiles[index as int].texels.start),
                CacheView { tiles: after_look_up(self.tiles, Some(index)), ..self },
            ),
            None => if self.is_reading(tile_id) {
                (TileStep::Wait, self)
            } else {
                let (free, left) = self.free_tile_taken();
                match free {
                    Some(index) => (
                        TileStep::Load(self.load_of(tile_id, index)),
                        CacheView {
                            loads: self.loads.push(self.load_of(tile_id, index)),
                            ..left
                        },
                    ),
                    None => (TileStep::OutOfTiles, left),
                }
            },
        }
    }

    /// The loads that are under way, without one.
    pub open spec fn loads_without(self, load: TileLoad) -> Seq<TileLoad> {
        let i = self.loads.index_of(load);
        self.loads.update(i, self.loads.last()).drop_last()
    }

    /// The memory, with the texels of a tile replaced from the first on.
    pub open spec fn memory_with(self, index: usize, bytes: Seq<u8>) -> Seq<u8> {
        let start = index * TILE_ALLOC_SIZE;
        self.memory.take(start) + bytes + self.memory.skip(start + bytes.len())
    }

    /// The cache after a load: the tile has its new texels and its new identity, and is in the
    /// table.
    pub open spec fn load_finished(self, load: TileLoad, bytes: Seq<u8>) -> CacheView {
        CacheView {
            memory: self.memory_with(load.index, bytes),
            tiles: self.tiles_with(load),
            table: self.table.inserted(load.tile_id, load.index),
            loads: self.loads_without(load),
            ..self
        }
    }

    /// The tiles, with the identity of the one that is loaded.
    pub open spec fn tiles_with(self, load: TileLoad) -> Seq<TextureTile> {
        let index = load.index as int;
        self.tiles.update(index, TextureTile { tile_id: load.tile_id, ..self.tiles[index] })
    }
}

/// What comes of asking for a texel.
#[derive(Clone, Copy, Debug, PartialEq, Eq)]
pub enum TexelStep<T> {
    Ready(T),
    /// The tile of the texel is already being read: ask again when a read is over.
    Wait,
    /// The tile of the texel has to be read.
    Load(TileLoad),
    /// The tile of the texel is not there, and no tile could be freed for it.
    OutOfTiles,
}

impl CacheView {
    /// The tile that holds a texel.
    pub open spec fn tile_of(self, tex_id: u32, level: u32, x: u32, y: u32) -> TileId {
        let side = self.textures[tex_id as int].image.tile_size();
        TileId(
            TileId::packed(tex_id, level, (x as nat / side) as u32, (y as nat / side) as u32),
        )
    }

    /// Whether the texels of a tile begin at `start` in the memory.
    pub open spec fn is_tile_start(self, start: usize) -> bool {
        &&& start as nat % TILE_ALLOC_SIZE as nat == 0
        &&& start + TILE_ALLOC_SIZE <= self.memory.len()
    }

    /// The first `stride` bytes of a texel whose tile is at `start` in the memory.
    pub open spec fn texel_at(
        self,
        tex_id: u32,
        start: usize,
        x: u32,
        y: u32,
        stride: nat,
    ) -> Seq<u8> {
        let offset = start + self.textures[tex_id as int].image.texel_offset(x as nat, y as nat);
        self.memory.subrange(offset as int, (offset + stride) as int)
    }

    /// Whether texels of the texture can be read out of tiles: a texel has at least `stride` bytes,
    /// and the texels of a tile fit into the memory of a tile.
    pub open spec fn can_read(self, tex_id: u32, stride: nat) -> bool {
        let image = self.textures[tex_id as int].image;
        &&& tex_id < self.textures.len()
        &&& stride <= image.format.stride()
        &&& image.log_tile_size < 32
        &&& image.tile_bytes() <= TILE_ALLOC_SIZE
    }

    /// Whether a texel can be asked for: it is in a level that is kept in memory, or its tile can
    /// be read.
    pub open spec fn can_ask(self, tex_id: u32, level: u32, x: u32, y: u32, stride: nat) -> bool {
        let image = self.textures[tex_id as int].image;
        &&& tex_id < self.textures.len()
        &&& stride <= image.format.stride()
        &&& if level >= image.first_in_memory_level {
            image.has_in_memory(x as nat, y as nat, level as int)
        } else {
            &&& self.tiles.len() > 0
            &&& self.can_read(tex_id, stride)
            &&& self.can_load(self.tile_of(tex_id, level, x, y))
        }
    }
}

/// A cache for tiles of textures.
pub struct TextureCache {
    tile_mem: Vec<u8>,
    all_tiles: Vec<TextureTile>,
    free_tiles: Vec<usize>,
    hash_table: TileHashTable,
    free_hash_table: TileHashTable,
    textures: Vec<TiledImage>,
    outstanding_reads: Vec<TileLoad>,
    mark_free_capacity: usize,
}

/// The components of a path.
pub open spec fn path_view(path: Seq<Vec<u8>>) -> Seq<Seq<u8>> {
    Seq::new(path.len(), |i: int| path[i]@)
}

/// Textures, apart from how they are held.
pub open spec fn texture_views(textures: Seq<TiledImage>) -> Seq<TextureView> {
    Seq::new(
        textures.len(),
        |i: int| TextureView { path: path_view(textures[i].path@), image: textures[i]@ },
    )
}

impl View for TextureCache {
    type V = CacheView;

    closed spec fn view(&self) -> CacheView {
        CacheView {
            memory: self.tile_mem@,
            tiles: self.all_tiles@,
            free_tiles: self.free_tiles@,
            table: self.hash_table@,
            spare: self.free_hash_table@,
            textures: texture_views(self.textures@),
            loads: self.outstanding_reads@,
            mark_free_capacity: self.mark_free_capacity as nat,
        }
    }
}

/// Whether two components are the same.
fn same_component(a: &Vec<u8>, b: &Vec<u8>) -> (same: bool)
    ensures
        same == (a@ == b@),
{
    if a.len() != b.len() {
        return false;
    }
    let mut i: usize = 0;
    while i < a.len()
        invariant
            i <= a@.len() == b@.len(),
            forall|k: int| 0 <= k < i ==> a@[k] == b@[k],
        decreases a@.len() - i,
    {
        if a[i] != b[i] {
            return false;
        }
        i = i + 1;
    }
    assert(a@ =~= b@);
    true
}

/// Whether two paths have the same components.
fn same_path(a: &Vec<Vec<u8>>, b: &Vec<Vec<u8>>) -> (same: bool)
    ensures
        same == (path_view(a@) == path_view(b@)),
{
    if a.len() != b.len() {
        assert(path_view(a@).len() != path_view(b@).len());
        return false;
    }
    let mut i: usize = 0;
    while i < a.len()
        invariant
            i <= a@.len() == b@.len(),
            forall|k: int| 0 <= k < i ==> a@[k]@ == b@[k]@,
        decreases a@.len() - i,
    {
        if !same_component(&a[i], &b[i]) {
            assert(path_view(a@)[i as int] != path_view(b@)[i as int]);
            return false;
        }
        i = i + 1;
    }
    assert(path_view(a@) =~= path_view(b@));
    true
}

/// Whether the texels of a tile of the texture fit into the memory of a tile.
fn fits_tile(texture: &TiledImage) -> (fits: bool)
    ensures
        fits == (texture@.tile_bytes() <= TILE_ALLOC_SIZE),
{
    let ghost log = texture@.log_tile_size as nat;
    let ghost side = texture@.tile_size();
    let ghost stride = texture@.format.stride();
    proof {
        vstd::arithmetic::power2::lemma2_to64();
    }
    if texture.log_tile_size >= 7 {
        proof {
            if log > 7 {
                vstd::arithmetic::power2::lemma_pow2_strictly_increases(7, log);
            }
            assert(side * side * stride >= 128 * 128) by (nonlinear_arith)
                requires
                    side >= 128,
                    stride >= 1,
            ;
        }
        return false;
    }
    proof {
        vstd::arithmetic::power2::lemma_pow2_strictly_increases(log, 7);
        assert(side * side * stride <= 128 * 128 * 16) by (nonlinear_arith)
            requires
                0 <= side <= 128,
                0 <= stride <= 16,
        ;
    }
    texture.tile_bytes() <= TILE_ALLOC_SIZE
}

/// Other tiles with the same identities and places, and fewer tiles free or in use, leave the
/// loads that are under way as they should be.
proof fn lemma_loads_stay_apart(before: CacheView, after: CacheView)
    requires
        before.loads_are_apart(),
        after.loads == before.loads,
        after.textures == before.textures,
        after.tiles.len() == before.tiles.len(),
        forall|index: usize| #[trigger]
            after.table.holds(index) ==> before.table.holds(index)
                && after.tiles[index as int].tile_id == before.tiles[index as int].tile_id,
        forall|index: usize| #[trigger] after.free_tiles.contains(index) ==> before.has_tile(index),
    ensures
        after.loads_are_apart(),
{
    assert forall|i: int| 0 <= i < after.loads.len() implies after.is_load(
        #[trigger] after.loads[i],
    ) by {
        assert(before.is_load(before.loads[i]));
    }
}

/// Marking the tiles in use keeps the cache valid.
proof fn lemma_marked_is_valid(cache: CacheView)
    requires
        cache.is_valid(),
    ensures
        cache.with_all_marked().is_valid(),
{
    let after = cache.with_all_marked();
    assert forall|i: int| 0 <= i < after.tiles.len() implies (#[trigger] after.tiles[i]).index == i
        && after.tiles[i].tile_id == cache.tiles[i].tile_id && after.tiles[i].texels
        == cache.tiles[i].texels by {
        assert(cache.tiles[i].index == i);
    }
    assert forall|index: usize| #[trigger] cache.table.holds(index) implies index
        < cache.tiles.len() by {
        lemma_held_tile(cache, index);
    }
    lemma_order_of_held(cache.table, cache.tiles, after.tiles);
    lemma_loads_stay_apart(cache, after);
}

/// A tile in use is one of all tiles.
pub proof fn lemma_held_tile(cache: CacheView, index: usize)
    requires
        cache.sizes_agree(),
        cache.table.holds(index),
    ensures
        index < cache.tiles.len(),
{
    let i = choose|i: int|
        0 <= i < cache.table.slots.len() && cache.table.slots[i] == Some(index);
    assert(cache.table.slots[i] == Some(index));
}

/// What is in use after tiles were freed was in use, and went over; what was reclaimed was in use.
pub proof fn lemma_freed_tiles(cache: CacheView, index: usize)
    requires
        cache.is_valid(),
        cache.tiles.len() > 0,
    ensures
        cache.table.copy_to(cache.tiles, cache.spare).holds(index) ==> cache.table.holds(index),
        cache.table.after_copy(cache.tiles).uncopied(cache.table.slots.len()).contains(index)
            ==> cache.table.holds(index) && !cache.table.copy_to(cache.tiles, cache.spare).holds(
            index,
        ),
{
    let size = cache.table.slots.len();
    let left = cache.table.after_copy(cache.tiles);
    lemma_copy_adds(cache.table, cache.tiles, cache.spare, size, index);
    lemma_empty_holds_none(cache.spare, index);
    law_reclaimed_tiles(left, index);
    law_reclaimed_are_not_copied(cache.table, cache.tiles, cache.spare, index);
    if left.uncopied(size).contains(index) {
        let k = choose|k: int|
            0 <= k < size && #[trigger] left.slots[k] == Some(index) && !left.copied[k];
        assert(cache.table.slots[k] == Some(index));
    }
}

/// Freeing tiles keeps the cache valid.
pub proof fn lemma_freed_is_valid(cache: CacheView)
    requires
        cache.is_valid(),
        cache.tiles.len() > 0,
    ensures
        cache.freed().is_valid(),
{
    let size = cache.table.slots.len();
    let left = cache.table.after_copy(cache.tiles);
    let table = cache.table.copy_to(cache.tiles, cache.spare);
    let reclaimed = left.uncopied(size);
    let free = cache.free_tiles + reclaimed;
    let swapped = CacheView { table, spare: left.cleared(), free_tiles: free, ..cache };
    lemma_copy_keeps_size(cache.table, cache.tiles, cache.spare, size);
    law_copy_is_orderly(cache.table, cache.tiles, cache.spare, size);
    law_reclaimed_once(left, size);
    assert forall|i: int| 0 <= i < table.slots.len() implies (match #[trigger] table.slots[i] {
        Some(index) => index < cache.tiles.len(),
        None => true,
    }) by {
        if let Some(index) = table.slots[i] {
            assert(table.holds(index));
            lemma_freed_tiles(cache, index);
            lemma_held_tile(cache, index);
        }
    }
    assert forall|index: usize| #[trigger] free.contains(index) implies cache.has_tile(index)
        && !table.holds(index) && index < cache.tiles.len() by {
        lemma_freed_tiles(cache, index);
        let k = choose|k: int| 0 <= k < free.len() && free[k] == index;
        if k < cache.free_tiles.len() {
            assert(cache.free_tiles[k] == index);
        } else {
            assert(reclaimed[k - cache.free_tiles.len()] == index);
            lemma_held_tile(cache, index);
        }
    }
    assert forall|i: int| 0 <= i < free.len() implies #[trigger] free[i] < cache.tiles.len() by {
        assert(free.contains(free[i]));
    }
    assert forall|i: int, j: int| 0 <= i < j < free.len() implies free[i] != free[j] by {
        let first = cache.free_tiles.len();
        if i < first && j >= first {
            assert(cache.free_tiles.contains(free[i]));
            assert(reclaimed[j - first] == free[j]);
            assert(reclaimed.contains(free[j]));
            lemma_freed_tiles(cache, free[j]);
        } else if i >= first {
            assert(reclaimed[i - first] != reclaimed[j - first]);
        }
    }
    assert forall|index: usize| #[trigger] table.holds(index) implies cache.table.holds(index)
        && !free.contains(index) by {
        lemma_freed_tiles(cache, index);
    }
    lemma_loads_stay_apart(cache, swapped);
    assert(swapped.sizes_agree());
    assert(swapped.is_valid());
    lemma_marked_is_valid(swapped);
}

/// Taking a free tile keeps the cache valid. The tile that is taken is neither free nor in use any
/// more.
pub proof fn lemma_taken_is_valid(cache: CacheView)
    requires
        cache.is_valid(),
        cache.tiles.len() > 0,
    ensures
        cache.free_tile_taken().1.is_valid(),
        cache.free_tile_taken().0 matches Some(index) ==> index < cache.tiles.len()
            && !cache.free_tile_taken().1.has_tile(index) && cache.has_tile(index),
        forall|index: usize| #[trigger]
            cache.free_tile_taken().1.table.holds(index) ==> cache.table.holds(index)
                && cache.free_tile_taken().1.tiles[index as int].tile_id
                == cache.tiles[index as int].tile_id,
{
    lemma_freed_is_valid(cache);
    let ready = cache.replenished();
    let (taken, left) = cache.free_tile_taken();
    assert forall|index: usize| #[trigger] left.table.holds(index) implies cache.table.holds(index)
        && left.tiles[index as int].tile_id == cache.tiles[index as int].tile_id by {
        lemma_freed_tiles(cache, index);
        lemma_held_tile(cache, index);
    }
    if ready.free_tiles.len() > 0 {
        lemma_marked_is_valid(ready);
        let marked = if ready.free_tiles.len() == cache.mark_free_capacity {
            ready.with_all_marked()
        } else {
            ready
        };
        let last = ready.free_tiles.len() - 1;
        let index = ready.free_tiles[last];
        assert(ready.free_tiles.contains(index));
        assert(!left.free_tiles.contains(index)) by {
            if left.free_tiles.contains(index) {
                let k = choose|k: int|
                    0 <= k < left.free_tiles.len() && left.free_tiles[k] == index;
                assert(ready.free_tiles[k] == index);
            }
        }
        assert forall|other: usize| #[trigger] left.free_tiles.contains(other) implies
            ready.free_tiles.contains(other) by {
            let k = choose|k: int| 0 <= k < left.free_tiles.len() && left.free_tiles[k] == other;
            assert(ready.free_tiles[k] == other);
        }
        lemma_loads_stay_apart(marked, left);
        assert(left.tiles_are_apart()) by {
            assert forall|i: int|
                0 <= i < left.free_tiles.len() implies #[trigger] left.free_tiles[i]
                < left.tiles.len() by {
                assert(ready.free_tiles[i] == left.free_tiles[i]);
            }
        }
        if cache.free_tiles.len() == 0 {
            let reclaimed = cache.table.after_copy(cache.tiles).uncopied(cache.table.slots.len());
            assert(cache.free_tiles + reclaimed =~= reclaimed);
            lemma_freed_tiles(cache, index);
        }
    }
}

/// A look-up keeps the cache valid.
pub proof fn lemma_hit_is_valid(cache: CacheView, index: usize)
    requires
        cache.is_valid(),
        index < cache.tiles.len(),
    ensures
        (CacheView { tiles: after_look_up(cache.tiles, Some(index)), ..cache }).is_valid(),
{
    let after = CacheView { tiles: after_look_up(cache.tiles, Some(index)), ..cache };
    assert forall|i: int| 0 <= i < after.tiles.len() implies (#[trigger] after.tiles[i]).index == i
        && after.tiles[i].texels == cache.tiles[i].texels && after.tiles[i].tile_id
        == cache.tiles[i].tile_id by {
        assert(cache.tiles[i].index == i);
    }
    assert forall|held: usize| #[trigger] cache.table.holds(held) implies held
        < cache.tiles.len() by {
        lemma_held_tile(cache, held);
    }
    lemma_order_of_held(cache.table, cache.tiles, after.tiles);
    lemma_loads_stay_apart(cache, after);
}

/// Asking for a tile keeps the cache valid.
pub proof fn lemma_asked_is_valid(cache: CacheView, tile_id: TileId)
    requires
        cache.is_valid(),
        cache.tiles.len() > 0,
        cache.can_load(tile_id),
    ensures
        cache.tile_asked(tile_id).1.is_valid(),
{
    let (step, after) = cache.tile_asked(tile_id);
    law_found_is_held(cache.table, cache.tiles, tile_id);
    match cache.table.found(cache.tiles, tile_id) {
        Some(index) => {
            law_found_matches(cache.table, cache.tiles, tile_id, 0);
            lemma_held_tile(cache, index);
            lemma_hit_is_valid(cache, index);
        },
        None => {
            lemma_taken_is_valid(cache);
            let (taken, left) = cache.free_tile_taken();
            if !cache.is_reading(tile_id) && taken is Some {
                let index = taken->0;
                let load = cache.load_of(tile_id, index);
                assert(left.loads == cache.loads);
                assert(after.is_load(load)) by {
                    assert forall|held: usize| #[trigger] after.table.holds(held) implies
                        after.tiles[held as int].tile_id != tile_id by {
                        assert(left.table.holds(held));
                        assert(cache.table.holds(held));
                    }
                }
                assert forall|i: int| 0 <= i < after.loads.len() implies after.is_load(
                    #[trigger] after.loads[i],
                ) by {
                    if i < left.loads.len() {
                        assert(left.is_load(left.loads[i]));
                    }
                }
                assert forall|i: int, j: int| 0 <= i < j < after.loads.len() implies (
                #[trigger] after.loads[i]).index != (#[trigger] after.loads[j]).index
                    && after.loads[i].tile_id != after.loads[j].tile_id by {
                    assert(after.loads[i] == cache.loads[i]);
                    if j == cache.loads.len() {
                        assert(cache.is_load(cache.loads[i]));
                    } else {
                        assert(after.loads[j] == cache.loads[j]);
                    }
                }
            }
        },
    }
}

impl TextureCache {
    /// A cache that keeps at most `max_memory_mb` times 1 048 576 bytes of texels.
    pub fn new(max_memory_mb: usize) -> (cache: Self)
        requires
            max_memory_mb * 1_048_576 <= isize::MAX,
        ensures
            cache@ == CacheView::empty(tile_count(max_memory_mb as nat)),
            cache@.is_valid(),
            cache@.tiles.len() * 12_288 <= max_memory_mb * 1_048_576 < (cache@.tiles.len() + 1)
                * 12_288,
            cache@.memory.len() == cache@.tiles.len() * 12_288,
            cache@.free_tiles.len() == cache@.tiles.len(),
            cache@.table.slots.len() == 8 * cache@.tiles.len(),
    {
        let max_texture_bytes: usize = max_memory_mb * 1_048_576;
        let n_tiles: usize = max_texture_bytes / TILE_ALLOC_SIZE;
        // allocate tile memory
        let tile_mem: Vec<u8> = vec![0u8; n_tiles * TILE_ALLOC_SIZE];
        // make the tiles and initialize the free list
        let mut all_tiles: Vec<TextureTile> = Vec::new();
        let mut free_tiles: Vec<usize> = Vec::new();
        let mut i: usize = 0;
        while i < n_tiles
            invariant
                i <= n_tiles,
                n_tiles * TILE_ALLOC_SIZE <= isize::MAX,
                all_tiles@ == new_tiles(i as nat),
                free_tiles@ == Seq::new(i as nat, |k: int| k as usize),
            decreases n_tiles - i,
        {
            all_tiles.push(
                TextureTile {
                    index: i,
                    tile_id: TileId(0),
                    texels: Range { start: i * TILE_ALLOC_SIZE, end: (i + 1) * TILE_ALLOC_SIZE },
                    marked: false,
                },
            );
            free_tiles.push(i);
            i = i + 1;
            assert(all_tiles@ =~= new_tiles(i as nat));
            assert(free_tiles@ =~= Seq::new(i as nat, |k: int| k as usize));
        }
        let hash_size: usize = 8 * n_tiles;
        let cache = TextureCache {
            tile_mem,
            all_tiles,
            free_tiles,
            hash_table: TileHashTable::new(hash_size),
            free_hash_table: TileHashTable::new(hash_size),
            textures: Vec::new(),
            outstanding_reads: Vec::new(),
            mark_free_capacity: 1 + n_tiles / 8,
        };
        proof {
            let model = CacheView::empty(n_tiles as nat);
            assert(cache@.memory =~= model.memory);
            assert(cache@.free_tiles =~= model.free_tiles);
            assert(cache@.textures =~= model.textures);
        }
        cache
    }

    /// The number that the texture with the path was added under.
    pub fn find_texture(&self, path: &Vec<Vec<u8>>) -> (tex_id: Option<u32>)
        ensures
            tex_id == (match self@.texture_with_path(path_view(path@), self@.textures.len()) {
                Some(index) => Some(index as u32),
                None => None,
            }),
    {
        let mut count: usize = self.textures.len();
        while count > 0
            invariant
                count <= self.textures@.len(),
                self@.textures == texture_views(self.textures@),
                self@.texture_with_path(path_view(path@), self@.textures.len())
                    == self@.texture_with_path(path_view(path@), count as nat),
            decreases count,
        {
            if same_path(&self.textures[count - 1].path, path) {
                return Some(
                    #[verifier::truncate]
                    ((count - 1) as u32),
                );
            }
            count = count - 1;
        }
        None
    }

    /// Adds a texture, and returns its number. If one was already added under the path, it stays,
    /// and this returns its number.
    pub fn add_texture(&mut self, texture: TiledImage) -> (tex_id: u32)
        requires
            old(self)@.is_valid(),
            texture@.is_consistent(),
        ensures
            final(self)@.is_valid(),
            match old(self)@.texture_with_path(
                path_view(texture.path@),
                old(self)@.textures.len(),
            ) {
                Some(index) => final(self)@ == old(self)@ && tex_id == index as u32,
                None => final(self)@ == (CacheView {
                    textures: old(self)@.textures.push(
                        TextureView { path: path_view(texture.path@), image: texture@ },
                    ),
                    ..old(self)@
                }) && tex_id == old(self)@.textures.len() as u32,
            },
    {
        // return the preexisting number if the texture has already been added
        if let Some(tex_id) = self.find_texture(&texture.path) {
            return tex_id;
        }
        let tex_id: u32 = #[verifier::truncate]
        (self.textures.len() as u32);
        let ghost view = TextureView { path: path_view(texture.path@), image: texture@ };
        self.textures.push(texture);
        assert(self@.textures =~= old(self)@.textures.push(view));
        tex_id
    }

    /// An available tile, after freeing tiles if needed.
    fn get_free_tile(&mut self) -> (tile: Option<usize>)
        requires
            old(self)@.is_valid(),
            old(self)@.tiles.len() > 0,
        ensures
            (tile, final(self)@) == old(self)@.free_tile_taken(),
            final(self)@.is_valid(),
            tile matches Some(index) ==> index < old(self)@.tiles.len() && !final(self)@.has_tile(
                index,
            ),
    {
        proof {
            lemma_taken_is_valid(self@);
        }
        if self.free_tiles.len() == 0 {
            proof {
                lemma_freed_is_valid(self@);
                lemma_copy_keeps_size(
                    self@.table,
                    self@.tiles,
                    self@.spare,
                    self@.table.slots.len(),
                );
            }
            let ghost before = self@;
            // copy unmarked tiles to the other table, and swap the tables
            self.hash_table.copy_active(&mut self.free_hash_table, &self.all_tiles);
            std::mem::swap(&mut self.hash_table, &mut self.free_hash_table);
            // add inactive tiles to the free list
            self.free_hash_table.reclaim_uncopied(&mut self.free_tiles);
            assert(self.hash_table@.holds_below(self.all_tiles@.len())) by {
                assert(before.freed().table == self.hash_table@);
            }
            if self.free_tiles.len() < self.mark_free_capacity {
                self.hash_table.mark_entries(&mut self.all_tiles);
            }
            assert(self@ == before.freed());
        }
        assert(self@ == old(self)@.replenished());
        if self.free_tiles.len() == 0 {
            return None;
        }
        // mark the tiles in use if free ones are getting few
        if self.free_tiles.len() == self.mark_free_capacity {
            proof {
                lemma_marked_is_valid(self@);
            }
            self.hash_table.mark_entries(&mut self.all_tiles);
        }
        self.free_tiles.pop()
    }

    /// The number of tiles.
    pub fn tile_count(&self) -> (count: usize)
        ensures
            count == self@.tiles.len(),
    {
        self.all_tiles.len()
    }

    /// Whether a tile can be read.
    fn can_load(&self, tile_id: TileId) -> (can: bool)
        ensures
            can == self@.can_load(tile_id),
    {
        let tex_id: usize = tile_id.tex_id() as usize;
        if tex_id >= self.textures.len() {
            return false;
        }
        let texture: &TiledImage = &self.textures[tex_id];
        assert(self@.textures[tex_id as int].image == texture@);
        texture.can_address(tile_id.tile_x(), tile_id.tile_y(), tile_id.level())
            && fits_tile(texture)
    }

    /// Whether a texel can be asked for.
    pub fn can_ask<T: Texel>(&self, tex_id: u32, level: u32, x: u32, y: u32) -> (can: bool)
        requires
            self@.is_valid(),
        ensures
            can == self@.can_ask(tex_id, level, x, y, T::STRIDE as nat),
    {
        if tex_id as u64 >= self.textures.len() as u64 {
            return false;
        }
        let texture: &TiledImage = &self.textures[tex_id as usize];
        assert(self@.textures[tex_id as int].image == texture@);
        if T::STRIDE > texture.format.texel_bytes() {
            return false;
        }
        if level >= texture.first_in_memory_level {
            return texture.has_in_memory(x, y, level);
        }
        if self.all_tiles.len() == 0 || texture.log_tile_size >= 32 || !fits_tile(texture) {
            return false;
        }
        let (tile_x, tile_y) = texture.tile_index(x, y);
        self.can_load(TileId::new(tex_id, level, tile_x, tile_y))
    }

    /// Asks for a tile.
    pub fn get_tile(&mut self, tile_id: TileId) -> (step: TileStep)
        requires
            old(self)@.is_valid(),
            old(self)@.tiles.len() > 0,
            old(self)@.can_load(tile_id),
        ensures
            (step, final(self)@) == old(self)@.tile_asked(tile_id),
            final(self)@.is_valid(),
            final(self)@.memory == old(self)@.memory,
            final(self)@.textures == old(self)@.textures,
            step is OutOfTiles ==> old(self)@.free_tiles.len() == 0,
            step matches TileStep::Ready(start) ==> old(self)@.is_tile_start(start),
            step matches TileStep::Load(load) ==> final(self)@.loads.contains(load) && load.bytes
                <= TILE_ALLOC_SIZE,
    {
        proof {
            lemma_asked_is_valid(self@, tile_id);
        }
        // return the tile if it's present in the hash table
        if let Some(texels) = self.hash_table.look_up(tile_id, &mut self.all_tiles) {
            return TileStep::Ready(texels.start);
        }
        // check whether the tile is already being loaded
        let mut i: usize = 0;
        while i < self.outstanding_reads.len()
            invariant
                i <= self.outstanding_reads@.len(),
                self@ == old(self)@,
                old(self)@.is_valid(),
                self@.table.found(self@.tiles, tile_id) is None,
                old(self)@.tile_asked(tile_id).1.is_valid(),
                forall|k: int|
                    0 <= k < i ==> (#[trigger] self.outstanding_reads@[k]).tile_id != tile_id,
            decreases self.outstanding_reads@.len() - i,
        {
            if self.outstanding_reads[i].tile_id == tile_id {
                assert(self@.loads[i as int].tile_id == tile_id);
                assert(self@.is_reading(tile_id));
                return TileStep::Wait;
            }
            i = i + 1;
        }
        assert(!self@.is_reading(tile_id));
        let texture: &TiledImage = &self.textures[tile_id.tex_id() as usize];
        assert(self@.textures[tile_id.texture() as int].image == texture@);
        let offset: usize = texture.file_offset(
            tile_id.tile_x(),
            tile_id.tile_y(),
            tile_id.level(),
        );
        let bytes: usize = texture.tile_bytes();
        match self.get_free_tile() {
            None => TileStep::OutOfTiles,
            Some(index) => {
                // record that the tile is going to be read
                let load = TileLoad { index, tile_id, tex_id: tile_id.tex_id(), offset, bytes };
                self.outstanding_reads.push(load);
                assert(self@.loads[old(self)@.loads.len() as int] == load);
                TileStep::Load(load)
            },
        }
    }

    /// Whether a load is under way.
    pub fn is_loading(&self, load: &TileLoad) -> (loading: bool)
        ensures
            loading == self@.loads.contains(*load),
    {
        let mut i: usize = 0;
        while i < self.outstanding_reads.len()
            invariant
                i <= self.outstanding_reads@.len(),
                forall|k: int| 0 <= k < i ==> #[trigger] self.outstanding_reads@[k] != *load,
            decreases self.outstanding_reads@.len() - i,
        {
            if self.outstanding_reads[i] == *load {
                assert(self@.loads[i as int] == *load);
                return true;
            }
            i = i + 1;
        }
        assert(!self@.loads.contains(*load));
        false
    }

    /// Ends a load that is under way with the bytes that were read, and returns where the texels of
    /// the tile are in the memory for tiles.
    pub fn finish_load(&mut self, load: TileLoad, bytes: &[u8]) -> (start: usize)
        requires
            old(self)@.is_valid(),
            old(self)@.loads.contains(load),
            bytes@.len() <= TILE_ALLOC_SIZE,
        ensures
            final(self)@ == old(self)@.load_finished(load, bytes@),
            final(self)@.is_valid(),
            start == load.index * TILE_ALLOC_SIZE,
            final(self)@.is_tile_start(start),
    {
        let ghost before = self@;
        proof {
            lemma_load_is_valid(before, load, bytes@);
        }
        let start: usize = self.all_tiles[load.index].texels.start;
        assert(start == load.index * TILE_ALLOC_SIZE);
        let mut i: usize = 0;
        while i < bytes.len()
            invariant
                i <= bytes@.len() <= TILE_ALLOC_SIZE,
                before.sizes_agree(),
                load.index < before.tiles.len(),
                start == load.index * TILE_ALLOC_SIZE,
                self@ == (CacheView { memory: self@.memory, ..before }),
                self@.memory.len() == before.memory.len(),
                forall|k: int|
                    0 <= k < self@.memory.len() ==> #[trigger] self@.memory[k] == (if start <= k
                        < start + i {
                        bytes@[k - start]
                    } else {
                        before.memory[k]
                    }),
            decreases bytes@.len() - i,
        {
            self.tile_mem[start + i] = bytes[i];
            i = i + 1;
        }
        assert(self@.memory =~= before.memory_with(load.index, bytes@));
        self.all_tiles[load.index].tile_id = load.tile_id;
        assert(self@.tiles =~= before.tiles_with(load));
        // add the tile to the hash table
        self.hash_table.insert(&self.all_tiles[load.index]);
        // the read is over
        self.end_read(load);
        start
    }

    /// Forgets that a load is under way.
    fn end_read(&mut self, load: TileLoad)
        requires
            old(self)@.loads.contains(load),
            forall|i: int, j: int|
                0 <= i < j < old(self)@.loads.len() ==> (#[trigger] old(self)@.loads[i]).tile_id
                    != (#[trigger] old(self)@.loads[j]).tile_id,
        ensures
            final(self)@ == (CacheView { loads: old(self)@.loads_without(load), ..old(self)@ }),
    {
        let ghost at = self@.loads.index_of(load);
        assert(self@.loads[at] == load);
        let mut i: usize = 0;
        while i < self.outstanding_reads.len()
            invariant
                i <= self.outstanding_reads@.len(),
                self@ == old(self)@,
                at == self@.loads.index_of(load),
                0 <= at < self@.loads.len(),
                self@.loads[at] == load,
                i <= at,
                forall|i: int, j: int|
                    0 <= i < j < self@.loads.len() ==> (#[trigger] self@.loads[i]).tile_id != (
                    #[trigger] self@.loads[j]).tile_id,
            decreases self.outstanding_reads@.len() - i,
        {
            assert(self@.loads[i as int] == self.outstanding_reads@[i as int]);
            if self.outstanding_reads[i].tile_id == load.tile_id {
                assert(i == at);
                self.outstanding_reads.swap_remove(i);
                return;
            }
            i = i + 1;
        }
    }

    /// A texel whose tile is at `start` in the memory for tiles.
    pub fn texel_at<T: Texel>(&self, tex_id: u32, start: usize, x: u32, y: u32) -> (texel: T)
        requires
            self@.is_valid(),
            self@.can_read(tex_id, T::STRIDE as nat),
            self@.is_tile_start(start),
        ensures
            texel.holds(self@.texel_at(tex_id, start, x, y, T::STRIDE as nat)),
    {
        let texture: &TiledImage = &self.textures[tex_id as usize];
        assert(self@.textures[tex_id as int].image == texture@);
        proof {
            lemma_texel_in_tile(texture@, x as nat, y as nat);
        }
        let offset: usize = start + texture.texel_offset(x, y);
        let bytes: &[u8] = vstd::slice::slice_subrange(
            self.tile_mem.as_slice(),
            offset,
            offset + T::STRIDE,
        );
        T::from_bytes(bytes)
    }

    /// Asks for a texel.
    pub fn texel<T: Texel>(&mut self, tex_id: u32, level: u32, x: u32, y: u32) -> (step: TexelStep<
        T,
    >)
        requires
            old(self)@.is_valid(),
            old(self)@.can_ask(tex_id, level, x, y, T::STRIDE as nat),
        ensures
            final(self)@.is_valid(),
            ({
                let before = old(self)@;
                let image = before.textures[tex_id as int].image;
                let (asked, left) = before.tile_asked(before.tile_of(tex_id, level, x, y));
                if level >= image.first_in_memory_level {
                    final(self)@ == before && (step matches TexelStep::Ready(texel)
                        && texel.holds(
                        image.in_memory_texel(x as nat, y as nat, level as int).take(
                            T::STRIDE as int,
                        ),
                    ))
                } else {
                    final(self)@ == left && match asked {
                        TileStep::Ready(start) => step matches TexelStep::Ready(texel)
                            && texel.holds(
                            before.texel_at(tex_id, start, x, y, T::STRIDE as nat),
                        ),
                        TileStep::Wait => step is Wait,
                        TileStep::Load(load) => step == TexelStep::<T>::Load(load)
                            && left.loads.contains(load) && load.bytes <= TILE_ALLOC_SIZE,
                        TileStep::OutOfTiles => step is OutOfTiles,
                    }
                }
            }),
    {
        let texture: &TiledImage = &self.textures[tex_id as usize];
        assert(self@.textures[tex_id as int].image == texture@);
        // return the texel from the levels kept in memory, if applicable
        if let Some(bytes) = texture.get_texel(x, y, level) {
            let front: &[u8] = vstd::slice::slice_subrange(bytes, 0, T::STRIDE);
            assert(front@ =~= bytes@.take(T::STRIDE as int));
            return TexelStep::Ready(T::from_bytes(front));
        }
        // find the tile in the cache
        let (tile_x, tile_y) = texture.tile_index(x, y);
        let tile_id: TileId = TileId::new(tex_id, level, tile_x, tile_y);
        assert(tile_id == self@.tile_of(tex_id, level, x, y));
        match self.get_tile(tile_id) {
            TileStep::Ready(start) => TexelStep::Ready(self.texel_at::<T>(tex_id, start, x, y)),
            TileStep::Wait => TexelStep::Wait,
            TileStep::Load(load) => TexelStep::Load(load),
            TileStep::OutOfTiles => TexelStep::OutOfTiles,
        }
    }
}

/// The loads that are left when one is over are the others.
pub proof fn lemma_loads_without(cache: CacheView, load: TileLoad, other: TileLoad)
    requires
        cache.loads_are_apart(),
        cache.loads.contains(load),
    ensures
        cache.loads_without(load).contains(other) <==> cache.loads.contains(other) && other != load,
{
    let rest = cache.loads_without(load);
    let last = cache.loads.len() - 1;
    let at = cache.loads.index_of(load);
    assert(cache.loads[at] == load);
    if rest.contains(other) {
        let k = choose|k: int| 0 <= k < rest.len() && rest[k] == other;
        if k == at {
            assert(cache.loads[last] == other);
        } else {
            assert(cache.loads[k] == other);
        }
    }
    if cache.loads.contains(other) && other != load {
        let k = choose|k: int| 0 <= k < cache.loads.len() && cache.loads[k] == other;
        if k == last {
            assert(rest[at] == other);
        } else {
            assert(rest[k] == other);
        }
    }
}

/// A load keeps the cache valid.
pub proof fn lemma_load_is_valid(cache: CacheView, load: TileLoad, bytes: Seq<u8>)
    requires
        cache.is_valid(),
        cache.loads.contains(load),
        bytes.len() <= TILE_ALLOC_SIZE,
    ensures
        cache.is_load(load),
        cache.load_finished(load, bytes).is_valid(),
{
    let after = cache.load_finished(load, bytes);
    let at = cache.loads.index_of(load);
    let last = cache.loads.len() - 1;
    assert(cache.loads[at] == load);
    assert(cache.is_load(load));
    assert(after.memory.len() == cache.memory.len());
    assert forall|index: usize| #[trigger] cache.table.holds(index) implies index != load.index
        && after.tiles[index as int].tile_id == cache.tiles[index as int].tile_id by {
        lemma_held_tile(cache, index);
    }
    lemma_order_of_held(cache.table, cache.tiles, after.tiles);
    law_insert_keeps_order(cache.table, after.tiles, load.index);
    assert forall|index: usize| #[trigger] after.table.holds(index) implies cache.table.holds(index)
        || index == load.index by {
        law_insert_keeps_tiles(cache.table, load.tile_id, load.index, index);
    }
    assert forall|i: int| 0 <= i < after.table.slots.len() implies (
    match #[trigger] after.table.slots[i] {
        Some(index) => index < after.tiles.len(),
        None => true,
    }) by {
        if let Some(index) = after.table.slots[i] {
            assert(after.table.holds(index));
            if index != load.index {
                lemma_held_tile(cache, index);
            }
        }
    }
    assert forall|i: int| 0 <= i < after.tiles.len() implies (#[trigger] after.tiles[i]).index == i
        && after.tiles[i].texels == cache.tiles[i].texels by {
        assert(cache.tiles[i].index == i);
    }
    assert(after.sizes_agree());
    assert forall|i: int| 0 <= i < after.loads.len() implies after.is_load(
        #[trigger] after.loads[i],
    ) by {
        let k = if i == at {
            last
        } else {
            i
        };
        let other = cache.loads[k];
        assert(after.loads[i] == other);
        assert(cache.is_load(other));
        assert(other.index != load.index && other.tile_id != load.tile_id) by {
            if k < at {
                assert(cache.loads[k].index != cache.loads[at].index);
            } else {
                assert(cache.loads[at].index != cache.loads[k].index);
            }
        }
        assert forall|held: usize| #[trigger] after.table.holds(held) implies after.tiles[
            held as int
        ].tile_id != other.tile_id by {
            if held != load.index {
                assert(cache.table.holds(held));
            }
        }
    }
    assert forall|i: int, j: int| 0 <= i < j < after.loads.len() implies (
    #[trigger] after.loads[i]).index != (#[trigger] after.loads[j]).index && after.loads[i].tile_id
        != after.loads[j].tile_id by {
        let a = if i == at {
            last
        } else {
            i
        };
        let b = if j == at {
            last
        } else {
            j
        };
        assert(after.loads[i] == cache.loads[a] && after.loads[j] == cache.loads[b]);
        if a < b {
            assert(cache.loads[a].index != cache.loads[b].index);
        } else {
            assert(cache.loads[b].index != cache.loads[a].index);
        }
    }
}

} // verus!
