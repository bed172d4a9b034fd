//! Where everything stands in a tiled image file.
//!
//! A file begins with the header. The smallest levels follow it as they are, the smallest first.
//! The other levels come next, in tiles, again the smaller before the larger; the first of them
//! and each tile begin at a multiple of [`TILE_DISK_ALIGNMENT`].
use crate::header::{header_size, HeaderView, MAGIC_BYTES};
use crate::texel::PixelFormat;
use crate::tiles::{Extent, TilesView};
use vstd::arithmetic::power2::pow2;
use vstd::prelude::*;

verus! {

/// Tiles begin at multiples of this many bytes.
pub const TILE_DISK_ALIGNMENT: usize = 4096;

/// The levels next to the header have no more than this many bytes together.
pub const TOP_LEVELS_BYTES: usize = 3800;

/// The most zero bytes that are written at once.
pub const ZERO_BUF_BYTES: usize = 4096;

pub open spec fn zeros(count: nat) -> Seq<u8> {
    Seq::new(count, |i: int| 0u8)
}

/// The parts, one after the other.
pub open spec fn concat(parts: Seq<Seq<u8>>) -> Seq<u8>
    decreases parts.len(),
{
    if parts.len() == 0 {
        Seq::empty()
    } else {
        concat(parts.drop_last()) + parts.last()
    }
}

/// The smallest multiple of `unit` that is no less than `n`.
pub open spec fn next_multiple(n: nat, unit: nat) -> nat {
    if n % unit == 0 {
        n
    } else {
        (n + (unit - n % unit)) as nat
    }
}

/// How many tiles of side `tile_size` it takes to cover `length` texels.
pub open spec fn tiles_across(length: nat, tile_size: nat) -> nat {
    ((length + tile_size - 1) / tile_size as int) as nat
}

/// One scanline of a tile as it stands in a file: zeros fill it up to `row_bytes`. A tile that
/// reaches over the bottom of the level has scanlines of zeros there.
pub open spec fn stored_scanline(tile: Seq<Seq<u8>>, row_bytes: nat, i: int) -> Seq<u8> {
    if i < tile.len() {
        tile[i] + zeros((row_bytes - tile[i].len()) as nat)
    } else {
        zeros(row_bytes)
    }
}

/// A tile as it stands in a file: `tile_size` scanlines, and zeros up to the alignment.
pub open spec fn stored_tile(tile: Seq<Seq<u8>>, tile_size: nat, row_bytes: nat) -> Seq<u8> {
    concat(Seq::new(tile_size, |i: int| stored_scanline(tile, row_bytes, i))) + zeros(
        (next_multiple(tile_size * row_bytes, TILE_DISK_ALIGNMENT as nat) - tile_size
            * row_bytes) as nat,
    )
}

/// Whether no run of zeros in a stored tile is longer than the buffer of zeros.
pub open spec fn padding_fits(tile: Seq<Seq<u8>>, tile_size: nat, row_bytes: nat) -> bool {
    &&& forall|i: int|
        0 <= i < tile.len() ==> row_bytes - (#[trigger] tile[i]).len() <= ZERO_BUF_BYTES
    &&& tile.len() < tile_size ==> row_bytes <= ZERO_BUF_BYTES
}

/// The levels of an image, the largest first, and how they are stored.
pub struct Pyramid {
    pub levels: Seq<Seq<u8>>,
    pub extents: Seq<Extent>,
    pub format: PixelFormat,
    pub tile_size: nat,
}

impl Pyramid {
    /// The number of bytes of the `count` smallest levels.
    pub open spec fn top_bytes(self, count: nat) -> nat
        decreases count,
    {
        if count == 0 {
            0
        } else {
            self.top_bytes((count - 1) as nat) + self.levels[self.levels.len() - count].len()
        }
    }

    /// Of the levels from the smallest on, leaving out the first `count`: how many come before the
    /// one with which the limit is passed, or zero where the limit is never passed.
    pub open spec fn levels_before_limit(self, count: nat) -> nat
        decreases self.levels.len() - count,
    {
        if count >= self.levels.len() {
            0
        } else if self.top_bytes(count + 1) > TOP_LEVELS_BYTES {
            count
        } else {
            self.levels_before_limit(count + 1)
        }
    }

    /// The number of levels that are stored next to the header: as many of the smallest as have
    /// [`TOP_LEVELS_BYTES`] together. Where all levels have no more than that, there are none.
    pub open spec fn header_levels(self) -> nat {
        self.levels_before_limit(0)
    }

    /// The largest of the levels next to the header; the levels before it are stored in tiles.
    pub open spec fn first_in_memory_level(self) -> nat {
        (self.levels.len() - self.header_levels()) as nat
    }

    pub open spec fn row_bytes(self) -> nat {
        self.tile_size * self.format.stride()
    }

    pub open spec fn tile_bytes(self) -> nat {
        self.tile_size * self.row_bytes()
    }

    /// The number of bytes that a tile takes up in the file.
    pub open spec fn tile_disk_bytes(self) -> nat {
        next_multiple(self.tile_bytes(), TILE_DISK_ALIGNMENT as nat)
    }

    pub open spec fn x_tiles(self, level: int) -> nat {
        tiles_across(self.extents[level].width as nat, self.tile_size)
    }

    pub open spec fn y_tiles(self, level: int) -> nat {
        tiles_across(self.extents[level].height as nat, self.tile_size)
    }

    /// Where the levels next to the header end.
    pub open spec fn header_end(self) -> nat {
        header_size(self.levels.len()) + self.top_bytes(self.header_levels())
    }

    /// Where the `count` smallest of the tiled levels end.
    pub open spec fn tiled_end(self, count: nat) -> nat
        decreases count,
    {
        if count == 0 {
            next_multiple(self.header_end(), TILE_DISK_ALIGNMENT as nat)
        } else {
            let level = self.first_in_memory_level() - count;
            self.tiled_end((count - 1) as nat) + self.tile_disk_bytes() * (self.x_tiles(level)
                * self.y_tiles(level))
        }
    }

    /// Where a level begins in the file.
    pub open spec fn level_offset(self, level: int) -> nat {
        if level >= self.first_in_memory_level() {
            header_size(self.levels.len()) + self.top_bytes((self.levels.len() - 1 - level) as nat)
        } else {
            self.tiled_end((self.first_in_memory_level() - 1 - level) as nat)
        }
    }

    /// The tiles of a level.
    pub open spec fn tiles(self, level: int) -> TilesView {
        TilesView {
            data: self.levels[level],
            width: self.extents[level].width as nat,
            height: self.extents[level].height as nat,
            stride: self.format.stride(),
            tile_size: self.tile_size,
            x: 0,
            y: 0,
        }
    }

    /// A run of tiles as it stands in the file.
    pub open spec fn stored_tiles(self, tiles: Seq<Seq<Seq<u8>>>) -> Seq<u8> {
        concat(
            Seq::new(
                tiles.len(),
                |i: int| stored_tile(tiles[i], self.tile_size, self.row_bytes()),
            ),
        )
    }

    /// A tiled level as it stands in the file.
    pub open spec fn stored_level(self, level: int) -> Seq<u8> {
        self.stored_tiles(self.tiles(level).rest())
    }

    pub open spec fn log_tile_size(self) -> u32 {
        choose|log: u32| pow2(log as nat) == self.tile_size
    }

    pub open spec fn header(self) -> HeaderView {
        HeaderView {
            magic: MAGIC_BYTES@,
            version: 0,
            log_tile_size: self.log_tile_size(),
            format: self.format.code(),
            first_in_memory_level: self.first_in_memory_level() as u32,
            level_resolution: self.extents,
            level_offset: Seq::new(
                self.levels.len(),
                |level: int| self.level_offset(level) as u64,
            ),
        }
    }

    /// The levels next to the header, as they stand in the file.
    pub open spec fn stored_top(self, count: nat) -> Seq<u8> {
        concat(Seq::new(count, |i: int| self.levels[self.levels.len() - 1 - i]))
    }

    /// The `count` smallest of the tiled levels, as they stand in the file.
    pub open spec fn stored_tiled(self, count: nat) -> Seq<u8> {
        concat(
            Seq::new(count, |i: int| self.stored_level(self.first_in_memory_level() - 1 - i)),
        )
    }

    /// The whole file.
    pub open spec fn file(self) -> Seq<u8> {
        self.header().encoded() + self.stored_top(self.header_levels()) + zeros(
            (self.tiled_end(0) - self.header_end()) as nat,
        ) + self.stored_tiled(self.first_in_memory_level())
    }

    /// Whether a level holds the texels that its extent promises, and its tiles can be counted and
    /// addressed with 32 bits.
    pub open spec fn level_can_be_tiled(self, level: int) -> bool {
        let width = self.extents[level].width;
        let height = self.extents[level].height;
        &&& width * height <= u32::MAX
        &&& width * height * self.format.stride() == self.levels[level].len()
        &&& width * self.format.stride() <= usize::MAX
        &&& width + self.tile_size <= u32::MAX
        &&& height + self.tile_size <= u32::MAX
        &&& self.x_tiles(level) * self.y_tiles(level) <= u32::MAX
        &&& forall|i: int|
            0 <= i < self.tiles(level).rest().len() ==> padding_fits(
                #[trigger] self.tiles(level).rest()[i],
                self.tile_size,
                self.row_bytes(),
            )
    }

    /// Whether a file can be made of the levels: there are some, each with an extent; the channels
    /// have eight bits; the tiled levels can be tiled; and the offsets and sizes fit the machine.
    pub open spec fn can_be_stored(self) -> bool {
        &&& self.levels.len() > 0
        &&& self.extents.len() == self.levels.len()
        &&& self.format.channel_bytes() == 1
        &&& forall|level: int|
            0 <= level < self.first_in_memory_level() ==> #[trigger] self.level_can_be_tiled(level)
        &&& self.top_bytes(self.levels.len()) <= usize::MAX
        &&& self.tile_disk_bytes() <= usize::MAX
        &&& self.tiled_end(self.first_in_memory_level()) <= usize::MAX
    }
}

} // verus!
