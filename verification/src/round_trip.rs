//! What is read of a file that was written: the texels that went into it.
use crate::create::{
    lemma_one_logarithm, lemma_some_level_is_tiled, lemma_tiled_end_grows, lemma_top_bytes_grow,
};
use crate::header::law_header_round_trip;
use crate::image::{base_level, format_of_code, lemma_format_of_code, mip_pyramid, ImageView};
use crate::layout::{stored_tile, Pyramid};
use crate::mips::{law_pyramid_levels, lemma_pyramid_height, WrapMode};
use crate::placement::{
    law_header_in_file, law_tile_in_file, law_top_level_in_file, lemma_stands_in_part,
    lemma_stored_tile, lemma_tiles_across, stands_at, tile_by_index,
};
use crate::power_of_two::is_power_of_two;
use crate::texel::PixelFormat;
use crate::tiles::{lemma_texels_in_bounds, lemma_tile_shape, min, TilesView};
use vstd::arithmetic::power2::pow2;
use vstd::prelude::*;

verus! {

impl Pyramid {
    /// The bytes of a texel.
    pub open spec fn texel(self, x: nat, y: nat, level: int) -> Seq<u8> {
        let start = (y * self.extents[level].width + x) * self.format.stride();
        self.levels[level].subrange(start as int, start + self.format.stride())
    }

    /// Whether a level has a texel.
    pub open spec fn has_texel(self, x: nat, y: nat, level: int) -> bool {
        &&& 0 <= level < self.levels.len()
        &&& x < self.extents[level].width
        &&& y < self.extents[level].height
    }

    /// Whether the levels next to the header have the bytes that their extents promise, as the
    /// tiled levels must.
    pub open spec fn top_levels_match(self) -> bool {
        forall|level: int|
            self.first_in_memory_level() <= level < self.levels.len() ==> {
                &&& (#[trigger] self.extents[level]).width * self.extents[level].height <= u32::MAX
                &&& self.levels[level].len() == self.extents[level].width as nat
                    * self.extents[level].height as nat * self.format.stride()
            }
    }

    /// The image that is read of the file.
    pub open spec fn image(self) -> ImageView {
        self.header().image(self.file())
    }

    /// Whether a texel is found again in the file: among the levels that the image keeps in
    /// memory, or in the bytes of the file that the image names as the tile of the texel, at the
    /// place in them that the image names.
    pub open spec fn gives_back(self, x: nat, y: nat, level: int) -> bool {
        let image = self.image();
        let tile_x = x / image.tile_size();
        let tile_y = y / image.tile_size();
        let start = image.file_offset(tile_x, tile_y, level) as int;
        let end = start + image.tile_bytes();
        if level >= image.first_in_memory_level {
            &&& image.has_in_memory(x, y, level)
            &&& image.in_memory_texel(x, y, level) == self.texel(x, y, level)
        } else {
            &&& image.can_address(tile_x, tile_y, level)
            &&& end <= self.file().len()
            &&& stands_at(
                self.file().subrange(start, end),
                image.texel_offset(x, y) as int,
                self.texel(x, y, level),
            )
        }
    }
}

/// Where a level begins can be counted by the machine.
pub proof fn lemma_offsets_fit(pyramid: Pyramid, level: int)
    requires
        pyramid.can_be_stored(),
        0 <= level < pyramid.levels.len(),
    ensures
        pyramid.level_offset(level) <= usize::MAX,
{
    let first = pyramid.first_in_memory_level();
    lemma_some_level_is_tiled(pyramid, 0);
    lemma_tiled_end_grows(pyramid, 0, first);
    if level >= first {
        lemma_top_bytes_grow(
            pyramid,
            (pyramid.levels.len() - 1 - level) as nat,
            pyramid.header_levels(),
        );
    } else {
        lemma_tiled_end_grows(pyramid, (first - 1 - level) as nat, first);
    }
}

/// The header comes back, with the format and the logarithm of the tile size.
proof fn lemma_header_comes_back(pyramid: Pyramid)
    requires
        pyramid.can_be_stored(),
        pyramid.levels.len() <= u32::MAX,
        is_power_of_two(pyramid.tile_size),
        pyramid.tile_size <= u32::MAX,
    ensures
        pyramid.header().decodes(pyramid.file()),
        format_of_code(pyramid.header().format) == pyramid.format,
        pow2(pyramid.header().log_tile_size as nat) == pyramid.tile_size,
        pyramid.header().log_tile_size < 32,
{
    let header = pyramid.header();
    let file = pyramid.file();
    law_header_in_file(pyramid);
    let tail = file.skip(header.encoded().len() as int);
    assert(file =~= header.encoded() + tail);
    law_header_round_trip(header, tail);
    lemma_format_of_code(header.format);
    assert(pyramid.format.code() == header.format);
    let exponent = choose|e: nat| pow2(e) == pyramid.tile_size;
    vstd::arithmetic::power2::lemma2_to64();
    if exponent > 32 {
        vstd::arithmetic::power2::lemma_pow2_strictly_increases(32, exponent);
    }
    assert(pow2((exponent as u32) as nat) == pyramid.tile_size);
    lemma_one_logarithm(header.log_tile_size as nat, exponent);
}

/// A level next to the header comes back.
proof fn lemma_top_level_comes_back(pyramid: Pyramid, level: int)
    requires
        pyramid.can_be_stored(),
        pyramid.top_levels_match(),
        pyramid.levels.len() <= u32::MAX,
        format_of_code(pyramid.header().format) == pyramid.format,
        pyramid.first_in_memory_level() <= level < pyramid.levels.len(),
    ensures
        pyramid.header().level_bytes(level) == pyramid.levels[level].len(),
        pyramid.levels[level].len() <= usize::MAX,
        pyramid.header().holds_level(pyramid.file(), level),
        pyramid.image().in_memory_levels[level - pyramid.first_in_memory_level()]
            == pyramid.levels[level],
{
    lemma_some_level_is_tiled(pyramid, 0);
    assert(pyramid.header().level_resolution[level] == pyramid.extents[level]);
    law_top_level_in_file(pyramid, level);
    lemma_offsets_fit(pyramid, level);
    lemma_top_bytes_grow(pyramid, (pyramid.levels.len() - level) as nat, pyramid.levels.len());
}

/// A file that was written can be read: its header comes back, an image can be made of it, and
/// the image has the format, the tile size, the extents and the offsets that were written, and
/// keeps in memory the levels that were stored next to the header.
pub proof fn law_written_file_opens(pyramid: Pyramid)
    requires
        pyramid.can_be_stored(),
        pyramid.top_levels_match(),
        pyramid.levels.len() <= u32::MAX,
        is_power_of_two(pyramid.tile_size),
        pyramid.tile_size <= u32::MAX,
    ensures
        pyramid.header().decodes(pyramid.file()),
        pyramid.header().is_loadable(),
        forall|level: int|
            pyramid.first_in_memory_level() <= level < pyramid.levels.len()
                ==> #[trigger] pyramid.header().holds_level(pyramid.file(), level),
        pyramid.image().is_consistent(),
        pyramid.image().format == pyramid.format,
        pyramid.image().tile_size() == pyramid.tile_size,
        pyramid.image().log_tile_size < 32,
        pyramid.image().first_in_memory_level == pyramid.first_in_memory_level(),
        pyramid.image().extents == pyramid.extents,
        forall|level: int|
            0 <= level < pyramid.levels.len() ==> #[trigger] pyramid.image().offsets[level]
                == pyramid.level_offset(level),
        forall|level: int|
            pyramid.first_in_memory_level() <= level < pyramid.levels.len()
                ==> #[trigger] pyramid.image().in_memory_levels[level
                - pyramid.first_in_memory_level()] == pyramid.levels[level],
{
    let header = pyramid.header();
    let file = pyramid.file();
    let image = pyramid.image();
    let first = pyramid.first_in_memory_level();
    lemma_some_level_is_tiled(pyramid, 0);
    lemma_header_comes_back(pyramid);
    assert forall|level: int| 0 <= level < pyramid.levels.len() implies
        #[trigger] image.offsets[level] == pyramid.level_offset(level) by {
        lemma_offsets_fit(pyramid, level);
    }
    assert forall|level: int| first <= level < pyramid.levels.len() implies {
        &&& (#[trigger] pyramid.extents[level]).width * pyramid.extents[level].height <= u32::MAX
        &&& header.level_bytes(level) == pyramid.levels[level].len() <= usize::MAX
        &&& header.holds_level(file, level)
        &&& image.in_memory_levels[level - first] == pyramid.levels[level]
    } by {
        lemma_top_level_comes_back(pyramid, level);
    }
    assert forall|level: int| first <= level < pyramid.levels.len() implies
        #[trigger] header.holds_level(file, level) by {
        assert(pyramid.extents[level] == pyramid.extents[level]);
    }
    assert forall|level: int| first <= level < pyramid.levels.len() implies
        #[trigger] image.in_memory_levels[level - first] == pyramid.levels[level] by {
        assert(pyramid.extents[level] == pyramid.extents[level]);
    }
}

/// Where a texel stands in its stored tile.
proof fn lemma_texel_in_stored_tile(tiles: TilesView, x: nat, y: nat)
    requires
        tiles.width * tiles.height * tiles.stride == tiles.data.len(),
        tiles.tile_size > 0,
        x < tiles.width,
        y < tiles.height,
    ensures
        stands_at(
            stored_tile(
                tiles.tile(
                    (x / tiles.tile_size) * tiles.tile_size,
                    (y / tiles.tile_size) * tiles.tile_size,
                ),
                tiles.tile_size,
                tiles.tile_size * tiles.stride,
            ),
            (((y % tiles.tile_size) * tiles.tile_size + x % tiles.tile_size) * tiles.stride) as int,
            tiles.texels(x, y, 1),
        ),
{
    let size = tiles.tile_size;
    let stride = tiles.stride;
    let row_bytes = size * stride;
    let x0 = (x / size) * size;
    let y0 = (y / size) * size;
    let c = x % size;
    let r = y % size;
    vstd::arithmetic::div_mod::lemma_fundamental_div_mod(x as int, size as int);
    vstd::arithmetic::div_mod::lemma_fundamental_div_mod(y as int, size as int);
    assert(size * (x / size) == x0) by (nonlinear_arith)
        requires
            x0 == (x / size) * size,
    ;
    assert(size * (y / size) == y0) by (nonlinear_arith)
        requires
            y0 == (y / size) * size,
    ;
    assert(x == x0 + c && y == y0 + r);
    let tile = tiles.tile(x0, y0);
    let columns = min(size, (tiles.width - x0) as nat);
    lemma_tile_shape(tiles, x0, y0);
    lemma_stored_tile(tile, size, row_bytes);
    let scanline = tile[r as int];
    assert(scanline == tiles.texels(x0, y, columns));
    assert(stands_at(stored_tile(tile, size, row_bytes), r as int * row_bytes, scanline));
    lemma_texels_in_bounds(tiles.width, tiles.height, stride, x0, y, columns);
    lemma_texels_in_bounds(tiles.width, tiles.height, stride, x, y, 1);
    let start = (y * tiles.width + x0) * stride;
    assert((y * tiles.width + x) * stride == start + c * stride) by (nonlinear_arith)
        requires
            start == (y * tiles.width + x0) * stride,
            x == x0 + c,
    ;
    assert(c * stride + stride <= columns * stride) by (nonlinear_arith)
        requires
            c + 1 <= columns,
    ;
    assert(1 * stride == stride);
    assert(0 <= c * stride) by (nonlinear_arith);
    assert(scanline.subrange((c * stride) as int, (c * stride + stride) as int) =~= tiles.texels(
        x,
        y,
        1,
    ));
    lemma_stands_in_part(
        stored_tile(tile, size, row_bytes),
        (r * row_bytes) as int,
        scanline,
        (c * stride) as int,
        tiles.texels(x, y, 1),
    );
    assert(r * (size * stride) + c * stride == (r * size + c) * stride) by (nonlinear_arith);
}

/// The tile of a texel, and the place of the texel in it.
proof fn lemma_tiled_texel(pyramid: Pyramid, x: nat, y: nat, level: int)
    requires
        pyramid.can_be_stored(),
        pyramid.tile_size > 0,
        pyramid.has_texel(x, y, level),
        level < pyramid.first_in_memory_level(),
        forall|smaller: int|
            level < smaller < pyramid.first_in_memory_level() ==> #[trigger] pyramid.is_regular(
                smaller,
            ),
    ensures
        ({
            let size = pyramid.tile_size;
            let index = (y / size) * pyramid.x_tiles(level) + x / size;
            let start = pyramid.level_offset(level) + pyramid.tile_disk_bytes() * index;
            let end = start + pyramid.tile_bytes();
            &&& index <= u32::MAX
            &&& start <= usize::MAX
            &&& end <= pyramid.file().len()
            &&& stands_at(
                pyramid.file().subrange(start as int, end as int),
                (pyramid.format.stride() * ((y % size) * size + x % size)) as int,
                pyramid.texel(x, y, level),
            )
        }),
{
    let size = pyramid.tile_size;
    let stride = pyramid.format.stride();
    let extent = pyramid.extents[level];
    let tile_x = x / size;
    let tile_y = y / size;
    let x_tiles = pyramid.x_tiles(level);
    let y_tiles = pyramid.y_tiles(level);
    let index = tile_y * x_tiles + tile_x;
    let disk = pyramid.tile_disk_bytes();
    let tiles = pyramid.tiles(level);
    assert(pyramid.level_can_be_tiled(level));
    vstd::arithmetic::div_mod::lemma_fundamental_div_mod(x as int, size as int);
    vstd::arithmetic::div_mod::lemma_fundamental_div_mod(y as int, size as int);
    assert(tile_x * size <= x) by (nonlinear_arith)
        requires
            x == size * tile_x + x % size,
            x % size >= 0,
    ;
    assert(tile_y * size <= y) by (nonlinear_arith)
        requires
            y == size * tile_y + y % size,
            y % size >= 0,
    ;
    lemma_tiles_across(extent.width as nat, size, tile_x);
    lemma_tiles_across(extent.height as nat, size, tile_y);
    assert(index < x_tiles * y_tiles) by (nonlinear_arith)
        requires
            index == tile_y * x_tiles + tile_x,
            tile_x < x_tiles,
            tile_y + 1 <= y_tiles,
    ;
    vstd::arithmetic::div_mod::lemma_fundamental_div_mod_converse(
        index as int,
        x_tiles as int,
        tile_y as int,
        tile_x as int,
    );
    assert(pyramid.is_regular(level));
    law_tile_in_file(pyramid, level, index);
    lemma_texel_in_stored_tile(tiles, x, y);
    let tile = tile_by_index(tiles, index);
    let stored = stored_tile(tile, size, pyramid.row_bytes());
    assert(index * disk == disk * index) by (nonlinear_arith);
    let start = pyramid.level_offset(level) + disk * index;
    assert(stands_at(pyramid.file(), start as int, stored));
    lemma_tile_shape(tiles, tile_x * size, tile_y * size);
    lemma_stored_tile(tile, size, pyramid.row_bytes());
    let at = ((y % size) * size + x % size) * stride;
    assert(at == stride * ((y % size) * size + x % size)) by (nonlinear_arith)
        requires
            at == ((y % size) * size + x % size) * stride,
    ;
    lemma_end_of_texel(x % size, y % size, size, stride);
    assert(size * (size * stride) == size * size * stride) by (nonlinear_arith);
    assert(1 * stride == stride);
    lemma_texels_in_bounds(tiles.width, tiles.height, stride, x, y, 1);
    assert(pyramid.texel(x, y, level) == tiles.texels(x, y, 1));
    lemma_front_part(
        pyramid.file(),
        start as int,
        stored,
        pyramid.tile_bytes(),
        at as int,
        pyramid.texel(x, y, level),
    );
    // the offset fits, as the whole level does
    let first = pyramid.first_in_memory_level();
    lemma_tiled_end_grows(pyramid, (first - level) as nat, first);
    assert(disk * index <= disk * (x_tiles * y_tiles)) by (nonlinear_arith)
        requires
            index <= x_tiles * y_tiles,
    ;
}

/// A texel of a tile ends within the tile.
proof fn lemma_end_of_texel(column: nat, row: nat, size: nat, stride: nat)
    requires
        column < size,
        row < size,
    ensures
        (row * size + column) * stride + stride <= size * size * stride,
        0 <= (row * size + column) * stride,
{
    let number = row * size + column;
    assert(number + 1 <= size * size) by (nonlinear_arith)
        requires
            number == row * size + column,
            column + 1 <= size,
            row + 1 <= size,
    ;
    assert(number * stride + stride <= size * size * stride) by (nonlinear_arith)
        requires
            number + 1 <= size * size,
    ;
    assert(0 <= number * stride) by (nonlinear_arith);
}

/// What stands within the first `len` bytes of a part stands in those bytes of the whole.
proof fn lemma_front_part(
    whole: Seq<u8>,
    at: int,
    part: Seq<u8>,
    len: nat,
    inner_at: int,
    inner: Seq<u8>,
)
    requires
        stands_at(whole, at, part),
        stands_at(part, inner_at, inner),
        len <= part.len(),
        inner_at + inner.len() <= len,
    ensures
        at + len <= whole.len(),
        stands_at(whole.subrange(at, at + len), inner_at, inner),
{
    assert(whole.subrange(at, at + len).subrange(inner_at, inner_at + inner.len())
        =~= part.subrange(inner_at, inner_at + inner.len()));
}

/// Each texel that went into a file comes out of it again. A texel of a level next to the header
/// is found among the levels kept in memory. For any other texel, the bytes of a tile that stand
/// where `file_offset` says, for the tile that `tile_index` says, hold the texel where
/// `texel_offset` says.
pub proof fn law_texel_round_trip(pyramid: Pyramid, x: nat, y: nat, level: int)
    requires
        pyramid.can_be_stored(),
        pyramid.top_levels_match(),
        pyramid.levels.len() <= u32::MAX,
        is_power_of_two(pyramid.tile_size),
        pyramid.tile_size <= u32::MAX,
        pyramid.has_texel(x, y, level),
        forall|smaller: int|
            level < smaller < pyramid.first_in_memory_level() ==> #[trigger] pyramid.is_regular(
                smaller,
            ),
    ensures
        pyramid.gives_back(x, y, level),
{
    law_written_file_opens(pyramid);
    let image = pyramid.image();
    let file = pyramid.file();
    let extent = pyramid.extents[level];
    let stride = pyramid.format.stride();
    lemma_texels_in_bounds(extent.width as nat, extent.height as nat, stride, x, y, 1);
    assert(1 * stride == stride);
    assert(y * extent.width + x < extent.width * extent.height) by (nonlinear_arith)
        requires
            x < extent.width,
            y + 1 <= extent.height,
    ;
    if level >= image.first_in_memory_level {
        assert(image.in_memory_levels[level - pyramid.first_in_memory_level()]
            == pyramid.levels[level]);
    } else {
        vstd::arithmetic::power2::lemma_pow2_pos(image.log_tile_size as nat);
        lemma_tiled_texel(pyramid, x, y, level);
        assert(pyramid.level_can_be_tiled(level));
        let size = pyramid.tile_size;
        assert(image.offsets[level] == pyramid.level_offset(level));
        assert(size * (size * stride) == size * size * stride) by (nonlinear_arith);
    }
}

/// The levels of an image that was made smaller have the bytes that their extents promise.
proof fn lemma_mip_pyramid(
    base: Seq<u8>,
    width: u32,
    height: u32,
    format: PixelFormat,
    tile_size: u32,
    wrap_mode: WrapMode,
)
    requires
        base_level(base, width, height, format).is_sized(),
        width > 1 || height > 1 ==> base_level(base, width, height, format).can_be_halved(
            wrap_mode,
        ),
        is_power_of_two(tile_size as nat),
    ensures
        ({
            let pyramid = mip_pyramid(base, width, height, format, tile_size, wrap_mode);
            &&& pyramid.levels.len() > 0
            &&& pyramid.levels[0] == base
            &&& pyramid.levels.len() <= u32::MAX
            &&& pyramid.top_levels_match()
            &&& forall|level: int|
                0 <= level < pyramid.levels.len() ==> #[trigger] pyramid.is_regular(level)
        }),
{
    let pyramid = mip_pyramid(base, width, height, format, tile_size, wrap_mode);
    let first = base_level(base, width, height, format);
    let levels = first.pyramid(wrap_mode);
    law_pyramid_levels(first, wrap_mode);
    lemma_pyramid_height(first, wrap_mode, u32::MAX as nat);
    let exponent = choose|e: nat| pow2(e) == tile_size as nat;
    vstd::arithmetic::power2::lemma_pow2_pos(exponent);
    assert forall|i: int| 0 <= i < pyramid.levels.len() implies {
        &&& (#[trigger] pyramid.extents[i]).width * pyramid.extents[i].height <= u32::MAX
        &&& pyramid.levels[i].len() == pyramid.extents[i].width as nat
            * pyramid.extents[i].height as nat * format.stride()
    } by {
        assert(levels[i].is_sized());
    }
    assert forall|i: int| 0 <= i < pyramid.levels.len() implies #[trigger] pyramid.is_regular(
        i,
    ) by {
        assert(levels[i].is_sized());
    }
}

/// Each texel of each level of an image that was written with all its smaller levels comes out of
/// the file again. The first level is the image itself.
pub proof fn law_mip_texel_round_trip(
    base: Seq<u8>,
    width: u32,
    height: u32,
    format: PixelFormat,
    tile_size: u32,
    wrap_mode: WrapMode,
    x: nat,
    y: nat,
    level: int,
)
    requires
        base_level(base, width, height, format).is_sized(),
        width > 1 || height > 1 ==> base_level(base, width, height, format).can_be_halved(
            wrap_mode,
        ),
        mip_pyramid(base, width, height, format, tile_size, wrap_mode).can_be_stored(),
        is_power_of_two(tile_size as nat),
        mip_pyramid(base, width, height, format, tile_size, wrap_mode).has_texel(x, y, level),
    ensures
        mip_pyramid(base, width, height, format, tile_size, wrap_mode).levels[0] == base,
        mip_pyramid(base, width, height, format, tile_size, wrap_mode).gives_back(x, y, level),
{
    let pyramid = mip_pyramid(base, width, height, format, tile_size, wrap_mode);
    lemma_mip_pyramid(base, width, height, format, tile_size, wrap_mode);
    lemma_some_level_is_tiled(pyramid, 0);
    law_texel_round_trip(pyramid, x, y, level);
}

} // verus!
