//! Which images can be stored.
use crate::create::lemma_some_level_is_tiled;
use crate::file_laws::{law_tiles_across, lemma_parts};
use crate::image::{base_level, mip_pyramid};
use crate::layout::{padding_fits, tiles_across, Pyramid, TOP_LEVELS_BYTES};
use crate::mip_laws::law_mip_levels;
use crate::mips::{lemma_pyramid_height, WrapMode};
use crate::placement::{law_tiles_in_order, lemma_tiles_across};
use crate::texel::PixelFormat;
use crate::tiles::{lemma_tile_shape, min, TilesView};
use vstd::prelude::*;

verus! {

/// The levels next to the header have no more than 3800 bytes together.
pub proof fn law_header_levels_are_small(pyramid: Pyramid)
    ensures
        pyramid.top_bytes(pyramid.header_levels()) <= 3800,
{
    lemma_before_limit(pyramid, 0);
}

proof fn lemma_before_limit(pyramid: Pyramid, count: nat)
    requires
        pyramid.top_bytes(count) <= TOP_LEVELS_BYTES,
    ensures
        pyramid.top_bytes(pyramid.levels_before_limit(count)) <= TOP_LEVELS_BYTES,
    decreases pyramid.levels.len() - count,
{
    if count < pyramid.levels.len() && pyramid.top_bytes(count + 1) <= TOP_LEVELS_BYTES {
        lemma_before_limit(pyramid, count + 1);
    }
}

/// No more tiles than texels lie next to each other.
proof fn lemma_few_tiles(length: nat, tile_size: nat, most: nat)
    requires
        tile_size > 0,
        length <= most * tile_size,
    ensures
        tiles_across(length, tile_size) <= most,
        tiles_across(length, tile_size) <= length,
{
    lemma_tiles_across(length, tile_size, most);
    lemma_tiles_across(length, tile_size, length);
    assert(length * tile_size >= length) by (nonlinear_arith)
        requires
            tile_size >= 1,
            length >= 0,
    ;
}

/// A level can be tiled if it has the bytes that its sides promise, the sides and their product
/// fit 32 bits with a tile added to each side, and a row of a tile is no longer than the buffer of
/// zeros.
pub proof fn law_level_can_be_tiled(pyramid: Pyramid, level: int)
    requires
        pyramid.tile_size > 0,
        pyramid.tile_size * pyramid.format.stride() <= 4096,
        pyramid.extents[level].width > 0,
        pyramid.extents[level].height > 0,
        pyramid.extents[level].width + pyramid.tile_size <= 0xffff_ffff,
        pyramid.extents[level].height + pyramid.tile_size <= 0xffff_ffff,
        pyramid.extents[level].width * pyramid.extents[level].height <= 0xffff_ffff,
        pyramid.levels[level].len() == pyramid.extents[level].width
            * pyramid.extents[level].height * pyramid.format.stride(),
        pyramid.levels[level].len() <= usize::MAX,
    ensures
        pyramid.level_can_be_tiled(level),
{
    let (width, height) = (pyramid.extents[level].width as nat, pyramid.extents[level].height as nat);
    let stride = pyramid.format.stride();
    assert(width * stride <= width * height * stride) by (nonlinear_arith)
        requires
            height >= 1,
    ;
    let (x_tiles, y_tiles) = (pyramid.x_tiles(level), pyramid.y_tiles(level));
    assert(width <= width * pyramid.tile_size && height <= height * pyramid.tile_size)
        by (nonlinear_arith)
        requires
            pyramid.tile_size >= 1,
    ;
    lemma_few_tiles(width, pyramid.tile_size, width);
    lemma_few_tiles(height, pyramid.tile_size, height);
    assert(x_tiles * y_tiles <= width * height) by (nonlinear_arith)
        requires
            x_tiles <= width,
            y_tiles <= height,
    ;
}

/// The bytes of a run of levels, each of no more than `most` bytes.
proof fn lemma_top_bytes_bound(pyramid: Pyramid, count: nat, most: nat)
    requires
        count <= pyramid.levels.len(),
        forall|level: int|
            0 <= level < pyramid.levels.len() ==> (#[trigger] pyramid.levels[level]).len() <= most,
    ensures
        pyramid.top_bytes(count) <= count * most,
    decreases count,
{
    if count > 0 {
        lemma_top_bytes_bound(pyramid, (count - 1) as nat, most);
        assert(count * most == (count - 1) * most + most) by (nonlinear_arith);
    }
}

proof fn lemma_tiled_end_bound(pyramid: Pyramid, count: nat, most: nat)
    requires
        count <= pyramid.first_in_memory_level(),
        pyramid.levels.len() > 0,
        forall|level: int|
            0 <= level < pyramid.first_in_memory_level() ==> pyramid.tile_disk_bytes() * (
            #[trigger] pyramid.x_tiles(level) * pyramid.y_tiles(level)) <= most,
    ensures
        pyramid.tiled_end(count) <= pyramid.tiled_end(0) + count * most,
    decreases count,
{
    if count > 0 {
        lemma_tiled_end_bound(pyramid, (count - 1) as nat, most);
        let level = pyramid.first_in_memory_level() - count;
        assert(pyramid.tile_disk_bytes() * (pyramid.x_tiles(level) * pyramid.y_tiles(level)) <= most);
        assert(count * most == (count - 1) * most + most) by (nonlinear_arith);
    }
}

/// Which levels can be stored together: any number of them that have the bytes that their sides
/// promise, with eight bits a channel, if a row of a tile is no longer than 4096 bytes and the
/// numbers fit the machine: `across` and `down` tiles cover each level, each takes up no more than
/// `disk` bytes, and the file is no longer than the machine can count.
pub proof fn law_levels_can_be_stored(
    pyramid: Pyramid,
    across: nat,
    down: nat,
    disk: nat,
    most: nat,
)
    requires
        pyramid.levels.len() > 0,
        pyramid.extents.len() == pyramid.levels.len(),
        pyramid.format == PixelFormat::Luma8 || pyramid.format == PixelFormat::Rgb8
            || pyramid.format == PixelFormat::Rgba8,
        0 < pyramid.tile_size,
        pyramid.tile_size * pyramid.format.stride() <= 4096,
        forall|level: int|
            0 <= level < pyramid.levels.len() ==> {
                let extent = #[trigger] pyramid.extents[level];
                &&& 0 < extent.width <= across * pyramid.tile_size
                &&& 0 < extent.height <= down * pyramid.tile_size
                &&& extent.width + pyramid.tile_size <= 0xffff_ffff
                &&& extent.height + pyramid.tile_size <= 0xffff_ffff
                &&& extent.width * extent.height <= 0xffff_ffff
                &&& pyramid.levels[level].len() == extent.width * extent.height
                    * pyramid.format.stride()
                &&& pyramid.levels[level].len() <= most
            },
        disk >= pyramid.tile_size * (pyramid.tile_size * pyramid.format.stride()) + 4096,
        pyramid.levels.len() * most <= usize::MAX,
        8192 + pyramid.levels.len() * (16 + disk * (across * down)) <= usize::MAX,
        disk <= usize::MAX,
    ensures
        pyramid.can_be_stored(),
{
    let count = pyramid.levels.len();
    let first = pyramid.first_in_memory_level();
    let cost = disk * (across * down);
    lemma_some_level_is_tiled(pyramid, 0);
    assert forall|level: int| 0 <= level < count implies (#[trigger] pyramid.levels[level]).len()
        <= most by {
        assert(pyramid.extents[level].width > 0);
    }
    lemma_top_bytes_bound(pyramid, count, most);
    law_header_levels_are_small(pyramid);
    assert forall|level: int| 0 <= level < first implies #[trigger] pyramid.level_can_be_tiled(
        level,
    ) by {
        assert(pyramid.extents[level].width > 0);
        assert(most <= count * most) by (nonlinear_arith)
            requires
                count >= 1,
                most >= 0,
        ;
        law_level_can_be_tiled(pyramid, level);
    }
    assert(pyramid.tile_disk_bytes() <= disk);
    assert forall|level: int| 0 <= level < first implies pyramid.tile_disk_bytes() * (
    #[trigger] pyramid.x_tiles(level) * pyramid.y_tiles(level)) <= cost by {
        let extent = pyramid.extents[level];
        lemma_few_tiles(extent.width as nat, pyramid.tile_size, across);
        lemma_few_tiles(extent.height as nat, pyramid.tile_size, down);
        let (x, y) = (pyramid.x_tiles(level), pyramid.y_tiles(level));
        assert(x * y <= across * down) by (nonlinear_arith)
            requires
                x <= across,
                y <= down,
        ;
        assert(pyramid.tile_disk_bytes() * (x * y) <= disk * (across * down)) by (nonlinear_arith)
            requires
                pyramid.tile_disk_bytes() <= disk,
                x * y <= across * down,
                x * y >= 0,
        ;
    }
    lemma_tiled_end_bound(pyramid, first, cost);
    assert(first * cost <= count * cost) by (nonlinear_arith)
        requires
            first <= count,
            cost >= 0,
    ;
    assert(count * (16 + cost) == 16 * count + count * cost) by (nonlinear_arith);
}

/// A bound on the number of tiles of a level with sides of no more than `side` texels, and of all
/// levels that are smaller.
spec fn tiles_bound(side: nat, tile_size: nat) -> nat {
    let across = tiles_across(side, tile_size);
    if side <= tile_size {
        side
    } else {
        2 * (across * across) + tile_size
    }
}

/// Halving a side leaves room for the tiles of the level.
proof fn lemma_tiles_bound(side: nat, half: nat, tile_size: nat)
    requires
        tile_size > 0,
        side >= 2,
        side <= 2 * half <= side + 1,
    ensures
        tiles_across(side, tile_size) * tiles_across(side, tile_size) + tiles_bound(
            half,
            tile_size,
        ) <= tiles_bound(side, tile_size),
{
    let m = tiles_across(side, tile_size);
    let n = tiles_across(half, tile_size);
    lemma_tiles_across(side, tile_size, 0);
    lemma_tiles_across(side, tile_size, 1);
    assert(0 * tile_size == 0 && 1 * tile_size == tile_size);
    if side <= tile_size {
        assert(m == 1);
        assert(m * m == 1);
    } else if half <= tile_size {
        assert(m * m >= 0) by (nonlinear_arith);
    } else {
        lemma_tiles_across(half, tile_size, 1);
        lemma_tiles_across(half, tile_size, (n - 1) as nat);
        lemma_tiles_across(side, tile_size, (2 * (n - 1)) as nat);
        assert(2 * (n - 1) * tile_size == 2 * ((n - 1) * tile_size)) by (nonlinear_arith);
        assert(2 * n <= m + 1);
        assert(m * m + 2 * (n * n) <= 2 * (m * m)) by (nonlinear_arith)
            requires
                2 * n <= m + 1,
                n >= 2,
                m >= 3,
        ;
    }
}

/// The larger of the two sides of a level.
spec fn side_of(pyramid: Pyramid, level: int) -> nat {
    let extent = pyramid.extents[level];
    if extent.width >= extent.height {
        extent.width as nat
    } else {
        extent.height as nat
    }
}

/// Whether the levels are those of an image, each half of the one before it.
spec fn is_halving(pyramid: Pyramid) -> bool {
    &&& pyramid.levels.len() > 0
    &&& pyramid.extents.len() == pyramid.levels.len()
    &&& forall|level: int|
        0 <= level < pyramid.levels.len() ==> is_halved_well(pyramid, #[trigger] side_of(pyramid, level), level)
}

spec fn is_halved_well(pyramid: Pyramid, side: nat, level: int) -> bool {
    let here = pyramid.extents[level];
    let next = pyramid.extents[level + 1];
    &&& here.width > 0
    &&& here.height > 0
    &&& pyramid.levels[level].len() == here.width * here.height * pyramid.format.stride()
    &&& level + 1 < pyramid.levels.len() ==> {
        &&& side >= 2
        &&& here.width <= 2 * next.width <= here.width + 1
        &&& here.height <= 2 * next.height <= here.height + 1
    }
}

proof fn lemma_halved_side(pyramid: Pyramid, level: int)
    requires
        is_halving(pyramid),
        0 <= level < pyramid.levels.len() - 1,
    ensures
        side_of(pyramid, level) >= 2,
        side_of(pyramid, level) <= 2 * side_of(pyramid, level + 1) <= side_of(pyramid, level) + 1,
        pyramid.extents[level + 1].width <= pyramid.extents[level].width,
        pyramid.extents[level + 1].height <= pyramid.extents[level].height,
{
    assert(is_halved_well(pyramid, side_of(pyramid, level), level));
    assert(is_halved_well(pyramid, side_of(pyramid, level + 1), level + 1));
}

/// All levels are no larger than the first.
proof fn lemma_sides_fall(pyramid: Pyramid, level: int)
    requires
        is_halving(pyramid),
        0 <= level < pyramid.levels.len(),
    ensures
        pyramid.extents[level].width <= pyramid.extents[0].width,
        pyramid.extents[level].height <= pyramid.extents[0].height,
        side_of(pyramid, level) <= side_of(pyramid, 0),
    decreases level,
{
    if level > 0 {
        lemma_sides_fall(pyramid, level - 1);
        lemma_halved_side(pyramid, level - 1);
    }
}

/// The levels from one on have no more than twice the bytes of a square with its longer side.
proof fn lemma_halving_bytes(pyramid: Pyramid, count: nat)
    requires
        is_halving(pyramid),
        0 < count <= pyramid.levels.len(),
    ensures
        ({
            let side = side_of(pyramid, pyramid.levels.len() - count);
            pyramid.top_bytes(count) <= 2 * (side * side) * pyramid.format.stride()
        }),
    decreases count,
{
    let level = pyramid.levels.len() - count;
    let stride = pyramid.format.stride();
    let side = side_of(pyramid, level);
    assert(is_halved_well(pyramid, side, level));
    let (w, h) = (pyramid.extents[level].width as nat, pyramid.extents[level].height as nat);
    assert(w * h <= side * side) by (nonlinear_arith)
        requires
            w <= side,
            h <= side,
    ;
    assert(w * h * stride <= (side * side) * stride) by (nonlinear_arith)
        requires
            w * h <= side * side,
    ;
    assert(2 * (side * side) * stride == (side * side) * stride + (side * side) * stride)
        by (nonlinear_arith);
    if count > 1 {
        lemma_halving_bytes(pyramid, (count - 1) as nat);
        lemma_halved_side(pyramid, level);
        let half = side_of(pyramid, level + 1);
        assert(2 * (half * half) <= side * side) by (nonlinear_arith)
            requires
                side >= 2,
                2 * half <= side + 1,
                side == 2 ==> half == 1,
        ;
        assert(2 * (half * half) * stride <= (side * side) * stride) by (nonlinear_arith)
            requires
                2 * (half * half) <= side * side,
        ;
    } else {
        assert(pyramid.top_bytes(0) == 0);
        assert((side * side) * stride >= 0) by (nonlinear_arith);
    }
}

/// The tiled levels from one on end before the bound.
proof fn lemma_halving_tiles(pyramid: Pyramid, count: nat)
    requires
        is_halving(pyramid),
        0 < count <= pyramid.first_in_memory_level(),
        pyramid.tile_size > 0,
    ensures
        ({
            let side = side_of(pyramid, pyramid.first_in_memory_level() - count);
            pyramid.tiled_end(count) <= pyramid.tiled_end(0) + pyramid.tile_disk_bytes()
                * tiles_bound(side, pyramid.tile_size)
        }),
    decreases count,
{
    let size = pyramid.tile_size;
    let disk = pyramid.tile_disk_bytes();
    let level = pyramid.first_in_memory_level() - count;
    let side = side_of(pyramid, level);
    let m = tiles_across(side, size);
    lemma_some_level_is_tiled(pyramid, 0);
    assert(is_halved_well(pyramid, side, level));
    let (x, y) = (pyramid.x_tiles(level), pyramid.y_tiles(level));
    lemma_wider(pyramid.extents[level].width as nat, side, size);
    lemma_wider(pyramid.extents[level].height as nat, side, size);
    assert(x * y <= m * m) by (nonlinear_arith)
        requires
            x <= m,
            y <= m,
    ;
    let bound = tiles_bound(side, size);
    if count > 1 {
        lemma_halving_tiles(pyramid, (count - 1) as nat);
        lemma_halved_side(pyramid, level);
        let half = side_of(pyramid, level + 1);
        let rest = tiles_bound(half, size);
        lemma_tiles_bound(side, half, size);
        assert(disk * rest + disk * (x * y) <= disk * bound) by (nonlinear_arith)
            requires
                x * y + rest <= bound,
        ;
    } else {
        lemma_tiles_across(side, size, 1);
        assert(1 * size == size);
        assert(m * m <= bound) by (nonlinear_arith)
            requires
                bound == (if side <= size {
                    side as int
                } else {
                    (2 * (m * m) + size) as int
                }),
                side <= size ==> m <= 1,
                side >= 1,
        ;
        assert(disk * (x * y) <= disk * bound) by (nonlinear_arith)
            requires
                x * y <= bound,
        ;
    }
}

proof fn lemma_wider(shorter: nat, longer: nat, tile_size: nat)
    requires
        tile_size > 0,
        shorter <= longer,
    ensures
        tiles_across(shorter, tile_size) <= tiles_across(longer, tile_size),
{
    let most = tiles_across(longer, tile_size);
    lemma_tiles_across(longer, tile_size, most);
    lemma_few_tiles(shorter, tile_size, most);
}

/// Which images can be stored with all their smaller levels: those with eight bits a channel, if a
/// row of a tile is no longer than 4096 bytes and the numbers fit the machine. Here `across` tiles
/// cover each side, and `disk` is the number of bytes of a tile, rounded up to 4096.
pub proof fn law_image_can_be_stored(
    base: Seq<u8>,
    width: u32,
    height: u32,
    format: PixelFormat,
    tile_size: u32,
    wrap_mode: WrapMode,
    across: nat,
    disk: nat,
)
    requires
        format == PixelFormat::Luma8 || format == PixelFormat::Rgb8 || format
            == PixelFormat::Rgba8,
        base.len() == width * height * format.stride(),
        0 < tile_size,
        tile_size * format.stride() <= 4096,
        0 < width <= across * tile_size,
        0 < height <= across * tile_size,
        width + tile_size <= 0xffff_ffff,
        height + tile_size <= 0xffff_ffff,
        width * height <= 0xffff_ffff,
        wrap_mode == WrapMode::Mirror ==> width <= 0x7fff_ffff && height <= 0x7fff_ffff,
        disk % 4096 == 0,
        tile_size * (tile_size * format.stride()) <= disk < tile_size * (tile_size
            * format.stride()) + 4096,
        disk <= usize::MAX,
        2 * ((across * tile_size) * (across * tile_size)) * format.stride() <= usize::MAX,
        8192 + 16 * (across * tile_size) + disk * (2 * (across * across) + tile_size) <= usize::MAX,
    ensures
        base_level(base, width, height, format).is_sized(),
        base_level(base, width, height, format).can_be_halved(wrap_mode),
        mip_pyramid(base, width, height, format, tile_size, wrap_mode).can_be_stored(),
{
    let pyramid = mip_pyramid(base, width, height, format, tile_size, wrap_mode);
    lemma_mips_are_halving(base, width, height, format, tile_size, wrap_mode, across * tile_size);
    assert(pyramid.tile_disk_bytes() == disk);
    lemma_halving_is_stored(pyramid, across, disk);
}

/// The smaller levels of an image are each half of the one before, and no more than its longer side
/// has texels.
proof fn lemma_mips_are_halving(
    base: Seq<u8>,
    width: u32,
    height: u32,
    format: PixelFormat,
    tile_size: u32,
    wrap_mode: WrapMode,
    most: int,
)
    requires
        0 < width < u32::MAX,
        0 < height < u32::MAX,
        width <= most,
        height <= most,
        width * height <= u32::MAX,
        base.len() == width * height * format.stride(),
        wrap_mode == WrapMode::Mirror ==> width <= 0x7fff_ffff && height <= 0x7fff_ffff,
    ensures
        ({
            let pyramid = mip_pyramid(base, width, height, format, tile_size, wrap_mode);
            &&& is_halving(pyramid)
            &&& pyramid.format == format
            &&& pyramid.tile_size == tile_size
            &&& pyramid.extents[0].width == width
            &&& pyramid.extents[0].height == height
            &&& pyramid.levels.len() <= most
        }),
{
    let pyramid = mip_pyramid(base, width, height, format, tile_size, wrap_mode);
    law_mip_levels(base, width, height, format, tile_size, wrap_mode, 0);
    assert forall|level: int| 0 <= level < pyramid.levels.len() implies is_halved_well(
        pyramid,
        #[trigger] side_of(pyramid, level),
        level,
    ) by {
        law_mip_levels(base, width, height, format, tile_size, wrap_mode, level);
        lemma_level_has_texels(base, width, height, format, tile_size, wrap_mode, level);
    }
    lemma_pyramid_height(base_level(base, width, height, format), wrap_mode, most as nat);
}

/// Levels that become smaller can be stored.
proof fn lemma_halving_is_stored(pyramid: Pyramid, across: nat, disk: nat)
    requires
        is_halving(pyramid),
        pyramid.format.channel_bytes() == 1,
        0 < pyramid.tile_size,
        pyramid.tile_size * pyramid.format.stride() <= 4096,
        pyramid.levels.len() <= across * pyramid.tile_size,
        pyramid.extents[0].width <= across * pyramid.tile_size,
        pyramid.extents[0].height <= across * pyramid.tile_size,
        pyramid.extents[0].width + pyramid.tile_size <= 0xffff_ffff,
        pyramid.extents[0].height + pyramid.tile_size <= 0xffff_ffff,
        pyramid.extents[0].width * pyramid.extents[0].height <= 0xffff_ffff,
        disk == pyramid.tile_disk_bytes(),
        disk <= usize::MAX,
        2 * ((across * pyramid.tile_size) * (across * pyramid.tile_size))
            * pyramid.format.stride() <= usize::MAX,
        8192 + 16 * (across * pyramid.tile_size) + disk * (2 * (across * across)
            + pyramid.tile_size) <= usize::MAX,
    ensures
        pyramid.can_be_stored(),
{
    let count = pyramid.levels.len();
    let first = pyramid.first_in_memory_level();
    let stride = pyramid.format.stride();
    let size = pyramid.tile_size;
    let most = across * size;
    let side = side_of(pyramid, 0);
    lemma_halving_bytes(pyramid, count);
    assert(2 * (side * side) * stride <= 2 * (most * most) * stride) by (nonlinear_arith)
        requires
            side <= most,
    ;
    lemma_some_level_is_tiled(pyramid, 0);
    law_header_levels_are_small(pyramid);
    assert forall|level: int| 0 <= level < first implies #[trigger] pyramid.level_can_be_tiled(
        level,
    ) by {
        lemma_halving_is_tiled(pyramid, most, level);
    }
    lemma_halving_tiles(pyramid, first);
    lemma_few_tiles(side, size, across);
    let m = tiles_across(side, size);
    let bound = tiles_bound(side, size);
    assert(m * m <= across * across) by (nonlinear_arith)
        requires
            0 <= m <= across,
    ;
    assert(0 <= across * across) by (nonlinear_arith);
    assert(disk * bound <= disk * (2 * (across * across) + size)) by (nonlinear_arith)
        requires
            bound <= 2 * (across * across) + size,
            disk >= 0,
    ;
}

proof fn lemma_halving_is_tiled(pyramid: Pyramid, most: nat, level: int)
    requires
        is_halving(pyramid),
        0 < pyramid.tile_size,
        pyramid.tile_size * pyramid.format.stride() <= 4096,
        0 <= level < pyramid.levels.len(),
        pyramid.extents[0].width <= most,
        pyramid.extents[0].height <= most,
        pyramid.extents[0].width + pyramid.tile_size <= 0xffff_ffff,
        pyramid.extents[0].height + pyramid.tile_size <= 0xffff_ffff,
        pyramid.extents[0].width * pyramid.extents[0].height <= 0xffff_ffff,
        2 * (most * most) * pyramid.format.stride() <= usize::MAX,
    ensures
        pyramid.level_can_be_tiled(level),
{
    let stride = pyramid.format.stride();
    assert(is_halved_well(pyramid, side_of(pyramid, level), level));
    lemma_sides_fall(pyramid, level);
    let (width, height) = (pyramid.extents[0].width, pyramid.extents[0].height);
    let (w, h) = (pyramid.extents[level].width, pyramid.extents[level].height);
    assert(w * h <= width * height) by (nonlinear_arith)
        requires
            0 <= w <= width,
            0 <= h <= height,
    ;
    assert(w * h <= 2 * (most * most)) by (nonlinear_arith)
        requires
            0 <= w <= most,
            0 <= h <= most,
    ;
    assert(w * h * stride <= 2 * (most * most) * stride) by (nonlinear_arith)
        requires
            w * h <= 2 * (most * most),
            stride >= 0,
    ;
    law_level_can_be_tiled(pyramid, level);
}

/// Every level of an image with texels has texels.
proof fn lemma_level_has_texels(
    base: Seq<u8>,
    width: u32,
    height: u32,
    format: PixelFormat,
    tile_size: u32,
    wrap_mode: WrapMode,
    level: int,
)
    requires
        0 < width < u32::MAX,
        0 < height < u32::MAX,
        width * height <= u32::MAX,
        base.len() == width * height * format.stride(),
        wrap_mode == WrapMode::Mirror ==> width <= 0x7fff_ffff && height <= 0x7fff_ffff,
        0 <= level < mip_pyramid(base, width, height, format, tile_size, wrap_mode).levels.len(),
    ensures
        mip_pyramid(base, width, height, format, tile_size, wrap_mode).extents[level].width > 0,
        mip_pyramid(base, width, height, format, tile_size, wrap_mode).extents[level].height > 0,
    decreases level,
{
    law_mip_levels(base, width, height, format, tile_size, wrap_mode, level - 1);
    if level > 0 {
        lemma_level_has_texels(base, width, height, format, tile_size, wrap_mode, level - 1);
    }
}

/// Every image with eight bits a channel and sides from 1 to 16384 can be stored with all its
/// smaller levels, in tiles of 64.
pub proof fn law_common_image_can_be_stored(
    base: Seq<u8>,
    width: u32,
    height: u32,
    format: PixelFormat,
    wrap_mode: WrapMode,
)
    requires
        format == PixelFormat::Luma8 || format == PixelFormat::Rgb8 || format
            == PixelFormat::Rgba8,
        1 <= width <= 16384,
        1 <= height <= 16384,
        base.len() == width * height * format.stride(),
    ensures
        base_level(base, width, height, format).is_sized(),
        base_level(base, width, height, format).can_be_halved(wrap_mode),
        mip_pyramid(base, width, height, format, 64, wrap_mode).can_be_stored(),
{
    let stride = format.stride();
    assert(width * height <= 16384 * 16384) by (nonlinear_arith)
        requires
            width <= 16384,
            height <= 16384,
    ;
    assert(1 <= stride <= 4);
    assert(2 * (16384 * 16384) * stride <= 0x8000_0000) by (nonlinear_arith)
        requires
            stride <= 4,
    ;
    assert((4096 * stride) * (2 * (256 * 256) + 64) <= 16384 * 131136) by (nonlinear_arith)
        requires
            stride <= 4,
    ;
    law_image_can_be_stored(base, width, height, format, 64, wrap_mode, 256, 4096 * stride);
}

/// When a level can be tiled: its texels can be counted with 32 bits, it has the bytes that its sides
/// promise, a scanline and a tile added to a side can be counted, and no run of zeros that fills up a
/// tile is longer than 4096 bytes: neither at the right of the last tile of a row, nor a whole
/// scanline below the level, where there is one. Here `across` and `down` are the numbers of tiles
/// that cover the level.
pub proof fn law_when_level_can_be_tiled(pyramid: Pyramid, level: int, across: nat, down: nat)
    requires
        pyramid.tile_size > 0,
        pyramid.extents[level].width > 0,
        pyramid.extents[level].height > 0,
        (across - 1) * pyramid.tile_size < pyramid.extents[level].width <= across
            * pyramid.tile_size,
        (down - 1) * pyramid.tile_size < pyramid.extents[level].height <= down * pyramid.tile_size,
    ensures
        ({
            let (width, height) = (pyramid.extents[level].width, pyramid.extents[level].height);
            let stride = pyramid.format.stride();
            let size = pyramid.tile_size;
            pyramid.level_can_be_tiled(level) <==> {
                &&& width * height <= 0xffff_ffff
                &&& pyramid.levels[level].len() == width * height * stride
                &&& width * stride <= usize::MAX
                &&& width + size <= 0xffff_ffff
                &&& height + size <= 0xffff_ffff
                &&& across * down <= 0xffff_ffff
                &&& (across * size - width) * stride <= 4096
                &&& height < down * size ==> size * stride <= 4096
            }
        }),
{
    let tiles = pyramid.tiles(level);
    let (width, height) = (tiles.width, tiles.height);
    let (stride, size) = (tiles.stride, tiles.tile_size);
    law_tiles_across(width, size, across);
    law_tiles_across(height, size, down);
    if width * height * stride == tiles.data.len() {
        lemma_positive(across, size, width);
        lemma_positive(down, size, height);
        law_tiles_in_order(tiles);
        if (across * size - width) * stride <= 4096 && (height < down * size ==> size * stride
            <= 4096) {
            assert forall|i: int| 0 <= i < tiles.rest().len() implies padding_fits(
                #[trigger] tiles.rest()[i],
                size,
                size * stride,
            ) by {
                vstd::arithmetic::div_mod::lemma_fundamental_div_mod(i, across as int);
                let (column, line) = ((i as nat % across), (i as nat / across));
                assert(line < down) by (nonlinear_arith)
                    requires
                        across * line + column < across * down,
                        column >= 0,
                        across > 0,
                ;
                lemma_padding_of_tile(tiles, across, down, column, line);
            }
        }
        if pyramid.level_can_be_tiled(level) {
            let last = (across - 1) as nat;
            assert(0 * across + last == last);
            assert(last < across * down) by (nonlinear_arith)
                requires
                    last < across,
                    down >= 1,
            ;
            lemma_parts(last, 0, across, last);
            lemma_padding_of_tile(tiles, across, down, last, 0);
            assert(padding_fits(tiles.rest()[last as int], size, size * stride));
            let bottom = (down - 1) as nat;
            let first = bottom * across;
            assert(first < across * down) by (nonlinear_arith)
                requires
                    first == bottom * across,
                    bottom + 1 == down,
                    across >= 1,
            ;
            lemma_parts(first, bottom, across, 0);
            lemma_padding_of_tile(tiles, across, down, 0, bottom);
            assert(padding_fits(tiles.rest()[first as int], size, size * stride));
        }
    }
}

/// When a level without texels can be tiled: it has no bytes, and a tile added to a side can be
/// counted. One without width, but higher than a tile, is stored with empty tiles, which are filled
/// up with zeros.
pub proof fn law_when_empty_level_can_be_tiled(pyramid: Pyramid, level: int)
    requires
        pyramid.tile_size > 0,
        pyramid.extents[level].width == 0 || pyramid.extents[level].height == 0,
    ensures
        ({
            let (width, height) = (pyramid.extents[level].width, pyramid.extents[level].height);
            let stride = pyramid.format.stride();
            let size = pyramid.tile_size;
            pyramid.level_can_be_tiled(level) <==> {
                &&& pyramid.levels[level].len() == 0
                &&& width * stride <= usize::MAX
                &&& width + size <= 0xffff_ffff
                &&& height + size <= 0xffff_ffff
                &&& width == 0 && height > size ==> size * stride <= 4096
            }
        }),
{
    let tiles = pyramid.tiles(level);
    let (width, height) = (tiles.width, tiles.height);
    let (stride, size) = (tiles.stride, tiles.tile_size);
    law_tiles_across(0, size, 0);
    assert(width * height == 0) by (nonlinear_arith)
        requires
            width == 0 || height == 0,
    ;
    assert(0 * stride == 0);
    let (x_tiles, y_tiles) = (pyramid.x_tiles(level), pyramid.y_tiles(level));
    assert(x_tiles * y_tiles == 0) by (nonlinear_arith)
        requires
            x_tiles == 0 || y_tiles == 0,
    ;
    if width > 0 || height <= size {
        assert(tiles.rest().len() == 0);
    } else if tiles.data.len() == 0 {
        let first = tiles.tile(0, size);
        lemma_tile_shape(tiles, 0, size);
        assert(tiles.rest()[0] == first);
        assert(first.len() > 0);
        assert(first[0].len() == 0);
        if pyramid.level_can_be_tiled(level) {
            assert(padding_fits(tiles.rest()[0], size, size * stride));
            assert(size * stride - first[0].len() <= 4096);
        }
    }
}

proof fn lemma_positive(across: nat, size: nat, length: nat)
    requires
        0 < length <= across * size,
    ensures
        across > 0,
{
    assert(across > 0) by (nonlinear_arith)
        requires
            0 < length <= across * size,
            across >= 0,
    ;
}

/// When the padding of a tile fits: that of the last tile of a row at the right, that of the last row
/// of tiles below.
proof fn lemma_padding_of_tile(tiles: TilesView, across: nat, down: nat, column: nat, line: nat)
    requires
        tiles.tile_size > 0,
        tiles.width > 0,
        tiles.height > 0,
        tiles.width * tiles.height * tiles.stride == tiles.data.len(),
        tiles_across(tiles.width, tiles.tile_size) == across,
        tiles_across(tiles.height, tiles.tile_size) == down,
        (across - 1) * tiles.tile_size < tiles.width <= across * tiles.tile_size,
        (down - 1) * tiles.tile_size < tiles.height <= down * tiles.tile_size,
        column < across,
        line < down,
    ensures
        ({
            let (size, stride) = (tiles.tile_size, tiles.stride);
            let tile = tiles.tile(column * size, line * size);
            let right = (across * size - tiles.width) * stride <= 4096;
            let below = tiles.height < down * size ==> size * stride <= 4096;
            &&& padding_fits(tile, size, size * stride) ==> (column == across - 1 ==> right) && (line
                == down - 1 ==> below)
            &&& right && below ==> padding_fits(tile, size, size * stride)
        }),
{
    let (size, stride) = (tiles.tile_size, tiles.stride);
    let (x, y) = (column * size, line * size);
    let tile = tiles.tile(x, y);
    lemma_tiles_across(tiles.width, size, column);
    lemma_tiles_across(tiles.height, size, line);
    lemma_tile_shape(tiles, x, y);
    let count = min(size, (tiles.width - x) as nat);
    if column < across - 1 {
        assert(x + size <= (across - 1) * size) by (nonlinear_arith)
            requires
                x == column * size,
                column + 1 <= across - 1,
                size > 0,
        ;
    }
    assert(column == across - 1 ==> x + size == across * size) by (nonlinear_arith)
        requires
            x == column * size,
    ;
    if line < down - 1 {
        assert(y + size <= (down - 1) * size) by (nonlinear_arith)
            requires
                y == line * size,
                line + 1 <= down - 1,
                size > 0,
        ;
    }
    assert(line == down - 1 ==> y + size == down * size) by (nonlinear_arith)
        requires
            y == line * size,
    ;
    assert(size * stride - count * stride == (size - count) * stride) by (nonlinear_arith);
    assert(tile.len() > 0);
    assert(tile[0].len() == count * stride);
    assert(count == size ==> (size - count) * stride == 0) by (nonlinear_arith);
}

/// When a file can be made of levels: there are some, each with an extent; the channels have eight
/// bits; each tiled level can be tiled; and the bytes of all levels, of a tile in the file, and of
/// the file can be counted.
pub proof fn law_when_can_be_stored(pyramid: Pyramid)
    ensures
        pyramid.can_be_stored() <==> {
            &&& pyramid.levels.len() > 0
            &&& pyramid.extents.len() == pyramid.levels.len()
            &&& pyramid.format == PixelFormat::Luma8 || pyramid.format == PixelFormat::Rgb8
                || pyramid.format == PixelFormat::Rgba8
            &&& forall|level: int|
                0 <= level < pyramid.first_in_memory_level() ==> #[trigger] pyramid.level_can_be_tiled(
                    level,
                )
            &&& pyramid.top_bytes(pyramid.levels.len()) <= usize::MAX
            &&& pyramid.tile_disk_bytes() <= usize::MAX
            &&& pyramid.tiled_end(pyramid.first_in_memory_level()) <= usize::MAX
        },
{
}

/// How the sizes add up: the bytes of a tile in the file are those of its texels rounded up to 4096;
/// the tiles begin at the next multiple of 4096 after the header and the levels that are kept in
/// memory; and each level adds as many tiles as cover it. Here `across` and `down` are the numbers
/// of tiles that cover the level.
pub proof fn law_sizes_add_up(pyramid: Pyramid, count: nat, across: nat, down: nat)
    requires
        pyramid.tile_size > 0,
        count < pyramid.first_in_memory_level(),
        ({
            let extent = pyramid.extents[pyramid.first_in_memory_level() - 1 - count];
            &&& 0 < extent.width <= across * pyramid.tile_size
            &&& 0 < extent.height <= down * pyramid.tile_size
            &&& (across - 1) * pyramid.tile_size < extent.width
            &&& (down - 1) * pyramid.tile_size < extent.height
        }),
    ensures
        ({
            let bytes = pyramid.tile_size * (pyramid.tile_size * pyramid.format.stride());
            let end = 24 + 16 * pyramid.levels.len() + pyramid.top_bytes(pyramid.header_levels());
            let disk = pyramid.tile_disk_bytes();
            &&& bytes <= disk < bytes + 4096
            &&& disk % 4096 == 0
            &&& end <= pyramid.tiled_end(0) < end + 4096
            &&& pyramid.tiled_end(0) % 4096 == 0
            &&& pyramid.tiled_end(count + 1) == pyramid.tiled_end(count) + disk * (across * down)
        }),
{
    let level = pyramid.first_in_memory_level() - 1 - count;
    law_tiles_across(pyramid.extents[level].width as nat, pyramid.tile_size, across);
    law_tiles_across(pyramid.extents[level].height as nat, pyramid.tile_size, down);
}

} // verus!
