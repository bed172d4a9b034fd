//! What stands where in a file, byte by byte, and how an image finds it.
use crate::create::{lemma_some_level_is_tiled, level_views};
use crate::header::HeaderView;
use crate::image::{format_of_code, lemma_format_of_code, ImageView};
use crate::layout::{next_multiple, tiles_across, Pyramid, TOP_LEVELS_BYTES};
use crate::number_laws::{law_encoded_header, lemma_numbers_in_front, long_at, word_at};
use crate::placement::{
    law_header_in_file, law_regular_file_length, law_tile_bytes_in_file, law_tiles_in_order,
    law_top_level_in_file, lemma_stored_top_len, lemma_tiles_across, tile_by_index,
};
use crate::power_of_two::is_power_of_two;
use crate::texel::PixelFormat;
use crate::tiles::{lemma_texels_in_bounds, lemma_tile_shape, TilesView};
use vstd::arithmetic::power2::pow2;
use vstd::prelude::*;

verus! {

/// The number of tiles next to each other is the smallest that covers the length.
pub proof fn law_tiles_across(length: nat, tile_size: nat, across: nat)
    requires
        tile_size > 0,
        length <= across * tile_size,
        length > 0 ==> (across - 1) * tile_size < length,
        length == 0 ==> across == 0,
    ensures
        tiles_across(length, tile_size) == across,
{
    lemma_tiles_across(length, tile_size, across);
    if length > 0 {
        assert(across > 0) by (nonlinear_arith)
            requires
                0 < length <= across * tile_size,
                across >= 0,
                tile_size > 0,
        ;
        lemma_tiles_across(length, tile_size, (across - 1) as nat);
    }
}

/// Rounding up gives the next multiple, and leaves multiples as they are.
pub proof fn law_rounding_up(n: nat, unit: nat, rounded: nat)
    requires
        unit > 0,
        rounded % unit == 0,
        n <= rounded < n + unit,
    ensures
        next_multiple(n, unit) == rounded,
{
    let m = next_multiple(n, unit);
    vstd::arithmetic::div_mod::lemma_fundamental_div_mod(n as int, unit as int);
    vstd::arithmetic::div_mod::lemma_fundamental_div_mod(rounded as int, unit as int);
    let (q, r) = (n / unit, rounded / unit);
    assert(unit * q + n % unit == n);
    assert(rounded == unit * r);
    if n % unit == 0 {
        assert(r == q) by (nonlinear_arith)
            requires
                unit * q <= unit * r < unit * q + unit,
                unit > 0,
        ;
    } else {
        assert(r == q + 1) by (nonlinear_arith)
            requires
                unit * q < unit * r < unit * q + 2 * unit,
                unit > 0,
        ;
        assert(unit * (q + 1) == unit * q + unit) by (nonlinear_arith);
    }
}

/// How a file begins: with `TILE`, the version, the logarithm of the tile size, the format, the
/// first level in memory and the number of levels, then the sides of the levels.
pub proof fn law_file_begins(pyramid: Pyramid)
    requires
        pyramid.can_be_stored(),
        pyramid.levels.len() <= u32::MAX,
        is_power_of_two(pyramid.tile_size),
        pyramid.tile_size <= u32::MAX,
    ensures
        ({
            let file = pyramid.file();
            let count = pyramid.levels.len();
            &&& file.len() >= 24 + 16 * count
            &&& file[0] == 0x54 && file[1] == 0x49 && file[2] == 0x4c && file[3] == 0x45
            &&& word_at(file, 4) == 0
            &&& pow2(word_at(file, 8) as nat) == pyramid.tile_size
            &&& word_at(file, 12) == (match pyramid.format {
                PixelFormat::Luma8 => 0int,
                PixelFormat::Luma16 => 1,
                PixelFormat::Luma32 => 2,
                PixelFormat::Rgb8 => 3,
                PixelFormat::Rgb16 => 4,
                PixelFormat::Rgb32 => 5,
                PixelFormat::Rgba8 => 6,
                PixelFormat::Rgba16 => 7,
                PixelFormat::Rgba32 => 8,
            })
            &&& word_at(file, 16) == pyramid.first_in_memory_level()
            &&& word_at(file, 20) == count
            &&& forall|i: int|
                0 <= i < count ==> word_at(file, 24 + 8 * i) == (
                #[trigger] pyramid.extents[i]).width && word_at(file, 28 + 8 * i)
                    == pyramid.extents[i].height
        }),
{
    let header = pyramid.header();
    let file = pyramid.file();
    law_header_in_file(pyramid);
    law_encoded_header(header);
    lemma_some_level_is_tiled(pyramid, 0);
    let bytes = header.encoded();
    assert(bytes == file.subrange(0, bytes.len() as int));
    assert forall|i: int| 0 <= i < bytes.len() implies #[trigger] file[i] == bytes[i] by {}
    lemma_numbers_in_front(bytes, file, 4);
    lemma_numbers_in_front(bytes, file, 8);
    lemma_numbers_in_front(bytes, file, 12);
    lemma_numbers_in_front(bytes, file, 16);
    lemma_numbers_in_front(bytes, file, 20);
    assert(header.magic[0] == bytes[0] && header.magic[1] == bytes[1] && header.magic[2] == bytes[2]
        && header.magic[3] == bytes[3]);
    let exponent = choose|e: nat| #[trigger] pow2(e) == pyramid.tile_size;
    vstd::arithmetic::power2::lemma2_to64();
    if exponent > 32 {
        vstd::arithmetic::power2::lemma_pow2_strictly_increases(32, exponent);
    }
    assert(pow2((exponent as u32) as nat) == pyramid.tile_size);
    assert forall|i: int| 0 <= i < pyramid.extents.len() implies word_at(file, 24 + 8 * i) == (
    #[trigger] pyramid.extents[i]).width && word_at(file, 28 + 8 * i) == pyramid.extents[i].height by {
        assert(header.level_resolution[i] == pyramid.extents[i]);
        lemma_numbers_in_front(bytes, file, 24 + 8 * i);
        lemma_numbers_in_front(bytes, file, 28 + 8 * i);
    }
}

/// Where the levels that are kept in memory begin, as the file says it: they follow the header
/// without a gap, the smallest first. They have no more than 3800 bytes together; with the next
/// level they would have more. Here `first` is the largest of them.
pub proof fn law_top_levels_in_file(pyramid: Pyramid, level: int, first: int)
    requires
        pyramid.can_be_stored(),
        pyramid.levels.len() <= u32::MAX,
        first == word_at(pyramid.file(), 16),
        first < pyramid.levels.len(),
    ensures
        ({
            let count = pyramid.levels.len();
            let list = 24 + 8 * count;
            let end = long_at(pyramid.file(), list + 8 * first) + pyramid.levels[first].len();
            &&& 0 < first
            &&& long_at(pyramid.file(), list + 8 * (count - 1)) == 24 + 16 * count
            &&& first < level < count ==> long_at(pyramid.file(), list + 8 * (level - 1)) == long_at(
                pyramid.file(),
                list + 8 * level,
            ) + pyramid.levels[level].len()
            &&& end - (24 + 16 * count) <= 3800
            &&& end - (24 + 16 * count) + pyramid.levels[first - 1].len() > 3800
        }),
{
    let count = pyramid.levels.len();
    lemma_first_level(pyramid);
    lemma_start_of_level(pyramid, level);
    lemma_start_of_level(pyramid, level - 1);
    lemma_start_of_level(pyramid, first);
    lemma_start_of_level(pyramid, count - 1);
    lemma_limit(pyramid, 0);
    assert(pyramid.top_bytes(0) == 0);
}

/// Where the tiles begin, as the file says it: the smallest of the tiled levels begins at the first
/// multiple of 4096 after the header and the levels that are kept in memory.
pub proof fn law_tiles_begin(pyramid: Pyramid, first: int)
    requires
        pyramid.can_be_stored(),
        pyramid.levels.len() <= u32::MAX,
        first == word_at(pyramid.file(), 16),
    ensures
        ({
            let count = pyramid.levels.len();
            let list = 24 + 8 * count;
            let begin = long_at(pyramid.file(), list + 8 * (first - 1));
            let end = if first < count {
                long_at(pyramid.file(), list + 8 * first) + pyramid.levels[first].len()
            } else {
                24 + 16 * count as int
            };
            &&& 0 < first <= count
            &&& end <= begin < end + 4096
            &&& begin % 4096 == 0
        }),
{
    lemma_first_level(pyramid);
    lemma_start_of_level(pyramid, first);
    lemma_start_of_level(pyramid, first - 1);
    assert(pyramid.top_bytes(0) == 0);
    assert(pyramid.level_offset(first - 1) == pyramid.tiled_end(0));
}

/// Where the tiled levels begin, as the file says it: each larger one where the tiles of the next
/// smaller one end. Here `disk` is the number of bytes of a tile rounded up to 4096, and `across`
/// and `down` are the numbers of tiles that cover the level.
pub proof fn law_tiled_levels_in_file(
    pyramid: Pyramid,
    level: int,
    disk: nat,
    across: nat,
    down: nat,
)
    requires
        pyramid.can_be_stored(),
        pyramid.levels.len() <= u32::MAX,
        pyramid.tile_size > 0,
        disk % 4096 == 0,
        pyramid.tile_size * (pyramid.tile_size * pyramid.format.stride()) <= disk
            < pyramid.tile_size * (pyramid.tile_size * pyramid.format.stride()) + 4096,
        0 < level < word_at(pyramid.file(), 16),
        0 < pyramid.extents[level].width,
        0 < pyramid.extents[level].height,
        (across - 1) * pyramid.tile_size < pyramid.extents[level].width <= across
            * pyramid.tile_size,
        (down - 1) * pyramid.tile_size < pyramid.extents[level].height <= down * pyramid.tile_size,
    ensures
        ({
            let list = 24 + 8 * pyramid.levels.len();
            long_at(pyramid.file(), list + 8 * (level - 1)) == long_at(
                pyramid.file(),
                list + 8 * level,
            ) + disk * (across * down)
        }),
{
    let size = pyramid.tile_size;
    lemma_first_level(pyramid);
    lemma_start_of_level(pyramid, level);
    lemma_start_of_level(pyramid, level - 1);
    law_rounding_up(size * (size * pyramid.format.stride()), 4096, disk);
    law_tiles_across(pyramid.extents[level].width as nat, size, across);
    law_tiles_across(pyramid.extents[level].height as nat, size, down);
}

/// The first level in memory, as the file says it.
proof fn lemma_first_level(pyramid: Pyramid)
    requires
        pyramid.can_be_stored(),
        pyramid.levels.len() <= u32::MAX,
    ensures
        word_at(pyramid.file(), 16) == pyramid.first_in_memory_level(),
        0 < pyramid.first_in_memory_level() <= pyramid.levels.len(),
        pyramid.header_levels() + pyramid.first_in_memory_level() == pyramid.levels.len(),
{
    let header = pyramid.header();
    let file = pyramid.file();
    law_header_in_file(pyramid);
    law_encoded_header(header);
    lemma_some_level_is_tiled(pyramid, 0);
    let bytes = header.encoded();
    assert(bytes == file.subrange(0, bytes.len() as int));
    assert forall|i: int| 0 <= i < bytes.len() implies #[trigger] file[i] == bytes[i] by {}
    lemma_numbers_in_front(bytes, file, 16);
}

/// Where a level begins, as the file says it.
proof fn lemma_start_of_level(pyramid: Pyramid, level: int)
    requires
        pyramid.can_be_stored(),
        pyramid.levels.len() <= u32::MAX,
    ensures
        0 <= level < pyramid.levels.len() ==> long_at(
            pyramid.file(),
            24 + 8 * pyramid.levels.len() + 8 * level,
        ) == pyramid.level_offset(level),
{
    if 0 <= level < pyramid.levels.len() {
        let header = pyramid.header();
        let file = pyramid.file();
        law_header_in_file(pyramid);
        law_encoded_header(header);
        crate::round_trip::lemma_offsets_fit(pyramid, level);
        let bytes = header.encoded();
        assert(bytes == file.subrange(0, bytes.len() as int));
        assert forall|i: int| 0 <= i < bytes.len() implies #[trigger] file[i] == bytes[i] by {}
        lemma_numbers_in_front(bytes, file, 24 + 8 * pyramid.levels.len() + 8 * level);
        assert(header.level_offset[level] == pyramid.level_offset(level));
    }
}

/// The levels next to the header have no more than the limit, and with one more they would.
proof fn lemma_limit(pyramid: Pyramid, count: nat)
    requires
        pyramid.top_bytes(count) <= TOP_LEVELS_BYTES,
    ensures
        pyramid.top_bytes(pyramid.levels_before_limit(count)) <= 3800,
        pyramid.levels_before_limit(count) > 0 ==> pyramid.top_bytes(
            pyramid.levels_before_limit(count) + 1,
        ) > 3800,
    decreases pyramid.levels.len() - count,
{
    if count < pyramid.levels.len() && pyramid.top_bytes(count + 1) <= TOP_LEVELS_BYTES {
        lemma_limit(pyramid, count + 1);
    } else {
        assert(pyramid.top_bytes(0) == 0);
    }
}

/// When no level is kept in memory: the smallest alone has more than 3800 bytes, or all together
/// have no more.
pub proof fn law_no_level_in_memory(pyramid: Pyramid)
    requires
        pyramid.can_be_stored(),
        pyramid.levels.len() <= u32::MAX,
    ensures
        word_at(pyramid.file(), 16) == pyramid.levels.len() <==> {
            ||| pyramid.levels[pyramid.levels.len() - 1].len() > 3800
            ||| pyramid.top_bytes(pyramid.levels.len()) <= 3800
        },
        pyramid.top_bytes(0) == 0,
        forall|count: nat|
            count < pyramid.levels.len() ==> #[trigger] pyramid.top_bytes(count + 1)
                == pyramid.top_bytes(count) + pyramid.levels[pyramid.levels.len() - 1 - count].len(),
{
    lemma_first_level(pyramid);
    reveal_with_fuel(Pyramid::top_bytes, 2);
    reveal_with_fuel(Pyramid::levels_before_limit, 2);
    lemma_never_passed(pyramid, 0);
    if pyramid.levels[pyramid.levels.len() - 1].len() <= 3800 {
        assert(pyramid.top_bytes(1) <= 3800);
        lemma_never_passed(pyramid, 1);
    }
}

proof fn lemma_never_passed(pyramid: Pyramid, count: nat)
    requires
        count <= pyramid.levels.len(),
        pyramid.top_bytes(count) <= TOP_LEVELS_BYTES,
    ensures
        pyramid.top_bytes(pyramid.levels.len()) <= TOP_LEVELS_BYTES ==> pyramid.levels_before_limit(
            count,
        ) == 0,
        pyramid.top_bytes(pyramid.levels.len()) > TOP_LEVELS_BYTES ==> pyramid.levels_before_limit(
            count,
        ) >= count,
    decreases pyramid.levels.len() - count,
{
    if count < pyramid.levels.len() {
        crate::create::lemma_top_bytes_grow(pyramid, count + 1, pyramid.levels.len());
        if pyramid.top_bytes(count + 1) <= TOP_LEVELS_BYTES {
            lemma_never_passed(pyramid, count + 1);
        }
    }
}

/// A level that is kept in memory stands in the file as it is, from where the file says on.
pub proof fn law_top_level_bytes(pyramid: Pyramid, level: int, k: int)
    requires
        pyramid.can_be_stored(),
        pyramid.levels.len() <= u32::MAX,
        word_at(pyramid.file(), 16) <= level < pyramid.levels.len(),
        0 <= k < pyramid.levels[level].len(),
    ensures
        ({
            let start = long_at(pyramid.file(), 24 + 8 * pyramid.levels.len() + 8 * level);
            &&& 0 <= start + k < pyramid.file().len()
            &&& pyramid.file()[start + k] == pyramid.levels[level][k]
        }),
{
    lemma_first_level(pyramid);
    lemma_start_of_level(pyramid, level);
    law_top_level_in_file(pyramid, level);
    let start = pyramid.level_offset(level) as int;
    let part = pyramid.levels[level];
    assert(pyramid.file().subrange(start, start + part.len())[k] == part[k]);
}

/// Where a byte of a texel of a tiled level stands in the file: in the tile of the texel, the tiles
/// counted row by row; in the tile, texel by texel and row by row. Here `across` tiles cover the
/// width, and `disk` is the number of bytes of a tile rounded up to 4096.
pub proof fn law_texel_in_file(
    pyramid: Pyramid,
    level: int,
    x: nat,
    y: nat,
    c: nat,
    disk: nat,
    across: nat,
)
    requires
        pyramid.can_be_stored(),
        pyramid.levels.len() <= u32::MAX,
        pyramid.tile_size > 0,
        0 <= level < word_at(pyramid.file(), 16),
        forall|smaller: int|
            level <= smaller < pyramid.first_in_memory_level() ==> #[trigger] pyramid.is_regular(
                smaller,
            ),
        x < pyramid.extents[level].width,
        y < pyramid.extents[level].height,
        c < pyramid.format.stride(),
        disk % 4096 == 0,
        pyramid.tile_size * (pyramid.tile_size * pyramid.format.stride()) <= disk
            < pyramid.tile_size * (pyramid.tile_size * pyramid.format.stride()) + 4096,
        (across - 1) * pyramid.tile_size < pyramid.extents[level].width <= across
            * pyramid.tile_size,
    ensures
        ({
            let size = pyramid.tile_size;
            let stride = pyramid.format.stride();
            let start = long_at(pyramid.file(), 24 + 8 * pyramid.levels.len() + 8 * level);
            let at = start + ((y / size) * across + x / size) * disk + ((y % size) * size + x
                % size) * stride + c;
            &&& 0 <= at < pyramid.file().len()
            &&& pyramid.file()[at] == pyramid.levels[level][(y * pyramid.extents[level].width + x)
                * stride + c]
        }),
{
    let size = pyramid.tile_size;
    let stride = pyramid.format.stride();
    let (width, height) = (pyramid.extents[level].width as nat, pyramid.extents[level].height as nat);
    lemma_first_level(pyramid);
    lemma_start_of_level(pyramid, level);
    law_rounding_up(size * (size * stride), 4096, disk);
    law_tiles_across(width, size, across);
    let (tx, ty, rx, ry) = (x / size, y / size, x % size, y % size);
    vstd::arithmetic::div_mod::lemma_fundamental_div_mod(x as int, size as int);
    vstd::arithmetic::div_mod::lemma_fundamental_div_mod(y as int, size as int);
    assert(size * tx == tx * size && size * ty == ty * size) by (nonlinear_arith);
    lemma_tiles_across(width, size, tx);
    lemma_tiles_across(height, size, ty);
    let down = tiles_across(height, size);
    let index = ty * across + tx;
    assert(index < across * down) by (nonlinear_arith)
        requires
            tx < across,
            ty < down,
            index == ty * across + tx,
    ;
    lemma_parts(index, ty, across, tx);
    let row_bytes = size * stride;
    let byte = (ry * size + rx) * stride + c;
    let at = rx * stride + c;
    assert(byte == ry * row_bytes + at) by (nonlinear_arith)
        requires
            byte == (ry * size + rx) * stride + c,
            row_bytes == size * stride,
            at == rx * stride + c,
    ;
    assert(at < row_bytes) by (nonlinear_arith)
        requires
            at == rx * stride + c,
            row_bytes == size * stride,
            rx + 1 <= size,
            c < stride,
    ;
    lemma_parts(byte, ry, row_bytes, at);
    lemma_parts(at, rx, stride, c);
    assert(byte < size * row_bytes) by (nonlinear_arith)
        requires
            byte == ry * row_bytes + at,
            at < row_bytes,
            ry + 1 <= size,
    ;
    law_tile_bytes_in_file(pyramid, level, index, byte);
}

/// Quotient and remainder of what was put together of them.
pub proof fn lemma_parts(whole: nat, quotient: nat, unit: nat, rest: nat)
    requires
        whole == quotient * unit + rest,
        rest < unit,
    ensures
        whole / unit == quotient,
        whole % unit == rest,
{
    vstd::arithmetic::div_mod::lemma_fundamental_div_mod_converse(
        whole as int,
        unit as int,
        quotient as int,
        rest as int,
    );
}

/// A file ends with the last tile of the largest level.
pub proof fn law_file_ends(pyramid: Pyramid, disk: nat, across: nat, down: nat)
    requires
        pyramid.can_be_stored(),
        pyramid.levels.len() <= u32::MAX,
        pyramid.tile_size > 0,
        forall|level: int|
            0 <= level < pyramid.first_in_memory_level() ==> #[trigger] pyramid.is_regular(level),
        disk % 4096 == 0,
        pyramid.tile_size * (pyramid.tile_size * pyramid.format.stride()) <= disk
            < pyramid.tile_size * (pyramid.tile_size * pyramid.format.stride()) + 4096,
        0 < pyramid.extents[0].width,
        0 < pyramid.extents[0].height,
        (across - 1) * pyramid.tile_size < pyramid.extents[0].width <= across * pyramid.tile_size,
        (down - 1) * pyramid.tile_size < pyramid.extents[0].height <= down * pyramid.tile_size,
    ensures
        pyramid.file().len() == long_at(pyramid.file(), 24 + 8 * pyramid.levels.len() as int) + disk
            * (across * down),
{
    let size = pyramid.tile_size;
    lemma_first_level(pyramid);
    lemma_start_of_level(pyramid, 0);
    law_regular_file_length(pyramid);
    law_rounding_up(size * (size * pyramid.format.stride()), 4096, disk);
    law_tiles_across(pyramid.extents[0].width as nat, size, across);
    law_tiles_across(pyramid.extents[0].height as nat, size, down);
}

/// The tiles of a level, one after the other: row by row, each as many scanlines and as many texels
/// of them as the tile is large or as the level has left, with the bytes of the level.
pub proof fn law_tiles_of_level(
    tiles: TilesView,
    across: nat,
    down: nat,
    column: nat,
    line: nat,
    row: nat,
    byte: nat,
)
    requires
        tiles.tile_size > 0,
        tiles.x == 0,
        tiles.y == 0,
        tiles.width > 0,
        tiles.height > 0,
        tiles.width * tiles.height * tiles.stride == tiles.data.len(),
        (across - 1) * tiles.tile_size < tiles.width <= across * tiles.tile_size,
        (down - 1) * tiles.tile_size < tiles.height <= down * tiles.tile_size,
        column < across,
        line < down,
    ensures
        ({
            let tile = tiles.rest()[(line * across + column) as int];
            let (x, y) = (column * tiles.tile_size, line * tiles.tile_size);
            &&& tiles.rest().len() == across * down
            &&& 0 <= line * across + column < tiles.rest().len()
            &&& row < tile.len() <==> row < tiles.tile_size && y + row < tiles.height
            &&& row < tile.len() ==> {
                &&& byte < tile[row as int].len() <==> byte < tiles.tile_size * tiles.stride && byte
                    < (tiles.width - x) * tiles.stride
                &&& byte < tile[row as int].len() ==> tile[row as int][byte as int] == tiles.data[(((
                y + row) * tiles.width + x) * tiles.stride + byte) as int]
            }
        }),
{
    let size = tiles.tile_size;
    law_tiles_across(tiles.width, size, across);
    law_tiles_across(tiles.height, size, down);
    law_tiles_in_order(tiles);
    let index = line * across + column;
    assert(index < across * down) by (nonlinear_arith)
        requires
            column < across,
            line < down,
            index == line * across + column,
    ;
    lemma_parts(index, line, across, column);
    let tile = tiles.rest()[index as int];
    assert(tile == tile_by_index(tiles, index));
    let (x, y) = (column * size, line * size);
    lemma_tiles_across(tiles.width, size, column);
    lemma_tiles_across(tiles.height, size, line);
    assert(tile == tiles.tile(x, y));
    lemma_tile_shape(tiles, x, y);
    if row < tile.len() {
        let left = (tiles.width - x) as nat;
        let count = crate::tiles::min(size, left);
        assert(tile[row as int].len() == count * tiles.stride);
        assert(count * tiles.stride <= size * tiles.stride && count * tiles.stride <= left
            * tiles.stride) by (nonlinear_arith)
            requires
                count <= size,
                count <= left,
        ;
        lemma_texels_in_bounds(tiles.width, tiles.height, tiles.stride, x, y + row, count);
    }
}

/// The numbers by which an image addresses its file and its tiles. Here `across` tiles cover the
/// width of the level, and `disk` is the number of bytes of a tile rounded up to 4096.
pub proof fn law_image_numbers(
    image: ImageView,
    level: int,
    x: nat,
    y: nat,
    tile_x: nat,
    tile_y: nat,
    disk: nat,
    across: nat,
)
    requires
        0 <= level < image.extents.len(),
        image.extents[level].width <= across * pow2(image.log_tile_size as nat),
        image.extents[level].width > 0 ==> (across - 1) * pow2(image.log_tile_size as nat)
            < image.extents[level].width,
        image.extents[level].width == 0 ==> across == 0,
        disk % 4096 == 0,
        pow2(image.log_tile_size as nat) * pow2(image.log_tile_size as nat)
            * image.format.stride() <= disk < pow2(image.log_tile_size as nat) * pow2(
            image.log_tile_size as nat,
        ) * image.format.stride() + 4096,
    ensures
        ({
            let side = pow2(image.log_tile_size as nat);
            let stride = image.format.stride();
            &&& image.tile_size() == side
            &&& image.tile_bytes() == side * side * stride
            &&& image.texel_in_tile(x, y) == (y % side) * side + x % side
            &&& image.texel_offset(x, y) == stride * ((y % side) * side + x % side)
            &&& image.file_offset(tile_x, tile_y, level) == image.offsets[level] + disk * (tile_y
                * across + tile_x)
            &&& image.can_address(tile_x, tile_y, level) <==> {
                &&& image.log_tile_size < 32
                &&& image.offsets.len() == image.extents.len()
                &&& image.extents[level].width + side <= u32::MAX
                &&& tile_y * across + tile_x <= u32::MAX
                &&& image.offsets[level] + disk * (tile_y * across + tile_x) <= usize::MAX
                &&& disk <= usize::MAX
            }
        }),
{
    let side = pow2(image.log_tile_size as nat);
    vstd::arithmetic::power2::lemma_pow2_pos(image.log_tile_size as nat);
    law_rounding_up(side * side * image.format.stride(), 4096, disk);
    law_tiles_across(image.extents[level].width as nat, side, across);
}

/// Which texels of a level are kept in memory, and where: texels go row by row, and an `x` past the
/// right edge counts on in the next row.
pub proof fn law_texel_in_memory(image: ImageView, level: int, x: nat, y: nat, c: int)
    requires
        image.is_consistent(),
        image.first_in_memory_level <= level < image.extents.len(),
    ensures
        ({
            let extent = image.extents[level];
            let stride = image.format.stride();
            let number = y * extent.width + x;
            let texel = image.in_memory_texel(x, y, level);
            let bytes = image.in_memory_levels[level - image.first_in_memory_level];
            &&& image.has_in_memory(x, y, level) <==> number < extent.width * extent.height
            &&& image.has_in_memory(x, y, level) ==> texel.len() == stride
            &&& image.has_in_memory(x, y, level) && 0 <= c < stride ==> texel[c] == bytes[number
                * stride + c]
        }),
{
    let extent = image.extents[level];
    let stride = image.format.stride();
    let number = y * extent.width + x;
    let count = extent.width * extent.height;
    if number < count {
        assert(0 <= number * stride && number * stride + stride <= count * stride)
            by (nonlinear_arith)
            requires
                0 <= number,
                number + 1 <= count,
                stride >= 0,
        ;
    }
}

/// The image that a header and a file stand for: what the header says, with the levels from the
/// first one in memory on, byte by byte, from where the header says that they begin.
pub proof fn law_image_of_file(header: HeaderView, file: Seq<u8>, level: int, k: int)
    requires
        header.is_loadable(),
        header.first_in_memory_level <= level < header.level_offset.len(),
    ensures
        ({
            let image = header.image(file);
            let extent = header.level_resolution[level];
            let bytes = image.in_memory_levels[level - header.first_in_memory_level];
            let start = header.level_offset[level];
            &&& image.format.code() == header.format
            &&& image.log_tile_size == header.log_tile_size
            &&& image.first_in_memory_level == header.first_in_memory_level
            &&& image.extents == header.level_resolution
            &&& image.offsets.len() == header.level_offset.len()
            &&& start <= usize::MAX ==> image.offsets[level] == start
            &&& header.holds_level(file, level) <==> {
                ||| extent.width * extent.height * image.format.stride() == 0
                ||| start + extent.width * extent.height * image.format.stride() <= file.len()
            }
            &&& header.holds_level(file, level) ==> bytes.len() == extent.width * extent.height
                * image.format.stride()
            &&& header.holds_level(file, level) && 0 <= k < bytes.len() ==> bytes[k] == file[start
                + k]
        }),
{
    lemma_format_of_code(header.format);
    assert(format_of_code(header.format).code() == header.format);
}

/// What an image has of its header: the format with its number, the tile size, the sides of each
/// level, and where each level begins in the file. It keeps all levels from the first one in memory
/// on.
pub proof fn law_image_of_header(header: HeaderView, file: Seq<u8>, level: int)
    requires
        header.is_loadable(),
    ensures
        ({
            let image = header.image(file);
            &&& image.format.code() == header.format
            &&& image.log_tile_size == header.log_tile_size
            &&& image.first_in_memory_level == header.first_in_memory_level
            &&& image.extents == header.level_resolution
            &&& image.offsets.len() == header.level_offset.len()
            &&& image.in_memory_levels.len() == header.level_offset.len()
                - header.first_in_memory_level
            &&& 0 <= level < header.level_offset.len() && header.level_offset[level] <= usize::MAX
                ==> image.offsets[level] == header.level_offset[level]
        }),
{
    lemma_format_of_code(header.format);
}

/// When an image can be made of a header: the format is one of the nine, there is an offset for
/// each level, the first level in memory is no further than past the last, and the texels of the
/// levels in memory can be counted with 32 bits and their bytes by the machine.
pub proof fn law_loadable(header: HeaderView)
    ensures
        header.is_loadable() <==> {
            &&& header.format <= 8
            &&& header.level_offset.len() == header.level_resolution.len()
            &&& header.first_in_memory_level <= header.level_offset.len()
            &&& forall|level: int|
                header.first_in_memory_level <= level < header.level_resolution.len() ==> {
                    let extent = #[trigger] header.level_resolution[level];
                    &&& extent.width * extent.height <= 0xffff_ffff
                    &&& forall|format: PixelFormat|
                        format.code() == header.format ==> extent.width * extent.height
                            * #[trigger] format.stride() <= usize::MAX
                }
        },
{
    if header.format <= 8 {
        lemma_format_of_code(header.format);
        assert forall|format: PixelFormat| format.code() == header.format implies
            #[trigger] format.stride() == format_of_code(header.format).stride() by {}
        assert forall|level: int| 0 <= level < header.level_resolution.len() implies
            header.level_bytes(level) == (#[trigger] header.level_resolution[level]).width
            * header.level_resolution[level].height * format_of_code(header.format).stride() by {}
    }
}

/// Between the header with the levels that are kept in memory and the first tile there are zeros.
pub proof fn law_gap_in_file(pyramid: Pyramid, first: int, at: int)
    requires
        pyramid.can_be_stored(),
        pyramid.levels.len() <= u32::MAX,
        first == word_at(pyramid.file(), 16),
        first == pyramid.levels.len() ==> 24 + 16 * pyramid.levels.len() <= at,
        first < pyramid.levels.len() ==> long_at(
            pyramid.file(),
            24 + 8 * pyramid.levels.len() + 8 * first,
        ) + pyramid.levels[first].len() <= at,
        at < long_at(pyramid.file(), 24 + 8 * pyramid.levels.len() + 8 * (first - 1)),
    ensures
        at < pyramid.file().len(),
        pyramid.file()[at] == 0,
{
    lemma_first_level(pyramid);
    lemma_start_of_level(pyramid, first);
    lemma_start_of_level(pyramid, first - 1);
    law_encoded_header(pyramid.header());
    lemma_stored_top_len(pyramid, pyramid.header_levels());
    assert(pyramid.top_bytes(0) == 0);
    assert(pyramid.level_offset(first - 1) == pyramid.tiled_end(0));
    assert(pyramid.header_end() <= at < pyramid.tiled_end(0));
    let front = pyramid.header().encoded() + pyramid.stored_top(pyramid.header_levels());
    assert(front.len() == pyramid.header_end());
}

/// What fills up the tiles of a level is zeros: where a tile reaches over the right or the lower edge
/// of the level, and after the texels of each tile. Here `across` and `down` are the numbers of
/// tiles that cover the level, and `disk` is the number of bytes of a tile rounded up to 4096.
pub proof fn law_padding_in_file(
    pyramid: Pyramid,
    level: int,
    tile_x: nat,
    tile_y: nat,
    byte: nat,
    disk: nat,
    across: nat,
    down: nat,
)
    requires
        pyramid.can_be_stored(),
        pyramid.levels.len() <= u32::MAX,
        pyramid.tile_size > 0,
        0 <= level < word_at(pyramid.file(), 16),
        forall|smaller: int|
            level <= smaller < pyramid.first_in_memory_level() ==> #[trigger] pyramid.is_regular(
                smaller,
            ),
        disk % 4096 == 0,
        pyramid.tile_size * (pyramid.tile_size * pyramid.format.stride()) <= disk
            < pyramid.tile_size * (pyramid.tile_size * pyramid.format.stride()) + 4096,
        0 < pyramid.extents[level].width <= across * pyramid.tile_size,
        0 < pyramid.extents[level].height <= down * pyramid.tile_size,
        (across - 1) * pyramid.tile_size < pyramid.extents[level].width,
        (down - 1) * pyramid.tile_size < pyramid.extents[level].height,
        tile_x < across,
        tile_y < down,
        byte < disk,
    ensures
        ({
            let size = pyramid.tile_size;
            let stride = pyramid.format.stride();
            let start = long_at(pyramid.file(), 24 + 8 * pyramid.levels.len() + 8 * level);
            let at = start + (tile_y * across + tile_x) * disk + byte;
            let x = tile_x * size + byte % (size * stride) / stride;
            let y = tile_y * size + byte / (size * stride);
            &&& 0 <= at < pyramid.file().len()
            &&& byte >= size * (size * stride) || x >= pyramid.extents[level].width || y
                >= pyramid.extents[level].height ==> pyramid.file()[at] == 0
        }),
{
    let size = pyramid.tile_size;
    let stride = pyramid.format.stride();
    let (width, height) = (pyramid.extents[level].width as nat, pyramid.extents[level].height as nat);
    lemma_first_level(pyramid);
    lemma_start_of_level(pyramid, level);
    law_rounding_up(size * (size * stride), 4096, disk);
    law_tiles_across(width, size, across);
    law_tiles_across(height, size, down);
    let index = tile_y * across + tile_x;
    assert(index < across * down) by (nonlinear_arith)
        requires
            tile_x < across,
            tile_y < down,
            index == tile_y * across + tile_x,
    ;
    lemma_parts(index, tile_y, across, tile_x);
    let row_bytes = size * stride;
    let row = byte / row_bytes;
    assert(row_bytes > 0) by (nonlinear_arith)
        requires
            row_bytes == size * stride,
            size > 0,
            stride > 0,
    ;
    vstd::arithmetic::div_mod::lemma_fundamental_div_mod(byte as int, row_bytes as int);
    assert(byte >= size * row_bytes ==> row >= size) by (nonlinear_arith)
        requires
            byte == row_bytes * row + byte % row_bytes,
            byte % row_bytes < row_bytes,
            row_bytes > 0,
            row >= 0,
    ;
    law_tile_bytes_in_file(pyramid, level, index, byte);
}

/// When a level can be asked for in one piece: its first tile can be addressed, and its texels and
/// its bytes can be counted.
pub proof fn law_when_level_can_be_got(image: ImageView, level: int)
    ensures
        image.can_get_level(level) <==> image.can_address(0, 0, level) && image.extents[level].width
            * image.extents[level].height <= 0xffff_ffff && image.extents[level].width
            * image.extents[level].height * image.format.stride() <= usize::MAX,
{
}

/// Levels by what they hold: as many, and each with the same bytes.
pub proof fn law_level_views(levels: Seq<Vec<u8>>, i: int)
    ensures
        level_views(levels).len() == levels.len(),
        0 <= i < levels.len() ==> level_views(levels)[i] == levels[i]@,
{
}

} // verus!
