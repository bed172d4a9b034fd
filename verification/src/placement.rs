//! What a tiled image file holds at which place.
use crate::create::lemma_some_level_is_tiled;
use crate::header::{header_size, law_encoded_size};
use crate::layout::{
    concat, next_multiple, stored_scanline, stored_tile, tiles_across, Pyramid,
    TILE_DISK_ALIGNMENT,
};
use crate::tiles::{lemma_texels_in_bounds, lemma_tile_shape, min, TilesView};
use vstd::prelude::*;

verus! {

/// Whether `part` is what `whole` holds from `at` on.
pub open spec fn stands_at(whole: Seq<u8>, at: int, part: Seq<u8>) -> bool {
    &&& 0 <= at
    &&& at + part.len() <= whole.len()
    &&& whole.subrange(at, at + part.len()) == part
}

/// A part stands where the parts before it end.
proof fn lemma_concat_part(parts: Seq<Seq<u8>>, i: int)
    requires
        0 <= i < parts.len(),
    ensures
        stands_at(concat(parts), concat(parts.take(i)).len() as int, parts[i]),
    decreases parts.len(),
{
    let front = parts.drop_last();
    let at = concat(parts.take(i)).len() as int;
    if i == parts.len() - 1 {
        assert(parts.take(i) =~= front);
        assert(concat(parts).subrange(at, at + parts[i].len()) =~= parts[i]);
    } else {
        lemma_concat_part(front, i);
        assert(front.take(i) =~= parts.take(i));
        assert(front[i] == parts[i]);
        assert(concat(parts).subrange(at, at + parts[i].len()) =~= concat(front).subrange(
            at,
            at + parts[i].len(),
        ));
    }
}

/// Of parts of one length, each stands at a multiple of that length.
proof fn lemma_concat_uniform(parts: Seq<Seq<u8>>, len: nat)
    requires
        forall|i: int| 0 <= i < parts.len() ==> (#[trigger] parts[i]).len() == len,
    ensures
        concat(parts).len() == parts.len() * len,
        forall|i: int| 0 <= i < parts.len() ==> stands_at(concat(parts), i * len, #[trigger] parts[i]),
{
    lemma_concat_uniform_len(parts, len);
    assert forall|i: int| 0 <= i < parts.len() implies stands_at(
        concat(parts),
        i * len,
        #[trigger] parts[i],
    ) by {
        lemma_concat_part(parts, i);
        lemma_concat_uniform_len(parts.take(i), len);
        assert(i * len + len <= parts.len() * len) by (nonlinear_arith)
            requires
                i + 1 <= parts.len(),
        ;
        assert(0 <= i * len) by (nonlinear_arith)
            requires
                0 <= i,
        ;
    }
}

proof fn lemma_concat_uniform_len(parts: Seq<Seq<u8>>, len: nat)
    requires
        forall|i: int| 0 <= i < parts.len() ==> (#[trigger] parts[i]).len() == len,
    ensures
        concat(parts).len() == parts.len() * len,
    decreases parts.len(),
{
    if parts.len() == 0 {
        assert(parts.len() * len == 0) by (nonlinear_arith)
            requires
                parts.len() == 0,
        ;
    } else {
        lemma_concat_uniform_len(parts.drop_last(), len);
        assert(parts.len() * len == (parts.len() - 1) * len + len) by (nonlinear_arith);
    }
}

/// Tiles cover a length, and none of them begins past it.
pub proof fn lemma_tiles_across(length: nat, tile_size: nat, index: nat)
    requires
        tile_size > 0,
    ensures
        index < tiles_across(length, tile_size) <==> index * tile_size < length,
{
    let count = tiles_across(length, tile_size);
    let top = (length + tile_size - 1) as int;
    vstd::arithmetic::div_mod::lemma_fundamental_div_mod(top, tile_size as int);
    assert(tile_size * count + top % tile_size as int == top);
    if index < count {
        assert(index * tile_size + tile_size <= tile_size * count) by (nonlinear_arith)
            requires
                index + 1 <= count,
        ;
    } else {
        assert(index * tile_size >= tile_size * count) by (nonlinear_arith)
            requires
                index >= count,
        ;
    }
}

/// The tiles of a level by their index, counted left to right, top to bottom.
pub open spec fn tile_by_index(tiles: TilesView, index: nat) -> Seq<Seq<u8>> {
    let x_tiles = tiles_across(tiles.width, tiles.tile_size);
    tiles.tile((index % x_tiles) * tiles.tile_size, (index / x_tiles) * tiles.tile_size)
}

proof fn lemma_rest_from(tiles: TilesView, column: nat, row: nat)
    requires
        tiles.tile_size > 0,
        tiles.width > 0,
        tiles.x == column * tiles.tile_size,
        tiles.y == row * tiles.tile_size,
        column <= tiles_across(tiles.width, tiles.tile_size),
        row < tiles_across(tiles.height, tiles.tile_size) || (row == 0 && column == 0),
    ensures
        tiles.rest().len() == tiles_across(tiles.width, tiles.tile_size) * tiles_across(
            tiles.height,
            tiles.tile_size,
        ) - (row * tiles_across(tiles.width, tiles.tile_size) + column),
        forall|i: int|
            0 <= i < tiles.rest().len() ==> #[trigger] tiles.rest()[i] == tile_by_index(
                tiles,
                (row * tiles_across(tiles.width, tiles.tile_size) + column + i) as nat,
            ),
    decreases tiles.rest().len(),
{
    let size = tiles.tile_size;
    let x_tiles = tiles_across(tiles.width, size);
    let y_tiles = tiles_across(tiles.height, size);
    let index = row * x_tiles + column;
    lemma_tiles_across(tiles.width, size, column);
    lemma_tiles_across(tiles.width, size, 0);
    lemma_tiles_across(tiles.height, size, row);
    lemma_tiles_across(tiles.height, size, row + 1);
    assert((row + 1) * size == row * size + size) by (nonlinear_arith);
    assert((column + 1) * size == column * size + size) by (nonlinear_arith);
    assert(0 * size == 0);
    assert((row + 1) * x_tiles == row * x_tiles + x_tiles) by (nonlinear_arith);
    let here = tiles.wrapped();
    let (c, r) = if column < x_tiles {
        (column, row)
    } else {
        (0nat, row + 1)
    };
    assert(here.x == c * size && here.y == r * size);
    assert(index == r * x_tiles + c);
    assert(0 * x_tiles == 0);
    if tiles.has_next() {
        let next = here.at(here.x + size, here.y);
        let first = tiles.tile(here.x, here.y);
        assert((c + 1) * size == c * size + size) by (nonlinear_arith);
        lemma_tiles_across(tiles.height, size, r);
        assert(tiles.rest() == seq![first] + next.rest());
        lemma_rest_from(next, c + 1, r);
        vstd::arithmetic::div_mod::lemma_fundamental_div_mod_converse(
            index as int,
            x_tiles as int,
            r as int,
            c as int,
        );
        assert forall|i: int| 0 <= i < tiles.rest().len() implies #[trigger] tiles.rest()[i]
            == tile_by_index(tiles, (index + i) as nat) by {
            if i > 0 {
                assert(tiles.rest()[i] == next.rest()[i - 1]);
                let other = (index + i) as nat;
                assert(tile_by_index(next, other) =~= tile_by_index(tiles, other));
            }
        }
    } else {
        lemma_tiles_across(tiles.height, size, r);
        assert(r >= y_tiles);
        if row < y_tiles {
            assert(column == x_tiles && r == y_tiles);
            assert(x_tiles * y_tiles == y_tiles * x_tiles) by (nonlinear_arith);
        } else {
            assert(y_tiles == 0);
            assert(x_tiles * y_tiles == 0) by (nonlinear_arith)
                requires
                    y_tiles == 0,
            ;
        }
    }
}

/// A level that is not empty in one direction only is covered by as many tiles as fit next to
/// each other and below each other, in that order.
pub proof fn law_tiles_in_order(tiles: TilesView)
    requires
        tiles.tile_size > 0,
        tiles.x == 0,
        tiles.y == 0,
        tiles.width > 0 || tiles.height <= tiles.tile_size,
    ensures
        tiles.rest().len() == tiles_across(tiles.width, tiles.tile_size) * tiles_across(
            tiles.height,
            tiles.tile_size,
        ),
        forall|i: int|
            0 <= i < tiles.rest().len() ==> #[trigger] tiles.rest()[i] == tile_by_index(
                tiles,
                i as nat,
            ),
{
    if tiles.width > 0 {
        assert(0 * tiles.tile_size == 0);
        assert(0 * tiles_across(tiles.width, tiles.tile_size) == 0);
        lemma_rest_from(tiles, 0, 0);
    } else {
        lemma_tiles_across(0, tiles.tile_size, 0);
        let y_tiles = tiles_across(tiles.height, tiles.tile_size);
        assert(0 * y_tiles == 0);
    }
}

/// Each step gives the first of the tiles that are still to come, and leaves the others; once there
/// are none, no further step gives one.
pub proof fn law_steps_give_the_rest(tiles: TilesView)
    requires
        tiles.tile_size > 0,
    ensures
        match tiles.step().0 {
            Some(tile) => tiles.rest() == seq![tile] + tiles.step().1.rest(),
            None => tiles.rest().len() == 0 && tiles.step().1.rest().len() == 0,
        },
{
}

/// Whether a tile of the level, by its index, has a byte in a scanline.
pub open spec fn has_tile_byte(tiles: TilesView, index: nat, row: nat, byte: nat) -> bool {
    &&& index < tiles.rest().len()
    &&& row < tiles.rest()[index as int].len()
    &&& byte < tiles.rest()[index as int][row as int].len()
}

/// Where a byte of a scanline of a tile stands in the level.
pub open spec fn byte_place(tiles: TilesView, index: nat, row: nat, byte: nat) -> nat {
    let x_tiles = tiles_across(tiles.width, tiles.tile_size);
    let x = (index % x_tiles) * tiles.tile_size;
    let y = (index / x_tiles) * tiles.tile_size + row;
    (y * tiles.width + x) * tiles.stride + byte
}

/// A level from its first tile on, with the bytes that its sides promise.
pub open spec fn is_whole_level(tiles: TilesView) -> bool {
    &&& tiles.tile_size > 0
    &&& tiles.stride > 0
    &&& tiles.x == 0
    &&& tiles.y == 0
    &&& tiles.width > 0 || tiles.height <= tiles.tile_size
    &&& tiles.width * tiles.height * tiles.stride == tiles.data.len()
}

/// The numbers that the place of a byte is made of.
proof fn lemma_tile_byte(tiles: TilesView, index: nat, row: nat, byte: nat)
    requires
        is_whole_level(tiles),
        has_tile_byte(tiles, index, row, byte),
    ensures
        ({
            let size = tiles.tile_size;
            let x_tiles = tiles_across(tiles.width, size);
            let (column, line) = (index % x_tiles, index / x_tiles);
            let scan = tiles.width * tiles.stride;
            let place = byte_place(tiles, index, row, byte);
            &&& x_tiles > 0
            &&& column < x_tiles
            &&& row < size
            &&& byte < size * tiles.stride
            &&& line * size + row < tiles.height
            &&& column * (size * tiles.stride) + byte < scan
            &&& place == (line * size + row) * scan + column * (size * tiles.stride) + byte
            &&& place < tiles.data.len()
            &&& tiles.rest()[index as int][row as int][byte as int] == tiles.data[place as int]
        }),
{
    let size = tiles.tile_size;
    let (width, height, stride) = (tiles.width, tiles.height, tiles.stride);
    let x_tiles = tiles_across(width, size);
    law_tiles_in_order(tiles);
    lemma_tile_by_index_begins(width, height, size, index);
    let (column, line) = (index % x_tiles, index / x_tiles);
    let (x, y) = (column * size, line * size + row);
    let tile = tiles.tile(x, line * size);
    assert(tiles.rest()[index as int] == tile);
    lemma_tile_shape(tiles, x, line * size);
    let count = min(size, (width - x) as nat);
    assert(tile[row as int] == tiles.texels(x, y, count));
    assert(tile[row as int].len() == count * stride);
    lemma_texels_in_bounds(width, height, stride, x, y, count);
    assert(x * stride == column * (size * stride)) by (nonlinear_arith)
        requires
            x == column * size,
    ;
    assert(x * stride + count * stride <= width * stride) by (nonlinear_arith)
        requires
            x + count <= width,
    ;
    assert(count * stride <= size * stride) by (nonlinear_arith)
        requires
            count <= size,
    ;
}

/// Each byte of a tile is a byte of the level, at its place.
pub proof fn law_tile_byte_is_in_level(tiles: TilesView, index: nat, row: nat, byte: nat)
    requires
        is_whole_level(tiles),
        has_tile_byte(tiles, index, row, byte),
    ensures
        byte_place(tiles, index, row, byte) < tiles.data.len(),
        tiles.rest()[index as int][row as int][byte as int] == tiles.data[byte_place(
            tiles,
            index,
            row,
            byte,
        ) as int],
{
    lemma_tile_byte(tiles, index, row, byte);
}

/// No two bytes of tiles are the same byte of the level.
pub proof fn law_tile_bytes_are_apart(
    tiles: TilesView,
    index: nat,
    row: nat,
    byte: nat,
    other_index: nat,
    other_row: nat,
    other_byte: nat,
)
    requires
        is_whole_level(tiles),
        has_tile_byte(tiles, index, row, byte),
        has_tile_byte(tiles, other_index, other_row, other_byte),
        byte_place(tiles, index, row, byte) == byte_place(
            tiles,
            other_index,
            other_row,
            other_byte,
        ),
    ensures
        index == other_index,
        row == other_row,
        byte == other_byte,
{
    lemma_tile_byte(tiles, index, row, byte);
    lemma_tile_byte(tiles, other_index, other_row, other_byte);
    lemma_place_parts(tiles, index, row, byte);
    lemma_place_parts(tiles, other_index, other_row, other_byte);
    let x_tiles = tiles_across(tiles.width, tiles.tile_size);
    vstd::arithmetic::div_mod::lemma_fundamental_div_mod(index as int, x_tiles as int);
    vstd::arithmetic::div_mod::lemma_fundamental_div_mod(other_index as int, x_tiles as int);
}

/// The place of a byte, taken apart.
proof fn lemma_place_parts(tiles: TilesView, index: nat, row: nat, byte: nat)
    requires
        is_whole_level(tiles),
        has_tile_byte(tiles, index, row, byte),
    ensures
        ({
            let size = tiles.tile_size;
            let x_tiles = tiles_across(tiles.width, size);
            let scan = tiles.width * tiles.stride;
            let span = size * tiles.stride;
            let place = byte_place(tiles, index, row, byte);
            &&& index / x_tiles == place / scan / size
            &&& row == place / scan % size
            &&& index % x_tiles == place % scan / span
            &&& byte == place % scan % span
        }),
{
    lemma_tile_byte(tiles, index, row, byte);
    let size = tiles.tile_size;
    let x_tiles = tiles_across(tiles.width, size);
    let scan = tiles.width * tiles.stride;
    let span = size * tiles.stride;
    let place = byte_place(tiles, index, row, byte);
    let (column, line) = (index % x_tiles, index / x_tiles);
    let y = line * size + row;
    let within = column * span + byte;
    vstd::arithmetic::div_mod::lemma_fundamental_div_mod_converse(
        place as int,
        scan as int,
        y as int,
        within as int,
    );
    vstd::arithmetic::div_mod::lemma_fundamental_div_mod_converse(
        y as int,
        size as int,
        line as int,
        row as int,
    );
    vstd::arithmetic::div_mod::lemma_fundamental_div_mod_converse(
        within as int,
        span as int,
        column as int,
        byte as int,
    );
}

/// Each byte of the level is a byte of a tile.
pub proof fn law_level_byte_is_in_tile(tiles: TilesView, place: nat)
    requires
        is_whole_level(tiles),
        place < tiles.data.len(),
    ensures
        exists|index: nat, row: nat, byte: nat| #[trigger]
            has_tile_byte(tiles, index, row, byte) && byte_place(tiles, index, row, byte) == place,
{
    let size = tiles.tile_size;
    let (width, height, stride) = (tiles.width, tiles.height, tiles.stride);
    let x_tiles = tiles_across(width, size);
    let y_tiles = tiles_across(height, size);
    let scan = width * stride;
    let span = size * stride;
    assert(scan > 0 && scan * height == width * height * stride) by (nonlinear_arith)
        requires
            0 <= place < width * height * stride,
            scan == width * stride,
    ;
    assert(span > 0) by (nonlinear_arith)
        requires
            span == size * stride,
            size > 0,
            stride > 0,
    ;
    let (y, within) = (place / scan, place % scan);
    vstd::arithmetic::div_mod::lemma_fundamental_div_mod(place as int, scan as int);
    assert(y < height) by (nonlinear_arith)
        requires
            scan * y + within < scan * height,
            within >= 0,
            scan > 0,
    ;
    let (line, row) = (y / size, y % size);
    vstd::arithmetic::div_mod::lemma_fundamental_div_mod(y as int, size as int);
    let (column, byte) = (within / span, within % span);
    vstd::arithmetic::div_mod::lemma_fundamental_div_mod(within as int, span as int);
    assert(line * size == size * line) by (nonlinear_arith);
    assert(column * span == span * column) by (nonlinear_arith);
    let x = column * size;
    assert(column * span == x * stride) by (nonlinear_arith)
        requires
            x == column * size,
            span == size * stride,
    ;
    assert(x < width) by (nonlinear_arith)
        requires
            x * stride < width * stride,
            stride > 0,
    ;
    lemma_tiles_across(width, size, column);
    lemma_tiles_across(height, size, line);
    let index = line * x_tiles + column;
    vstd::arithmetic::div_mod::lemma_fundamental_div_mod_converse(
        index as int,
        x_tiles as int,
        line as int,
        column as int,
    );
    assert(index < x_tiles * y_tiles) by (nonlinear_arith)
        requires
            index == line * x_tiles + column,
            column < x_tiles,
            line + 1 <= y_tiles,
    ;
    law_tiles_in_order(tiles);
    let tile = tiles.tile(x, line * size);
    assert(tiles.rest()[index as int] == tile);
    lemma_tile_shape(tiles, x, line * size);
    let count = min(size, (width - x) as nat);
    assert(row < tile.len());
    assert(tile[row as int].len() == count * stride);
    assert(byte < count * stride) by (nonlinear_arith)
        requires
            byte < size * stride,
            x * stride + byte < width * stride,
            count == size || count == width - x,
    ;
    assert(has_tile_byte(tiles, index, row, byte));
    assert((y * width + x) * stride == y * scan + x * stride) by (nonlinear_arith)
        requires
            scan == width * stride,
    ;
    assert(y * scan == scan * y) by (nonlinear_arith);
    assert(byte_place(tiles, index, row, byte) == place);
}

/// What stands in a part stands in the whole.
pub proof fn lemma_stands_in_part(whole: Seq<u8>, at: int, part: Seq<u8>, inner_at: int, inner: Seq<u8>)
    requires
        stands_at(whole, at, part),
        stands_at(part, inner_at, inner),
    ensures
        stands_at(whole, at + inner_at, inner),
{
    assert(whole.subrange(at + inner_at, at + inner_at + inner.len()) =~= part.subrange(
        inner_at,
        inner_at + inner.len(),
    ));
}

/// The size of a stored tile, and where its scanlines stand.
pub proof fn lemma_stored_tile(tile: Seq<Seq<u8>>, tile_size: nat, row_bytes: nat)
    requires
        tile.len() <= tile_size,
        forall|i: int| 0 <= i < tile.len() ==> (#[trigger] tile[i]).len() <= row_bytes,
    ensures
        stored_tile(tile, tile_size, row_bytes).len() == next_multiple(
            tile_size * row_bytes,
            TILE_DISK_ALIGNMENT as nat,
        ),
        forall|i: int|
            0 <= i < tile.len() ==> stands_at(
                stored_tile(tile, tile_size, row_bytes),
                i * row_bytes,
                #[trigger] tile[i],
            ),
{
    let rows = Seq::new(tile_size, |i: int| stored_scanline(tile, row_bytes, i));
    let whole = stored_tile(tile, tile_size, row_bytes);
    assert forall|i: int| 0 <= i < rows.len() implies (#[trigger] rows[i]).len() == row_bytes by {
        if i < tile.len() {
            assert(tile[i].len() <= row_bytes);
        }
    }
    lemma_concat_uniform(rows, row_bytes);
    assert forall|i: int| 0 <= i < tile.len() implies stands_at(
        whole,
        i * row_bytes,
        #[trigger] tile[i],
    ) by {
        assert(stands_at(concat(rows), i * row_bytes, rows[i]));
        assert(whole.subrange(i * row_bytes, i * row_bytes + row_bytes) =~= concat(rows).subrange(
            i * row_bytes,
            i * row_bytes + row_bytes,
        ));
        assert(stands_at(whole, i * row_bytes, rows[i]));
        assert(rows[i].subrange(0, tile[i].len() as int) =~= tile[i]);
        lemma_stands_in_part(whole, i * row_bytes, rows[i], 0, tile[i]);
    }
}

impl Pyramid {
    /// Whether a level takes up as much of the file as its extent says. A level without width,
    /// but higher than a tile, does not: it is stored with empty tiles that nothing counts.
    pub open spec fn is_regular(self, level: int) -> bool {
        self.extents[level].width > 0 || self.extents[level].height <= self.tile_size
    }
}

/// Where a tile of a level begins is within the level.
proof fn lemma_tile_by_index_begins(width: nat, height: nat, tile_size: nat, index: nat)
    requires
        tile_size > 0,
        index < tiles_across(width, tile_size) * tiles_across(height, tile_size),
    ensures
        tiles_across(width, tile_size) > 0,
        (index % tiles_across(width, tile_size)) * tile_size < width,
        (index / tiles_across(width, tile_size)) * tile_size < height,
{
    let x_tiles = tiles_across(width, tile_size);
    let y_tiles = tiles_across(height, tile_size);
    assert(x_tiles > 0) by (nonlinear_arith)
        requires
            index < x_tiles * y_tiles,
            index >= 0,
    ;
    vstd::arithmetic::div_mod::lemma_fundamental_div_mod(index as int, x_tiles as int);
    assert(index / x_tiles < y_tiles) by (nonlinear_arith)
        requires
            index < x_tiles * y_tiles,
            index == x_tiles * (index / x_tiles) + index % x_tiles,
            index % x_tiles >= 0,
            x_tiles > 0,
    ;
    lemma_tiles_across(width, tile_size, index % x_tiles);
    lemma_tiles_across(height, tile_size, index / x_tiles);
}

/// The size of a stored level, and where its tiles stand.
proof fn lemma_stored_level(pyramid: Pyramid, level: int)
    requires
        pyramid.tile_size > 0,
        pyramid.level_can_be_tiled(level),
        pyramid.is_regular(level),
    ensures
        pyramid.stored_level(level).len() == pyramid.tile_disk_bytes() * (pyramid.x_tiles(level)
            * pyramid.y_tiles(level)),
        forall|index: nat|
            index < pyramid.x_tiles(level) * pyramid.y_tiles(level) ==> stands_at(
                pyramid.stored_level(level),
                (index * pyramid.tile_disk_bytes()) as int,
                stored_tile(
                    #[trigger] tile_by_index(pyramid.tiles(level), index),
                    pyramid.tile_size,
                    pyramid.row_bytes(),
                ),
            ),
{
    let tiles = pyramid.tiles(level);
    let rest = tiles.rest();
    let count = pyramid.x_tiles(level) * pyramid.y_tiles(level);
    let disk = pyramid.tile_disk_bytes();
    law_tiles_in_order(tiles);
    let blocks = Seq::new(
        rest.len(),
        |i: int| stored_tile(rest[i], pyramid.tile_size, pyramid.row_bytes()),
    );
    assert forall|i: int| 0 <= i < blocks.len() implies (#[trigger] blocks[i]).len() == disk by {
        lemma_tile_by_index_begins(tiles.width, tiles.height, tiles.tile_size, i as nat);
        let x_tiles = pyramid.x_tiles(level);
        lemma_tile_shape(
            tiles,
            (i as nat % x_tiles) * tiles.tile_size,
            (i as nat / x_tiles) * tiles.tile_size,
        );
        assert(rest[i] == tile_by_index(tiles, i as nat));
        lemma_stored_tile(rest[i], pyramid.tile_size, pyramid.row_bytes());
    }
    lemma_concat_uniform(blocks, disk);
    assert(count * disk == disk * count) by (nonlinear_arith);
    assert forall|index: nat| index < count implies stands_at(
        pyramid.stored_level(level),
        (index * disk) as int,
        stored_tile(
            #[trigger] tile_by_index(tiles, index),
            pyramid.tile_size,
            pyramid.row_bytes(),
        ),
    ) by {
        assert(rest[index as int] == tile_by_index(tiles, index));
        assert(stands_at(concat(blocks), index as int * disk, blocks[index as int]));
    }
}

/// The size of the `count` smallest levels as they are stored next to the header.
pub proof fn lemma_stored_top_len(pyramid: Pyramid, count: nat)
    requires
        count <= pyramid.levels.len(),
    ensures
        pyramid.stored_top(count).len() == pyramid.top_bytes(count),
    decreases count,
{
    if count > 0 {
        let part = |i: int| pyramid.levels[pyramid.levels.len() - 1 - i];
        lemma_stored_top_len(pyramid, (count - 1) as nat);
        assert(Seq::new(count, part).drop_last() =~= Seq::new((count - 1) as nat, part));
    }
}

/// The size of the `count` smallest tiled levels.
proof fn lemma_stored_tiled_len(pyramid: Pyramid, count: nat)
    requires
        pyramid.can_be_stored(),
        pyramid.tile_size > 0,
        count <= pyramid.first_in_memory_level(),
        forall|level: int|
            pyramid.first_in_memory_level() - count <= level < pyramid.first_in_memory_level()
                ==> #[trigger] pyramid.is_regular(level),
    ensures
        pyramid.stored_tiled(count).len() == pyramid.tiled_end(count) - pyramid.tiled_end(0),
    decreases count,
{
    if count > 0 {
        let first = pyramid.first_in_memory_level();
        let part = |i: int| pyramid.stored_level(first - 1 - i);
        lemma_stored_tiled_len(pyramid, (count - 1) as nat);
        assert(Seq::new(count, part).drop_last() =~= Seq::new((count - 1) as nat, part));
        assert(pyramid.level_can_be_tiled(first - count));
        assert(pyramid.is_regular(first - count));
        lemma_stored_level(pyramid, first - count);
    }
}

/// The header stands at the start of the file.
pub proof fn law_header_in_file(pyramid: Pyramid)
    requires
        pyramid.can_be_stored(),
    ensures
        stands_at(pyramid.file(), 0, pyramid.header().encoded()),
        pyramid.header().encoded().len() == header_size(pyramid.levels.len()),
{
    law_encoded_size(pyramid.header());
    let header = pyramid.header().encoded();
    assert(pyramid.file().subrange(0, header.len() as int) =~= header);
}

/// Each level next to the header stands, as it is, where the header says that it begins.
pub proof fn law_top_level_in_file(pyramid: Pyramid, level: int)
    requires
        pyramid.can_be_stored(),
        pyramid.first_in_memory_level() <= level < pyramid.levels.len(),
    ensures
        stands_at(pyramid.file(), pyramid.level_offset(level) as int, pyramid.levels[level]),
{
    let count = pyramid.header_levels();
    let part = |i: int| pyramid.levels[pyramid.levels.len() - 1 - i];
    let parts = Seq::new(count, part);
    let i = pyramid.levels.len() - 1 - level;
    lemma_some_level_is_tiled(pyramid, 0);
    law_encoded_size(pyramid.header());
    lemma_concat_part(parts, i);
    assert(parts.take(i) =~= Seq::new(i as nat, part));
    lemma_stored_top_len(pyramid, i as nat);
    let header = pyramid.header().encoded();
    let top = pyramid.stored_top(count);
    assert(pyramid.file().subrange(header.len() as int, (header.len() + top.len()) as int) =~= top);
    lemma_stands_in_part(
        pyramid.file(),
        header.len() as int,
        top,
        pyramid.top_bytes(i as nat) as int,
        pyramid.levels[level],
    );
}

/// Each tile of a tiled level stands in the file at its index times the size of a stored tile,
/// counted from where the header says that the level begins.
pub proof fn law_tile_in_file(pyramid: Pyramid, level: int, index: nat)
    requires
        pyramid.can_be_stored(),
        pyramid.tile_size > 0,
        0 <= level < pyramid.first_in_memory_level(),
        forall|smaller: int|
            level <= smaller < pyramid.first_in_memory_level() ==> #[trigger] pyramid.is_regular(
                smaller,
            ),
        index < pyramid.x_tiles(level) * pyramid.y_tiles(level),
    ensures
        stands_at(
            pyramid.file(),
            (pyramid.level_offset(level) + index * pyramid.tile_disk_bytes()) as int,
            stored_tile(
                tile_by_index(pyramid.tiles(level), index),
                pyramid.tile_size,
                pyramid.row_bytes(),
            ),
        ),
{
    let first = pyramid.first_in_memory_level();
    let part = |i: int| pyramid.stored_level(first - 1 - i);
    let parts = Seq::new(first, part);
    let i = first - 1 - level;
    lemma_some_level_is_tiled(pyramid, 0);
    law_encoded_size(pyramid.header());
    lemma_stored_top_len(pyramid, pyramid.header_levels());
    lemma_concat_part(parts, i);
    assert(parts.take(i) =~= Seq::new(i as nat, part));
    lemma_stored_tiled_len(pyramid, i as nat);
    let tiled = pyramid.stored_tiled(first);
    let start = pyramid.tiled_end(0) as int;
    assert(pyramid.file().subrange(start, (start + tiled.len()) as int) =~= tiled);
    lemma_stands_in_part(
        pyramid.file(),
        start,
        tiled,
        pyramid.tiled_end(i as nat) - start,
        pyramid.stored_level(level),
    );
    assert(pyramid.level_can_be_tiled(level));
    assert(pyramid.is_regular(level));
    lemma_stored_level(pyramid, level);
    lemma_stands_in_part(
        pyramid.file(),
        pyramid.level_offset(level) as int,
        pyramid.stored_level(level),
        (index * pyramid.tile_disk_bytes()) as int,
        stored_tile(
            tile_by_index(pyramid.tiles(level), index),
            pyramid.tile_size,
            pyramid.row_bytes(),
        ),
    );
}

/// A stored tile has the bytes of its scanlines, each scanline at a multiple of `row_bytes`; every
/// other byte of it is zero.
pub proof fn law_stored_tile_bytes(tile: Seq<Seq<u8>>, tile_size: nat, row_bytes: nat, byte: nat)
    requires
        tile.len() <= tile_size,
        forall|i: int| 0 <= i < tile.len() ==> (#[trigger] tile[i]).len() <= row_bytes,
        row_bytes > 0,
        byte < stored_tile(tile, tile_size, row_bytes).len(),
    ensures
        ({
            let (row, at) = ((byte / row_bytes) as int, (byte % row_bytes) as int);
            stored_tile(tile, tile_size, row_bytes)[byte as int] == (if row < tile.len() && at
                < tile[row].len() {
                tile[row][at]
            } else {
                0u8
            })
        }),
{
    let rows = Seq::new(tile_size, |i: int| stored_scanline(tile, row_bytes, i));
    let whole = stored_tile(tile, tile_size, row_bytes);
    let (row, at) = ((byte / row_bytes) as int, (byte % row_bytes) as int);
    assert forall|i: int| 0 <= i < rows.len() implies (#[trigger] rows[i]).len() == row_bytes by {
        if i < tile.len() {
            assert(tile[i].len() <= row_bytes);
        }
    }
    lemma_concat_uniform(rows, row_bytes);
    vstd::arithmetic::div_mod::lemma_fundamental_div_mod(byte as int, row_bytes as int);
    assert(row * row_bytes == row_bytes * row) by (nonlinear_arith);
    if byte < tile_size * row_bytes {
        assert(row < tile_size) by (nonlinear_arith)
            requires
                row * row_bytes + at < tile_size * row_bytes,
                at >= 0,
                row_bytes > 0,
        ;
        assert(stands_at(concat(rows), row * row_bytes, rows[row]));
        let part = concat(rows).subrange(row * row_bytes, row * row_bytes + row_bytes);
        assert(part == rows[row]);
        assert(part[at] == concat(rows)[byte as int]);
        assert(whole[byte as int] == concat(rows)[byte as int]);
    } else {
        assert(row >= tile_size) by (nonlinear_arith)
            requires
                row * row_bytes + at >= tile_size * row_bytes,
                at < row_bytes,
                row_bytes > 0,
        ;
    }
}

/// Every byte of a tile in the file: within the level it is the byte of the texel that stands there,
/// and zero elsewhere.
pub proof fn law_tile_bytes_in_file(pyramid: Pyramid, level: int, index: nat, byte: nat)
    requires
        pyramid.can_be_stored(),
        pyramid.tile_size > 0,
        0 <= level < pyramid.first_in_memory_level(),
        forall|smaller: int|
            level <= smaller < pyramid.first_in_memory_level() ==> #[trigger] pyramid.is_regular(
                smaller,
            ),
        index < pyramid.x_tiles(level) * pyramid.y_tiles(level),
        byte < pyramid.tile_disk_bytes(),
    ensures
        ({
            let place = pyramid.level_offset(level) + index * pyramid.tile_disk_bytes() + byte;
            let extent = pyramid.extents[level];
            let stride = pyramid.format.stride();
            let x_tiles = pyramid.x_tiles(level);
            let (row, at) = (byte / pyramid.row_bytes(), byte % pyramid.row_bytes());
            let x = (index % x_tiles) * pyramid.tile_size + at / stride;
            let y = (index / x_tiles) * pyramid.tile_size + row;
            &&& place < pyramid.file().len()
            &&& pyramid.file()[place as int] == (if row < pyramid.tile_size && x < extent.width && y
                < extent.height {
                pyramid.levels[level][((y * extent.width + x) * stride + at % stride) as int]
            } else {
                0u8
            })
        }),
{
    let size = pyramid.tile_size;
    let stride = pyramid.format.stride();
    let row_bytes = pyramid.row_bytes();
    let tiles = pyramid.tiles(level);
    let x_tiles = pyramid.x_tiles(level);
    let (width, height) = (tiles.width, tiles.height);
    let (left, top) = ((index % x_tiles) * size, (index / x_tiles) * size);
    let (row, at) = (byte / row_bytes, byte % row_bytes);
    let (column, channel) = (at / stride, at % stride);
    let tile = tile_by_index(tiles, index);
    let start = (pyramid.level_offset(level) + index * pyramid.tile_disk_bytes()) as int;
    let stored = stored_tile(tile, size, row_bytes);
    assert(row_bytes > 0) by (nonlinear_arith)
        requires
            row_bytes == size * stride,
            size > 0,
            stride >= 1,
    ;
    assert(pyramid.level_can_be_tiled(level));
    law_tile_in_file(pyramid, level, index);
    lemma_tile_by_index_begins(width, height, size, index);
    lemma_tile_shape(tiles, left, top);
    lemma_stored_tile(tile, size, row_bytes);
    law_stored_tile_bytes(tile, size, row_bytes, byte);
    assert(pyramid.file().subrange(start, start + stored.len())[byte as int]
        == pyramid.file()[start + byte]);
    vstd::arithmetic::div_mod::lemma_fundamental_div_mod(at as int, stride as int);
    assert(stride * column == column * stride) by (nonlinear_arith);
    let count = min(size, (width - left) as nat);
    assert(column < size) by (nonlinear_arith)
        requires
            column * stride + channel < size * stride,
            channel >= 0,
            stride >= 1,
    ;
    if row < tile.len() {
        let y = top + row;
        assert(tile[row as int] == tiles.texels(left, y, count));
        assert(tile[row as int].len() == count * stride);
        lemma_texels_in_bounds(width, height, stride, left, y, count);
        if column < count {
            assert(column * stride + channel < count * stride) by (nonlinear_arith)
                requires
                    column + 1 <= count,
                    channel < stride,
            ;
            assert((y * width + left) * stride + at == (y * width + (left + column)) * stride
                + channel) by (nonlinear_arith)
                requires
                    at == column * stride + channel,
            ;
        } else {
            assert(column * stride >= count * stride) by (nonlinear_arith)
                requires
                    column >= count,
            ;
        }
    }
}

/// The tiles that are still to come have the shape of tiles.
proof fn lemma_rest_shape(tiles: TilesView)
    requires
        tiles.tile_size > 0,
        tiles.width * tiles.height * tiles.stride == tiles.data.len(),
    ensures
        forall|i: int|
            0 <= i < tiles.rest().len() ==> (#[trigger] tiles.rest()[i]).len() <= tiles.tile_size
                && (forall|row: int|
                0 <= row < tiles.rest()[i].len() ==> (#[trigger] tiles.rest()[i][row]).len()
                    <= tiles.tile_size * tiles.stride),
    decreases tiles.rest().len(),
{
    if tiles.has_next() {
        let here = tiles.wrapped();
        let next = here.at(here.x + tiles.tile_size, here.y);
        let first = tiles.tile(here.x, here.y);
        assert(tiles.rest() == seq![first] + next.rest());
        lemma_tile_shape(tiles, here.x, here.y);
        lemma_rest_shape(next);
        assert forall|i: int| 0 <= i < tiles.rest().len() implies (#[trigger] tiles.rest()[i]).len()
            <= tiles.tile_size && (forall|row: int|
            0 <= row < tiles.rest()[i].len() ==> (#[trigger] tiles.rest()[i][row]).len()
                <= tiles.tile_size * tiles.stride) by {
            if i > 0 {
                assert(tiles.rest()[i] == next.rest()[i - 1]);
            }
        }
    }
}

/// A stored level is as long as its stored tiles together.
proof fn lemma_stored_level_len(pyramid: Pyramid, level: int)
    requires
        pyramid.tile_size > 0,
        pyramid.level_can_be_tiled(level),
    ensures
        pyramid.stored_level(level).len() == pyramid.tile_disk_bytes() * pyramid.tiles(
            level,
        ).rest().len(),
{
    let rest = pyramid.tiles(level).rest();
    let disk = pyramid.tile_disk_bytes();
    let blocks = Seq::new(
        rest.len(),
        |i: int| stored_tile(rest[i], pyramid.tile_size, pyramid.row_bytes()),
    );
    lemma_rest_shape(pyramid.tiles(level));
    assert forall|i: int| 0 <= i < blocks.len() implies (#[trigger] blocks[i]).len() == disk by {
        assert(rest[i].len() <= pyramid.tile_size);
        lemma_stored_tile(rest[i], pyramid.tile_size, pyramid.row_bytes());
    }
    lemma_concat_uniform_len(blocks, disk);
    assert(rest.len() * disk == disk * rest.len()) by (nonlinear_arith);
}

impl Pyramid {
    /// The number of tiles of the `count` smallest tiled levels.
    pub open spec fn tile_count(self, count: nat) -> nat
        decreases count,
    {
        if count == 0 {
            0
        } else {
            self.tile_count((count - 1) as nat) + self.tiles(
                self.first_in_memory_level() - count,
            ).rest().len()
        }
    }
}

proof fn lemma_stored_tiled_count(pyramid: Pyramid, count: nat)
    requires
        pyramid.can_be_stored(),
        pyramid.tile_size > 0,
        count <= pyramid.first_in_memory_level(),
    ensures
        pyramid.stored_tiled(count).len() == pyramid.tile_disk_bytes() * pyramid.tile_count(count),
    decreases count,
{
    let disk = pyramid.tile_disk_bytes();
    if count == 0 {
        assert(disk * 0 == 0);
    } else {
        let first = pyramid.first_in_memory_level();
        let part = |i: int| pyramid.stored_level(first - 1 - i);
        let fewer = pyramid.tile_count((count - 1) as nat);
        let here = pyramid.tiles(first - count).rest().len();
        lemma_stored_tiled_count(pyramid, (count - 1) as nat);
        assert(Seq::new(count, part).drop_last() =~= Seq::new((count - 1) as nat, part));
        assert(pyramid.level_can_be_tiled(first - count));
        lemma_stored_level_len(pyramid, first - count);
        assert(disk * (fewer + here) == disk * fewer + disk * here) by (nonlinear_arith);
    }
}

/// How long the file is: the header and the levels next to it, up to the alignment, and a stored
/// tile for each tile of the tiled levels.
pub proof fn law_file_length(pyramid: Pyramid)
    requires
        pyramid.can_be_stored(),
        pyramid.tile_size > 0,
    ensures
        pyramid.file().len() == next_multiple(
            header_size(pyramid.levels.len()) + pyramid.top_bytes(pyramid.header_levels()),
            TILE_DISK_ALIGNMENT as nat,
        ) + pyramid.tile_disk_bytes() * pyramid.tile_count(pyramid.first_in_memory_level()),
{
    lemma_some_level_is_tiled(pyramid, 0);
    law_encoded_size(pyramid.header());
    lemma_stored_top_len(pyramid, pyramid.header_levels());
    lemma_stored_tiled_count(pyramid, pyramid.first_in_memory_level());
}

/// The number of tiles of a level that takes up as much of the file as its extent says: as many as
/// fit next to each other and below each other. Where all tiled levels do, the file ends where the
/// last of them does.
pub proof fn law_regular_file_length(pyramid: Pyramid)
    requires
        pyramid.can_be_stored(),
        pyramid.tile_size > 0,
        forall|level: int|
            0 <= level < pyramid.first_in_memory_level() ==> #[trigger] pyramid.is_regular(level),
    ensures
        forall|level: int|
            0 <= level < pyramid.first_in_memory_level() ==> (#[trigger] pyramid.tiles(
                level,
            )).rest().len() == pyramid.x_tiles(level) * pyramid.y_tiles(level),
        pyramid.file().len() == pyramid.tiled_end(pyramid.first_in_memory_level()),
{
    let first = pyramid.first_in_memory_level();
    assert forall|level: int| 0 <= level < first implies (#[trigger] pyramid.tiles(
        level,
    )).rest().len() == pyramid.x_tiles(level) * pyramid.y_tiles(level) by {
        assert(pyramid.is_regular(level));
        law_tiles_in_order(pyramid.tiles(level));
    }
    lemma_some_level_is_tiled(pyramid, 0);
    law_encoded_size(pyramid.header());
    lemma_stored_top_len(pyramid, pyramid.header_levels());
    lemma_stored_tiled_len(pyramid, first);
}

} // verus!
