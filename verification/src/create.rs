//! Writing the levels of an image as a tiled file.
use crate::header::{Header, MAGIC_BYTES};
use crate::layout::{
    concat, next_multiple, padding_fits, stored_scanline, stored_tile, tiles_across, zeros,
    Pyramid, TILE_DISK_ALIGNMENT, TOP_LEVELS_BYTES, ZERO_BUF_BYTES,
};
use crate::power_of_two::PowerOfTwo;
use crate::texel::{law_strides, Luma, PixelFormat, Rgb, Rgba};
use crate::tiles::{lemma_tile_shape, Extent, Tile, Tiles, TilesView};
use vstd::prelude::*;

verus! {

/// The views of the levels that are held in `levels`.
pub open spec fn level_views(levels: Seq<Vec<u8>>) -> Seq<Seq<u8>> {
    Seq::new(levels.len(), |i: int| levels[i]@)
}

pub proof fn lemma_concat_push(parts: Seq<Seq<u8>>, part: Seq<u8>)
    ensures
        concat(parts.push(part)) == concat(parts) + part,
{
    assert(parts.push(part).drop_last() =~= parts);
}

/// Appends `count` zeros.
fn write_zeros(writer: &mut Vec<u8>, count: usize)
    ensures
        final(writer)@ == old(writer)@ + zeros(count as nat),
{
    let mut i: usize = 0;
    assert(writer@ =~= old(writer)@ + zeros(0));
    while i < count
        invariant
            i <= count,
            writer@ == old(writer)@ + zeros(i as nat),
        decreases count - i,
    {
        writer.push(0);
        assert(writer@ =~= old(writer)@ + zeros((i + 1) as nat));
        i = i + 1;
    }
}

/// Appends a slice of bytes.
fn write_all(writer: &mut Vec<u8>, bytes: &[u8])
    ensures
        final(writer)@ == old(writer)@ + bytes@,
{
    writer.extend_from_slice(bytes);
    assert(writer@ =~= old(writer)@ + bytes@);
}

/// The smallest multiple of the alignment that is no less than `n`.
pub(crate) fn align_up(n: usize) -> (aligned: usize)
    requires
        next_multiple(n as nat, TILE_DISK_ALIGNMENT as nat) <= usize::MAX,
    ensures
        aligned == next_multiple(n as nat, TILE_DISK_ALIGNMENT as nat),
        aligned >= n,
{
    let rest: usize = n % TILE_DISK_ALIGNMENT;
    if rest == 0 {
        n
    } else {
        n + (TILE_DISK_ALIGNMENT - rest)
    }
}

/// Appends a tile: its scanlines filled up with zeros, and zeros up to the alignment.
fn write_tile(
    writer: &mut Vec<u8>,
    tile: &Tile,
    tile_size: usize,
    row_bytes: usize,
    tile_pad: usize,
)
    requires
        tile@.len() <= tile_size,
        forall|i: int| 0 <= i < tile@.len() ==> (#[trigger] tile@[i]).len() <= row_bytes,
        tile_pad == next_multiple(tile_size as nat * row_bytes as nat, TILE_DISK_ALIGNMENT as nat)
            - tile_size * row_bytes,
    ensures
        final(writer)@ == old(writer)@ + stored_tile(tile@, tile_size as nat, row_bytes as nat),
{
    let ghost start = writer@;
    let ghost row = |i: int| stored_scanline(tile@, row_bytes as nat, i);
    let mut i: usize = 0;
    assert(start =~= start + concat(Seq::new(0, row)));
    while i < tile_size
        invariant
            i <= tile_size,
            tile@.len() <= tile_size,
            forall|k: int| 0 <= k < tile@.len() ==> (#[trigger] tile@[k]).len() <= row_bytes,
            row == (|i: int| stored_scanline(tile@, row_bytes as nat, i)),
            writer@ == start + concat(Seq::new(i as nat, row)),
        decreases tile_size - i,
    {
        let ghost before = writer@;
        if i < tile.scanlines.len() {
            // write scanline data
            let scanline: &[u8] = tile.scanlines[i];
            assert(tile@[i as int] == scanline@);
            write_all(writer, scanline);
            // pad the scanline
            write_zeros(writer, row_bytes - scanline.len());
        } else {
            write_zeros(writer, row_bytes);
        }
        proof {
            assert(writer@ =~= before + row(i as int));
            lemma_concat_push(Seq::new(i as nat, row), row(i as int));
            assert(Seq::new(i as nat, row).push(row(i as int)) =~= Seq::new((i + 1) as nat, row));
            assert(writer@ =~= start + concat(Seq::new((i + 1) as nat, row)));
        }
        i = i + 1;
    }
    // pad the tile to fulfill the alignment
    write_zeros(writer, tile_pad);
    assert(writer@ =~= start + stored_tile(tile@, tile_size as nat, row_bytes as nat));
}

/// Whether the steps through the tiles of a level stay within 32 bits: what a level must meet
/// to be tiled.
spec fn steps_fit(tiles: TilesView) -> bool {
    &&& tiles.width * tiles.height * tiles.stride == tiles.data.len()
    &&& 0 < tiles.tile_size
    &&& tiles.width + tiles.tile_size <= u32::MAX
    &&& tiles.height + tiles.tile_size <= u32::MAX
    &&& tiles.y == 0 || tiles.y < tiles.height
}

/// A step through the tiles of a level: what it needs, what it finds and what it leaves.
proof fn lemma_step(tiles: TilesView)
    requires
        steps_fit(tiles),
    ensures
        tiles.step_fits(),
        steps_fit(tiles.step().1) || !tiles.has_next(),
        match tiles.step().0 {
            Some(tile) => tile.len() <= tiles.tile_size && (forall|i: int|
                0 <= i < tile.len() ==> (#[trigger] tile[i]).len() <= tiles.tile_size
                    * tiles.stride) && tiles.rest() == seq![tile] + tiles.step().1.rest(),
            None => tiles.rest() == Seq::<Seq<Seq<u8>>>::empty() && tiles.step().1.rest()
                == Seq::<Seq<Seq<u8>>>::empty(),
        },
{
    let here = tiles.wrapped();
    if tiles.has_next() {
        lemma_tile_shape(tiles, here.x, here.y);
    }
}

/// Appends the tiles of a level.
fn write_level(
    writer: &mut Vec<u8>,
    data: &[u8],
    extent: Extent,
    format: PixelFormat,
    tile_size: u32,
    row_bytes: usize,
    tile_pad: usize,
    Ghost(pyramid): Ghost<Pyramid>,
    Ghost(level): Ghost<int>,
)
    requires
        format == pyramid.format,
        format.channel_bytes() == 1,
        pyramid.level_can_be_tiled(level),
        data@ == pyramid.levels[level],
        extent == pyramid.extents[level],
        0 < tile_size == pyramid.tile_size,
        row_bytes == pyramid.row_bytes(),
        tile_pad == pyramid.tile_disk_bytes() - pyramid.tile_bytes(),
    ensures
        final(writer)@ == old(writer)@ + pyramid.stored_level(level),
{
    let Extent { width, height } = extent;
    proof {
        law_strides();
    }
    let mut tiles: Tiles = match format {
        PixelFormat::Luma8 => Tiles::new::<Luma<u8>>(data, width, height, tile_size),
        PixelFormat::Rgb8 => Tiles::new::<Rgb<u8>>(data, width, height, tile_size),
        _ => Tiles::new::<Rgba<u8>>(data, width, height, tile_size),
    };
    let ghost start = writer@;
    let ghost all = pyramid.tiles(level).rest();
    let ghost mut done: Seq<Seq<Seq<u8>>> = Seq::empty();
    let mut more: bool = true;
    proof {
        assert(tiles@ == pyramid.tiles(level));
        assert(done + tiles@.rest() =~= all);
        assert(start =~= start + pyramid.stored_tiles(done));
    }
    while more
        invariant
            more ==> steps_fit(tiles@),
            tiles@.tile_size == pyramid.tile_size == tile_size,
            tiles@.stride == pyramid.format.stride(),
            row_bytes == pyramid.row_bytes(),
            tile_pad == pyramid.tile_disk_bytes() - pyramid.tile_bytes(),
            done + tiles@.rest() == all,
            !more ==> tiles@.rest().len() == 0,
            writer@ == start + pyramid.stored_tiles(done),
        decreases
                tiles@.rest().len(),
                if more {
                    1nat
                } else {
                    0nat
                },
    {
        let ghost before = tiles@;
        proof {
            lemma_step(before);
        }
        match tiles.next() {
            Some(tile) => {
                write_tile(writer, &tile, tile_size as usize, row_bytes, tile_pad);
                proof {
                    let block = |t: Seq<Seq<u8>>| stored_tile(t, pyramid.tile_size, row_bytes as nat);
                    let blocks = Seq::new(
                        done.len(),
                        |i: int| stored_tile(done[i], pyramid.tile_size, pyramid.row_bytes()),
                    );
                    let next = done.push(tile@);
                    let next_blocks = Seq::new(
                        next.len(),
                        |i: int| stored_tile(next[i], pyramid.tile_size, pyramid.row_bytes()),
                    );
                    lemma_concat_push(blocks, block(tile@));
                    assert(blocks.push(block(tile@)) =~= next_blocks);
                    assert(next + tiles@.rest() =~= done + before.rest());
                    done = next;
                    assert(writer@ =~= start + pyramid.stored_tiles(done));
                }
            },
            None => {
                more = false;
            },
        }
    }
    assert(done =~= all);
}

pub proof fn lemma_top_bytes_grow(pyramid: Pyramid, fewer: nat, more: nat)
    requires
        fewer <= more,
    ensures
        pyramid.top_bytes(fewer) <= pyramid.top_bytes(more),
    decreases more - fewer,
{
    if fewer < more {
        lemma_top_bytes_grow(pyramid, fewer, (more - 1) as nat);
    }
}

pub proof fn lemma_tiled_end_grows(pyramid: Pyramid, fewer: nat, more: nat)
    requires
        fewer <= more,
    ensures
        pyramid.tiled_end(fewer) <= pyramid.tiled_end(more),
    decreases more - fewer,
{
    if fewer < more {
        lemma_tiled_end_grows(pyramid, fewer, (more - 1) as nat);
    }
}

/// Not every level is stored next to the header.
pub proof fn lemma_some_level_is_tiled(pyramid: Pyramid, count: nat)
    requires
        pyramid.levels.len() > 0,
    ensures
        pyramid.levels_before_limit(count) < pyramid.levels.len(),
    decreases pyramid.levels.len() - count,
{
    if count < pyramid.levels.len() && pyramid.top_bytes(count + 1) <= TOP_LEVELS_BYTES {
        lemma_some_level_is_tiled(pyramid, count + 1);
    }
}

/// Partitions the levels: how many of the smallest are stored next to the header.
fn count_header_levels(levels: &Vec<Vec<u8>>, Ghost(pyramid): Ghost<Pyramid>) -> (count: usize)
    requires
        pyramid.levels == level_views(levels@),
        pyramid.levels.len() > 0,
        pyramid.top_bytes(pyramid.levels.len()) <= usize::MAX,
    ensures
        count == pyramid.header_levels(),
        count < levels@.len(),
{
    let mut acc: usize = 0;
    let mut count: usize = 0;
    proof {
        lemma_some_level_is_tiled(pyramid, 0);
    }
    while count < levels.len()
        invariant
            count <= levels@.len(),
            pyramid.levels == level_views(levels@),
            acc == pyramid.top_bytes(count as nat),
            pyramid.top_bytes(pyramid.levels.len()) <= usize::MAX,
            pyramid.header_levels() == pyramid.levels_before_limit(count as nat),
            pyramid.header_levels() < levels@.len(),
        decreases levels@.len() - count,
    {
        proof {
            lemma_top_bytes_grow(pyramid, (count + 1) as nat, pyramid.levels.len());
        }
        acc = acc + levels[levels.len() - 1 - count].len();
        if acc > TOP_LEVELS_BYTES {
            return count;
        }
        count = count + 1;
    }
    0
}

/// How many tiles it takes to cover `length` texels.
pub(crate) fn count_tiles(length: u32, tile_size: u32, log_tile_size: u32) -> (count: u32)
    requires
        log_tile_size < 32,
        vstd::arithmetic::power2::pow2(log_tile_size as nat) == tile_size,
        length + tile_size <= u32::MAX,
    ensures
        count == tiles_across(length as nat, tile_size as nat),
{
    proof {
        vstd::arithmetic::power2::lemma_pow2_pos(log_tile_size as nat);
        vstd::bits::lemma_u32_shr_is_div((length + tile_size - 1) as u32, log_tile_size);
    }
    (length + tile_size - 1) >> log_tile_size
}

/// Where each level begins in the file.
fn plan_offsets(
    levels: &Vec<Vec<u8>>,
    level_resolution: &Vec<Extent>,
    in_header: usize,
    tile_size: u32,
    log_tile_size: u32,
    tile_disk_bytes: usize,
    Ghost(pyramid): Ghost<Pyramid>,
) -> (plan: (Vec<u64>, usize))
    requires
        pyramid.levels == level_views(levels@),
        pyramid.extents == level_resolution@,
        pyramid.can_be_stored(),
        pyramid.tile_size == tile_size,
        tile_disk_bytes == pyramid.tile_disk_bytes(),
        in_header == pyramid.header_levels(),
        in_header < levels@.len(),
        log_tile_size < 32,
        vstd::arithmetic::power2::pow2(log_tile_size as nat) == tile_size,
    ensures
        plan.0@ == pyramid.header().level_offset,
        plan.1 == pyramid.tiled_end(0) - pyramid.header_end(),
{
    let mip_levels: usize = levels.len();
    let first: usize = mip_levels - in_header;
    let mut level_offset: Vec<u64> = vec![0; mip_levels];
    proof {
        lemma_tiled_end_grows(pyramid, 0, first as nat);
    }
    // levels next to the header
    let mut offset: usize = Header::byte_size(mip_levels);
    let mut i: usize = 0;
    while i < in_header
        invariant
            i <= in_header < mip_levels,
            mip_levels == levels@.len() == level_offset@.len(),
            first == mip_levels - in_header == pyramid.first_in_memory_level(),
            in_header == pyramid.header_levels(),
            pyramid.levels == level_views(levels@),
            pyramid.header_end() <= usize::MAX,
            offset == crate::header::header_size(mip_levels as nat) + pyramid.top_bytes(i as nat),
            forall|level: int|
                mip_levels - i <= level < mip_levels ==> #[trigger] level_offset@[level]
                    == pyramid.level_offset(level),
        decreases in_header - i,
    {
        proof {
            lemma_top_bytes_grow(pyramid, (i + 1) as nat, in_header as nat);
        }
        let level: usize = mip_levels - i - 1;
        level_offset[level] = offset as u64;
        offset = offset + levels[level].len();
        i = i + 1;
    }
    let end: usize = align_up(offset);
    let in_file_alignment_pad: usize = end - offset;
    offset = end;
    // levels in tiles
    let mut j: usize = 0;
    while j < first
        invariant
            j <= first,
            mip_levels == levels@.len() == level_offset@.len() == level_resolution@.len(),
            first == mip_levels - in_header == pyramid.first_in_memory_level(),
            pyramid.levels == level_views(levels@),
            pyramid.extents == level_resolution@,
            pyramid.can_be_stored(),
            pyramid.tile_size == tile_size,
            tile_disk_bytes == pyramid.tile_disk_bytes(),
            log_tile_size < 32,
            vstd::arithmetic::power2::pow2(log_tile_size as nat) == tile_size,
            offset == pyramid.tiled_end(j as nat),
            forall|level: int|
                first <= level < mip_levels ==> #[trigger] level_offset@[level]
                    == pyramid.level_offset(level),
            forall|level: int|
                first - j <= level < first ==> #[trigger] level_offset@[level]
                    == pyramid.level_offset(level),
        decreases first - j,
    {
        let level: usize = first - j - 1;
        let Extent { width, height } = level_resolution[level];
        proof {
            assert(pyramid.level_can_be_tiled(level as int));
            lemma_tiled_end_grows(pyramid, (j + 1) as nat, first as nat);
        }
        let x_tiles: u32 = count_tiles(width, tile_size, log_tile_size);
        let y_tiles: u32 = count_tiles(height, tile_size, log_tile_size);
        level_offset[level] = offset as u64;
        let tiles: usize = (x_tiles * y_tiles) as usize;
        offset = offset + tile_disk_bytes * tiles;
        j = j + 1;
    }
    assert(level_offset@ =~= pyramid.header().level_offset);
    (level_offset, in_file_alignment_pad)
}

/// Two is raised to a given number by one exponent only.
pub proof fn lemma_one_logarithm(a: nat, b: nat)
    requires
        vstd::arithmetic::power2::pow2(a) == vstd::arithmetic::power2::pow2(b),
    ensures
        a == b,
{
    if a < b {
        vstd::arithmetic::power2::lemma_pow2_strictly_increases(a, b);
    } else if b < a {
        vstd::arithmetic::power2::lemma_pow2_strictly_increases(b, a);
    }
}

/// Takes the levels of an image, the largest first, rearranges the texels of the larger ones into
/// tiles with a width and a height of `tile_size`, and appends the file that holds them.
pub(crate) fn write_file(
    levels: &Vec<Vec<u8>>,
    level_resolution: &Vec<Extent>,
    format: PixelFormat,
    tile_size: PowerOfTwo<u32>,
    writer: &mut Vec<u8>,
)
    requires
        (Pyramid {
            levels: level_views(levels@),
            extents: level_resolution@,
            format,
            tile_size: tile_size.value() as nat,
        }).can_be_stored(),
    ensures
        final(writer)@ == old(writer)@ + (Pyramid {
            levels: level_views(levels@),
            extents: level_resolution@,
            format,
            tile_size: tile_size.value() as nat,
        }).file(),
{
    let ghost start = writer@;
    let ghost pyramid = Pyramid {
        levels: level_views(levels@),
        extents: level_resolution@,
        format,
        tile_size: tile_size.value() as nat,
    };
    // Partition which levels are stored next to the header; the rest is stored in tiles.
    let mip_levels: usize = levels.len();
    let in_header: usize = count_header_levels(levels, Ghost(pyramid));
    let first_in_memory_level: usize = mip_levels - in_header;

    // Calculate the sizes and the offsets
    let log_tile_size: u32 = tile_size.ilog2();
    let size: u32 = *tile_size;
    proof {
        vstd::arithmetic::power2::lemma_pow2_pos(log_tile_size as nat);
        lemma_one_logarithm(log_tile_size as nat, pyramid.log_tile_size() as nat);
        assert(size <= pyramid.row_bytes()) by (nonlinear_arith)
            requires
                pyramid.row_bytes() == size * format.stride(),
                format.stride() >= 1,
        ;
        assert(pyramid.row_bytes() <= pyramid.tile_bytes()) by (nonlinear_arith)
            requires
                pyramid.tile_bytes() == size * pyramid.row_bytes(),
                size >= 1,
        ;
    }
    let row_bytes: usize = size as usize * format.texel_bytes();
    let tile_bytes: usize = size as usize * row_bytes;
    let tile_disk_bytes: usize = align_up(tile_bytes);
    let tile_pad: usize = tile_disk_bytes - tile_bytes;
    let (level_offset, in_file_alignment_pad) = plan_offsets(
        levels,
        level_resolution,
        in_header,
        size,
        log_tile_size,
        tile_disk_bytes,
        Ghost(pyramid),
    );

    // Write the header
    let header = Header {
        magic: MAGIC_BYTES,
        version: 0,
        log_tile_size,
        format: format.to_u32(),
        first_in_memory_level:
            #[verifier::truncate]
            (first_in_memory_level as u32),
        level_resolution: level_resolution.clone(),
        level_offset,
    };
    assert(header@.level_resolution =~= level_resolution@);
    header.write(writer);

    // Write the levels next to the header
    let ghost header_written = writer@;
    let mut i: usize = 0;
    assert(header_written =~= header_written + pyramid.stored_top(0));
    while i < in_header
        invariant
            i <= in_header < mip_levels,
            mip_levels == levels@.len(),
            pyramid.levels == level_views(levels@),
            writer@ == header_written + pyramid.stored_top(i as nat),
        decreases in_header - i,
    {
        let level: usize = mip_levels - i - 1;
        write_all(writer, levels[level].as_slice());
        proof {
            let part = |k: int| pyramid.levels[pyramid.levels.len() - 1 - k];
            lemma_concat_push(Seq::new(i as nat, part), part(i as int));
            assert(Seq::new(i as nat, part).push(part(i as int)) =~= Seq::new((i + 1) as nat, part));
            assert(writer@ =~= header_written + pyramid.stored_top((i + 1) as nat));
        }
        i = i + 1;
    }
    write_zeros(writer, in_file_alignment_pad);

    // Write the tiled levels
    let ghost top_written = writer@;
    let mut j: usize = 0;
    assert(top_written =~= top_written + pyramid.stored_tiled(0));
    while j < first_in_memory_level
        invariant
            j <= first_in_memory_level <= mip_levels,
            mip_levels == levels@.len() == level_resolution@.len(),
            pyramid.levels == level_views(levels@),
            pyramid.extents == level_resolution@,
            pyramid.format == format,
            pyramid.can_be_stored(),
            first_in_memory_level == pyramid.first_in_memory_level(),
            0 < size == pyramid.tile_size,
            row_bytes == pyramid.row_bytes(),
            tile_pad == pyramid.tile_disk_bytes() - pyramid.tile_bytes(),
            writer@ == top_written + pyramid.stored_tiled(j as nat),
        decreases first_in_memory_level - j,
    {
        let level: usize = first_in_memory_level - j - 1;
        assert(pyramid.level_can_be_tiled(level as int));
        write_level(
            writer,
            levels[level].as_slice(),
            level_resolution[level],
            format,
            size,
            row_bytes,
            tile_pad,
            Ghost(pyramid),
            Ghost(level as int),
        );
        proof {
            let part = |k: int| pyramid.stored_level(pyramid.first_in_memory_level() - 1 - k);
            lemma_concat_push(Seq::new(j as nat, part), part(j as int));
            assert(Seq::new(j as nat, part).push(part(j as int)) =~= Seq::new((j + 1) as nat, part));
            assert(writer@ =~= top_written + pyramid.stored_tiled((j + 1) as nat));
        }
        j = j + 1;
    }
    proof {
        assert(header@ == pyramid.header());
        assert(writer@ =~= start + pyramid.file());
    }
}

/// Whether no run of zeros in a stored tile is longer than the buffer of zeros.
fn tile_padding_fits(tile: &Tile, tile_size: usize, row_bytes: usize) -> (fits: bool)
    ensures
        fits == padding_fits(tile@, tile_size as nat, row_bytes as nat),
{
    let mut i: usize = 0;
    while i < tile.scanlines.len()
        invariant
            i <= tile.scanlines@.len(),
            forall|k: int|
                0 <= k < i ==> row_bytes - (#[trigger] tile@[k]).len() <= ZERO_BUF_BYTES,
        decreases tile.scanlines@.len() - i,
    {
        let len: usize = tile.scanlines[i].len();
        assert(tile@[i as int].len() == len);
        if row_bytes > len && row_bytes - len > ZERO_BUF_BYTES {
            return false;
        }
        i = i + 1;
    }
    tile.scanlines.len() >= tile_size || row_bytes <= ZERO_BUF_BYTES
}

/// Whether a level can be tiled.
fn level_can_be_tiled(
    data: &[u8],
    extent: Extent,
    format: PixelFormat,
    tile_size: u32,
    row_bytes: usize,
    Ghost(pyramid): Ghost<Pyramid>,
    Ghost(level): Ghost<int>,
) -> (can: bool)
    requires
        format == pyramid.format,
        format.channel_bytes() == 1,
        data@ == pyramid.levels[level],
        extent == pyramid.extents[level],
        0 < tile_size == pyramid.tile_size,
        row_bytes == pyramid.row_bytes(),
    ensures
        can == pyramid.level_can_be_tiled(level),
{
    let Extent { width, height } = extent;
    let stride: u64 = format.texel_bytes() as u64;
    let size: u64 = tile_size as u64;
    proof {
        law_strides();
        assert(width * height <= 0xffff_ffff * 0xffff_ffff) by (nonlinear_arith)
            requires
                width <= 0xffff_ffff,
                height <= 0xffff_ffff,
        ;
    }
    let texels: u64 = width as u64 * height as u64;
    if texels > u32::MAX as u64 || width as u64 + size > u32::MAX as u64 || height as u64 + size
        > u32::MAX as u64 {
        return false;
    }
    assert(texels * stride <= 0xffff_ffff * 4 && width * stride <= 0xffff_ffff * 4)
        by (nonlinear_arith)
        requires
            texels <= 0xffff_ffff,
            width <= 0xffff_ffff,
            stride <= 4,
    ;
    if texels * stride != data.len() as u64 || width as u64 * stride > usize::MAX as u64 {
        return false;
    }
    let x_tiles: u64 = (width as u64 + size - 1) / size;
    let y_tiles: u64 = (height as u64 + size - 1) / size;
    assert(x_tiles <= 0xffff_ffff && y_tiles <= 0xffff_ffff) by (nonlinear_arith)
        requires
            width + size <= 0xffff_ffff,
            height + size <= 0xffff_ffff,
            size >= 1,
            x_tiles == (width + size - 1) as int / size as int,
            y_tiles == (height + size - 1) as int / size as int,
    ;
    assert(x_tiles * y_tiles <= 0xffff_ffff * 0xffff_ffff) by (nonlinear_arith)
        requires
            x_tiles <= 0xffff_ffff,
            y_tiles <= 0xffff_ffff,
    ;
    if x_tiles * y_tiles > u32::MAX as u64 {
        return false;
    }
    let mut tiles: Tiles = match format {
        PixelFormat::Luma8 => Tiles::new::<Luma<u8>>(data, width, height, tile_size),
        PixelFormat::Rgb8 => Tiles::new::<Rgb<u8>>(data, width, height, tile_size),
        _ => Tiles::new::<Rgba<u8>>(data, width, height, tile_size),
    };
    let ghost all = pyramid.tiles(level).rest();
    let ghost mut done: Seq<Seq<Seq<u8>>> = Seq::empty();
    let mut more: bool = true;
    proof {
        assert(tiles@ == pyramid.tiles(level));
        assert(done + tiles@.rest() =~= all);
    }
    while more
        invariant
            more ==> steps_fit(tiles@),
            tiles@.tile_size == pyramid.tile_size == tile_size,
            row_bytes == pyramid.row_bytes(),
            all == pyramid.tiles(level).rest(),
            done + tiles@.rest() == all,
            !more ==> tiles@.rest().len() == 0,
            forall|i: int|
                0 <= i < done.len() ==> padding_fits(
                    #[trigger] done[i],
                    pyramid.tile_size,
                    pyramid.row_bytes(),
                ),
        decreases
                tiles@.rest().len(),
                if more {
                    1nat
                } else {
                    0nat
                },
    {
        let ghost before = tiles@;
        proof {
            lemma_step(before);
        }
        match tiles.next() {
            Some(tile) => {
                assert(all[done.len() as int] == tile@);
                if !tile_padding_fits(&tile, tile_size as usize, row_bytes) {
                    return false;
                }
                proof {
                    let next = done.push(tile@);
                    assert(next + tiles@.rest() =~= done + before.rest());
                    done = next;
                }
            },
            None => {
                more = false;
            },
        }
    }
    assert(done =~= all);
    true
}

/// The number of bytes of all levels, if it fits the machine.
fn total_bytes(levels: &Vec<Vec<u8>>, Ghost(pyramid): Ghost<Pyramid>) -> (total: Option<usize>)
    requires
        pyramid.levels == level_views(levels@),
    ensures
        match total {
            Some(bytes) => bytes == pyramid.top_bytes(levels@.len()),
            None => pyramid.top_bytes(levels@.len()) > usize::MAX,
        },
{
    let mut total: usize = 0;
    let mut count: usize = 0;
    while count < levels.len()
        invariant
            count <= levels@.len(),
            pyramid.levels == level_views(levels@),
            total == pyramid.top_bytes(count as nat),
        decreases levels@.len() - count,
    {
        let bytes: usize = levels[levels.len() - 1 - count].len();
        if bytes > usize::MAX - total {
            proof {
                lemma_top_bytes_grow(pyramid, (count + 1) as nat, levels@.len());
            }
            return None;
        }
        total = total + bytes;
        count = count + 1;
    }
    Some(total)
}

/// Where the levels next to the header end.
fn header_end(levels: &Vec<Vec<u8>>, in_header: usize, Ghost(pyramid): Ghost<Pyramid>) -> (end: u128)
    requires
        pyramid.levels == level_views(levels@),
        pyramid.top_bytes(pyramid.levels.len()) <= usize::MAX,
        in_header == pyramid.header_levels(),
        in_header < levels@.len(),
    ensures
        end == pyramid.header_end(),
        end <= 0x1_0000_0000_0000_0000_0000,
{
    let mut bytes: usize = 0;
    let mut count: usize = 0;
    while count < in_header
        invariant
            count <= in_header < levels@.len(),
            pyramid.levels == level_views(levels@),
            pyramid.top_bytes(pyramid.levels.len()) <= usize::MAX,
            bytes == pyramid.top_bytes(count as nat),
        decreases in_header - count,
    {
        proof {
            lemma_top_bytes_grow(pyramid, (count + 1) as nat, pyramid.levels.len());
        }
        bytes = bytes + levels[levels.len() - 1 - count].len();
        count = count + 1;
    }
    24 + 16 * levels.len() as u128 + bytes as u128
}

/// Whether a file can be made of the levels.
pub(crate) fn can_write_file(
    levels: &Vec<Vec<u8>>,
    level_resolution: &Vec<Extent>,
    format: PixelFormat,
    tile_size: PowerOfTwo<u32>,
) -> (can: bool)
    ensures
        can == (Pyramid {
            levels: level_views(levels@),
            extents: level_resolution@,
            format,
            tile_size: tile_size.value() as nat,
        }).can_be_stored(),
{
    let ghost pyramid = Pyramid {
        levels: level_views(levels@),
        extents: level_resolution@,
        format,
        tile_size: tile_size.value() as nat,
    };
    let eight_bits: bool = match format {
        PixelFormat::Luma8 | PixelFormat::Rgb8 | PixelFormat::Rgba8 => true,
        _ => false,
    };
    if levels.len() == 0 || levels.len() != level_resolution.len() || !eight_bits {
        return false;
    }
    if total_bytes(levels, Ghost(pyramid)).is_none() {
        return false;
    }
    let size: u32 = *tile_size;
    let log_tile_size: u32 = tile_size.ilog2();
    let stride: u128 = format.texel_bytes() as u128;
    proof {
        vstd::arithmetic::power2::lemma_pow2_pos(log_tile_size as nat);
        assert(size * stride <= 0xffff_ffff * 4 && (size * stride) * size <= 0xffff_ffff * 4
            * 0xffff_ffff && size * stride <= (size * stride) * size) by (nonlinear_arith)
            requires
                1 <= size <= 0xffff_ffff,
                stride <= 4,
        ;
        assert(size * (size * stride) == (size * stride) * size) by (nonlinear_arith);
    }
    let wide_row_bytes: u128 = size as u128 * stride;
    let tile_bytes: u128 = wide_row_bytes * size as u128;
    let alignment: u128 = TILE_DISK_ALIGNMENT as u128;
    let tile_disk_bytes: u128 = (tile_bytes + alignment - 1) / alignment * alignment;
    assert(tile_disk_bytes == pyramid.tile_disk_bytes());
    if tile_disk_bytes > usize::MAX as u128 {
        return false;
    }
    let row_bytes: usize = wide_row_bytes as usize;
    let in_header: usize = count_header_levels(levels, Ghost(pyramid));
    let first: usize = levels.len() - in_header;
    let end: u128 = header_end(levels, in_header, Ghost(pyramid));
    let mut offset: u128 = (end + alignment - 1) / alignment * alignment;
    if offset > usize::MAX as u128 {
        proof {
            lemma_tiled_end_grows(pyramid, 0, first as nat);
        }
        return false;
    }
    let mut j: usize = 0;
    while j < first
        invariant
            j <= first <= levels@.len() == level_resolution@.len(),
            first == pyramid.first_in_memory_level(),
            pyramid == (Pyramid {
                levels: level_views(levels@),
                extents: level_resolution@,
                format,
                tile_size: tile_size.value() as nat,
            }),
            format.channel_bytes() == 1,
            0 < size == pyramid.tile_size,
            row_bytes == pyramid.row_bytes(),
            tile_disk_bytes == pyramid.tile_disk_bytes(),
            tile_disk_bytes <= usize::MAX,
            offset == pyramid.tiled_end(j as nat),
            offset <= usize::MAX,
            forall|level: int|
                first - j <= level < first ==> #[trigger] pyramid.level_can_be_tiled(level),
        decreases first - j,
    {
        let level: usize = first - j - 1;
        let extent: Extent = level_resolution[level];
        if !level_can_be_tiled(
            levels[level].as_slice(),
            extent,
            format,
            size,
            row_bytes,
            Ghost(pyramid),
            Ghost(level as int),
        ) {
            return false;
        }
        let x_tiles: u128 = (extent.width as u128 + size as u128 - 1) / size as u128;
        let y_tiles: u128 = (extent.height as u128 + size as u128 - 1) / size as u128;
        assert(x_tiles == pyramid.x_tiles(level as int) && y_tiles == pyramid.y_tiles(
            level as int,
        ));
        let tiles: u128 = x_tiles * y_tiles;
        assert(tile_disk_bytes * tiles <= 0xffff_ffff_ffff_ffff * 0xffff_ffff) by (nonlinear_arith)
            requires
                tile_disk_bytes <= 0xffff_ffff_ffff_ffff,
                tiles <= 0xffff_ffff,
        ;
        offset = offset + tile_disk_bytes * tiles;
        if offset > usize::MAX as u128 {
            proof {
                lemma_tiled_end_grows(pyramid, (j + 1) as nat, first as nat);
            }
            return false;
        }
        j = j + 1;
    }
    true
}

} // verus!
