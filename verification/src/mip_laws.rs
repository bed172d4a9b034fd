//! What halving an image means, texel by texel.
use crate::image::{base_level, mip_pyramid};
use crate::mips::{law_pyramid_levels, law_wrapping, LevelView, WrapMode};
use crate::texel::PixelFormat;
use crate::tiles::lemma_texels_in_bounds;
use vstd::prelude::*;

verus! {

/// Past the edge, clamping stays at the last texel.
pub proof fn law_clamp(i: nat, length: nat)
    requires
        length > 0,
    ensures
        i < length ==> WrapMode::Clamp.wrapped(i, length) == i,
        i >= length ==> WrapMode::Clamp.wrapped(i, length) == length - 1,
{
}

/// Past the edge, repeating begins again: every `length` texels the same ones come.
pub proof fn law_repeat(i: nat, length: nat)
    requires
        length > 0,
    ensures
        i < length ==> WrapMode::Repeat.wrapped(i, length) == i,
        WrapMode::Repeat.wrapped(i + length, length) == WrapMode::Repeat.wrapped(i, length),
{
    law_wrapping(WrapMode::Repeat, i, length);
    vstd::arithmetic::div_mod::lemma_mod_add_multiples_vanish(i as int, length as int);
}

/// Past the edge, mirroring turns back: the texels come in the reverse order, and after that in
/// their own again.
pub proof fn law_mirror(i: nat, length: nat)
    requires
        length > 0,
    ensures
        i < length ==> WrapMode::Mirror.wrapped(i, length) == i,
        i < length ==> WrapMode::Mirror.wrapped((2 * length - 1 - i) as nat, length) == i,
        WrapMode::Mirror.wrapped(i + 2 * length, length) == WrapMode::Mirror.wrapped(i, length),
{
    law_wrapping(WrapMode::Mirror, i, length);
    if i < length {
        vstd::arithmetic::div_mod::lemma_small_mod((2 * length - 1 - i) as nat, 2 * length);
    }
    vstd::arithmetic::div_mod::lemma_mod_add_multiples_vanish(i as int, (2 * length) as int);
}

/// The column or row that is taken next to an even one, past an odd edge by the wrap mode.
pub proof fn law_neighbour(mode: WrapMode, x: nat, length: nat)
    requires
        2 * x < length,
    ensures
        mode.wrapped(2 * x, length) == 2 * x,
        2 * x + 1 < length ==> mode.wrapped(2 * x + 1, length) == 2 * x + 1,
        2 * x + 1 == length && mode == WrapMode::Repeat ==> mode.wrapped(2 * x + 1, length) == 0,
        2 * x + 1 == length && mode != WrapMode::Repeat ==> mode.wrapped(2 * x + 1, length)
            == length - 1,
{
    law_wrapping(mode, 2 * x, length);
    if 2 * x + 1 < length {
        law_wrapping(mode, 2 * x + 1, length);
    } else {
        match mode {
            WrapMode::Clamp => law_clamp(length, length),
            WrapMode::Repeat => {
                law_repeat(0, length);
                assert(0 + length == length);
            },
            WrapMode::Mirror => law_mirror((length - 1) as nat, length),
        }
    }
}

/// The sides of the next level are half of those of the level, rounded up, and each byte of it is
/// the mean, rounded down, of four bytes of the level: the channel of a texel at even coordinates,
/// of the one to its right, of the one below it and of the one below that to the right. Past an odd
/// edge, repeating takes the first column or row, and the other modes take the last.
pub proof fn law_halved_texel(level: LevelView, mode: WrapMode, x: int, y: int, c: int)
    requires
        level.data.len() == level.width * level.height * level.stride,
        0 <= 2 * x < level.width,
        0 <= 2 * y < level.height,
        0 <= c < level.stride,
    ensures
        ({
            let next = level.halved(mode);
            let (w, h, stride) = (level.width as int, level.height as int, level.stride as int);
            let right = if 2 * x + 1 < w {
                2 * x + 1
            } else if mode == WrapMode::Repeat {
                0
            } else {
                w - 1
            };
            let below = if 2 * y + 1 < h {
                2 * y + 1
            } else if mode == WrapMode::Repeat {
                0
            } else {
                h - 1
            };
            let sum = level.data[(2 * y * w + 2 * x) * stride + c] + level.data[(2 * y * w + right)
                * stride + c] + level.data[(below * w + 2 * x) * stride + c] + level.data[(below * w
                + right) * stride + c];
            let mean = next.data[(y * next.width + x) * stride + c];
            &&& level.width <= 2 * next.width <= level.width + 1
            &&& level.height <= 2 * next.height <= level.height + 1
            &&& next.stride == level.stride
            &&& next.data.len() == next.width * next.height * next.stride
            &&& 4 * mean <= sum < 4 * mean + 4
        }),
{
    let next = level.halved(mode);
    let (width, stride) = (next.width, next.stride);
    law_neighbour(mode, x as nat, level.width);
    law_neighbour(mode, y as nat, level.height);
    lemma_texels_in_bounds(width, next.height, stride, x as nat, y as nat, 1);
    assert(1 * stride == stride);
    let number = y * width + x;
    let i = number * stride + c;
    vstd::arithmetic::div_mod::lemma_fundamental_div_mod_converse(
        i as int,
        stride as int,
        number as int,
        c as int,
    );
    vstd::arithmetic::div_mod::lemma_fundamental_div_mod_converse(
        number as int,
        width as int,
        y as int,
        x as int,
    );
    assert(next.data[i as int] == level.mean(mode, x as nat, y as nat, c as nat) as u8);
}

/// Where both sides are even, no edge comes in: each byte of the next level, four times, is within
/// four of the sum over the block of four texels that it stands for.
pub proof fn law_halved_block(level: LevelView, mode: WrapMode, x: int, y: int, c: int)
    requires
        level.data.len() == level.width * level.height * level.stride,
        level.width % 2 == 0,
        level.height % 2 == 0,
        0 <= 2 * x < level.width,
        0 <= 2 * y < level.height,
        0 <= c < level.stride,
    ensures
        ({
            let next = level.halved(mode);
            let (w, stride) = (level.width as int, level.stride as int);
            let sum = level.data[(2 * y * w + 2 * x) * stride + c] + level.data[(2 * y * w + (2 * x
                + 1)) * stride + c] + level.data[((2 * y + 1) * w + 2 * x) * stride + c]
                + level.data[((2 * y + 1) * w + (2 * x + 1)) * stride + c];
            let mean = next.data[(y * next.width + x) * stride + c];
            4 * mean <= sum < 4 * mean + 4
        }),
{
    law_halved_texel(level, mode, x, y, c);
}

/// An image is the first of its levels; each other has half the sides of the one before it, rounded
/// up; they go on until one has a single texel, and no further. Format and tile size stay.
pub proof fn law_mip_levels(
    base: Seq<u8>,
    width: u32,
    height: u32,
    format: PixelFormat,
    tile_size: u32,
    wrap_mode: WrapMode,
    level: int,
)
    requires
        0 < width < u32::MAX,
        0 < height < u32::MAX,
        width * height <= u32::MAX,
        base.len() == width * height * format.stride(),
        wrap_mode == WrapMode::Mirror ==> width <= 0x7fff_ffff && height <= 0x7fff_ffff,
    ensures
        ({
            let pyramid = mip_pyramid(base, width, height, format, tile_size, wrap_mode);
            let count = pyramid.levels.len();
            &&& pyramid.format == format
            &&& pyramid.tile_size == tile_size
            &&& count > 0
            &&& pyramid.extents.len() == count
            &&& pyramid.levels[0] == base
            &&& pyramid.extents[0].width == width
            &&& pyramid.extents[0].height == height
            &&& pyramid.extents[count - 1].width == 1
            &&& pyramid.extents[count - 1].height == 1
            &&& 0 <= level < count ==> pyramid.levels[level].len() == pyramid.extents[level].width
                * pyramid.extents[level].height * format.stride()
            &&& 0 <= level < count - 1 ==> {
                let (here, next) = (pyramid.extents[level], pyramid.extents[level + 1]);
                &&& here.width > 1 || here.height > 1
                &&& here.width <= 2 * next.width <= here.width + 1
                &&& here.height <= 2 * next.height <= here.height + 1
            }
        }),
{
    let first = base_level(base, width, height, format);
    let all = first.pyramid(wrap_mode);
    law_pyramid_levels(first, wrap_mode);
    lemma_pyramid_goes_on(first, wrap_mode, level);
    let count = all.len();
    if count > 1 {
        assert(all[count - 1].width > 0);
    }
    if 0 <= level < count - 1 {
        assert(all[level + 1] == all[level + 1 - 1].halved(wrap_mode));
        if level > 0 {
            assert(all[level].width > 0 && all[level].height > 0);
        }
    }
    if 0 <= level < count {
        assert(all[level].is_sized());
    }
}

/// Every level of a pyramid but the last has more than one texel.
proof fn lemma_pyramid_goes_on(level: LevelView, mode: WrapMode, i: int)
    requires
        level.width > 0,
        level.height > 0,
    ensures
        0 <= i < level.pyramid(mode).len() - 1 ==> level.pyramid(mode)[i].width > 1
            || level.pyramid(mode)[i].height > 1,
    decreases
            if level.width >= level.height {
                level.width
            } else {
                level.height
            },
{
    if level.width > 1 || level.height > 1 {
        let rest = level.halved(mode).pyramid(mode);
        assert(level.pyramid(mode) == seq![level] + rest);
        lemma_pyramid_goes_on(level.halved(mode), mode, i - 1);
        if 0 < i < level.pyramid(mode).len() {
            assert(level.pyramid(mode)[i] == rest[i - 1]);
        }
    }
}

/// Each byte of a smaller level of an image is the mean, rounded down, of four bytes of the level
/// before it. Past an odd edge, repeating takes the first column or row, and the other modes take
/// the last.
pub proof fn law_mip_texel(
    base: Seq<u8>,
    width: u32,
    height: u32,
    format: PixelFormat,
    tile_size: u32,
    wrap_mode: WrapMode,
    level: int,
    x: int,
    y: int,
    c: int,
)
    requires
        0 < width < u32::MAX,
        0 < height < u32::MAX,
        width * height <= u32::MAX,
        base.len() == width * height * format.stride(),
        wrap_mode == WrapMode::Mirror ==> width <= 0x7fff_ffff && height <= 0x7fff_ffff,
        0 <= level < mip_pyramid(
            base,
            width,
            height,
            format,
            tile_size,
            wrap_mode,
        ).levels.len() - 1,
        0 <= 2 * x < mip_pyramid(
            base,
            width,
            height,
            format,
            tile_size,
            wrap_mode,
        ).extents[level].width,
        0 <= 2 * y < mip_pyramid(
            base,
            width,
            height,
            format,
            tile_size,
            wrap_mode,
        ).extents[level].height,
        0 <= c < format.stride(),
    ensures
        ({
            let pyramid = mip_pyramid(base, width, height, format, tile_size, wrap_mode);
            let (before, after) = (pyramid.levels[level], pyramid.levels[level + 1]);
            let (w, h) = (pyramid.extents[level].width as int, pyramid.extents[level].height as int);
            let next_w = pyramid.extents[level + 1].width as int;
            let stride = format.stride() as int;
            let right = if 2 * x + 1 < w {
                2 * x + 1
            } else if wrap_mode == WrapMode::Repeat {
                0
            } else {
                w - 1
            };
            let below = if 2 * y + 1 < h {
                2 * y + 1
            } else if wrap_mode == WrapMode::Repeat {
                0
            } else {
                h - 1
            };
            let sum = before[(2 * y * w + 2 * x) * stride + c] + before[(2 * y * w + right) * stride
                + c] + before[(below * w + 2 * x) * stride + c] + before[(below * w + right)
                * stride + c];
            let mean = after[(y * next_w + x) * stride + c];
            4 * mean <= sum < 4 * mean + 4
        }),
{
    let pyramid = mip_pyramid(base, width, height, format, tile_size, wrap_mode);
    let all = base_level(base, width, height, format).pyramid(wrap_mode);
    lemma_two_levels(base, width, height, format, tile_size, wrap_mode, level);
    law_halved_texel(all[level], wrap_mode, x, y, c);
    assert(pyramid.levels[level] == all[level].data);
    assert(pyramid.levels[level + 1] == all[level].halved(wrap_mode).data);
}

/// Two levels of an image, one after the other.
proof fn lemma_two_levels(
    base: Seq<u8>,
    width: u32,
    height: u32,
    format: PixelFormat,
    tile_size: u32,
    wrap_mode: WrapMode,
    level: int,
)
    requires
        0 < width < u32::MAX,
        0 < height < u32::MAX,
        width * height <= u32::MAX,
        base.len() == width * height * format.stride(),
        wrap_mode == WrapMode::Mirror ==> width <= 0x7fff_ffff && height <= 0x7fff_ffff,
        0 <= level < mip_pyramid(
            base,
            width,
            height,
            format,
            tile_size,
            wrap_mode,
        ).levels.len() - 1,
    ensures
        ({
            let pyramid = mip_pyramid(base, width, height, format, tile_size, wrap_mode);
            let here = base_level(base, width, height, format).pyramid(wrap_mode)[level];
            let next = here.halved(wrap_mode);
            &&& here.stride == format.stride()
            &&& here.data.len() == here.width * here.height * here.stride
            &&& pyramid.levels[level] == here.data
            &&& pyramid.extents[level].width == here.width
            &&& pyramid.extents[level].height == here.height
            &&& pyramid.levels[level + 1] == next.data
            &&& pyramid.extents[level + 1].width == next.width
        }),
{
    let first = base_level(base, width, height, format);
    let all = first.pyramid(wrap_mode);
    law_pyramid_levels(first, wrap_mode);
    assert(all[level].is_sized() && all[level].stride == format.stride());
    assert(all[level + 1] == all[level + 1 - 1].halved(wrap_mode));
    assert(all[level + 1].is_sized());
}

/// Which images can be halved: those that have texels, with sides that 32 bits still hold when they
/// are rounded up or, for mirroring, doubled.
pub proof fn law_what_can_be_halved(level: LevelView, mode: WrapMode)
    ensures
        level.can_be_halved(mode) <==> 1 <= level.width <= 0xffff_fffe && 1 <= level.height
            <= 0xffff_fffe && (mode == WrapMode::Mirror ==> level.width <= 0x7fff_ffff
            && level.height <= 0x7fff_ffff),
{
}

/// Which levels have the bytes that their sides promise: those with no more texels than 32 bits
/// count, and as many bytes as the texels take.
pub proof fn law_what_is_sized(level: LevelView)
    ensures
        level.is_sized() <==> level.width * level.height <= 0xffff_ffff && level.data.len()
            == level.width * level.height * level.stride,
{
}

} // verus!
