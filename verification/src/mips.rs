//! The smaller levels of an image: each texel is the mean of four texels of the level before.
use crate::create::level_views;
use crate::tiles::Extent;
use vstd::prelude::*;

verus! {

/// What lies beyond the edges of a level.
#[derive(Debug, Copy, Clone, PartialEq, Eq, Structural)]
pub enum WrapMode {
    /// The texels at the edge.
    Clamp,
    /// The level again.
    Repeat,
    /// The level mirrored at the edge.
    Mirror,
}

impl WrapMode {
    /// The coordinate within a level of `length` texels that stands for `i`.
    pub open spec fn wrapped(self, i: nat, length: nat) -> nat {
        match self {
            WrapMode::Clamp => if i < length {
                i
            } else {
                (length - 1) as nat
            },
            WrapMode::Repeat => i % length,
            WrapMode::Mirror => if i % (2 * length) < length {
                i % (2 * length)
            } else {
                (2 * length - 1 - i % (2 * length)) as nat
            },
        }
    }

    /// The coordinate within a level of `length` texels that stands for `i`.
    pub fn wrap(self, i: u32, length: u32) -> (wrapped: u32)
        requires
            length > 0,
            self == WrapMode::Mirror ==> 2 * length <= u32::MAX,
        ensures
            wrapped == self.wrapped(i as nat, length as nat),
            wrapped < length,
    {
        match self {
            WrapMode::Clamp => {
                if i < length {
                    i
                } else {
                    length - 1
                }
            },
            WrapMode::Repeat => i % length,
            WrapMode::Mirror => {
                let folded: u32 = i % (length * 2);
                if folded >= length {
                    proof {
                        vstd::arithmetic::div_mod::lemma_fundamental_div_mod_converse(
                            folded as int,
                            length as int,
                            1,
                            folded - length,
                        );
                    }
                    length - (folded % length) - 1
                } else {
                    folded
                }
            },
        }
    }
}

/// The side of the next smaller level: half, rounded up.
pub open spec fn next_side(side: nat) -> nat {
    if side == 0 {
        1
    } else {
        (side + 1) / 2
    }
}

/// A level of an image: `width * height` texels of `stride` channels, one byte each.
pub struct LevelView {
    pub data: Seq<u8>,
    pub width: nat,
    pub height: nat,
    pub stride: nat,
}

impl LevelView {
    /// A channel of the texel at (`x`, `y`), wrapped into the level.
    pub open spec fn channel(self, mode: WrapMode, x: nat, y: nat, c: nat) -> nat {
        let column = mode.wrapped(x, self.width);
        let row = mode.wrapped(y, self.height);
        self.data[((row * self.width + column) * self.stride + c) as int] as nat
    }

    /// The mean of a channel over the four texels that the texel at (`x`, `y`) of the next level
    /// stands for.
    pub open spec fn mean(self, mode: WrapMode, x: nat, y: nat, c: nat) -> nat {
        (self.channel(mode, 2 * x, 2 * y, c) + self.channel(mode, 2 * x + 1, 2 * y, c)
            + self.channel(mode, 2 * x, 2 * y + 1, c) + self.channel(
            mode,
            2 * x + 1,
            2 * y + 1,
            c,
        )) / 4
    }

    /// The next smaller level.
    pub open spec fn halved(self, mode: WrapMode) -> LevelView {
        let width = next_side(self.width);
        let height = next_side(self.height);
        LevelView {
            data: Seq::new(
                width * height * self.stride,
                |i: int|
                    {
                        let texel = i as nat / self.stride;
                        self.mean(mode, texel % width, texel / width, i as nat % self.stride) as u8
                    },
            ),
            width,
            height,
            stride: self.stride,
        }
    }

    /// All the levels: this one, and the smaller ones down to a single texel.
    pub open spec fn pyramid(self, mode: WrapMode) -> Seq<LevelView>
        decreases
                if self.width >= self.height {
                    self.width
                } else {
                    self.height
                },
    {
        if self.width > 1 || self.height > 1 {
            seq![self] + self.halved(mode).pyramid(mode)
        } else {
            seq![self]
        }
    }

    /// Whether the smaller levels can be made: there are texels to take the mean of, and the
    /// coordinates stay within 32 bits.
    pub open spec fn can_be_halved(self, mode: WrapMode) -> bool {
        &&& 0 < self.width < u32::MAX
        &&& 0 < self.height < u32::MAX
        &&& mode == WrapMode::Mirror ==> 2 * self.width <= u32::MAX && 2 * self.height <= u32::MAX
    }

    /// Whether the level has the bytes that its width and height promise.
    pub open spec fn is_sized(self) -> bool {
        &&& self.width * self.height <= u32::MAX
        &&& self.data.len() == self.width * self.height * self.stride
    }
}

/// One level smaller: the mean of each channel over four texels.
fn halve(data: &Vec<u8>, width: u32, height: u32, stride: usize, mode: WrapMode) -> (next: Vec<u8>)
    requires
        ({
            let level = LevelView {
                data: data@,
                width: width as nat,
                height: height as nat,
                stride: stride as nat,
            };
            level.is_sized() && level.can_be_halved(mode)
        }),
        0 < stride,
    ensures
        next@ == (LevelView {
            data: data@,
            width: width as nat,
            height: height as nat,
            stride: stride as nat,
        }).halved(mode).data,
{
    let ghost level = LevelView {
        data: data@,
        width: width as nat,
        height: height as nat,
        stride: stride as nat,
    };
    let next_w: u32 = (width + 1) / 2;
    let next_h: u32 = (height + 1) / 2;
    let ghost goal = level.halved(mode).data;
    let mut next: Vec<u8> = Vec::new();
    let mut y: u32 = 0;
    assert(0 * next_w * stride == 0);
    while y < next_h
        invariant
            level == (LevelView {
                data: data@,
                width: width as nat,
                height: height as nat,
                stride: stride as nat,
            }),
            level.is_sized() && level.can_be_halved(mode),
            0 < stride,
            next_w == (width + 1) / 2,
            next_h == (height + 1) / 2,
            goal == level.halved(mode).data,
            y <= next_h,
            next@.len() == y * next_w * stride,
            next@ == goal.take(next@.len() as int),
            next@.len() <= goal.len(),
        decreases next_h - y,
    {
        let mut x: u32 = 0;
        assert((y * next_w + 0) * stride == y * next_w * stride);
        while x < next_w
            invariant
                level == (LevelView {
                    data: data@,
                    width: width as nat,
                    height: height as nat,
                    stride: stride as nat,
                }),
                level.is_sized() && level.can_be_halved(mode),
                0 < stride,
                next_w == (width + 1) / 2,
                next_h == (height + 1) / 2,
                goal == level.halved(mode).data,
                y < next_h,
                x <= next_w,
                next@.len() == (y * next_w + x) * stride,
                next@ == goal.take(next@.len() as int),
                next@.len() <= goal.len(),
            decreases next_w - x,
        {
            let ghost before = next@;
            let mut texel: Vec<u8> = mean_texel(data, width, height, stride, mode, x, y);
            let ghost channels = texel@;
            next.append(&mut texel);
            proof {
                lemma_next_texel(level, mode, x as nat, y as nat);
                let at = ((y * next_w + x) * stride) as int;
                assert(next@ == before + channels);
                assert forall|c: int| 0 <= c < stride implies channels[c] == goal[at + c] by {
                    assert(goal[at + c] == level.halved(mode).data[at + c]);
                }
                assert forall|i: int| at <= i < at + stride implies next@[i] == goal[i] by {
                    assert(channels[i - at] == goal[at + (i - at)]);
                }
                assert((y * next_w + x + 1) * stride == at + stride) by (nonlinear_arith)
                    requires
                        at == (y * next_w + x) * stride,
                ;
                assert(next@ =~= goal.take(at + stride));
            }
            x = x + 1;
        }
        assert((y + 1) * next_w == y * next_w + next_w) by (nonlinear_arith);
        y = y + 1;
    }
    assert(next_h * next_w * stride == next_w * next_h * stride) by (nonlinear_arith);
    assert(goal.take(goal.len() as int) =~= goal);
    next
}

/// Where the texel at (`x`, `y`) of the next level stands, and what its channels are.
proof fn lemma_next_texel(level: LevelView, mode: WrapMode, x: nat, y: nat)
    requires
        level.stride > 0,
        x < next_side(level.width),
        y < next_side(level.height),
    ensures
        ({
            let next = level.halved(mode);
            let at = (y * next.width + x) * level.stride;
            &&& at + level.stride <= next.data.len()
            &&& forall|c: int|
                0 <= c < level.stride ==> #[trigger] next.data[at + c] == level.mean(
                    mode,
                    x,
                    y,
                    c as nat,
                ) as u8
        }),
{
    let next = level.halved(mode);
    let width = next.width;
    let stride = level.stride;
    let number = y * width + x;
    let at = number * stride;
    crate::tiles::lemma_texels_in_bounds(width, next.height, stride, x, y, 1);
    assert(1 * stride == stride);
    assert forall|c: int| 0 <= c < stride implies #[trigger] next.data[at + c] == level.mean(
        mode,
        x,
        y,
        c as nat,
    ) as u8 by {
        let i = at + c;
        vstd::arithmetic::div_mod::lemma_fundamental_div_mod_converse(
            i,
            stride as int,
            number as int,
            c,
        );
        vstd::arithmetic::div_mod::lemma_fundamental_div_mod_converse(
            number as int,
            width as int,
            y as int,
            x as int,
        );
    }
}

/// The channels of one texel of the next level.
fn mean_texel(
    data: &Vec<u8>,
    width: u32,
    height: u32,
    stride: usize,
    mode: WrapMode,
    x: u32,
    y: u32,
) -> (texel: Vec<u8>)
    requires
        ({
            let level = LevelView {
                data: data@,
                width: width as nat,
                height: height as nat,
                stride: stride as nat,
            };
            level.is_sized() && level.can_be_halved(mode)
        }),
        x < (width + 1) / 2,
        y < (height + 1) / 2,
    ensures
        texel@.len() == stride,
        forall|c: int|
            0 <= c < stride ==> #[trigger] texel@[c] == (LevelView {
                data: data@,
                width: width as nat,
                height: height as nat,
                stride: stride as nat,
            }).mean(mode, x as nat, y as nat, c as nat) as u8,
{
    let ghost level = LevelView {
        data: data@,
        width: width as nat,
        height: height as nat,
        stride: stride as nat,
    };
    // Sample four texels
    let a: usize = texel_start(data, width, height, stride, mode, x * 2, y * 2);
    let b: usize = texel_start(data, width, height, stride, mode, x * 2 + 1, y * 2);
    let c: usize = texel_start(data, width, height, stride, mode, x * 2, y * 2 + 1);
    let d: usize = texel_start(data, width, height, stride, mode, x * 2 + 1, y * 2 + 1);
    // Default to box filter
    let len: usize = data.len();
    let mut texel: Vec<u8> = Vec::new();
    let mut i: usize = 0;
    while i < stride
        invariant
            i <= stride,
            len == data@.len(),
            a + stride <= data@.len(),
            b + stride <= data@.len(),
            c + stride <= data@.len(),
            d + stride <= data@.len(),
            level.data == data@,
            forall|k: nat|
                k < stride ==> {
                    &&& data@[a + k] == #[trigger] level.channel(mode, 2 * x as nat, 2 * y as nat, k)
                    &&& data@[b + k] == level.channel(mode, 2 * x as nat + 1, 2 * y as nat, k)
                    &&& data@[c + k] == level.channel(mode, 2 * x as nat, 2 * y as nat + 1, k)
                    &&& data@[d + k] == level.channel(mode, 2 * x as nat + 1, 2 * y as nat + 1, k)
                },
            texel@.len() == i,
            forall|k: int|
                0 <= k < i ==> #[trigger] texel@[k] == level.mean(
                    mode,
                    x as nat,
                    y as nat,
                    k as nat,
                ) as u8,
        decreases stride - i,
    {
        let ghost here = level.channel(mode, 2 * x as nat, 2 * y as nat, i as nat);
        let sum: u32 = data[a + i] as u32 + data[b + i] as u32 + data[c + i] as u32 + data[d
            + i] as u32;
        texel.push((sum / 4) as u8);
        i = i + 1;
    }
    texel
}

/// Where a texel of a level begins, wrapped into the level.
fn texel_start(
    data: &Vec<u8>,
    width: u32,
    height: u32,
    stride: usize,
    mode: WrapMode,
    x: u32,
    y: u32,
) -> (start: usize)
    requires
        ({
            let level = LevelView {
                data: data@,
                width: width as nat,
                height: height as nat,
                stride: stride as nat,
            };
            level.is_sized() && level.can_be_halved(mode)
        }),
    ensures
        start + stride <= data@.len(),
        forall|c: nat|
            c < stride ==> data@[start + c] == #[trigger] (LevelView {
                data: data@,
                width: width as nat,
                height: height as nat,
                stride: stride as nat,
            }).channel(mode, x as nat, y as nat, c),
{
    let column: u32 = mode.wrap(x, width);
    let row: u32 = mode.wrap(y, height);
    proof {
        crate::tiles::lemma_texels_in_bounds(
            width as nat,
            height as nat,
            stride as nat,
            column as nat,
            row as nat,
            1,
        );
        assert(row * width + column < width * height) by (nonlinear_arith)
            requires
                row + 1 <= height,
                column < width,
        ;
        assert(0 <= row * width) by (nonlinear_arith);
        assert(1 * stride == stride);
        assert(0 <= (row * width + column) * stride) by (nonlinear_arith)
            requires
                0 <= row * width + column,
        ;
    }
    let len: usize = data.len();
    (row * width + column) as usize * stride
}

/// The bytes of each level.
pub open spec fn level_data(levels: Seq<LevelView>) -> Seq<Seq<u8>> {
    Seq::new(levels.len(), |i: int| levels[i].data)
}

/// The extent of each level.
pub open spec fn level_extents(levels: Seq<LevelView>) -> Seq<Extent> {
    Seq::new(
        levels.len(),
        |i: int| Extent { width: levels[i].width as u32, height: levels[i].height as u32 },
    )
}

/// A smaller level can be made smaller again.
proof fn lemma_halved(level: LevelView, mode: WrapMode)
    requires
        level.is_sized(),
        level.can_be_halved(mode),
    ensures
        level.halved(mode).is_sized(),
        level.halved(mode).can_be_halved(mode),
{
    let next = level.halved(mode);
    assert(next.width * next.height <= level.width * level.height) by (nonlinear_arith)
        requires
            next.width <= level.width,
            next.height <= level.height,
    ;
}

/// What every level of a pyramid is: the first is the given one, each other is half of the one
/// before it, the last is a single texel at most, and all have the bytes that their sides promise.
pub proof fn law_pyramid_levels(level: LevelView, mode: WrapMode)
    requires
        level.is_sized(),
        level.width > 1 || level.height > 1 ==> level.can_be_halved(mode),
    ensures
        level.pyramid(mode).len() > 0,
        level.pyramid(mode)[0] == level,
        level.pyramid(mode).last().width <= 1,
        level.pyramid(mode).last().height <= 1,
        forall|i: int|
            0 < i < level.pyramid(mode).len() ==> #[trigger] level.pyramid(mode)[i]
                == level.pyramid(mode)[i - 1].halved(mode) && level.pyramid(mode)[i].width > 0
                && level.pyramid(mode)[i].height > 0,
        forall|i: int|
            0 <= i < level.pyramid(mode).len() ==> (#[trigger] level.pyramid(mode)[i]).is_sized()
                && level.pyramid(mode)[i].stride == level.stride
                && level.pyramid(mode)[i].width <= u32::MAX && level.pyramid(mode)[i].height
                <= u32::MAX,
    decreases
            if level.width >= level.height {
                level.width
            } else {
                level.height
            },
{
    let all = level.pyramid(mode);
    if level.width > 1 || level.height > 1 {
        let smaller = level.halved(mode);
        lemma_halved(level, mode);
        law_pyramid_levels(smaller, mode);
        let rest = smaller.pyramid(mode);
        assert(all == seq![level] + rest);
        assert(all.last() == rest.last());
        assert forall|i: int| 0 < i < all.len() implies #[trigger] all[i] == all[i - 1].halved(mode)
            && all[i].width > 0 && all[i].height > 0 by {
            assert(all[i] == rest[i - 1]);
            if i > 1 {
                assert(all[i - 1] == rest[i - 2]);
            }
        }
        assert forall|i: int| 0 <= i < all.len() implies (#[trigger] all[i]).is_sized()
            && all[i].stride == level.stride && all[i].width <= u32::MAX && all[i].height
            <= u32::MAX by {
            if i > 0 {
                assert(all[i] == rest[i - 1]);
            }
        }
    }
}

/// A pyramid has no more levels than its longer side has texels, but always one.
pub proof fn lemma_pyramid_height(level: LevelView, mode: WrapMode, bound: nat)
    requires
        level.width <= bound,
        level.height <= bound,
        bound > 0,
    ensures
        level.pyramid(mode).len() <= bound,
    decreases bound,
{
    if level.width > 1 || level.height > 1 {
        lemma_pyramid_height(level.halved(mode), mode, (bound - 1) as nat);
    }
}

/// Wrapping leads into the level, and leaves alone what lies within it.
pub proof fn law_wrapping(mode: WrapMode, i: nat, length: nat)
    requires
        length > 0,
    ensures
        mode.wrapped(i, length) < length,
        i < length ==> mode.wrapped(i, length) == i,
{
    if i < length {
        vstd::arithmetic::div_mod::lemma_small_mod(i, length);
        vstd::arithmetic::div_mod::lemma_small_mod(i, 2 * length);
    }
}

/// A channel that is the same throughout a level is the same throughout the smaller one.
pub proof fn law_mean_of_equals(level: LevelView, mode: WrapMode, value: u8, x: nat, y: nat, c: nat)
    requires
        level.is_sized(),
        level.width > 0,
        level.height > 0,
        c < level.stride,
        forall|number: nat|
            number < level.width * level.height ==> level.data[(#[trigger] (number * level.stride)
                + c) as int] == value,
    ensures
        level.mean(mode, x, y, c) == value,
{
    lemma_channel_of_equals(level, mode, value, 2 * x, 2 * y, c);
    lemma_channel_of_equals(level, mode, value, 2 * x + 1, 2 * y, c);
    lemma_channel_of_equals(level, mode, value, 2 * x, 2 * y + 1, c);
    lemma_channel_of_equals(level, mode, value, 2 * x + 1, 2 * y + 1, c);
}

proof fn lemma_channel_of_equals(
    level: LevelView,
    mode: WrapMode,
    value: u8,
    x: nat,
    y: nat,
    c: nat,
)
    requires
        level.width > 0,
        level.height > 0,
        forall|number: nat|
            number < level.width * level.height ==> level.data[(#[trigger] (number * level.stride)
                + c) as int] == value,
    ensures
        level.channel(mode, x, y, c) == value,
{
    law_wrapping(mode, x, level.width);
    law_wrapping(mode, y, level.height);
    let column = mode.wrapped(x, level.width);
    let row = mode.wrapped(y, level.height);
    let number = row * level.width + column;
    assert(number < level.width * level.height) by (nonlinear_arith)
        requires
            number == row * level.width + column,
            column < level.width,
            row + 1 <= level.height,
    ;
    assert(level.data[(number * level.stride + c) as int] == value);
}

/// Whether the levels of an image can be made.
pub fn can_build_mips(base: &[u8], width: u32, height: u32, stride: usize, mode: WrapMode) -> (can:
    bool)
    requires
        stride <= 16,
    ensures
        can == ({
            let level = LevelView {
                data: base@,
                width: width as nat,
                height: height as nat,
                stride: stride as nat,
            };
            level.is_sized() && (width > 1 || height > 1 ==> level.can_be_halved(mode))
        }),
{
    assert(width * height <= 0xffff_ffff * 0xffff_ffff) by (nonlinear_arith)
        requires
            height <= 0xffff_ffff,
            width <= 0xffff_ffff,
    ;
    let texels: u64 = width as u64 * height as u64;
    if texels > u32::MAX as u64 {
        return false;
    }
    assert(texels * stride <= 0xffff_ffff * 16) by (nonlinear_arith)
        requires
            texels <= 0xffff_ffff,
            stride <= 16,
    ;
    if base.len() as u64 != texels * stride as u64 {
        return false;
    }
    if width <= 1 && height <= 1 {
        return true;
    }
    if width == 0 || height == 0 || width == u32::MAX || height == u32::MAX {
        return false;
    }
    match mode {
        WrapMode::Mirror => width <= u32::MAX / 2 && height <= u32::MAX / 2,
        _ => true,
    }
}

/// The levels of an image, from the given one down to a single texel, and their extents.
pub fn build_mips(base: &[u8], width: u32, height: u32, stride: usize, mode: WrapMode) -> (mips: (
    Vec<Vec<u8>>,
    Vec<Extent>,
))
    requires
        0 < stride,
        ({
            let level = LevelView {
                data: base@,
                width: width as nat,
                height: height as nat,
                stride: stride as nat,
            };
            &&& level.is_sized()
            &&& width > 1 || height > 1 ==> level.can_be_halved(mode)
        }),
    ensures
        ({
            let levels = (LevelView {
                data: base@,
                width: width as nat,
                height: height as nat,
                stride: stride as nat,
            }).pyramid(mode);
            level_views(mips.0@) == level_data(levels) && mips.1@ == level_extents(levels)
        }),
{
    let ghost all = (LevelView {
        data: base@,
        width: width as nat,
        height: height as nat,
        stride: stride as nat,
    }).pyramid(mode);
    let mut levels: Vec<Vec<u8>> = Vec::new();
    let mut level_resolution: Vec<Extent> = Vec::new();
    levels.push(vstd::slice::slice_to_vec(base));
    level_resolution.push(Extent { width, height });
    let mut curr_w: u32 = width;
    let mut curr_h: u32 = height;
    let ghost mut done: Seq<LevelView> = Seq::empty();
    let ghost mut level = LevelView {
        data: base@,
        width: width as nat,
        height: height as nat,
        stride: stride as nat,
    };
    assert(done + level.pyramid(mode) =~= all);
    while curr_w > 1 || curr_h > 1
        invariant
            0 < stride == level.stride,
            level.width == curr_w,
            level.height == curr_h,
            level.is_sized(),
            curr_w > 1 || curr_h > 1 ==> level.can_be_halved(mode),
            done + level.pyramid(mode) == all,
            levels@.len() == level_resolution@.len() == done.len() + 1,
            levels@[done.len() as int]@ == level.data,
            forall|i: int| 0 <= i <= done.len() ==> #[trigger] levels@[i]@ == done.push(level)[i].data,
            forall|i: int|
                0 <= i <= done.len() ==> (#[trigger] level_resolution@[i]).width as nat
                    == done.push(level)[i].width && level_resolution@[i].height as nat == done.push(
                    level,
                )[i].height,
        decreases
                if curr_w >= curr_h {
                    curr_w
                } else {
                    curr_h
                },
    {
        let next_w: u32 = (curr_w + 1) / 2;
        let next_h: u32 = (curr_h + 1) / 2;
        let next: Vec<u8> = halve(&levels[levels.len() - 1], curr_w, curr_h, stride, mode);
        levels.push(next);
        level_resolution.push(Extent { width: next_w, height: next_h });
        curr_w = next_w;
        curr_h = next_h;
        proof {
            lemma_halved(level, mode);
            let smaller = level.halved(mode);
            assert(done.push(level) + smaller.pyramid(mode) =~= done + level.pyramid(mode));
            assert forall|i: int| 0 <= i <= done.len() implies #[trigger] done.push(level)[i]
                == done.push(level).push(smaller)[i] by {}
            done = done.push(level);
            level = smaller;
        }
    }
    proof {
        assert(done.push(level) =~= all);
        assert(level_views(levels@) =~= level_data(all));
        assert forall|i: int| 0 <= i < all.len() implies #[trigger] level_resolution@[i]
            == level_extents(all)[i] by {}
        assert(level_resolution@ =~= level_extents(all));
    }
    (levels, level_resolution)
}

} // verus!
