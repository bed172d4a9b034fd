//! What the bytes of a texel stand for, channel by channel.
use crate::bytes::{be_value, le_value};
use crate::number_laws::{law_long_value, law_short_value, law_word_value, long_at, word_at};
use crate::texel::{native_channels, Luma, Rgb, Rgba, Texel};
use vstd::prelude::*;

verus! {

/// The number in two, four or eight bytes from `at` on, the least significant first.
#[verifier::opaque]
pub open spec fn low_first(bytes: Seq<u8>, at: int, width: nat) -> int {
    if width == 2 {
        bytes[at] + 0x100 * bytes[at + 1]
    } else if width == 4 {
        word_at(bytes, at)
    } else {
        long_at(bytes, at)
    }
}

/// The number in two, four or eight bytes from `at` on, the most significant first.
#[verifier::opaque]
pub open spec fn high_first(bytes: Seq<u8>, at: int, width: nat) -> int {
    if width == 2 {
        0x100 * bytes[at] + bytes[at + 1]
    } else if width == 4 {
        high_first_word(bytes, at)
    } else {
        0x1_0000_0000 * high_first_word(bytes, at) + high_first_word(bytes, at + 4)
    }
}

/// The number in four bytes from `at` on, the most significant first.
pub open spec fn high_first_word(bytes: Seq<u8>, at: int) -> int {
    0x100_0000 * bytes[at] + 0x1_0000 * bytes[at + 1] + 0x100 * bytes[at + 2] + bytes[at + 3]
}

/// The number below half of `limit` as it is, and above it as much below zero as it is below
/// `limit`.
pub open spec fn signed(number: int, limit: int) -> int {
    if 2 * number < limit {
        number
    } else {
        number - limit
    }
}

/// Each channel of a texel with channels of eight bits is one byte, in order.
pub proof fn law_texels_of_eight_bits(
    luma: Luma<u8>,
    rgb: Rgb<u8>,
    rgba: Rgba<u8>,
    bytes: Seq<u8>,
)
    ensures
        luma.holds(bytes) <==> bytes.len() == 1 && luma.0 == bytes[0],
        rgb.holds(bytes) <==> bytes.len() == 3 && rgb.0[0] == bytes[0] && rgb.0[1] == bytes[1]
            && rgb.0[2] == bytes[2],
        rgba.holds(bytes) <==> bytes.len() == 4 && rgba.0[0] == bytes[0] && rgba.0[1] == bytes[1]
            && rgba.0[2] == bytes[2] && rgba.0[3] == bytes[3],
{
    if bytes.len() == 1 && luma.0 == bytes[0] {
        assert(bytes =~= seq![luma.0]);
    }
    if bytes.len() == 3 && rgb.0[0] == bytes[0] && rgb.0[1] == bytes[1] && rgb.0[2] == bytes[2] {
        assert(bytes =~= rgb.0@);
    }
    if bytes.len() == 4 && rgba.0[0] == bytes[0] && rgba.0[1] == bytes[1] && rgba.0[2] == bytes[2]
        && rgba.0[3] == bytes[3] {
        assert(bytes =~= rgba.0@);
    }
}

/// Each channel of a texel with signed channels of eight bits is one byte, in order.
pub proof fn law_texels_of_eight_signed_bits(
    luma: Luma<i8>,
    rgb: Rgb<i8>,
    rgba: Rgba<i8>,
    bytes: Seq<u8>,
)
    ensures
        luma.holds(bytes) ==> bytes.len() == 1 && luma.0 == signed(bytes[0] as int, 0x100),
        rgb.holds(bytes) ==> bytes.len() == 3 && forall|i: int|
            0 <= i < 3 ==> #[trigger] rgb.0@[i] == signed(bytes[i] as int, 0x100),
        rgba.holds(bytes) ==> bytes.len() == 4 && forall|i: int|
            0 <= i < 4 ==> #[trigger] rgba.0@[i] == signed(bytes[i] as int, 0x100),
{
    assert forall|c: i8| c == signed((#[trigger] (c as u8)) as int, 0x100) by {
        assert(c >= 0 ==> c as u8 == c) by (bit_vector);
        assert(c < 0 ==> c as u8 == c + 0x100) by (bit_vector);
    }
}

/// The channels that bytes hold, either all with the least significant byte first or all with the
/// most significant byte first.
proof fn lemma_channels(channels: Seq<nat>, bytes: Seq<u8>, width: nat)
    requires
        native_channels(channels, bytes, width),
        width == 2 || width == 4 || width == 8,
        bytes.len() == channels.len() * width,
    ensures
        ({
            ||| forall|i: int|
                0 <= i < channels.len() ==> #[trigger] channels[i] == low_first(
                    bytes,
                    i * width,
                    width,
                )
            ||| forall|i: int|
                0 <= i < channels.len() ==> #[trigger] channels[i] == high_first(
                    bytes,
                    i * width,
                    width,
                )
        }),
{
    assert forall|i: int| 0 <= i < channels.len() implies #[trigger] low_first(
        bytes,
        i * width,
        width,
    ) == le_value(bytes.subrange(i * width, i * width + width)) && high_first(
        bytes,
        i * width,
        width,
    ) == be_value(bytes.subrange(i * width, i * width + width)) by {
        assert(0 <= i * width && i * width + width <= bytes.len()) by (nonlinear_arith)
            requires
                0 <= i,
                i + 1 <= channels.len(),
                bytes.len() == channels.len() * width,
                width >= 0,
        ;
        let part = bytes.subrange(i * width, i * width + width);
        reveal(low_first);
        reveal(high_first);
        reveal(word_at);
        reveal(long_at);
        if width == 2 {
            law_short_value(part);
        } else if width == 4 {
            law_word_value(part);
        } else {
            law_long_value(part);
        }
    }
    if forall|i: int|
        0 <= i < channels.len() ==> #[trigger] channels[i] == le_value(
            bytes.subrange(i * width, i * width + width),
        ) {
        assert forall|i: int| 0 <= i < channels.len() implies #[trigger] channels[i] == low_first(
            bytes,
            i * width,
            width,
        ) by {}
    } else {
        assert forall|i: int| 0 <= i < channels.len() implies #[trigger] channels[i] == high_first(
            bytes,
            i * width,
            width,
        ) by {
            assert(low_first(bytes, i * width, width) == le_value(
                bytes.subrange(i * width, i * width + width),
            ));
        }
    }
}

/// Each channel of a texel with channels of sixteen bits is the number in 2 bytes, in order. All
/// channels have the byte order of the machine.
pub proof fn law_texels_of_sixteen_bits(
    luma: Luma<u16>,
    rgb: Rgb<u16>,
    rgba: Rgba<u16>,
    bytes: Seq<u8>,
)
    ensures
        luma.holds(bytes) && bytes.len() == 2 ==> luma.0 == low_first(bytes, 0, 2) || luma.0
            == high_first(bytes, 0, 2),
        rgb.holds(bytes) && bytes.len() == 6 ==> {
            ||| forall|i: int|
                0 <= i < 3 ==> #[trigger] rgb.0@[i] == low_first(bytes, 2 * i, 2)
            ||| forall|i: int|
                0 <= i < 3 ==> #[trigger] rgb.0@[i] == high_first(bytes, 2 * i, 2)
        },
        rgba.holds(bytes) && bytes.len() == 8 ==> {
            ||| forall|i: int|
                0 <= i < 4 ==> #[trigger] rgba.0@[i] == low_first(bytes, 2 * i, 2)
            ||| forall|i: int|
                0 <= i < 4 ==> #[trigger] rgba.0@[i] == high_first(bytes, 2 * i, 2)
        },
{
    if luma.holds(bytes) && bytes.len() == 2 {
        let channels = seq![luma.0 as nat];
        lemma_channels(channels, bytes, 2);
        assert(channels[0] == luma.0 as nat);
        assert(0 * 2nat == 0);
    }
    if rgb.holds(bytes) && bytes.len() == 6 {
        let channels = rgb.0@.map_values(|c: u16| c as nat);
        lemma_channels(channels, bytes, 2);
        if forall|i: int|
            0 <= i < channels.len() ==> #[trigger] channels[i] == low_first(bytes, i * 2nat, 2) {
            assert forall|i: int| 0 <= i < 3 implies #[trigger] rgb.0@[i] == low_first(bytes, 2 * i, 2) by {
                assert(channels[i] == rgb.0@[i] as nat);
            }
        } else {
            assert forall|i: int| 0 <= i < 3 implies #[trigger] rgb.0@[i] == high_first(bytes, 2 * i, 2) by {
                assert(channels[i] == rgb.0@[i] as nat);
            }
        }
    }
    if rgba.holds(bytes) && bytes.len() == 8 {
        let channels = rgba.0@.map_values(|c: u16| c as nat);
        lemma_channels(channels, bytes, 2);
        if forall|i: int|
            0 <= i < channels.len() ==> #[trigger] channels[i] == low_first(bytes, i * 2nat, 2) {
            assert forall|i: int| 0 <= i < 4 implies #[trigger] rgba.0@[i] == low_first(bytes, 2 * i, 2) by {
                assert(channels[i] == rgba.0@[i] as nat);
            }
        } else {
            assert forall|i: int| 0 <= i < 4 implies #[trigger] rgba.0@[i] == high_first(bytes, 2 * i, 2) by {
                assert(channels[i] == rgba.0@[i] as nat);
            }
        }
    }
}

/// Each channel of a texel with signed channels of sixteen bits is the number in 2 bytes, in order. All
/// channels have the byte order of the machine.
pub proof fn law_texels_of_sixteen_signed_bits(
    luma: Luma<i16>,
    rgb: Rgb<i16>,
    rgba: Rgba<i16>,
    bytes: Seq<u8>,
)
    ensures
        luma.holds(bytes) && bytes.len() == 2 ==> luma.0 == signed(low_first(bytes, 0, 2), 0x1_0000) || luma.0
            == signed(high_first(bytes, 0, 2), 0x1_0000),
        rgb.holds(bytes) && bytes.len() == 6 ==> {
            ||| forall|i: int|
                0 <= i < 3 ==> #[trigger] rgb.0@[i] == signed(low_first(bytes, 2 * i, 2), 0x1_0000)
            ||| forall|i: int|
                0 <= i < 3 ==> #[trigger] rgb.0@[i] == signed(high_first(bytes, 2 * i, 2), 0x1_0000)
        },
        rgba.holds(bytes) && bytes.len() == 8 ==> {
            ||| forall|i: int|
                0 <= i < 4 ==> #[trigger] rgba.0@[i] == signed(low_first(bytes, 2 * i, 2), 0x1_0000)
            ||| forall|i: int|
                0 <= i < 4 ==> #[trigger] rgba.0@[i] == signed(high_first(bytes, 2 * i, 2), 0x1_0000)
        },
{
    assert forall|c: i16| c == signed((#[trigger] (c as u16)) as int, 0x1_0000) by {
        assert(c >= 0 ==> c as u16 == c) by (bit_vector);
        assert(c < 0 ==> c as u16 == c + 0x1_0000) by (bit_vector);
    }
    if luma.holds(bytes) && bytes.len() == 2 {
        let channels = seq![(luma.0 as u16) as nat];
        lemma_channels(channels, bytes, 2);
        assert(channels[0] == (luma.0 as u16) as nat);
        assert(0 * 2nat == 0);
    }
    if rgb.holds(bytes) && bytes.len() == 6 {
        let channels = rgb.0@.map_values(|c: i16| (c as u16) as nat);
        lemma_channels(channels, bytes, 2);
        if forall|i: int|
            0 <= i < channels.len() ==> #[trigger] channels[i] == low_first(bytes, i * 2nat, 2) {
            assert forall|i: int| 0 <= i < 3 implies #[trigger] rgb.0@[i] == signed(low_first(bytes, 2 * i, 2), 0x1_0000) by {
                assert(channels[i] == (rgb.0@[i] as u16) as nat);
            }
        } else {
            assert forall|i: int| 0 <= i < 3 implies #[trigger] rgb.0@[i] == signed(high_first(bytes, 2 * i, 2), 0x1_0000) by {
                assert(channels[i] == (rgb.0@[i] as u16) as nat);
            }
        }
    }
    if rgba.holds(bytes) && bytes.len() == 8 {
        let channels = rgba.0@.map_values(|c: i16| (c as u16) as nat);
        lemma_channels(channels, bytes, 2);
        if forall|i: int|
            0 <= i < channels.len() ==> #[trigger] channels[i] == low_first(bytes, i * 2nat, 2) {
            assert forall|i: int| 0 <= i < 4 implies #[trigger] rgba.0@[i] == signed(low_first(bytes, 2 * i, 2), 0x1_0000) by {
                assert(channels[i] == (rgba.0@[i] as u16) as nat);
            }
        } else {
            assert forall|i: int| 0 <= i < 4 implies #[trigger] rgba.0@[i] == signed(high_first(bytes, 2 * i, 2), 0x1_0000) by {
                assert(channels[i] == (rgba.0@[i] as u16) as nat);
            }
        }
    }
}

/// Each channel of a texel with channels of thirty-two bits is the number in 4 bytes, in order. All
/// channels have the byte order of the machine.
pub proof fn law_texels_of_thirty_two_bits(
    luma: Luma<u32>,
    rgb: Rgb<u32>,
    rgba: Rgba<u32>,
    bytes: Seq<u8>,
)
    ensures
        luma.holds(bytes) && bytes.len() == 4 ==> luma.0 == low_first(bytes, 0, 4) || luma.0
            == high_first(bytes, 0, 4),
        rgb.holds(bytes) && bytes.len() == 12 ==> {
            ||| forall|i: int|
                0 <= i < 3 ==> #[trigger] rgb.0@[i] == low_first(bytes, 4 * i, 4)
            ||| forall|i: int|
                0 <= i < 3 ==> #[trigger] rgb.0@[i] == high_first(bytes, 4 * i, 4)
        },
        rgba.holds(bytes) && bytes.len() == 16 ==> {
            ||| forall|i: int|
                0 <= i < 4 ==> #[trigger] rgba.0@[i] == low_first(bytes, 4 * i, 4)
            ||| forall|i: int|
                0 <= i < 4 ==> #[trigger] rgba.0@[i] == high_first(bytes, 4 * i, 4)
        },
{
    if luma.holds(bytes) && bytes.len() == 4 {
        let channels = seq![luma.0 as nat];
        lemma_channels(channels, bytes, 4);
        assert(channels[0] == luma.0 as nat);
        assert(0 * 4nat == 0);
    }
    if rgb.holds(bytes) && bytes.len() == 12 {
        let channels = rgb.0@.map_values(|c: u32| c as nat);
        lemma_channels(channels, bytes, 4);
        if forall|i: int|
            0 <= i < channels.len() ==> #[trigger] channels[i] == low_first(bytes, i * 4nat, 4) {
            assert forall|i: int| 0 <= i < 3 implies #[trigger] rgb.0@[i] == low_first(bytes, 4 * i, 4) by {
                assert(channels[i] == rgb.0@[i] as nat);
            }
        } else {
            assert forall|i: int| 0 <= i < 3 implies #[trigger] rgb.0@[i] == high_first(bytes, 4 * i, 4) by {
                assert(channels[i] == rgb.0@[i] as nat);
            }
        }
    }
    if rgba.holds(bytes) && bytes.len() == 16 {
        let channels = rgba.0@.map_values(|c: u32| c as nat);
        lemma_channels(channels, bytes, 4);
        if forall|i: int|
            0 <= i < channels.len() ==> #[trigger] channels[i] == low_first(bytes, i * 4nat, 4) {
            assert forall|i: int| 0 <= i < 4 implies #[trigger] rgba.0@[i] == low_first(bytes, 4 * i, 4) by {
                assert(channels[i] == rgba.0@[i] as nat);
            }
        } else {
            assert forall|i: int| 0 <= i < 4 implies #[trigger] rgba.0@[i] == high_first(bytes, 4 * i, 4) by {
                assert(channels[i] == rgba.0@[i] as nat);
            }
        }
    }
}

/// Each channel of a texel with signed channels of thirty-two bits is the number in 4 bytes, in order. All
/// channels have the byte order of the machine.
pub proof fn law_texels_of_thirty_two_signed_bits(
    luma: Luma<i32>,
    rgb: Rgb<i32>,
    rgba: Rgba<i32>,
    bytes: Seq<u8>,
)
    ensures
        luma.holds(bytes) && bytes.len() == 4 ==> luma.0 == signed(low_first(bytes, 0, 4), 0x1_0000_0000) || luma.0
            == signed(high_first(bytes, 0, 4), 0x1_0000_0000),
        rgb.holds(bytes) && bytes.len() == 12 ==> {
            ||| forall|i: int|
                0 <= i < 3 ==> #[trigger] rgb.0@[i] == signed(low_first(bytes, 4 * i, 4), 0x1_0000_0000)
            ||| forall|i: int|
                0 <= i < 3 ==> #[trigger] rgb.0@[i] == signed(high_first(bytes, 4 * i, 4), 0x1_0000_0000)
        },
        rgba.holds(bytes) && bytes.len() == 16 ==> {
            ||| forall|i: int|
                0 <= i < 4 ==> #[trigger] rgba.0@[i] == signed(low_first(bytes, 4 * i, 4), 0x1_0000_0000)
            ||| forall|i: int|
                0 <= i < 4 ==> #[trigger] rgba.0@[i] == signed(high_first(bytes, 4 * i, 4), 0x1_0000_0000)
        },
{
    assert forall|c: i32| c == signed((#[trigger] (c as u32)) as int, 0x1_0000_0000) by {
        assert(c >= 0 ==> c as u32 == c) by (bit_vector);
        assert(c < 0 ==> c as u32 == c + 0x1_0000_0000) by (bit_vector);
    }
    if luma.holds(bytes) && bytes.len() == 4 {
        let channels = seq![(luma.0 as u32) as nat];
        lemma_channels(channels, bytes, 4);
        assert(channels[0] == (luma.0 as u32) as nat);
        assert(0 * 4nat == 0);
    }
    if rgb.holds(bytes) && bytes.len() == 12 {
        let channels = rgb.0@.map_values(|c: i32| (c as u32) as nat);
        lemma_channels(channels, bytes, 4);
        if forall|i: int|
            0 <= i < channels.len() ==> #[trigger] channels[i] == low_first(bytes, i * 4nat, 4) {
            assert forall|i: int| 0 <= i < 3 implies #[trigger] rgb.0@[i] == signed(low_first(bytes, 4 * i, 4), 0x1_0000_0000) by {
                assert(channels[i] == (rgb.0@[i] as u32) as nat);
            }
        } else {
            assert forall|i: int| 0 <= i < 3 implies #[trigger] rgb.0@[i] == signed(high_first(bytes, 4 * i, 4), 0x1_0000_0000) by {
                assert(channels[i] == (rgb.0@[i] as u32) as nat);
            }
        }
    }
    if rgba.holds(bytes) && bytes.len() == 16 {
        let channels = rgba.0@.map_values(|c: i32| (c as u32) as nat);
        lemma_channels(channels, bytes, 4);
        if forall|i: int|
            0 <= i < channels.len() ==> #[trigger] channels[i] == low_first(bytes, i * 4nat, 4) {
            assert forall|i: int| 0 <= i < 4 implies #[trigger] rgba.0@[i] == signed(low_first(bytes, 4 * i, 4), 0x1_0000_0000) by {
                assert(channels[i] == (rgba.0@[i] as u32) as nat);
            }
        } else {
            assert forall|i: int| 0 <= i < 4 implies #[trigger] rgba.0@[i] == signed(high_first(bytes, 4 * i, 4), 0x1_0000_0000) by {
                assert(channels[i] == (rgba.0@[i] as u32) as nat);
            }
        }
    }
}

/// Each channel of a texel with channels of sixty-four bits is the number in 8 bytes, in order. All
/// channels have the byte order of the machine.
pub proof fn law_texels_of_sixty_four_bits(
    luma: Luma<u64>,
    rgb: Rgb<u64>,
    rgba: Rgba<u64>,
    bytes: Seq<u8>,
)
    ensures
        luma.holds(bytes) && bytes.len() == 8 ==> luma.0 == low_first(bytes, 0, 8) || luma.0
            == high_first(bytes, 0, 8),
        rgb.holds(bytes) && bytes.len() == 24 ==> {
            ||| forall|i: int|
                0 <= i < 3 ==> #[trigger] rgb.0@[i] == low_first(bytes, 8 * i, 8)
            ||| forall|i: int|
                0 <= i < 3 ==> #[trigger] rgb.0@[i] == high_first(bytes, 8 * i, 8)
        },
        rgba.holds(bytes) && bytes.len() == 32 ==> {
            ||| forall|i: int|
                0 <= i < 4 ==> #[trigger] rgba.0@[i] == low_first(bytes, 8 * i, 8)
            ||| forall|i: int|
                0 <= i < 4 ==> #[trigger] rgba.0@[i] == high_first(bytes, 8 * i, 8)
        },
{
    if luma.holds(bytes) && bytes.len() == 8 {
        let channels = seq![luma.0 as nat];
        lemma_channels(channels, bytes, 8);
        assert(channels[0] == luma.0 as nat);
        assert(0 * 8nat == 0);
    }
    if rgb.holds(bytes) && bytes.len() == 24 {
        let channels = rgb.0@.map_values(|c: u64| c as nat);
        lemma_channels(channels, bytes, 8);
        if forall|i: int|
            0 <= i < channels.len() ==> #[trigger] channels[i] == low_first(bytes, i * 8nat, 8) {
            assert forall|i: int| 0 <= i < 3 implies #[trigger] rgb.0@[i] == low_first(bytes, 8 * i, 8) by {
                assert(channels[i] == rgb.0@[i] as nat);
            }
        } else {
            assert forall|i: int| 0 <= i < 3 implies #[trigger] rgb.0@[i] == high_first(bytes, 8 * i, 8) by {
                assert(channels[i] == rgb.0@[i] as nat);
            }
        }
    }
    if rgba.holds(bytes) && bytes.len() == 32 {
        let channels = rgba.0@.map_values(|c: u64| c as nat);
        lemma_channels(channels, bytes, 8);
        if forall|i: int|
            0 <= i < channels.len() ==> #[trigger] channels[i] == low_first(bytes, i * 8nat, 8) {
            assert forall|i: int| 0 <= i < 4 implies #[trigger] rgba.0@[i] == low_first(bytes, 8 * i, 8) by {
                assert(channels[i] == rgba.0@[i] as nat);
            }
        } else {
            assert forall|i: int| 0 <= i < 4 implies #[trigger] rgba.0@[i] == high_first(bytes, 8 * i, 8) by {
                assert(channels[i] == rgba.0@[i] as nat);
            }
        }
    }
}

/// Each channel of a texel with signed channels of sixty-four bits is the number in 8 bytes, in order. All
/// channels have the byte order of the machine.
pub proof fn law_texels_of_sixty_four_signed_bits(
    luma: Luma<i64>,
    rgb: Rgb<i64>,
    rgba: Rgba<i64>,
    bytes: Seq<u8>,
)
    ensures
        luma.holds(bytes) && bytes.len() == 8 ==> luma.0 == signed(low_first(bytes, 0, 8), 0x1_0000_0000_0000_0000) || luma.0
            == signed(high_first(bytes, 0, 8), 0x1_0000_0000_0000_0000),
        rgb.holds(bytes) && bytes.len() == 24 ==> {
            ||| forall|i: int|
                0 <= i < 3 ==> #[trigger] rgb.0@[i] == signed(low_first(bytes, 8 * i, 8), 0x1_0000_0000_0000_0000)
            ||| forall|i: int|
                0 <= i < 3 ==> #[trigger] rgb.0@[i] == signed(high_first(bytes, 8 * i, 8), 0x1_0000_0000_0000_0000)
        },
        rgba.holds(bytes) && bytes.len() == 32 ==> {
            ||| forall|i: int|
                0 <= i < 4 ==> #[trigger] rgba.0@[i] == signed(low_first(bytes, 8 * i, 8), 0x1_0000_0000_0000_0000)
            ||| forall|i: int|
                0 <= i < 4 ==> #[trigger] rgba.0@[i] == signed(high_first(bytes, 8 * i, 8), 0x1_0000_0000_0000_0000)
        },
{
    assert forall|c: i64| c == signed((#[trigger] (c as u64)) as int, 0x1_0000_0000_0000_0000) by {
        assert(c >= 0 ==> c as u64 == c) by (bit_vector);
        assert(c < 0 ==> c as u64 == c + 0x1_0000_0000_0000_0000) by (bit_vector);
    }
    if luma.holds(bytes) && bytes.len() == 8 {
        let channels = seq![(luma.0 as u64) as nat];
        lemma_channels(channels, bytes, 8);
        assert(channels[0] == (luma.0 as u64) as nat);
        assert(0 * 8nat == 0);
    }
    if rgb.holds(bytes) && bytes.len() == 24 {
        let channels = rgb.0@.map_values(|c: i64| (c as u64) as nat);
        lemma_channels(channels, bytes, 8);
        if forall|i: int|
            0 <= i < channels.len() ==> #[trigger] channels[i] == low_first(bytes, i * 8nat, 8) {
            assert forall|i: int| 0 <= i < 3 implies #[trigger] rgb.0@[i] == signed(low_first(bytes, 8 * i, 8), 0x1_0000_0000_0000_0000) by {
                assert(channels[i] == (rgb.0@[i] as u64) as nat);
            }
        } else {
            assert forall|i: int| 0 <= i < 3 implies #[trigger] rgb.0@[i] == signed(high_first(bytes, 8 * i, 8), 0x1_0000_0000_0000_0000) by {
                assert(channels[i] == (rgb.0@[i] as u64) as nat);
            }
        }
    }
    if rgba.holds(bytes) && bytes.len() == 32 {
        let channels = rgba.0@.map_values(|c: i64| (c as u64) as nat);
        lemma_channels(channels, bytes, 8);
        if forall|i: int|
            0 <= i < channels.len() ==> #[trigger] channels[i] == low_first(bytes, i * 8nat, 8) {
            assert forall|i: int| 0 <= i < 4 implies #[trigger] rgba.0@[i] == signed(low_first(bytes, 8 * i, 8), 0x1_0000_0000_0000_0000) by {
                assert(channels[i] == (rgba.0@[i] as u64) as nat);
            }
        } else {
            assert forall|i: int| 0 <= i < 4 implies #[trigger] rgba.0@[i] == signed(high_first(bytes, 8 * i, 8), 0x1_0000_0000_0000_0000) by {
                assert(channels[i] == (rgba.0@[i] as u64) as nat);
            }
        }
    }
}

} // verus!
