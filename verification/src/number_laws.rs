//! What numbers look like: in bytes, in a header, in an identity, in a hash and in decimal.
use crate::bytes::{be_value, law_fixed_width_round_trip, le_bytes, le_value, lemma_le_bytes_len};
use crate::decimal::decimal;
use crate::hash_table::{lemma_undo_multiplication, probe, sum_of_squares, TileId};
use crate::header::{law_encoded_size, law_header_round_trip, needed_bytes, HeaderView};
use crate::power_of_two::is_power_of_two;
use crate::texel::PixelFormat;
use vstd::arithmetic::power2::pow2;
use vstd::prelude::*;

verus! {

/// The number in the four bytes from `at` on, the least significant first.
#[verifier::opaque]
pub open spec fn word_at(bytes: Seq<u8>, at: int) -> int {
    bytes[at] + 0x100 * bytes[at + 1] + 0x1_0000 * bytes[at + 2] + 0x100_0000 * bytes[at + 3]
}

/// The number in the eight bytes from `at` on, the least significant first.
#[verifier::opaque]
pub open spec fn long_at(bytes: Seq<u8>, at: int) -> int {
    word_at(bytes, at) + 0x1_0000_0000 * word_at(bytes, at + 4)
}

/// Two bytes as a number.
pub proof fn law_short_value(bytes: Seq<u8>)
    requires
        bytes.len() == 2,
    ensures
        le_value(bytes) == bytes[0] + 0x100 * bytes[1],
        be_value(bytes) == 0x100 * bytes[0] + bytes[1],
{
    reveal_with_fuel(le_value, 3);
}

/// Four bytes as a number.
pub proof fn law_word_value(bytes: Seq<u8>)
    requires
        bytes.len() == 4,
    ensures
        le_value(bytes) == word_at(bytes, 0),
        be_value(bytes) == 0x100_0000 * bytes[0] + 0x1_0000 * bytes[1] + 0x100 * bytes[2]
            + bytes[3],
{
    reveal_with_fuel(le_value, 5);
    reveal(word_at);
}

/// Eight bytes as a number.
pub proof fn law_long_value(bytes: Seq<u8>)
    requires
        bytes.len() == 8,
    ensures
        le_value(bytes) == long_at(bytes, 0),
        be_value(bytes) == 0x100_0000_0000_0000 * bytes[0] + 0x1_0000_0000_0000 * bytes[1]
            + 0x100_0000_0000 * bytes[2] + 0x1_0000_0000 * bytes[3] + 0x100_0000 * bytes[4]
            + 0x1_0000 * bytes[5] + 0x100 * bytes[6] + bytes[7],
{
    reveal_with_fuel(le_value, 9);
    reveal(word_at);
    reveal(long_at);
}

/// A number that is written in four bytes, or in eight, has its least significant byte first.
pub proof fn law_written_numbers(word: u32, long: u64)
    ensures
        le_bytes(word as nat, 4).len() == 4,
        word_at(le_bytes(word as nat, 4), 0) == word,
        le_bytes(long as nat, 8).len() == 8,
        long_at(le_bytes(long as nat, 8), 0) == long,
{
    lemma_le_bytes_len(word as nat, 4);
    lemma_le_bytes_len(long as nat, 8);
    law_fixed_width_round_trip(word, long);
    law_word_value(le_bytes(word as nat, 4));
    law_long_value(le_bytes(long as nat, 8));
}

/// What stands where in bytes that a header is read from: four bytes as they are, then the version,
/// the logarithm of the tile size, the format, the first level in memory and the number of levels;
/// then the width and the height of each level; then where each level begins.
pub proof fn law_decoded_header(header: HeaderView, bytes: Seq<u8>)
    requires
        header.decodes(bytes),
    ensures
        ({
            let count = header.level_resolution.len();
            &&& bytes.len() >= 24 + 16 * count
            &&& header.level_offset.len() == count
            &&& header.magic.len() == 4
            &&& forall|i: int| 0 <= i < 4 ==> #[trigger] header.magic[i] == bytes[i]
            &&& header.version == word_at(bytes, 4)
            &&& header.log_tile_size == word_at(bytes, 8)
            &&& header.format == word_at(bytes, 12)
            &&& header.first_in_memory_level == word_at(bytes, 16)
            &&& count == word_at(bytes, 20)
            &&& forall|i: int|
                0 <= i < count ==> (#[trigger] header.level_resolution[i]).width == word_at(
                    bytes,
                    24 + 8 * i,
                ) && header.level_resolution[i].height == word_at(bytes, 28 + 8 * i)
            &&& forall|i: int|
                0 <= i < count ==> #[trigger] header.level_offset[i] == long_at(
                    bytes,
                    24 + 8 * count + 8 * i,
                )
        }),
{
    let count = header.level_resolution.len();
    lemma_word_in(bytes, 4);
    lemma_word_in(bytes, 8);
    lemma_word_in(bytes, 12);
    lemma_word_in(bytes, 16);
    lemma_word_in(bytes, 20);
    assert forall|i: int| 0 <= i < count implies (#[trigger] header.level_resolution[i]).width
        == word_at(bytes, 24 + 8 * i) && header.level_resolution[i].height == word_at(
        bytes,
        28 + 8 * i,
    ) by {
        lemma_word_in(bytes, 24 + 8 * i);
        lemma_word_in(bytes, 28 + 8 * i);
    }
    assert forall|i: int| 0 <= i < count implies #[trigger] header.level_offset[i] == long_at(
        bytes,
        24 + 8 * count + 8 * i,
    ) by {
        lemma_long_in(bytes, 24 + 8 * count + 8 * i);
    }
}

proof fn lemma_word_in(bytes: Seq<u8>, at: int)
    requires
        0 <= at,
        at + 4 <= bytes.len(),
    ensures
        le_value(bytes.subrange(at, at + 4)) == word_at(bytes, at),
{
    law_word_value(bytes.subrange(at, at + 4));
    reveal(word_at);
}

proof fn lemma_long_in(bytes: Seq<u8>, at: int)
    requires
        0 <= at,
        at + 8 <= bytes.len(),
    ensures
        le_value(bytes.subrange(at, at + 8)) == long_at(bytes, at),
{
    law_long_value(bytes.subrange(at, at + 8));
    reveal(word_at);
    reveal(long_at);
}

/// Numbers in bytes that are the front of other bytes.
pub proof fn lemma_numbers_in_front(front: Seq<u8>, bytes: Seq<u8>, at: int)
    requires
        front.len() <= bytes.len(),
        forall|i: int| 0 <= i < front.len() ==> #[trigger] bytes[i] == front[i],
        0 <= at,
    ensures
        at + 4 <= front.len() ==> word_at(bytes, at) == word_at(front, at),
        at + 8 <= front.len() ==> long_at(bytes, at) == long_at(front, at),
{
    reveal(word_at);
    reveal(long_at);
}

/// What stands where in a header that is written.
pub proof fn law_encoded_header(header: HeaderView)
    requires
        header.magic.len() == 4,
        header.level_offset.len() == header.level_resolution.len(),
        header.level_resolution.len() <= u32::MAX,
    ensures
        ({
            let bytes = header.encoded();
            let count = header.level_resolution.len();
            &&& bytes.len() == 24 + 16 * count
            &&& forall|i: int| 0 <= i < 4 ==> #[trigger] bytes[i] == header.magic[i]
            &&& word_at(bytes, 4) == header.version
            &&& word_at(bytes, 8) == header.log_tile_size
            &&& word_at(bytes, 12) == header.format
            &&& word_at(bytes, 16) == header.first_in_memory_level
            &&& word_at(bytes, 20) == count
            &&& forall|i: int|
                0 <= i < count ==> word_at(bytes, 24 + 8 * i) == (
                #[trigger] header.level_resolution[i]).width && word_at(bytes, 28 + 8 * i)
                    == header.level_resolution[i].height
            &&& forall|i: int|
                0 <= i < count ==> long_at(bytes, 24 + 8 * count + 8 * i)
                    == #[trigger] header.level_offset[i]
        }),
{
    let bytes = header.encoded();
    law_encoded_size(header);
    law_header_round_trip(header, Seq::empty());
    assert(bytes + Seq::<u8>::empty() =~= bytes);
    law_decoded_header(header, bytes);
    assert forall|i: int| 0 <= i < 4 implies #[trigger] bytes[i] == header.magic[i] by {
        assert(header.magic[i] == bytes[i]);
    }
}

/// How many bytes a header has can be told from its first 24 bytes.
pub proof fn law_needed_bytes(bytes: Seq<u8>)
    ensures
        bytes.len() < 24 ==> needed_bytes(bytes) == 24,
        bytes.len() >= 24 ==> needed_bytes(bytes) == 24 + 16 * word_at(bytes, 20),
{
    if bytes.len() >= 24 {
        lemma_word_in(bytes, 20);
    }
}

/// The formats: the number of each in a file, and the bytes of its texels, one, two or four for
/// each of one, three or four channels.
pub proof fn law_formats()
    ensures
        PixelFormat::Luma8.code() == 0 && PixelFormat::Luma8.stride() == 1,
        PixelFormat::Luma16.code() == 1 && PixelFormat::Luma16.stride() == 2,
        PixelFormat::Luma32.code() == 2 && PixelFormat::Luma32.stride() == 4,
        PixelFormat::Rgb8.code() == 3 && PixelFormat::Rgb8.stride() == 3,
        PixelFormat::Rgb16.code() == 4 && PixelFormat::Rgb16.stride() == 6,
        PixelFormat::Rgb32.code() == 5 && PixelFormat::Rgb32.stride() == 12,
        PixelFormat::Rgba8.code() == 6 && PixelFormat::Rgba8.stride() == 4,
        PixelFormat::Rgba16.code() == 7 && PixelFormat::Rgba16.stride() == 8,
        PixelFormat::Rgba32.code() == 8 && PixelFormat::Rgba32.stride() == 16,
{
}

/// An identity is made of four numbers of sixteen bits: the texture, the level, the column and the
/// row, from the low bits up.
pub proof fn law_identity_parts(id: TileId)
    ensures
        id.texture() < 0x1_0000,
        id.mip() < 0x1_0000,
        id.column() < 0x1_0000,
        id.row() < 0x1_0000,
        id.0 == id.texture() + 0x1_0000 * id.mip() + 0x1_0000_0000 * id.column()
            + 0x1_0000_0000_0000 * id.row(),
{
    let bits = id.0;
    assert(bits == bits % 0x1_0000 + 0x1_0000 * (bits / 0x1_0000 % 0x1_0000) + 0x1_0000_0000 * (bits
        / 0x1_0000_0000 % 0x1_0000) + 0x1_0000_0000_0000 * (bits / 0x1_0000_0000_0000 % 0x1_0000))
        by (bit_vector);
}

/// The identity of a tile, made of four numbers of sixteen bits.
pub proof fn law_identity_of_parts(tex_id: u32, level: u32, tile_x: u32, tile_y: u32)
    requires
        tex_id < 0x1_0000,
        level < 0x1_0000,
        tile_x < 0x1_0000,
        tile_y < 0x1_0000,
    ensures
        TileId::packed(tex_id, level, tile_x, tile_y) == tex_id + 0x1_0000 * level + 0x1_0000_0000
            * tile_x + 0x1_0000_0000_0000 * tile_y,
{
    let (t, l, x, y) = (tex_id as u64, level as u64, tile_x as u64, tile_y as u64);
    assert(t | ((l & 0xffff) << 16) | (x << 32) | (y << 48) == t + 0x1_0000 * l + 0x1_0000_0000 * x
        + 0x1_0000_0000_0000 * y) by (bit_vector)
        requires
            t < 0x1_0000,
            l < 0x1_0000,
            x < 0x1_0000,
            y < 0x1_0000,
    ;
}

/// The identity of a tile, made of any four numbers: of the level and the row the low sixteen bits
/// count, and the four parts are laid over each other.
pub proof fn law_identity_of_wide_parts(tex_id: u32, level: u32, tile_x: u32, tile_y: u32)
    ensures
        TileId::packed(tex_id, level, tile_x, tile_y) == tex_id as u64 | (0x1_0000 * (level
            % 0x1_0000)) as u64 | (0x1_0000_0000 * tile_x) as u64 | (0x1_0000_0000_0000 * (tile_y
            % 0x1_0000)) as u64,
{
    let (t, l, x, y) = (tex_id as u64, level as u64, tile_x as u64, tile_y as u64);
    let (low, column, bottom) = (
        (0x1_0000 * (level % 0x1_0000)) as u64,
        (0x1_0000_0000 * tile_x) as u64,
        (0x1_0000_0000_0000 * (tile_y % 0x1_0000)) as u64,
    );
    assert(t | ((l & 0xffff) << 16) | (x << 32) | (y << 48) == t | low | column | bottom)
        by (bit_vector)
        requires
            low == 0x1_0000 * (l % 0x1_0000),
            column == 0x1_0000_0000 * x,
            bottom == 0x1_0000_0000_0000 * (y % 0x1_0000),
            x < 0x1_0000_0000,
    ;
}

/// How the identity comes back out of its hash: shifted by 33, 27 and 31 and multiplied by two
/// factors, and the other way round.
pub proof fn law_hash_undone(id: TileId)
    ensures
        ({
            let h = id.hashed();
            let a = h ^ (h >> 33);
            let b = ((a * 0x4d6d_ff26_c61d_8485) % 0x1_0000_0000_0000_0000) as u64;
            let c = b ^ (b >> 27) ^ (b >> 54);
            let d = ((c * 0x4c5f_f459_6f4a_2f4d) % 0x1_0000_0000_0000_0000) as u64;
            d ^ (d >> 31) ^ (d >> 62) == id.0
        }),
{
    let v0 = id.0;
    let v1 = v0 ^ (v0 >> 31);
    let v2 = v1.wrapping_mul(0x7fb5d329728ea185);
    let v3 = v2 ^ (v2 >> 27);
    let v4 = v3.wrapping_mul(0x81dadef4bc2dd44d);
    let h = v4 ^ (v4 >> 33);
    assert(h ^ (h >> 33) == v4) by (bit_vector)
        requires
            h == v4 ^ (v4 >> 33),
    ;
    lemma_undo_multiplication(v3, 0x81dadef4bc2dd44d, 0x4d6d_ff26_c61d_8485);
    assert(v3 ^ (v3 >> 27) ^ (v3 >> 54) == v2) by (bit_vector)
        requires
            v3 == v2 ^ (v2 >> 27),
    ;
    lemma_undo_multiplication(v1, 0x7fb5d329728ea185, 0x4c5f_f459_6f4a_2f4d);
    assert(v1 ^ (v1 >> 31) ^ (v1 >> 62) == v0) by (bit_vector)
        requires
            v1 == v0 ^ (v0 >> 31),
    ;
}

/// The slots that are tried for a hash: the first is the hash itself, up to multiples of the size,
/// and from one to the next it is as far as the square of the number of tries.
pub proof fn law_tried_slots(hash: u64, k: nat, size: nat)
    requires
        size > 0,
    ensures
        probe(hash, 0, size) == hash as nat % size,
        probe(hash, k + 1, size) == (probe(hash, k, size) + (k + 1) * (k + 1)) % size,
{
    let before = (hash as nat + sum_of_squares(k)) as int;
    let square = ((k + 1) * (k + 1)) as int;
    assert(sum_of_squares(0) == 0);
    assert(sum_of_squares(k + 1) == sum_of_squares(k) + (k + 1) * (k + 1));
    vstd::arithmetic::div_mod::lemma_add_mod_noop(before, square, size as int);
    vstd::arithmetic::div_mod::lemma_add_mod_noop(before % size as int, square, size as int);
    vstd::arithmetic::div_mod::lemma_mod_twice(before, size as int);
}

/// The powers of two: one, and what is twice a power of two.
pub proof fn law_powers_of_two(n: nat)
    ensures
        is_power_of_two(1),
        !is_power_of_two(0),
        is_power_of_two(2 * n) <==> is_power_of_two(n),
        is_power_of_two(2 * n + 1) <==> n == 0,
{
    vstd::arithmetic::power2::lemma2_to64();
    assert(pow2(0) == 1);
    if is_power_of_two(0) {
        let e = choose|e: nat| #[trigger] pow2(e) == 0;
        vstd::arithmetic::power2::lemma_pow2_pos(e);
    }
    if is_power_of_two(n) {
        let e = choose|e: nat| #[trigger] pow2(e) == n;
        vstd::arithmetic::power2::lemma_pow2_unfold(e + 1);
        assert(pow2(e + 1) == 2 * n);
    }
    if is_power_of_two(2 * n) {
        let e = choose|e: nat| #[trigger] pow2(e) == 2 * n;
        assert(e > 0);
        vstd::arithmetic::power2::lemma_pow2_unfold(e);
        assert(pow2((e - 1) as nat) == n);
    }
    if is_power_of_two(2 * n + 1) {
        let e = choose|e: nat| #[trigger] pow2(e) == 2 * n + 1;
        if e > 0 {
            vstd::arithmetic::power2::lemma_pow2_unfold(e);
        }
    }
}

/// The number that digits stand for.
pub open spec fn number_of(digits: Seq<char>) -> int
    decreases digits.len(),
{
    if digits.len() == 0 {
        0
    } else {
        10 * number_of(digits.drop_last()) + (digits.last() as int - '0' as int)
    }
}

/// The decimal digits of a number: from `0` to `9`, the first not `0` but for the number zero, and
/// they stand for the number.
pub proof fn law_decimal(n: nat)
    ensures
        decimal(n).len() > 0,
        forall|i: int| 0 <= i < decimal(n).len() ==> '0' <= #[trigger] decimal(n)[i] <= '9',
        decimal(n)[0] == '0' ==> n == 0,
        decimal(n).len() == 1 <==> n < 10,
        number_of(decimal(n)) == n,
    decreases n,
{
    reveal_with_fuel(number_of, 2);
    if n >= 10 {
        law_decimal(n / 10);
        assert(decimal(n).drop_last() =~= decimal(n / 10));
    } else {
        assert(decimal(n).drop_last() =~= Seq::<char>::empty());
    }
}

/// An identity in words has the four numbers that it is made of, in decimal.
pub proof fn law_description(id: TileId)
    ensures
        id.described() == "TileId(tex:"@ + decimal((id.0 % 0x1_0000) as nat) + ", lv:"@ + decimal(
            (id.0 / 0x1_0000 % 0x1_0000) as nat,
        ) + ", x:"@ + decimal((id.0 / 0x1_0000_0000 % 0x1_0000) as nat) + ", y:"@ + decimal(
            (id.0 / 0x1_0000_0000_0000) as nat,
        ) + ")"@,
{
}

} // verus!
