//! Texel formats, and texels as values.
use crate::bytes::{be_value, le_value};
use vstd::prelude::*;

verus! {

/// How the texels of an image are stored: the channels, and the bits of each.
#[derive(Debug, Copy, Clone, PartialEq, Eq, Structural)]
pub enum PixelFormat {
    Luma8,
    Luma16,
    Luma32,
    Rgb8,
    Rgb16,
    Rgb32,
    Rgba8,
    Rgba16,
    Rgba32,
}

impl PixelFormat {
    /// The number that stands for the format in a file.
    pub open spec fn code(self) -> u32 {
        match self {
            PixelFormat::Luma8 => 0,
            PixelFormat::Luma16 => 1,
            PixelFormat::Luma32 => 2,
            PixelFormat::Rgb8 => 3,
            PixelFormat::Rgb16 => 4,
            PixelFormat::Rgb32 => 5,
            PixelFormat::Rgba8 => 6,
            PixelFormat::Rgba16 => 7,
            PixelFormat::Rgba32 => 8,
        }
    }

    pub open spec fn channels(self) -> nat {
        match self {
            PixelFormat::Luma8 | PixelFormat::Luma16 | PixelFormat::Luma32 => 1,
            PixelFormat::Rgb8 | PixelFormat::Rgb16 | PixelFormat::Rgb32 => 3,
            PixelFormat::Rgba8 | PixelFormat::Rgba16 | PixelFormat::Rgba32 => 4,
        }
    }

    pub open spec fn channel_bytes(self) -> nat {
        match self {
            PixelFormat::Luma8 | PixelFormat::Rgb8 | PixelFormat::Rgba8 => 1,
            PixelFormat::Luma16 | PixelFormat::Rgb16 | PixelFormat::Rgba16 => 2,
            PixelFormat::Luma32 | PixelFormat::Rgb32 | PixelFormat::Rgba32 => 4,
        }
    }

    /// The number of bytes of one texel.
    pub open spec fn stride(self) -> nat {
        self.channels() * self.channel_bytes()
    }

    /// The total number of bytes that a single texel in the format uses.
    pub fn texel_bytes(&self) -> (bytes: usize)
        ensures
            bytes == self.stride(),
            1 <= bytes <= 16,
    {
        match self {
            PixelFormat::Luma8 => 1,
            PixelFormat::Luma16 => 2,
            PixelFormat::Rgb8 => 3,
            PixelFormat::Luma32 | PixelFormat::Rgba8 => 4,
            PixelFormat::Rgb16 => 6,
            PixelFormat::Rgba16 => 8,
            PixelFormat::Rgb32 => 12,
            PixelFormat::Rgba32 => 16,
        }
    }

    /// The format that a number in a file stands for.
    pub fn from_u32(value: u32) -> (format: Self)
        requires
            value <= 8,
        ensures
            format.code() == value,
    {
        match value {
            0 => PixelFormat::Luma8,
            1 => PixelFormat::Luma16,
            2 => PixelFormat::Luma32,
            3 => PixelFormat::Rgb8,
            4 => PixelFormat::Rgb16,
            5 => PixelFormat::Rgb32,
            6 => PixelFormat::Rgba8,
            7 => PixelFormat::Rgba16,
            _ => PixelFormat::Rgba32,
        }
    }

    /// The number that stands for the format in a file.
    pub fn to_u32(&self) -> (value: u32)
        ensures
            value == self.code(),
            value <= 8,
    {
        match self {
            PixelFormat::Luma8 => 0,
            PixelFormat::Luma16 => 1,
            PixelFormat::Luma32 => 2,
            PixelFormat::Rgb8 => 3,
            PixelFormat::Rgb16 => 4,
            PixelFormat::Rgb32 => 5,
            PixelFormat::Rgba8 => 6,
            PixelFormat::Rgba16 => 7,
            PixelFormat::Rgba32 => 8,
        }
    }
}

/// A format is known by its number: no two share one.
pub proof fn law_format_codes_differ(a: PixelFormat, b: PixelFormat)
    ensures
        a.code() == b.code() <==> a == b,
        a.code() <= 8,
{
}

/// A texel with one channel.
#[derive(Debug, PartialEq)]
pub struct Luma<T>(pub T);

impl<T> AsRef<T> for Luma<T> {
    fn as_ref(&self) -> (channel: &T)
        ensures
            *channel == self.0,
    {
        &self.0
    }
}

/// A texel with a red, a green and a blue channel.
#[derive(Debug, PartialEq)]
pub struct Rgb<T>(pub [T; 3]);

impl<T> AsRef<[T; 3]> for Rgb<T> {
    fn as_ref(&self) -> (channels: &[T; 3])
        ensures
            *channels == self.0,
    {
        &self.0
    }
}

/// A texel with a red, a green, a blue and an alpha channel.
#[derive(Debug, PartialEq)]
pub struct Rgba<T>(pub [T; 4]);

impl<T> AsRef<[T; 4]> for Rgba<T> {
    fn as_ref(&self) -> (channels: &[T; 4])
        ensures
            *channels == self.0,
    {
        &self.0
    }
}

/// Values that a texel can be read as.
pub trait Texel: Sized {
    /// The number of bytes of one texel.
    const STRIDE: usize;

    /// Whether the value is what `bytes` hold.
    spec fn holds(&self, bytes: Seq<u8>) -> bool;

    /// The value that `bytes` hold.
    fn from_bytes(bytes: &[u8]) -> (texel: Self)
        requires
            bytes@.len() == Self::STRIDE,
        ensures
            texel.holds(bytes@),
    ;
}

/// Whether `channels` are the numbers that `bytes` hold, `width` bytes each, in the byte order of
/// the machine: least significant byte first throughout, or most significant byte first
/// throughout.
pub open spec fn native_channels(channels: Seq<nat>, bytes: Seq<u8>, width: nat) -> bool {
    ||| forall|i: int|
        0 <= i < channels.len() ==> #[trigger] channels[i] == le_value(
            bytes.subrange(i * width, i * width + width),
        )
    ||| forall|i: int|
        0 <= i < channels.len() ==> #[trigger] channels[i] == be_value(
            bytes.subrange(i * width, i * width + width),
        )
}

/// `bytemuck::from_bytes` as an array of bytes: the same bytes in the same order. It panics where
/// the length or the alignment does not fit; bytes have alignment one, so a slice of the right
/// length is always accepted.
#[verifier::external_body]
fn cast_u8s<const N: usize>(bytes: &[u8]) -> (channels: [u8; N])
    requires
        bytes@.len() == N,
    ensures
        channels@ == bytes@,
{
    *bytemuck::from_bytes(bytes)
}

/// `bytemuck::pod_read_unaligned` as an array of `u16`: the numbers that each two bytes hold, in
/// the byte order of the machine. It panics where the length does not fit; the slice may have any
/// alignment.
#[verifier::external_body]
fn read_u16s<const N: usize>(bytes: &[u8]) -> (channels: [u16; N])
    requires
        bytes@.len() == 2 * N,
    ensures
        native_channels(channels@.map_values(|c: u16| c as nat), bytes@, 2),
{
    bytemuck::pod_read_unaligned(bytes)
}

/// `bytemuck::pod_read_unaligned` as an array of `u32`: the numbers that each four bytes hold, in
/// the byte order of the machine. It panics where the length does not fit; the slice may have any
/// alignment.
#[verifier::external_body]
fn read_u32s<const N: usize>(bytes: &[u8]) -> (channels: [u32; N])
    requires
        bytes@.len() == 4 * N,
    ensures
        native_channels(channels@.map_values(|c: u32| c as nat), bytes@, 4),
{
    bytemuck::pod_read_unaligned(bytes)
}

/// `bytemuck::pod_read_unaligned` as an array of `u64`: the numbers that each eight bytes hold, in
/// the byte order of the machine. It panics where the length does not fit; the slice may have any
/// alignment.
#[verifier::external_body]
fn read_u64s<const N: usize>(bytes: &[u8]) -> (channels: [u64; N])
    requires
        bytes@.len() == 8 * N,
    ensures
        native_channels(channels@.map_values(|c: u64| c as nat), bytes@, 8),
{
    bytemuck::pod_read_unaligned(bytes)
}

impl Texel for Luma<u8> {
    const STRIDE: usize = 1;

    open spec fn holds(&self, bytes: Seq<u8>) -> bool {
        bytes == seq![self.0]
    }

    fn from_bytes(bytes: &[u8]) -> (texel: Self) {
        let channels: [u8; 1] = cast_u8s::<1>(bytes);
        let texel = Luma(channels[0]);
        assert(bytes@ =~= seq![texel.0]);
        texel
    }
}

impl Texel for Rgb<u8> {
    const STRIDE: usize = 3;

    open spec fn holds(&self, bytes: Seq<u8>) -> bool {
        bytes == self.0@
    }

    fn from_bytes(bytes: &[u8]) -> (texel: Self) {
        Rgb(cast_u8s::<3>(bytes))
    }
}

impl Texel for Rgba<u8> {
    const STRIDE: usize = 4;

    open spec fn holds(&self, bytes: Seq<u8>) -> bool {
        bytes == self.0@
    }

    fn from_bytes(bytes: &[u8]) -> (texel: Self) {
        Rgba(cast_u8s::<4>(bytes))
    }
}

impl Texel for Luma<u16> {
    const STRIDE: usize = 2;

    open spec fn holds(&self, bytes: Seq<u8>) -> bool {
        native_channels(seq![self.0 as nat], bytes, 2)
    }

    fn from_bytes(bytes: &[u8]) -> (texel: Self) {
        let channels: [u16; 1] = read_u16s::<1>(bytes);
        let texel = Luma(channels[0]);
        assert(channels@.map_values(|c: u16| c as nat) =~= seq![texel.0 as nat]);
        texel
    }
}

impl Texel for Rgb<u16> {
    const STRIDE: usize = 6;

    open spec fn holds(&self, bytes: Seq<u8>) -> bool {
        native_channels(self.0@.map_values(|c: u16| c as nat), bytes, 2)
    }

    fn from_bytes(bytes: &[u8]) -> (texel: Self) {
        Rgb(read_u16s::<3>(bytes))
    }
}

impl Texel for Rgba<u16> {
    const STRIDE: usize = 8;

    open spec fn holds(&self, bytes: Seq<u8>) -> bool {
        native_channels(self.0@.map_values(|c: u16| c as nat), bytes, 2)
    }

    fn from_bytes(bytes: &[u8]) -> (texel: Self) {
        Rgba(read_u16s::<4>(bytes))
    }
}

impl Texel for Luma<u32> {
    const STRIDE: usize = 4;

    open spec fn holds(&self, bytes: Seq<u8>) -> bool {
        native_channels(seq![self.0 as nat], bytes, 4)
    }

    fn from_bytes(bytes: &[u8]) -> (texel: Self) {
        let channels: [u32; 1] = read_u32s::<1>(bytes);
        let texel = Luma(channels[0]);
        assert(channels@.map_values(|c: u32| c as nat) =~= seq![texel.0 as nat]);
        texel
    }
}

impl Texel for Rgb<u32> {
    const STRIDE: usize = 12;

    open spec fn holds(&self, bytes: Seq<u8>) -> bool {
        native_channels(self.0@.map_values(|c: u32| c as nat), bytes, 4)
    }

    fn from_bytes(bytes: &[u8]) -> (texel: Self) {
        Rgb(read_u32s::<3>(bytes))
    }
}

impl Texel for Rgba<u32> {
    const STRIDE: usize = 16;

    open spec fn holds(&self, bytes: Seq<u8>) -> bool {
        native_channels(self.0@.map_values(|c: u32| c as nat), bytes, 4)
    }

    fn from_bytes(bytes: &[u8]) -> (texel: Self) {
        Rgba(read_u32s::<4>(bytes))
    }
}

impl Texel for Luma<u64> {
    const STRIDE: usize = 8;

    open spec fn holds(&self, bytes: Seq<u8>) -> bool {
        native_channels(seq![self.0 as nat], bytes, 8)
    }

    fn from_bytes(bytes: &[u8]) -> (texel: Self) {
        let channels: [u64; 1] = read_u64s::<1>(bytes);
        let texel = Luma(channels[0]);
        assert(channels@.map_values(|c: u64| c as nat) =~= seq![texel.0 as nat]);
        texel
    }
}

impl Texel for Rgb<u64> {
    const STRIDE: usize = 24;

    open spec fn holds(&self, bytes: Seq<u8>) -> bool {
        native_channels(self.0@.map_values(|c: u64| c as nat), bytes, 8)
    }

    fn from_bytes(bytes: &[u8]) -> (texel: Self) {
        Rgb(read_u64s::<3>(bytes))
    }
}

impl Texel for Rgba<u64> {
    const STRIDE: usize = 32;

    open spec fn holds(&self, bytes: Seq<u8>) -> bool {
        native_channels(self.0@.map_values(|c: u64| c as nat), bytes, 8)
    }

    fn from_bytes(bytes: &[u8]) -> (texel: Self) {
        Rgba(read_u64s::<4>(bytes))
    }
}

/// The signed number with the same bits.
fn signed_8(bits: u8) -> (number: i8)
    ensures
        number as u8 == bits,
{
    assert((bits as i8) as u8 == bits) by (bit_vector);
    #[verifier::truncate]
    (bits as i8)
}

/// The signed number with the same bits.
fn signed_16(bits: u16) -> (number: i16)
    ensures
        number as u16 == bits,
{
    assert((bits as i16) as u16 == bits) by (bit_vector);
    #[verifier::truncate]
    (bits as i16)
}

/// The signed number with the same bits.
fn signed_32(bits: u32) -> (number: i32)
    ensures
        number as u32 == bits,
{
    assert((bits as i32) as u32 == bits) by (bit_vector);
    #[verifier::truncate]
    (bits as i32)
}

/// The signed number with the same bits.
fn signed_64(bits: u64) -> (number: i64)
    ensures
        number as u64 == bits,
{
    assert((bits as i64) as u64 == bits) by (bit_vector);
    #[verifier::truncate]
    (bits as i64)
}

impl Texel for Luma<i8> {
    const STRIDE: usize = 1;

    open spec fn holds(&self, bytes: Seq<u8>) -> bool {
        bytes == seq![self.0 as u8]
    }

    fn from_bytes(bytes: &[u8]) -> (texel: Self) {
        let channels: [u8; 1] = cast_u8s::<1>(bytes);
        let texel = Luma(signed_8(channels[0]));
        assert(bytes@ =~= seq![texel.0 as u8]);
        texel
    }
}

impl Texel for Rgb<i8> {
    const STRIDE: usize = 3;

    open spec fn holds(&self, bytes: Seq<u8>) -> bool {
        bytes == self.0@.map_values(|c: i8| c as u8)
    }

    fn from_bytes(bytes: &[u8]) -> (texel: Self) {
        let channels: [u8; 3] = cast_u8s::<3>(bytes);
        let texel = Rgb(
            [
                signed_8(channels[0]),
                signed_8(channels[1]),
                signed_8(channels[2]),
            ],
        );
        assert(bytes@ =~= texel.0@.map_values(|c: i8| c as u8));
        texel
    }
}

impl Texel for Rgba<i8> {
    const STRIDE: usize = 4;

    open spec fn holds(&self, bytes: Seq<u8>) -> bool {
        bytes == self.0@.map_values(|c: i8| c as u8)
    }

    fn from_bytes(bytes: &[u8]) -> (texel: Self) {
        let channels: [u8; 4] = cast_u8s::<4>(bytes);
        let texel = Rgba(
            [
                signed_8(channels[0]),
                signed_8(channels[1]),
                signed_8(channels[2]),
                signed_8(channels[3]),
            ],
        );
        assert(bytes@ =~= texel.0@.map_values(|c: i8| c as u8));
        texel
    }
}

impl Texel for Luma<i16> {
    const STRIDE: usize = 2;

    open spec fn holds(&self, bytes: Seq<u8>) -> bool {
        native_channels(seq![(self.0 as u16) as nat], bytes, 2)
    }

    fn from_bytes(bytes: &[u8]) -> (texel: Self) {
        let channels: [u16; 1] = read_u16s::<1>(bytes);
        let texel = Luma(signed_16(channels[0]));
        assert(channels@.map_values(|c: u16| c as nat) =~= seq![(texel.0 as u16) as nat]);
        texel
    }
}

impl Texel for Rgb<i16> {
    const STRIDE: usize = 6;

    open spec fn holds(&self, bytes: Seq<u8>) -> bool {
        native_channels(self.0@.map_values(|c: i16| (c as u16) as nat), bytes, 2)
    }

    fn from_bytes(bytes: &[u8]) -> (texel: Self) {
        let channels: [u16; 3] = read_u16s::<3>(bytes);
        let texel = Rgb(
            [
                signed_16(channels[0]),
                signed_16(channels[1]),
                signed_16(channels[2]),
            ],
        );
        assert(channels@.map_values(|c: u16| c as nat) =~= texel.0@.map_values(
            |c: i16| (c as u16) as nat,
        ));
        texel
    }
}

impl Texel for Rgba<i16> {
    const STRIDE: usize = 8;

    open spec fn holds(&self, bytes: Seq<u8>) -> bool {
        native_channels(self.0@.map_values(|c: i16| (c as u16) as nat), bytes, 2)
    }

    fn from_bytes(bytes: &[u8]) -> (texel: Self) {
        let channels: [u16; 4] = read_u16s::<4>(bytes);
        let texel = Rgba(
            [
                signed_16(channels[0]),
                signed_16(channels[1]),
                signed_16(channels[2]),
                signed_16(channels[3]),
            ],
        );
        assert(channels@.map_values(|c: u16| c as nat) =~= texel.0@.map_values(
            |c: i16| (c as u16) as nat,
        ));
        texel
    }
}

impl Texel for Luma<i32> {
    const STRIDE: usize = 4;

    open spec fn holds(&self, bytes: Seq<u8>) -> bool {
        native_channels(seq![(self.0 as u32) as nat], bytes, 4)
    }

    fn from_bytes(bytes: &[u8]) -> (texel: Self) {
        let channels: [u32; 1] = read_u32s::<1>(bytes);
        let texel = Luma(signed_32(channels[0]));
        assert(channels@.map_values(|c: u32| c as nat) =~= seq![(texel.0 as u32) as nat]);
        texel
    }
}

impl Texel for Rgb<i32> {
    const STRIDE: usize = 12;

    open spec fn holds(&self, bytes: Seq<u8>) -> bool {
        native_channels(self.0@.map_values(|c: i32| (c as u32) as nat), bytes, 4)
    }

    fn from_bytes(bytes: &[u8]) -> (texel: Self) {
        let channels: [u32; 3] = read_u32s::<3>(bytes);
        let texel = Rgb(
            [
                signed_32(channels[0]),
                signed_32(channels[1]),
                signed_32(channels[2]),
            ],
        );
        assert(channels@.map_values(|c: u32| c as nat) =~= texel.0@.map_values(
            |c: i32| (c as u32) as nat,
        ));
        texel
    }
}

impl Texel for Rgba<i32> {
    const STRIDE: usize = 16;

    open spec fn holds(&self, bytes: Seq<u8>) -> bool {
        native_channels(self.0@.map_values(|c: i32| (c as u32) as nat), bytes, 4)
    }

    fn from_bytes(bytes: &[u8]) -> (texel: Self) {
        let channels: [u32; 4] = read_u32s::<4>(bytes);
        let texel = Rgba(
            [
                signed_32(channels[0]),
                signed_32(channels[1]),
                signed_32(channels[2]),
                signed_32(channels[3]),
            ],
        );
        assert(channels@.map_values(|c: u32| c as nat) =~= texel.0@.map_values(
            |c: i32| (c as u32) as nat,
        ));
        texel
    }
}

impl Texel for Luma<i64> {
    const STRIDE: usize = 8;

    open spec fn holds(&self, bytes: Seq<u8>) -> bool {
        native_channels(seq![(self.0 as u64) as nat], bytes, 8)
    }

    fn from_bytes(bytes: &[u8]) -> (texel: Self) {
        let channels: [u64; 1] = read_u64s::<1>(bytes);
        let texel = Luma(signed_64(channels[0]));
        assert(channels@.map_values(|c: u64| c as nat) =~= seq![(texel.0 as u64) as nat]);
        texel
    }
}

impl Texel for Rgb<i64> {
    const STRIDE: usize = 24;

    open spec fn holds(&self, bytes: Seq<u8>) -> bool {
        native_channels(self.0@.map_values(|c: i64| (c as u64) as nat), bytes, 8)
    }

    fn from_bytes(bytes: &[u8]) -> (texel: Self) {
        let channels: [u64; 3] = read_u64s::<3>(bytes);
        let texel = Rgb(
            [
                signed_64(channels[0]),
                signed_64(channels[1]),
                signed_64(channels[2]),
            ],
        );
        assert(channels@.map_values(|c: u64| c as nat) =~= texel.0@.map_values(
            |c: i64| (c as u64) as nat,
        ));
        texel
    }
}

impl Texel for Rgba<i64> {
    const STRIDE: usize = 32;

    open spec fn holds(&self, bytes: Seq<u8>) -> bool {
        native_channels(self.0@.map_values(|c: i64| (c as u64) as nat), bytes, 8)
    }

    fn from_bytes(bytes: &[u8]) -> (texel: Self) {
        let channels: [u64; 4] = read_u64s::<4>(bytes);
        let texel = Rgba(
            [
                signed_64(channels[0]),
                signed_64(channels[1]),
                signed_64(channels[2]),
                signed_64(channels[3]),
            ],
        );
        assert(channels@.map_values(|c: u64| c as nat) =~= texel.0@.map_values(
            |c: i64| (c as u64) as nat,
        ));
        texel
    }
}

/// The number of bytes of each kind of texel is that of the format it is read from. Channels of eight
/// bytes have no format of their own.
pub proof fn law_strides()
    ensures
        <Luma<u8> as Texel>::STRIDE == PixelFormat::Luma8.stride(),
        <Rgb<u8> as Texel>::STRIDE == PixelFormat::Rgb8.stride(),
        <Rgba<u8> as Texel>::STRIDE == PixelFormat::Rgba8.stride(),
        <Luma<u16> as Texel>::STRIDE == PixelFormat::Luma16.stride(),
        <Rgb<u16> as Texel>::STRIDE == PixelFormat::Rgb16.stride(),
        <Rgba<u16> as Texel>::STRIDE == PixelFormat::Rgba16.stride(),
        <Luma<u32> as Texel>::STRIDE == PixelFormat::Luma32.stride(),
        <Rgb<u32> as Texel>::STRIDE == PixelFormat::Rgb32.stride(),
        <Rgba<u32> as Texel>::STRIDE == PixelFormat::Rgba32.stride(),
        <Luma<i8> as Texel>::STRIDE == PixelFormat::Luma8.stride(),
        <Rgb<i8> as Texel>::STRIDE == PixelFormat::Rgb8.stride(),
        <Rgba<i8> as Texel>::STRIDE == PixelFormat::Rgba8.stride(),
        <Luma<i16> as Texel>::STRIDE == PixelFormat::Luma16.stride(),
        <Rgb<i16> as Texel>::STRIDE == PixelFormat::Rgb16.stride(),
        <Rgba<i16> as Texel>::STRIDE == PixelFormat::Rgba16.stride(),
        <Luma<i32> as Texel>::STRIDE == PixelFormat::Luma32.stride(),
        <Rgb<i32> as Texel>::STRIDE == PixelFormat::Rgb32.stride(),
        <Rgba<i32> as Texel>::STRIDE == PixelFormat::Rgba32.stride(),
        <Luma<u64> as Texel>::STRIDE == 8,
        <Rgb<u64> as Texel>::STRIDE == 24,
        <Rgba<u64> as Texel>::STRIDE == 32,
        <Luma<i64> as Texel>::STRIDE == 8,
        <Rgb<i64> as Texel>::STRIDE == 24,
        <Rgba<i64> as Texel>::STRIDE == 32,
{
}

} // verus!
