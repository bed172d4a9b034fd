use texture_cache_rs::{Luma, PixelFormat, Rgb, Rgba, Texel};

const FORMATS: [PixelFormat; 9] = [
    PixelFormat::Luma8,
    PixelFormat::Luma16,
    PixelFormat::Luma32,
    PixelFormat::Rgb8,
    PixelFormat::Rgb16,
    PixelFormat::Rgb32,
    PixelFormat::Rgba8,
    PixelFormat::Rgba16,
    PixelFormat::Rgba32,
];

#[test]
fn formats_have_numbers_and_sizes() {
    let sizes = [1, 2, 4, 3, 6, 12, 4, 8, 16];
    for code in 0..9u32 {
        let format = PixelFormat::from_u32(code);
        assert_eq!(format, FORMATS[code as usize]);
        assert_eq!(format.to_u32(), code);
        assert_eq!(format as u32, code);
        assert_eq!(format.texel_bytes(), sizes[code as usize]);
    }
}

#[test]
fn strides_are_those_of_the_formats() {
    assert_eq!(<Luma<u8> as Texel>::STRIDE, 1);
    assert_eq!(<Luma<u16> as Texel>::STRIDE, 2);
    assert_eq!(<Luma<u32> as Texel>::STRIDE, 4);
    assert_eq!(<Rgb<u8> as Texel>::STRIDE, 3);
    assert_eq!(<Rgb<u16> as Texel>::STRIDE, 6);
    assert_eq!(<Rgb<u32> as Texel>::STRIDE, 12);
    assert_eq!(<Rgba<u8> as Texel>::STRIDE, 4);
    assert_eq!(<Rgba<u16> as Texel>::STRIDE, 8);
    assert_eq!(<Rgba<u32> as Texel>::STRIDE, 16);
}

#[test]
fn texels_of_bytes() {
    assert_eq!(Luma::<u8>::from_bytes(&[7]), Luma(7));
    assert_eq!(Rgb::<u8>::from_bytes(&[1, 2, 3]), Rgb([1, 2, 3]));
    assert_eq!(Rgba::<u8>::from_bytes(&[1, 2, 3, 4]), Rgba([1, 2, 3, 4]));
}

#[test]
fn wider_texels_of_bytes() {
    let mut bytes: Vec<u8> = vec![0xff];
    for value in [0x0102u16, 0x0304, 0x0506, 0x0708] {
        bytes.extend_from_slice(&value.to_ne_bytes());
    }
    assert_eq!(Luma::<u16>::from_bytes(&bytes[1..3]), Luma(0x0102));
    assert_eq!(Rgb::<u16>::from_bytes(&bytes[1..7]), Rgb([0x0102, 0x0304, 0x0506]));
    assert_eq!(
        Rgba::<u16>::from_bytes(&bytes[1..9]),
        Rgba([0x0102, 0x0304, 0x0506, 0x0708])
    );
    let mut bytes: Vec<u8> = vec![0xff];
    for value in [0x0102_0304u32, 5, 6, 0xffff_fffe] {
        bytes.extend_from_slice(&value.to_ne_bytes());
    }
    assert_eq!(Luma::<u32>::from_bytes(&bytes[1..5]), Luma(0x0102_0304));
    assert_eq!(Rgb::<u32>::from_bytes(&bytes[1..13]), Rgb([0x0102_0304, 5, 6]));
    assert_eq!(
        Rgba::<u32>::from_bytes(&bytes[1..17]),
        Rgba([0x0102_0304, 5, 6, 0xffff_fffe])
    );
}

#[test]
fn channels_of_texels() {
    assert_eq!(Luma(3u8).as_ref(), &3);
    assert_eq!(Rgb([1u16, 2, 3]).as_ref(), &[1, 2, 3]);
    assert_eq!(Rgba([1u32, 2, 3, 4]).as_ref(), &[1, 2, 3, 4]);
}

#[test]
fn signed_texels_of_bytes() {
    assert_eq!(Luma::<i8>::from_bytes(&[0xff]), Luma(-1));
    assert_eq!(Rgb::<i8>::from_bytes(&[1, 0x80, 3]), Rgb([1, -128, 3]));
    assert_eq!(Rgba::<i8>::from_bytes(&[1, 2, 3, 0xfe]), Rgba([1, 2, 3, -2]));
    let mut bytes: Vec<u8> = vec![0xff];
    for value in [-2i16, 300, i16::MIN, 7] {
        bytes.extend_from_slice(&value.to_ne_bytes());
    }
    assert_eq!(Luma::<i16>::from_bytes(&bytes[1..3]), Luma(-2));
    assert_eq!(Rgb::<i16>::from_bytes(&bytes[1..7]), Rgb([-2, 300, i16::MIN]));
    assert_eq!(Rgba::<i16>::from_bytes(&bytes[1..9]), Rgba([-2, 300, i16::MIN, 7]));
    let mut bytes: Vec<u8> = vec![0xff];
    for value in [-2i32, 70_000, i32::MIN, 7] {
        bytes.extend_from_slice(&value.to_ne_bytes());
    }
    assert_eq!(Luma::<i32>::from_bytes(&bytes[1..5]), Luma(-2));
    assert_eq!(Rgb::<i32>::from_bytes(&bytes[1..13]), Rgb([-2, 70_000, i32::MIN]));
    assert_eq!(Rgba::<i32>::from_bytes(&bytes[1..17]), Rgba([-2, 70_000, i32::MIN, 7]));
    assert_eq!(<Rgba<i16> as Texel>::STRIDE, 8);
}

#[test]
fn texels_with_channels_of_eight_bytes() {
    let mut bytes: Vec<u8> = vec![0xff];
    for value in [-2i64, 1 << 40, i64::MIN, 7] {
        bytes.extend_from_slice(&value.to_ne_bytes());
    }
    assert_eq!(Luma::<i64>::from_bytes(&bytes[1..9]), Luma(-2));
    assert_eq!(Rgb::<i64>::from_bytes(&bytes[1..25]), Rgb([-2, 1 << 40, i64::MIN]));
    assert_eq!(Rgba::<i64>::from_bytes(&bytes[1..33]), Rgba([-2, 1 << 40, i64::MIN, 7]));
    assert_eq!(Luma::<u64>::from_bytes(&bytes[1..9]), Luma(u64::MAX - 1));
    assert_eq!(Rgb::<u64>::from_bytes(&bytes[1..25]), Rgb([u64::MAX - 1, 1 << 40, 1 << 63]));
    assert_eq!(
        Rgba::<u64>::from_bytes(&bytes[1..33]),
        Rgba([u64::MAX - 1, 1 << 40, 1 << 63, 7])
    );
    assert_eq!(<Luma<u64> as Texel>::STRIDE, 8);
    assert_eq!(<Rgba<i64> as Texel>::STRIDE, 32);
}
