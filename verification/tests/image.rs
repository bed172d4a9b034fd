use texture_cache_rs::bytes::{ByteReader, ReadError};
use texture_cache_rs::header::{Header, MAGIC_BYTES};
use texture_cache_rs::tiles::Extent;
use texture_cache_rs::{PixelFormat, PowerOfTwo, TiledImage, WrapMode};

fn power(value: u32) -> PowerOfTwo<u32> {
    PowerOfTwo::try_from(value).unwrap()
}

fn open(file: &[u8]) -> TiledImage {
    let header = Header::read(&mut ByteReader::new(file)).unwrap();
    assert!(header.is_loadable());
    TiledImage::open(vec![b"image".to_vec()], header, file).unwrap()
}

/// A level where each texel has its own first two bytes.
fn level(width: u32, height: u32, stride: usize) -> Vec<u8> {
    let mut data = Vec::new();
    for y in 0..height {
        for x in 0..width {
            for c in 0..stride {
                data.push((x.wrapping_mul(7) ^ y.wrapping_mul(13)).wrapping_add(c as u32 * 50) as u8);
            }
        }
    }
    data
}

/// Eight levels of one byte a texel, in tiles of 64.
fn luma_file() -> Vec<u8> {
    let base = level(128, 128, 1);
    assert!(TiledImage::can_create_with_mips(
        &base,
        128,
        128,
        PixelFormat::Luma8,
        power(64),
        WrapMode::Clamp
    ));
    let mut file = Vec::new();
    TiledImage::create_with_mips(
        &base,
        128,
        128,
        PixelFormat::Luma8,
        power(64),
        WrapMode::Clamp,
        &mut file,
    );
    file
}

#[test]
fn where_levels_stand() {
    let file = luma_file();
    assert_eq!(file.len(), 24576);
    let image = open(&file);
    assert_eq!(image.format, PixelFormat::Luma8);
    assert_eq!(image.log_tile_size, 6);
    assert_eq!(image.first_in_memory_level, 2);
    assert_eq!(image.level_offset, vec![8192, 4096, 493, 237, 173, 157, 153, 152]);
    assert_eq!(image.level_resolution[2], Extent::new(32, 32));
    assert_eq!(image.in_memory_levels.len(), 6);
    assert_eq!(image.tile_bytes(), 4096);
}

#[test]
fn tiles_are_addressed() {
    let image = open(&luma_file());
    assert_eq!(image.tile_index(63, 64), (0, 1));
    assert_eq!(image.tile_index(127, 5), (1, 0));
    assert_eq!(image.texel_offset(65, 66), 2 * 64 + 1);
    assert_eq!(image.file_offset(0, 0, 0), 8192);
    assert_eq!(image.file_offset(1, 0, 0), 8192 + 4096);
    assert_eq!(image.file_offset(0, 1, 0), 8192 + 2 * 4096);
    assert_eq!(image.file_offset(0, 0, 1), 4096);
    assert!(image.can_address(1, 1, 0));
    assert!(!image.can_address(0, 0, 8));
    assert!(image.can_get_level(0));
    assert!(!image.can_get_level(8));
    assert_eq!(image.get_level(0), (8192, 16384));
    assert_eq!(image.get_level(3), (237, 256));
}

#[test]
fn all_texels_come_back() {
    for (format, stride) in [
        (PixelFormat::Luma8, 1usize),
        (PixelFormat::Rgb8, 3),
        (PixelFormat::Rgba8, 4),
    ] {
        let (width, height) = (130u32, 70u32);
        let base = level(width, height, stride);
        let (levels, extents) = texture_cache_rs::mips::build_mips(
            &base,
            width,
            height,
            stride,
            WrapMode::Repeat,
        );
        let mut file = Vec::new();
        assert!(TiledImage::can_create(&levels, &extents, format, power(32)));
        TiledImage::create(levels.clone(), extents.clone(), format, power(32), &mut file);
        let image = open(&file);
        for (level, extent) in extents.iter().enumerate() {
            let level = level as u32;
            for y in 0..extent.height {
                for x in 0..extent.width {
                    let at = (y * extent.width + x) as usize * stride;
                    let expected = &levels[level as usize][at..at + stride];
                    if level >= image.first_in_memory_level {
                        assert!(image.has_in_memory(x, y, level));
                        assert_eq!(image.get_texel(x, y, level), Some(expected));
                    } else {
                        assert_eq!(image.get_texel(x, y, level), None);
                        let (tile_x, tile_y) = image.tile_index(x, y);
                        let tile = image.file_offset(tile_x, tile_y, level);
                        let at = tile + image.texel_offset(x, y);
                        assert_eq!(&file[at..at + stride], expected);
                    }
                }
            }
        }
    }
}

#[test]
fn tiles_are_filled_up_with_zeros() {
    let data: Vec<u8> = vec![1, 2, 3, 4, 5, 6];
    let mut file = Vec::new();
    TiledImage::create(
        vec![data],
        vec![Extent::new(3, 2)],
        PixelFormat::Luma8,
        power(4),
        &mut file,
    );
    // all of the few levels are stored in tiles
    assert_eq!(file.len(), 8192);
    assert_eq!(file[4096..4112], [1, 2, 3, 0, 4, 5, 6, 0, 0, 0, 0, 0, 0, 0, 0, 0]);
    assert!(file[40..4096].iter().all(|byte| *byte == 0));
    assert!(file[4112..].iter().all(|byte| *byte == 0));
    assert_eq!(open(&file).first_in_memory_level, 1);
}

#[test]
fn files_are_appended() {
    let mut file = vec![5u8, 6];
    TiledImage::create(
        vec![vec![9]],
        vec![Extent::new(1, 1)],
        PixelFormat::Luma8,
        power(1),
        &mut file,
    );
    assert_eq!(file[..2], [5, 6]);
    assert_eq!(open(&file[2..]).level_offset, vec![4096]);
    assert_eq!(file[2 + 4096], 9);
}

#[test]
fn what_cannot_be_stored() {
    let one = || vec![vec![0u8; 4]];
    let extent = || vec![Extent::new(2, 2)];
    assert!(TiledImage::can_create(&one(), &extent(), PixelFormat::Luma8, power(2)));
    assert!(!TiledImage::can_create(&vec![], &vec![], PixelFormat::Luma8, power(2)));
    assert!(!TiledImage::can_create(&one(), &vec![], PixelFormat::Luma8, power(2)));
    assert!(!TiledImage::can_create(&one(), &extent(), PixelFormat::Rgb8, power(2)));
    assert!(!TiledImage::can_create(
        &vec![vec![0u8; 8]],
        &extent(),
        PixelFormat::Luma16,
        power(2)
    ));
    // a scanline would have to be filled up with more than 4096 zeros
    assert!(!TiledImage::can_create(&one(), &extent(), PixelFormat::Luma8, power(8192)));
    assert!(TiledImage::can_create(&one(), &extent(), PixelFormat::Luma8, power(4096)));
    assert!(!TiledImage::can_create_with_mips(
        &[0; 3],
        2,
        2,
        PixelFormat::Luma8,
        power(2),
        WrapMode::Clamp
    ));
}

#[test]
fn files_that_end_too_soon_are_refused() {
    let file = luma_file();
    let header = || Header::read(&mut ByteReader::new(&file)).unwrap();
    // the last of the levels next to the header ends at 1517
    assert!(TiledImage::open(Vec::new(), header(), &file[..1517]).is_ok());
    assert_eq!(
        TiledImage::open(Vec::new(), header(), &file[..1516]).err(),
        Some(ReadError::UnexpectedEof)
    );
    assert_eq!(
        TiledImage::open(Vec::new(), header(), &[]).err(),
        Some(ReadError::UnexpectedEof)
    );
}

#[test]
fn texels_past_the_edge() {
    let image = open(&luma_file());
    assert!(image.has_in_memory(31, 31, 2));
    assert!(image.has_in_memory(32, 30, 2));
    assert!(!image.has_in_memory(32, 31, 2));
    assert!(!image.has_in_memory(0, 0, 8));
    assert!(!image.has_in_memory(0, 0, 1));
    assert_eq!(image.get_texel(32, 30, 2), image.get_texel(0, 31, 2));
}

#[test]
fn a_level_without_texels_is_read_of_any_file() {
    let mut file = Vec::new();
    let header = || Header {
        magic: MAGIC_BYTES,
        version: 0,
        log_tile_size: 6,
        format: 0,
        first_in_memory_level: 0,
        level_resolution: vec![Extent::new(0, 5)],
        level_offset: vec![1_000_000],
    };
    header().write(&mut file);
    let image = TiledImage::open(Vec::new(), header(), &file).unwrap();
    assert_eq!(image.in_memory_levels, vec![Vec::<u8>::new()]);
    assert_eq!(image.level_offset, vec![1_000_000]);
}

#[test]
fn texels_whole_tiles_apart_stand_at_the_same_place() {
    let image = open(&luma_file());
    let mut places: Vec<usize> = Vec::new();
    for y in 0..64 {
        for x in 0..64 {
            let place = image.texel_offset(x, y);
            assert_eq!(image.texel_offset(x + 64, y + 192), place);
            assert!(place + 1 <= image.tile_bytes());
            places.push(place);
        }
    }
    places.sort();
    places.dedup();
    assert_eq!(places.len(), 4096);
}

#[test]
fn what_the_front_of_a_file_is_enough_for() {
    let file = luma_file();
    let header = || Header::read(&mut ByteReader::new(&file)).unwrap();
    let needed = header().front_bytes() as usize;
    assert_eq!(needed, 1517);
    assert!(TiledImage::open(Vec::new(), header(), &file[..needed]).is_ok());
    assert!(TiledImage::open(Vec::new(), header(), &file[..needed - 1]).is_err());
}

#[test]
fn a_file_is_as_long_as_its_front_and_its_tiles() {
    for (width, height, size) in [(5u32, 3u32, 2u32), (64, 64, 64), (33, 70, 32)] {
        let levels = vec![vec![1u8; (width * height) as usize]];
        let extents = vec![Extent::new(width, height)];
        let mut file = Vec::new();
        TiledImage::create(levels, extents, PixelFormat::Luma8, power(size), &mut file);
        let tiles = width.div_ceil(size) * height.div_ceil(size);
        assert_eq!(file.len(), 4096 + 4096 * tiles as usize);
    }
}

#[test]
fn a_level_without_width_is_stored_with_empty_tiles() {
    let mut file = Vec::new();
    let extents = vec![Extent::new(0, 5)];
    TiledImage::create(vec![vec![]], extents, PixelFormat::Luma8, power(2), &mut file);
    // the first row of tiles is passed over, and the two others are stored
    assert_eq!(file.len(), 4096 + 2 * 4096);
}

#[test]
fn tiles_that_are_too_large() {
    let mut image = open(&luma_file());
    assert!(image.has_tile_bytes());
    assert!(image.has_texel_offset(u32::MAX, u32::MAX));
    image.log_tile_size = 31;
    assert!(image.has_tile_bytes());
    assert!(image.has_texel_offset(5, 1));
    assert!(!image.has_texel_offset(5, 2));
    image.log_tile_size = 32;
    assert!(!image.has_tile_bytes());
    assert!(!image.has_texel_offset(0, 0));
}
