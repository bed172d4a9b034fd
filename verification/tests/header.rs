use texture_cache_rs::bytes::{ByteReader, ReadError};
use texture_cache_rs::header::{Header, MAGIC_BYTES};
use texture_cache_rs::tiles::Extent;
use texture_cache_rs::PixelFormat;

#[test]
fn test_header_roundtrip() {
    let mut temp: Vec<u8> = Vec::new();
    {
        let header = Header {
            magic: MAGIC_BYTES,
            version: 1,
            log_tile_size: 32,
            format: PixelFormat::Rgb8 as u32,
            first_in_memory_level: 4,
            level_resolution: vec![
                Extent::new(1024, 768),
                Extent::new(512, 384),
                Extent::new(256, 192),
                Extent::new(128, 96),
                Extent::new(64, 48),
                Extent::new(32, 24),
                Extent::new(16, 12),
                Extent::new(8, 6),
                Extent::new(4, 3),
                Extent::new(2, 1),
                Extent::new(1, 1),
            ],
            level_offset: vec![0, 1, 2, 3, 4, 5, 6, 7, 8, 9, 10],
        };
        header.write(&mut temp);
    }
    {
        let mut reader = ByteReader::new(&temp);
        let header = Header::read(&mut reader).expect("Failed to read header");
        assert_eq!(header.magic, MAGIC_BYTES);
        assert_eq!(header.version, 1);
        assert_eq!(header.log_tile_size, 32);
        assert_eq!(header.format, PixelFormat::Rgb8 as u32);
        assert_eq!(
            header.level_resolution,
            vec![
                Extent::new(1024, 768),
                Extent::new(512, 384),
                Extent::new(256, 192),
                Extent::new(128, 96),
                Extent::new(64, 48),
                Extent::new(32, 24),
                Extent::new(16, 12),
                Extent::new(8, 6),
                Extent::new(4, 3),
                Extent::new(2, 1),
                Extent::new(1, 1),
            ]
        );
        assert_eq!(header.level_offset, vec![0, 1, 2, 3, 4, 5, 6, 7, 8, 9, 10]);
        assert_eq!(header.first_in_memory_level, 4);
        assert_eq!(reader.remaining(), 0);
    }
}

fn small_header() -> Header {
    Header {
        magic: MAGIC_BYTES,
        version: 0,
        log_tile_size: 6,
        format: 3,
        first_in_memory_level: 1,
        level_resolution: vec![Extent::new(0x0102_0304, 5)],
        level_offset: vec![0x1122_3344_5566_7788],
    }
}

#[test]
fn header_bytes_are_little_endian() {
    let mut bytes: Vec<u8> = vec![9];
    small_header().write(&mut bytes);
    let expected: Vec<u8> = vec![
        9, 0x54, 0x49, 0x4c, 0x45, 0, 0, 0, 0, 6, 0, 0, 0, 3, 0, 0, 0, 1, 0, 0, 0, 1, 0, 0, 0, 4, 3,
        2, 1, 5, 0, 0, 0, 0x88, 0x77, 0x66, 0x55, 0x44, 0x33, 0x22, 0x11,
    ];
    assert_eq!(bytes, expected);
    assert_eq!(Header::byte_size(1), expected.len() - 1);
    assert_eq!(Header::byte_size(0), 24);
    assert_eq!(Header::byte_size(11), 200);
}

#[test]
fn truncated_headers_are_refused() {
    let mut bytes: Vec<u8> = Vec::new();
    small_header().write(&mut bytes);
    for len in 0..bytes.len() {
        let mut reader = ByteReader::new(&bytes[..len]);
        assert_eq!(Header::read(&mut reader).err(), Some(ReadError::UnexpectedEof));
    }
    bytes.push(7);
    let mut reader = ByteReader::new(&bytes);
    let header = Header::read(&mut reader).unwrap();
    assert_eq!(header.level_resolution[0], Extent::new(0x0102_0304, 5));
    assert_eq!(reader.next_byte(), Some(7));
    assert_eq!(reader.next_byte(), None);
}

#[test]
fn what_can_be_loaded() {
    let mut header = small_header();
    header.level_resolution[0] = Extent::new(4, 5);
    assert!(header.is_loadable());
    header.first_in_memory_level = 0;
    assert!(header.is_loadable());
    header.first_in_memory_level = 2;
    assert!(!header.is_loadable());
    header.first_in_memory_level = 0;
    header.format = 9;
    assert!(!header.is_loadable());
    header.format = 8;
    header.level_resolution[0] = Extent::new(0x1_0000, 0x1_0000);
    assert!(!header.is_loadable());
    header.first_in_memory_level = 1;
    assert!(header.is_loadable());
}

#[test]
fn how_much_of_a_file_is_needed() {
    let mut bytes: Vec<u8> = Vec::new();
    small_header().write(&mut bytes);
    assert_eq!(Header::needed_bytes(&[]), 24);
    assert_eq!(Header::needed_bytes(&bytes[..23]), 24);
    assert_eq!(Header::needed_bytes(&bytes[..24]), 40);
    assert_eq!(Header::needed_bytes(&bytes), bytes.len() as u64);
    assert_eq!(Header::needed_bytes(&[0xff; 24]), 24 + 16 * 0xffff_ffff);
    let mut header = Header {
        magic: MAGIC_BYTES,
        version: 0,
        log_tile_size: 6,
        format: 3,
        first_in_memory_level: 1,
        level_resolution: vec![Extent::new(9, 9), Extent::new(2, 2), Extent::new(0, 7)],
        level_offset: vec![50_000, 300, 70_000],
    };
    // the second level ends at 312; the first is not kept, and the last has no texels
    assert_eq!(header.front_bytes(), 312);
    header.first_in_memory_level = 3;
    assert_eq!(header.front_bytes(), 0);
    header.first_in_memory_level = 0;
    assert_eq!(header.front_bytes(), 50_243);
    header.level_offset[1] = u64::MAX;
    assert_eq!(header.front_bytes(), u64::MAX as u128 + 12);
}
