use texture_cache_rs::texel::{Luma, Rgb};
use texture_cache_rs::tiles::{Extent, Tile, Tiles};

#[test]
fn test_tile_iterator() {
    let data: [u8; 16] = [0, 1, 2, 3, 4, 5, 6, 7, 8, 9, 10, 11, 12, 13, 14, 15];
    let mut iter = Tiles::new::<Luma<u8>>(&data, 4, 4, 2);
    assert_eq!(
        Some(Tile {
            scanlines: vec![&[0, 1], &[4, 5]],
        }),
        iter.next()
    );
    assert_eq!(
        Some(Tile {
            scanlines: vec![&[2, 3], &[6, 7]],
        }),
        iter.next()
    );
    assert_eq!(
        Some(Tile {
            scanlines: vec![&[8, 9], &[12, 13]],
        }),
        iter.next()
    );
    assert_eq!(
        Some(Tile {
            scanlines: vec![&[10, 11], &[14, 15]],
        }),
        iter.next()
    );
    assert_eq!(None, iter.next());

    let mut iter = Tiles::new::<Luma<u8>>(&data, 4, 4, 3);
    assert_eq!(
        Some(Tile {
            scanlines: vec![&[0, 1, 2], &[4, 5, 6], &[8, 9, 10]],
        }),
        iter.next()
    );
    assert_eq!(
        Some(Tile {
            scanlines: vec![&[3], &[7], &[11]],
        }),
        iter.next()
    );
    assert_eq!(
        Some(Tile {
            scanlines: vec![&[12, 13, 14]],
        }),
        iter.next()
    );
    assert_eq!(
        Some(Tile {
            scanlines: vec![&[15]],
        }),
        iter.next()
    );
    assert_eq!(None, iter.next());
}

#[test]
fn extent_new() {
    let extent = Extent::new(3, 5);
    assert_eq!((extent.width, extent.height), (3, 5));
}

#[test]
fn tiles_of_texels_with_three_bytes() {
    let data: Vec<u8> = (0..18).collect();
    let mut iter = Tiles::new::<Rgb<u8>>(&data, 3, 2, 2);
    assert_eq!(
        iter.next(),
        Some(Tile {
            scanlines: vec![&[0, 1, 2, 3, 4, 5], &[9, 10, 11, 12, 13, 14]],
        })
    );
    assert_eq!(
        iter.next(),
        Some(Tile {
            scanlines: vec![&[6, 7, 8], &[15, 16, 17]],
        })
    );
    assert_eq!(iter.next(), None);
}

#[test]
fn a_level_without_texels_has_no_tile() {
    assert_eq!(Tiles::new::<Luma<u8>>(&[], 4, 0, 2).next(), None);
    assert_eq!(Tiles::new::<Luma<u8>>(&[], 0, 2, 2).next(), None);
    // with no columns, the first row of tiles is passed over
    let mut iter = Tiles::new::<Luma<u8>>(&[], 0, 3, 2);
    assert_eq!(iter.next(), Some(Tile { scanlines: vec![&[]] }));
    assert_eq!(iter.next(), None);
}

#[test]
fn tiles_have_each_byte_once() {
    for (width, height, tile_size) in [(5u32, 7u32, 3u32), (4, 4, 4), (1, 9, 2), (8, 2, 16)] {
        let data: Vec<u8> = (0..width * height).map(|i| i as u8).collect();
        let mut iter = Tiles::new::<Luma<u8>>(&data, width, height, tile_size);
        let mut bytes: Vec<u8> = Vec::new();
        let mut count = 0;
        while let Some(tile) = iter.next() {
            count += 1;
            for scanline in tile.scanlines {
                bytes.extend_from_slice(scanline);
            }
        }
        assert_eq!(count, width.div_ceil(tile_size) * height.div_ceil(tile_size));
        assert_eq!(iter.next(), None);
        bytes.sort();
        assert_eq!(bytes, data);
    }
}
