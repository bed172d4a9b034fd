use texture_cache_rs::bytes::ByteReader;
use texture_cache_rs::cache::{TexelStep, TileLoad, TileStep, TILE_ALLOC_SIZE};
use texture_cache_rs::hash_table::TileId;
use texture_cache_rs::header::Header;
use texture_cache_rs::{
    Luma, PixelFormat, PowerOfTwo, Rgb, Rgba, Texel, TextureCache, TiledImage, WrapMode,
};

fn pattern(width: u32, height: u32, stride: u32) -> Vec<u8> {
    let mut data = Vec::new();
    for y in 0..height {
        for x in 0..width {
            for c in 0..stride {
                data.push((x * 3 + y * 5 + c * 11 + (x / 64) * 17 + (y / 64) * 29) as u8);
            }
        }
    }
    data
}

fn make_file(base: &[u8], width: u32, height: u32, format: PixelFormat) -> Vec<u8> {
    let mut file = Vec::new();
    let tile_size = PowerOfTwo::try_from(64u32).unwrap();
    TiledImage::create_with_mips(base, width, height, format, tile_size, WrapMode::Clamp, &mut file);
    file
}

fn open(path: &str, file: &[u8]) -> TiledImage {
    let header = Header::read(&mut ByteReader::new(file)).unwrap();
    TiledImage::open(vec![path.as_bytes().to_vec()], header, file).unwrap()
}

fn bytes_of<'a>(load: &TileLoad, file: &'a [u8]) -> &'a [u8] {
    &file[load.offset..load.offset + load.bytes]
}

/// Asks for a texel, and loads its tile if it has to be read.
fn texel<T: Texel>(cache: &mut TextureCache, files: &[&[u8]], at: (u32, u32, u32, u32)) -> (T, bool) {
    let (tex_id, level, x, y) = at;
    assert!(cache.can_ask::<T>(tex_id, level, x, y));
    match cache.texel::<T>(tex_id, level, x, y) {
        TexelStep::Ready(texel) => (texel, false),
        TexelStep::Load(load) => {
            let start = cache.finish_load(load, bytes_of(&load, files[load.tex_id as usize]));
            (cache.texel_at::<T>(tex_id, start, x, y), true)
        }
        TexelStep::Wait => panic!("the tile is not being read"),
        TexelStep::OutOfTiles => panic!("there are tiles"),
    }
}

#[test]
fn tiles_for_the_memory() {
    assert_eq!(TILE_ALLOC_SIZE, 12288);
    assert_eq!(TextureCache::new(0).tile_count(), 0);
    assert_eq!(TextureCache::new(1).tile_count(), 85);
    assert_eq!(TextureCache::new(3).tile_count(), 256);
}

#[test]
fn textures_are_added_once() {
    let base = pattern(128, 64, 1);
    let file = make_file(&base, 128, 64, PixelFormat::Luma8);
    let mut cache = TextureCache::new(1);
    assert_eq!(cache.find_texture(&vec![b"a".to_vec()]), None);
    assert_eq!(cache.add_texture(open("a", &file)), 0);
    assert_eq!(cache.add_texture(open("b", &file)), 1);
    assert_eq!(cache.add_texture(open("a", &file)), 0);
    assert_eq!(cache.add_texture(open("c", &file)), 2);
    assert_eq!(cache.find_texture(&vec![b"b".to_vec()]), Some(1));
    assert_eq!(cache.find_texture(&vec![b"b".to_vec(), b"b".to_vec()]), None);
    assert_eq!(cache.find_texture(&vec![]), None);
}

#[test]
fn texels_come_from_memory_and_from_tiles() {
    let base = pattern(192, 128, 3);
    let file = make_file(&base, 192, 128, PixelFormat::Rgb8);
    let mut cache = TextureCache::new(1);
    let tex_id = cache.add_texture(open("checker", &file));
    let mut loads = 0;
    for y in 0..128 {
        for x in 0..192 {
            let (texel, loaded) = texel::<Rgb<u8>>(&mut cache, &[&file], (tex_id, 0, x, y));
            let at = ((y * 192 + x) * 3) as usize;
            assert_eq!(texel, Rgb([base[at], base[at + 1], base[at + 2]]));
            loads += loaded as u32;
        }
    }
    assert_eq!(loads, 6);
    // the smallest level is kept in memory: the mean of all texels
    let (levels, _) = texture_cache_rs::mips::build_mips(&base, 192, 128, 3, WrapMode::Clamp);
    let (smallest, loaded) = texel::<Rgb<u8>>(&mut cache, &[&file], (tex_id, 8, 0, 0));
    assert_eq!(smallest.as_ref()[..], levels[8][..]);
    assert!(!loaded);
    // fewer channels than there are
    let (first, _) = texel::<Luma<u8>>(&mut cache, &[&file], (tex_id, 0, 5, 7));
    assert_eq!(first, Luma(base[(7 * 192 + 5) * 3]));
}

#[test]
fn textures_are_kept_apart() {
    let a = pattern(128, 128, 1);
    let b: Vec<u8> = a.iter().map(|byte| !byte).collect();
    let files = [
        make_file(&a, 128, 128, PixelFormat::Luma8),
        make_file(&b, 128, 128, PixelFormat::Luma8),
    ];
    let files: Vec<&[u8]> = files.iter().map(|file| &file[..]).collect();
    let mut cache = TextureCache::new(1);
    cache.add_texture(open("a", files[0]));
    cache.add_texture(open("b", files[1]));
    for i in 0..128u32 {
        let at = (i * 128 + i) as usize;
        assert_eq!(texel::<Luma<u8>>(&mut cache, &files, (0, 0, i, i)).0, Luma(a[at]));
        assert_eq!(texel::<Luma<u8>>(&mut cache, &files, (1, 0, i, i)).0, Luma(b[at]));
    }
}

#[test]
fn more_tiles_than_memory() {
    let base = pattern(1024, 1024, 1);
    let file = make_file(&base, 1024, 1024, PixelFormat::Luma8);
    let mut cache = TextureCache::new(1);
    let tex_id = cache.add_texture(open("large", &file));
    let mut loads = 0;
    for round in 0..3u32 {
        for tile_y in 0..16u32 {
            for tile_x in 0..16u32 {
                let (x, y) = (tile_x * 64 + round, tile_y * 64 + 2 * round);
                let (texel, loaded) = texel::<Luma<u8>>(&mut cache, &[&file], (tex_id, 0, x, y));
                assert_eq!(texel, Luma(base[(y * 1024 + x) as usize]));
                loads += loaded as u32;
                // one tile is looked up all the time
                let (corner, _) = self::texel::<Luma<u8>>(&mut cache, &[&file], (tex_id, 0, 9, 9));
                assert_eq!(corner, Luma(base[9 * 1024 + 9]));
            }
        }
    }
    assert!(loads >= 256);
}

#[test]
fn a_tile_is_read_once_at_a_time() {
    let base = pattern(128, 64, 1);
    let file = make_file(&base, 128, 64, PixelFormat::Luma8);
    let mut cache = TextureCache::new(1);
    let tex_id = cache.add_texture(open("a", &file));
    let load = match cache.texel::<Luma<u8>>(tex_id, 0, 70, 3) {
        TexelStep::Load(load) => load,
        step => panic!("{:?}", step),
    };
    assert_eq!(load.index, 84);
    assert_eq!(load.tile_id, TileId::new(tex_id, 0, 1, 0));
    assert_eq!((load.tex_id, load.bytes), (tex_id, 4096));
    assert_eq!(cache.texel::<Luma<u8>>(tex_id, 0, 80, 9), TexelStep::Wait);
    assert_eq!(cache.get_tile(load.tile_id), TileStep::Wait);
    // another tile does not wait
    assert!(matches!(
        cache.texel::<Luma<u8>>(tex_id, 0, 0, 0),
        TexelStep::Load(_)
    ));
    assert!(cache.is_loading(&load));
    let start = cache.finish_load(load, bytes_of(&load, &file));
    assert!(!cache.is_loading(&load));
    assert_eq!(start, 84 * TILE_ALLOC_SIZE);
    assert_eq!(cache.get_tile(load.tile_id), TileStep::Ready(start));
    assert_eq!(cache.get_tile(load.tile_id), TileStep::Ready(start));
    assert_eq!(
        cache.texel::<Luma<u8>>(tex_id, 0, 80, 9),
        TexelStep::Ready(Luma(base[9 * 128 + 80]))
    );
}

#[test]
fn all_tiles_are_being_read() {
    let base = pattern(1024, 1024, 1);
    let file = make_file(&base, 1024, 1024, PixelFormat::Luma8);
    let mut cache = TextureCache::new(1);
    cache.add_texture(open("large", &file));
    let mut loads = Vec::new();
    for i in 0..85u32 {
        match cache.texel::<Luma<u8>>(0, 0, i % 16 * 64, i / 16 * 64) {
            TexelStep::Load(load) => loads.push(load),
            step => panic!("{:?}", step),
        }
    }
    assert_eq!(cache.texel::<Luma<u8>>(0, 0, 1000, 1000), TexelStep::OutOfTiles);
    for load in &loads {
        cache.finish_load(*load, bytes_of(load, &file));
    }
    // now some tile can be freed
    let load = match cache.texel::<Luma<u8>>(0, 0, 1000, 1000) {
        TexelStep::Load(load) => load,
        step => panic!("{:?}", step),
    };
    // the tile that was freed for it is no longer in use
    let freed = loads.iter().find(|other| other.index == load.index).unwrap();
    assert_ne!(
        cache.get_tile(freed.tile_id),
        TileStep::Ready(freed.index * TILE_ALLOC_SIZE)
    );
    cache.finish_load(load, bytes_of(&load, &file));
    assert_eq!(
        cache.get_tile(load.tile_id),
        TileStep::Ready(load.index * TILE_ALLOC_SIZE)
    );
}

#[test]
fn no_tile_is_loaded_into_twice_at_a_time() {
    let base = pattern(1024, 1024, 1);
    let file = make_file(&base, 1024, 1024, PixelFormat::Luma8);
    let mut cache = TextureCache::new(1);
    cache.add_texture(open("large", &file));
    let mut loads: Vec<TileLoad> = Vec::new();
    for round in 0..4u32 {
        for i in 0..256u32 {
            let (x, y) = (i * 5 % 16 * 64 + round, i / 16 * 64);
            match cache.texel::<Luma<u8>>(0, 0, x, y) {
                TexelStep::Load(load) => {
                    assert!(loads.iter().all(|other| other.index != load.index));
                    assert!(loads.iter().all(|other| other.tile_id != load.tile_id));
                    loads.push(load);
                }
                TexelStep::Ready(texel) => {
                    assert_eq!(texel, Luma(base[(y * 1024 + x) as usize]));
                }
                TexelStep::Wait => {}
                TexelStep::OutOfTiles => panic!("there are tiles"),
            }
            // some loads are under way at any time, and they end in another order
            if loads.len() > 7 {
                let load = loads.swap_remove((i % 7) as usize);
                cache.finish_load(load, bytes_of(&load, &file));
            }
        }
    }
}

#[test]
fn what_cannot_be_asked_for() {
    let base = pattern(128, 64, 1);
    let file = make_file(&base, 128, 64, PixelFormat::Luma8);
    let mut cache = TextureCache::new(1);
    cache.add_texture(open("a", &file));
    assert!(cache.can_ask::<Luma<u8>>(0, 0, 127, 63));
    assert!(!cache.can_ask::<Luma<u8>>(1, 0, 0, 0));
    assert!(!cache.can_ask::<Rgba<u8>>(0, 0, 0, 0));
    assert!(!cache.can_ask::<Luma<u16>>(0, 0, 0, 0));
    assert!(cache.can_ask::<Luma<u8>>(0, 7, 0, 0));
    assert!(!cache.can_ask::<Luma<u8>>(0, 7, 1, 0));
    assert!(!cache.can_ask::<Luma<u8>>(0, 8, 0, 0));
    let mut empty = TextureCache::new(0);
    empty.add_texture(open("a", &file));
    assert!(!empty.can_ask::<Luma<u8>>(0, 0, 0, 0));
    assert!(empty.can_ask::<Luma<u8>>(0, 7, 0, 0));
    // tiles of this size have more bytes than there is memory for each
    let base = pattern(256, 256, 1);
    let mut large = Vec::new();
    let tile_size = PowerOfTwo::try_from(128u32).unwrap();
    let format = PixelFormat::Luma8;
    TiledImage::create_with_mips(&base, 256, 256, format, tile_size, WrapMode::Clamp, &mut large);
    let tex_id = cache.add_texture(open("large", &large));
    assert!(!cache.can_ask::<Luma<u8>>(tex_id, 0, 0, 0));
}
