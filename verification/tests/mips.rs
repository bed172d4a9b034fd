use texture_cache_rs::mips::{build_mips, can_build_mips};
use texture_cache_rs::tiles::Extent;
use texture_cache_rs::WrapMode;

#[test]
fn coordinates_are_wrapped() {
    let wrap = |mode: WrapMode| -> Vec<u32> { (0..8).map(|i| mode.wrap(i, 3)).collect() };
    assert_eq!(wrap(WrapMode::Clamp), vec![0, 1, 2, 2, 2, 2, 2, 2]);
    assert_eq!(wrap(WrapMode::Repeat), vec![0, 1, 2, 0, 1, 2, 0, 1]);
    assert_eq!(wrap(WrapMode::Mirror), vec![0, 1, 2, 2, 1, 0, 0, 1]);
}

#[test]
fn levels_down_to_one_texel() {
    let base: Vec<u8> = (0..16).map(|i| i * 4).collect();
    let (levels, extents) = build_mips(&base, 4, 4, 1, WrapMode::Clamp);
    assert_eq!(extents, vec![Extent::new(4, 4), Extent::new(2, 2), Extent::new(1, 1)]);
    assert_eq!(levels[0], base);
    assert_eq!(levels[1], vec![10, 18, 42, 50]);
    assert_eq!(levels[2], vec![30]);
}

#[test]
fn odd_sides_are_wrapped() {
    let base: Vec<u8> = vec![10, 20, 60];
    let (levels, extents) = build_mips(&base, 3, 1, 1, WrapMode::Clamp);
    assert_eq!(extents, vec![Extent::new(3, 1), Extent::new(2, 1), Extent::new(1, 1)]);
    assert_eq!(levels[1], vec![15, 60]);
    assert_eq!(levels[2], vec![37]);
    let (levels, _) = build_mips(&base, 3, 1, 1, WrapMode::Repeat);
    assert_eq!(levels[1], vec![15, 35]);
    let (levels, _) = build_mips(&base, 3, 1, 1, WrapMode::Mirror);
    assert_eq!(levels[1], vec![15, 60]);
}

#[test]
fn channels_are_kept_apart() {
    let base: Vec<u8> = vec![0, 100, 200, 4, 104, 204, 8, 108, 208, 12, 112, 212];
    let (levels, _) = build_mips(&base, 2, 2, 3, WrapMode::Repeat);
    assert_eq!(levels[1], vec![6, 106, 206]);
}

#[test]
fn equal_texels_stay_equal() {
    let base = vec![77u8; 5 * 7];
    let (levels, extents) = build_mips(&base, 5, 7, 1, WrapMode::Mirror);
    assert_eq!(
        extents,
        vec![Extent::new(5, 7), Extent::new(3, 4), Extent::new(2, 2), Extent::new(1, 1)]
    );
    for (level, extent) in levels.iter().zip(extents) {
        assert_eq!(*level, vec![77u8; (extent.width * extent.height) as usize]);
    }
}

#[test]
fn what_cannot_be_halved() {
    assert!(can_build_mips(&[1, 2, 3, 4], 2, 2, 1, WrapMode::Clamp));
    assert!(can_build_mips(&[1], 1, 1, 1, WrapMode::Clamp));
    assert!(!can_build_mips(&[1, 2, 3], 2, 2, 1, WrapMode::Clamp));
    assert!(!can_build_mips(&[], 2, 0, 1, WrapMode::Clamp));
    assert!(!can_build_mips(&[], 0x1_0000, 0x1_0000, 1, WrapMode::Clamp));
}
