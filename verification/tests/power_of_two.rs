use texture_cache_rs::PowerOfTwo;

#[test]
fn powers_are_accepted() {
    for exponent in 0..32u32 {
        let power = PowerOfTwo::try_from(1u32 << exponent).unwrap();
        assert_eq!(*power, 1u32 << exponent);
        assert_eq!(power.ilog2(), exponent);
    }
    assert_eq!(PowerOfTwo::try_from(128u8).unwrap().ilog2(), 7);
    assert_eq!(PowerOfTwo::try_from(0x8000u16).unwrap().ilog2(), 15);
    assert_eq!(PowerOfTwo::try_from(1u64 << 63).unwrap().ilog2(), 63);
    assert_eq!(PowerOfTwo::try_from(64usize).unwrap().ilog2(), 6);
    assert_eq!(*PowerOfTwo::try_from(64usize).unwrap(), 64);
}

#[test]
fn other_numbers_are_refused() {
    assert!(PowerOfTwo::try_from(0u32).is_err());
    assert!(PowerOfTwo::try_from(3u32).is_err());
    assert!(PowerOfTwo::try_from(u32::MAX).is_err());
    assert!(PowerOfTwo::try_from(0u8).is_err());
    assert!(PowerOfTwo::try_from(129u8).is_err());
    assert!(PowerOfTwo::try_from(6u16).is_err());
    assert!(PowerOfTwo::try_from(u64::MAX).is_err());
    assert!(PowerOfTwo::try_from(100usize).is_err());
}
