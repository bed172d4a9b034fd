use texture_cache_rs::file_descriptor::{FdCache, MAX_OPENED_FILES};

#[test]
fn a_file_is_opened_once() {
    let mut cache: FdCache<String> = FdCache::new(2);
    assert!(cache.can_hand_out(7));
    assert!(cache.look_up(7).is_none());
    assert!(cache.has_slot());
    let mut entry = cache.open(7, "seven".to_string());
    assert_eq!(entry.as_str(), "seven");
    assert!(!cache.can_hand_out(7));
    entry.file_mut().push('!');
    cache.recycle(entry);
    assert!(cache.can_hand_out(7));
    let entry = cache.look_up(7).unwrap();
    assert_eq!(entry.as_str(), "seven!");
    cache.recycle(entry);
}

#[test]
fn the_last_slot_given_back_is_taken_first() {
    let mut cache: FdCache<u32> = FdCache::new(2);
    for tex_id in [1, 2, 3] {
        assert!(cache.look_up(tex_id).is_none());
        let entry = cache.open(tex_id, 10 * tex_id);
        cache.recycle(entry);
    }
    // each took the slot that was just given back
    assert!(cache.look_up(1).is_none());
    assert!(cache.look_up(2).is_none());
    assert_eq!(*cache.look_up(3).unwrap(), 30);
}

#[test]
fn no_slot_left() {
    let mut cache: FdCache<u32> = FdCache::new(1);
    let entry = cache.open(1, 10);
    assert!(!cache.has_slot());
    cache.recycle(entry);
    assert!(cache.has_slot());
    assert!(!FdCache::<u32>::new(0).has_slot());
    assert_eq!(MAX_OPENED_FILES, 1024);
}
