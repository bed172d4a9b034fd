use texture_cache_rs::hash_table::{TextureTile, TileHashTable, TileId};

fn tiles(ids: &[u64]) -> Vec<TextureTile> {
    ids.iter()
        .enumerate()
        .map(|(index, id)| TextureTile {
            index,
            tile_id: TileId(*id),
            texels: index * 100..(index + 1) * 100,
            marked: false,
        })
        .collect()
}

fn filled(size: usize, tiles: &[TextureTile]) -> TileHashTable {
    let mut table = TileHashTable::new(size);
    for tile in tiles {
        table.insert(tile);
    }
    table
}

#[test]
fn identities_keep_their_parts() {
    let id = TileId::new(1, 2, 3, 4);
    assert_eq!(id, TileId(0x0004_0003_0002_0001));
    assert_eq!((id.tex_id(), id.level(), id.tile_x(), id.tile_y()), (1, 2, 3, 4));
    let id = TileId::new(0xffff, 0xfffe, 0xfffd, 0xfffc);
    assert_eq!(
        (id.tex_id(), id.level(), id.tile_x(), id.tile_y()),
        (0xffff, 0xfffe, 0xfffd, 0xfffc)
    );
    assert_eq!(TileId::default(), TileId(0));
}

#[test]
fn levels_are_cut_to_sixteen_bits() {
    assert_eq!(TileId::new(0, 0x1_0005, 0, 0), TileId::new(0, 5, 0, 0));
    assert_eq!(TileId::new(0x1_0000, 0, 0, 0), TileId::new(0, 1, 0, 0));
    assert_eq!(TileId::new(0, 0, 0x1_0000, 0), TileId::new(0, 0, 0, 1));
}

#[test]
fn identities_in_words() {
    assert_eq!(TileId::new(1, 2, 3, 4).describe(), "TileId(tex:1, lv:2, x:3, y:4)");
    assert_eq!(
        TileId::new(65535, 10, 0, 907).describe(),
        "TileId(tex:65535, lv:10, x:0, y:907)"
    );
}

#[test]
fn hashes() {
    assert_eq!(TileId(0).hash(), 0);
    assert_eq!(TileId(1).hash(), 0xccde22c1faa4d20f);
    assert_eq!(TileId::new(1, 2, 3, 4).hash(), 0x8332d6ac017390ff);
}

#[test]
fn inserted_tiles_are_found() {
    // the first slot that is tried is the same for all of these
    let mut all = tiles(&[1, 2, 15, 34, 0]);
    let table = filled(16, &all);
    for (index, id) in [1, 2, 15, 34, 0].into_iter().enumerate() {
        assert_eq!(
            table.look_up(TileId(id), &mut all),
            Some(index * 100..(index + 1) * 100)
        );
    }
    assert_eq!(table.look_up(TileId(3), &mut all), None);
}

#[test]
fn a_new_table_finds_nothing() {
    let mut all = tiles(&[0, 1]);
    let table = TileHashTable::new(16);
    assert_eq!(table.look_up(TileId(0), &mut all), None);
    assert_eq!(table.look_up(TileId(1), &mut all), None);
}

#[test]
fn a_table_with_one_slot_takes_one_tile() {
    let mut all = tiles(&[1, 2]);
    let mut table = TileHashTable::new(1);
    table.insert(&all[0]);
    assert_eq!(table.look_up(TileId(1), &mut all), Some(0..100));
    // the slot is tried twice in a row, and is taken over
    table.insert(&all[1]);
    assert_eq!(table.look_up(TileId(1), &mut all), None);
    assert_eq!(table.look_up(TileId(2), &mut all), Some(100..200));
}

#[test]
fn a_full_table_takes_over_a_slot() {
    let mut all = tiles(&[5, 6, 7, 8]);
    let mut table = filled(3, &all[..3]);
    table.insert(&all[3]);
    assert_eq!(table.look_up(TileId(8), &mut all), Some(300..400));
}

#[test]
fn a_slot_tried_twice_in_a_row_is_taken_over() {
    let mut all = tiles(&[1, 2, 15, 34, 71]);
    let table = filled(16, &all);
    assert_eq!(table.look_up(TileId(15), &mut all), Some(200..300));
    assert_eq!(table.look_up(TileId(34), &mut all), None);
    assert_eq!(table.look_up(TileId(71), &mut all), Some(400..500));
}

#[test]
fn tiles_are_marked_and_looked_up() {
    let mut all = tiles(&[1, 2, 3]);
    let table = filled(16, &all[..2]);
    table.mark_entries(&mut all);
    assert_eq!(all.iter().map(|t| t.marked).collect::<Vec<_>>(), [true, true, false]);
    assert!(table.look_up(TileId(2), &mut all).is_some());
    assert_eq!(all.iter().map(|t| t.marked).collect::<Vec<_>>(), [true, false, false]);
    assert!(table.look_up(TileId(3), &mut all).is_none());
}

#[test]
fn marked_tiles_are_reclaimed() {
    let mut all = tiles(&[1, 2, 3]);
    let mut table = filled(24, &all);
    let mut other = TileHashTable::new(24);
    table.mark_entries(&mut all);
    table.look_up(TileId(2), &mut all);
    table.copy_active(&mut other, &all);
    let mut returned = vec![9];
    table.reclaim_uncopied(&mut returned);
    returned[1..].sort();
    assert_eq!(returned, vec![9, 0, 2]);
    assert_eq!(other.look_up(TileId(2), &mut all), Some(100..200));
    assert_eq!(other.look_up(TileId(1), &mut all), None);
    for id in 1..4 {
        assert_eq!(table.look_up(TileId(id), &mut all), None);
    }
}

#[test]
fn where_no_tile_is_marked_half_of_the_slots_are_reclaimed() {
    // these go into the slots 0 and 15
    let mut all = tiles(&[0, 1]);
    let mut table = filled(16, &all);
    let mut other = TileHashTable::new(16);
    table.copy_active(&mut other, &all);
    let mut returned = Vec::new();
    table.reclaim_uncopied(&mut returned);
    // what is returned did not go over
    assert_eq!(returned, vec![0]);
    assert_eq!(other.look_up(TileId(0), &mut all), None);
    assert_eq!(other.look_up(TileId(1), &mut all), Some(100..200));
}

#[test]
fn identities_have_hashes_of_their_own() {
    let mut hashes: Vec<u64> = (0..5000).map(|bits| TileId(bits * 0x1_0001).hash()).collect();
    hashes.sort();
    hashes.dedup();
    assert_eq!(hashes.len(), 5000);
}

#[test]
fn tiles_that_were_looked_up_stay() {
    let ids: Vec<u64> = (1..9).collect();
    let mut all = tiles(&ids);
    let mut table = filled(64, &all);
    let mut other = TileHashTable::new(64);
    table.mark_entries(&mut all);
    for id in [2, 5, 8] {
        assert!(table.look_up(TileId(id), &mut all).is_some());
    }
    table.copy_active(&mut other, &all);
    let mut returned = Vec::new();
    table.reclaim_uncopied(&mut returned);
    returned.sort();
    // each tile is in the other table or was returned
    assert_eq!(returned, vec![0, 2, 3, 5, 6]);
    for id in 1..9 {
        let found = other.look_up(TileId(id), &mut all).is_some();
        assert_eq!(found, id == 2 || id == 5 || id == 8);
    }
}

#[test]
fn one_tile_in_the_first_slot_is_given_up() {
    let mut all = tiles(&[0]);
    let mut table = filled(8, &all);
    let mut other = TileHashTable::new(8);
    table.copy_active(&mut other, &all);
    let mut returned = Vec::new();
    table.reclaim_uncopied(&mut returned);
    assert_eq!(returned, vec![0]);
    assert_eq!(other.look_up(TileId(0), &mut all), None);
}

#[test]
fn of_equal_identities_the_first_inserted_is_found() {
    let mut all = tiles(&[7, 1, 2, 1, 7]);
    let table = filled(40, &all);
    assert_eq!(table.look_up(TileId(1), &mut all), Some(100..200));
    assert_eq!(table.look_up(TileId(2), &mut all), Some(200..300));
    assert_eq!(table.look_up(TileId(7), &mut all), Some(0..100));
    assert_eq!(table.look_up(TileId(8), &mut all), None);
}
