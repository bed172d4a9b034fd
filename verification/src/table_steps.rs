//! What each step of the hash table does, slot by slot.
use crate::hash_table::{
    after_look_up, law_there_is_room, lemma_insertion_try, probe, TableView, TextureTile, TileId,
};
use crate::table_laws::{are_numbered, filled};
use vstd::prelude::*;

verus! {

/// Where a tile goes: into the first of the slots tried that is free, or that holds the same tile as
/// the slot tried before it. No other slot changes. A slot is found within six times as many tries
/// as there are slots.
pub proof fn law_inserted_slot(table: TableView, id: TileId, index: usize)
    requires
        table.slots.len() > 0,
    ensures
        ({
            let size = table.slots.len();
            let after = table.inserted(id, index);
            &&& after.copied == table.copied
            &&& exists|k: nat|
                k < 6 * size && {
                    let slot = #[trigger] probe(id.hashed(), k, size) as int;
                    let before = probe(id.hashed(), (k - 1) as nat, size) as int;
                    &&& 0 <= slot < size
                    &&& after.slots == table.slots.update(slot, Some(index))
                    &&& table.slots[slot] is None || k > 0 && table.slots[slot]
                        == table.slots[before]
                    &&& forall|j: nat|
                        j < k ==> table.slots[#[trigger] probe(id.hashed(), j, size) as int] is Some
                            && (j > 0 ==> table.slots[probe(id.hashed(), j, size) as int]
                            != table.slots[probe(id.hashed(), (j - 1) as nat, size) as int])
                }
        }),
{
    let size = table.slots.len();
    law_there_is_room(table, id);
    lemma_insertion_try(table, id, 0);
    let k = table.insertion_try(id, 0)->0;
    let slot = probe(id.hashed(), k, size) as int;
    assert(0 <= slot < size);
    assert(table.admits(id, k));
    assert forall|j: nat| j < k implies table.slots[#[trigger] probe(
        id.hashed(),
        j,
        size,
    ) as int] is Some && (j > 0 ==> table.slots[probe(id.hashed(), j, size) as int]
        != table.slots[probe(id.hashed(), (j - 1) as nat, size) as int]) by {
        assert(!table.admits(id, j));
    }
}

/// What is found for an identity: the tile with it in the first of the slots tried that holds one,
/// if no free slot comes before it.
pub proof fn law_found_slot(table: TableView, tiles: Seq<TextureTile>, id: TileId)
    requires
        table.slots.len() > 0,
    ensures
        ({
            let size = table.slots.len();
            match table.found(tiles, id) {
                Some(index) => exists|k: nat|
                    k < 6 * size && {
                        &&& table.slots[#[trigger] probe(id.hashed(), k, size) as int] == Some(index)
                        &&& tiles[index as int].tile_id == id
                        &&& has_others_before(table, tiles, id, k)
                    },
                None => exists|k: nat|
                    k <= 6 * size && {
                        &&& k == 6 * size || table.slots[#[trigger] probe(
                            id.hashed(),
                            k,
                            size,
                        ) as int] is None
                        &&& has_others_before(table, tiles, id, k)
                    },
            }
        }),
{
    lemma_found_slot(table, tiles, id, 0);
}

/// Whether the first `k` slots tried for an identity all hold tiles with other identities.
pub open spec fn has_others_before(
    table: TableView,
    tiles: Seq<TextureTile>,
    id: TileId,
    k: nat,
) -> bool {
    forall|j: nat|
        j < k ==> (table.slots[#[trigger] probe(id.hashed(), j, table.slots.len()) as int] matches Some(
            other,
        ) && tiles[other as int].tile_id != id)
}

proof fn lemma_found_slot(table: TableView, tiles: Seq<TextureTile>, id: TileId, from: nat)
    requires
        table.slots.len() > 0,
        from <= 6 * table.slots.len(),
        has_others_before(table, tiles, id, from),
    ensures
        ({
            let size = table.slots.len();
            match table.search(tiles, id, from) {
                Some(index) => exists|k: nat|
                    k < 6 * size && {
                        &&& table.slots[#[trigger] probe(id.hashed(), k, size) as int] == Some(index)
                        &&& tiles[index as int].tile_id == id
                        &&& has_others_before(table, tiles, id, k)
                    },
                None => exists|k: nat|
                    k <= 6 * size && {
                        &&& k == 6 * size || table.slots[#[trigger] probe(
                            id.hashed(),
                            k,
                            size,
                        ) as int] is None
                        &&& has_others_before(table, tiles, id, k)
                    },
            }
        }),
    decreases 6 * table.slots.len() - from,
{
    let size = table.slots.len();
    let slot = probe(id.hashed(), from, size) as int;
    assert(0 <= slot < size);
    if from < 6 * size {
        if let Some(other) = table.slots[slot] {
            if tiles[other as int].tile_id != id {
                lemma_found_slot(table, tiles, id, from + 1);
            }
        }
    }
}

/// A look-up changes nothing but the mark of the tile that it finds.
pub proof fn law_look_up_clears_mark(tiles: Seq<TextureTile>, found: Option<usize>, index: usize)
    requires
        found matches Some(other) ==> other < tiles.len(),
        index < tiles.len(),
    ensures
        ({
            let after = after_look_up(tiles, found);
            &&& after.len() == tiles.len()
            &&& after[index as int].index == tiles[index as int].index
            &&& after[index as int].tile_id == tiles[index as int].tile_id
            &&& after[index as int].texels == tiles[index as int].texels
            &&& after[index as int].marked == (tiles[index as int].marked && found != Some(index))
        }),
{
}

/// Marking marks the tiles in the table, and changes nothing else.
pub proof fn law_marking(table: TableView, tiles: Seq<TextureTile>, index: usize)
    requires
        index < tiles.len(),
    ensures
        ({
            let after = table.marked(tiles, table.slots.len() as int);
            &&& after.len() == tiles.len()
            &&& after[index as int].index == tiles[index as int].index
            &&& after[index as int].tile_id == tiles[index as int].tile_id
            &&& after[index as int].texels == tiles[index as int].texels
            &&& after[index as int].marked == (tiles[index as int].marked || table.slots.contains(Some(index)))
        }),
{
    assert(table.slots.take(table.slots.len() as int) =~= table.slots);
}

/// Which tiles go over when tiles are freed: those that are not marked, if any is marked; otherwise
/// those in the second half of the slots. The table itself keeps its slots.
pub proof fn law_what_goes_over(table: TableView, tiles: Seq<TextureTile>, i: int)
    requires
        0 <= i < table.slots.len(),
    ensures
        ({
            let after = table.after_copy(tiles);
            let some_marked = exists|j: int|
                0 <= j < table.slots.len() && (#[trigger] table.slots[j] matches Some(other)
                    && tiles[other as int].marked);
            &&& after.slots == table.slots
            &&& after.copied.len() == table.slots.len()
            &&& after.copied[i] == (match table.slots[i] {
                Some(index) => if some_marked {
                    !tiles[index as int].marked
                } else {
                    i >= table.slots.len() / 2
                },
                None => false,
            })
        }),
{
    if table.has_marked(tiles) {
        let j = choose|j: int| 0 <= j < table.slots.len() && #[trigger] table.is_marked(tiles, j);
        assert(table.slots[j] matches Some(other) && tiles[other as int].marked);
    } else {
        assert forall|j: int| 0 <= j < table.slots.len() implies !(
        #[trigger] table.slots[j] matches Some(other) && tiles[other as int].marked) by {
            assert(!table.is_marked(tiles, j));
        }
    }
}

/// What is reclaimed comes in the order of the slots.
pub proof fn law_reclaimed_in_order(table: TableView, count: nat, a: int, b: int)
    requires
        count <= table.slots.len() == table.copied.len(),
        0 <= a < b < table.uncopied(count).len(),
    ensures
        exists|i: int, j: int|
            0 <= i < j < count && #[trigger] table.slots[i] == Some(table.uncopied(count)[a])
                && #[trigger] table.slots[j] == Some(table.uncopied(count)[b]) && !table.copied[i]
                && !table.copied[j],
    decreases count,
{
    let last = count - 1;
    let shorter = table.uncopied(last as nat);
    if b < shorter.len() {
        law_reclaimed_in_order(table, last as nat, a, b);
        let (i, j) = choose|i: int, j: int|
            0 <= i < j < last && #[trigger] table.slots[i] == Some(shorter[a])
                && #[trigger] table.slots[j] == Some(shorter[b]) && !table.copied[i]
                && !table.copied[j];
        assert(table.slots[i] == Some(table.uncopied(count)[a]) && table.slots[j] == Some(
            table.uncopied(count)[b],
        ));
    } else {
        crate::table_laws::lemma_uncopied(table, last as nat, shorter[a]);
        assert(shorter.contains(shorter[a]));
        let i = choose|i: int|
            0 <= i < last && #[trigger] table.slots[i] == Some(shorter[a]) && !table.copied[i];
        assert(table.slots[i] == Some(table.uncopied(count)[a]) && table.slots[last] == Some(
            table.uncopied(count)[b],
        ));
    }
}

/// A table that is cleared has as many slots as before, and all are free.
pub proof fn law_clearing(table: TableView, i: int)
    requires
        0 <= i < table.slots.len(),
    ensures
        table.cleared().slots.len() == table.slots.len(),
        table.cleared().slots[i] is None,
{
}

/// When tiles are freed, those that go over do so in the order of their slots, one after the other.
/// Here `places` are the slots of the tiles that go over.
pub proof fn law_copy_in_slot_order(
    table: TableView,
    tiles: Seq<TextureTile>,
    dest: TableView,
    places: Seq<int>,
)
    requires
        are_numbered(tiles),
        table.holds_below(tiles.len()),
        forall|a: int, b: int| 0 <= a < b < places.len() ==> places[a] < places[b],
        forall|a: int|
            0 <= a < places.len() ==> 0 <= #[trigger] places[a] < table.slots.len(),
        forall|i: int|
            0 <= i < table.slots.len() ==> (#[trigger] table.after_copy(tiles).copied[i]
                <==> places.contains(i)),
    ensures
        table.copy_to(tiles, dest) == filled(
            dest,
            tiles,
            Seq::new(places.len(), |a: int| table.slots[places[a]]->0),
        ),
{
    let order = Seq::new(places.len(), |a: int| table.slots[places[a]]->0);
    lemma_copied_so_far(table, tiles, dest, places, table.slots.len(), places.len() as int);
    assert(order.take(places.len() as int) =~= order);
}

proof fn lemma_copied_so_far(
    table: TableView,
    tiles: Seq<TextureTile>,
    dest: TableView,
    places: Seq<int>,
    count: nat,
    done: int,
)
    requires
        are_numbered(tiles),
        table.holds_below(tiles.len()),
        count <= table.slots.len(),
        0 <= done <= places.len(),
        forall|a: int, b: int| 0 <= a < b < places.len() ==> places[a] < places[b],
        forall|a: int|
            0 <= a < places.len() ==> 0 <= #[trigger] places[a] < table.slots.len(),
        forall|i: int|
            0 <= i < table.slots.len() ==> (#[trigger] table.after_copy(tiles).copied[i]
                <==> places.contains(i)),
        forall|a: int| 0 <= a < places.len() ==> (#[trigger] places[a] < count <==> a < done),
    ensures
        table.copy_of(tiles, dest, count) == filled(
            dest,
            tiles,
            Seq::new(places.len(), |a: int| table.slots[places[a]]->0).take(done),
        ),
    decreases count,
{
    let order = Seq::new(places.len(), |a: int| table.slots[places[a]]->0);
    if count == 0 {
        if done > 0 {
            assert(places[0] < count);
        }
    } else {
        let i = count - 1;
        assert(table.after_copy(tiles).copied[i] == table.goes_over(tiles, i));
        if places.contains(i) {
            let at = choose|a: int| 0 <= a < places.len() && places[a] == i;
            assert(places[at] < count);
            assert(at == done - 1) by {
                if at < done - 1 {
                    assert(places[done - 1] < count);
                    assert(places[at] < places[done - 1]);
                }
            }
            assert forall|a: int| 0 <= a < places.len() implies (#[trigger] places[a] < i <==> a
                < done - 1) by {
                if a < at {
                    assert(places[a] < places[at]);
                } else if a > at {
                    assert(places[at] < places[a]);
                }
            }
            lemma_copied_so_far(table, tiles, dest, places, i as nat, done - 1);
            assert(order.take(done).drop_last() =~= order.take(done - 1));
            assert(order.take(done).last() == table.slots[i]->0);
            assert(table.slots[i] is Some);
        } else {
            assert forall|a: int| 0 <= a < places.len() implies (#[trigger] places[a] < i <==> a
                < done) by {
                assert(places.contains(places[a]));
                assert(places[a] < count <==> a < done);
            }
            lemma_copied_so_far(table, tiles, dest, places, i as nat, done);
        }
    }
}

} // verus!
