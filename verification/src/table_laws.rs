//! What holds of the hash table of tiles, whatever is done with it.
use crate::hash_table::{
    law_there_is_room, lemma_contains_push, lemma_insertion_try, probe, probe_limit,
    sum_of_squares, TableView, TextureTile, TileId,
};
use vstd::prelude::*;

verus! {

/// Whether each tile knows its place among all tiles.
pub open spec fn are_numbered(tiles: Seq<TextureTile>) -> bool {
    forall|i: int| 0 <= i < tiles.len() ==> (#[trigger] tiles[i]).index == i
}

proof fn lemma_sum_of_squares(n: nat)
    ensures
        6 * sum_of_squares(n) == n * (n + 1) * (2 * n + 1),
    decreases n,
{
    if n == 0 {
        assert(0 * (0nat + 1) * (2 * 0nat + 1) == 0);
    } else {
        let m = (n - 1) as nat;
        lemma_sum_of_squares(m);
        assert(m * (m + 1) * (2 * m + 1) + 6 * (n * n) == n * (n + 1) * (2 * n + 1))
            by (nonlinear_arith)
            requires
                n == m + 1,
        ;
    }
}

/// After six times as many tries as there are slots, the same slots come up again.
pub proof fn law_probes_repeat(hash: u64, k: nat, size: nat)
    requires
        size > 0,
    ensures
        probe(hash, k + 6 * size, size) == probe(hash, k, size),
{
    let t = 6 * size;
    let q = 6 * (k * k) + 6 * (k * t) + 2 * (t * t) + 6 * k + 3 * t + 1;
    lemma_sum_of_squares(k);
    lemma_sum_of_squares(k + t);
    assert((k + t) * (k + t + 1) * (2 * (k + t) + 1) == k * (k + 1) * (2 * k + 1) + t * q)
        by (nonlinear_arith)
        requires
            q == 6 * (k * k) + 6 * (k * t) + 2 * (t * t) + 6 * k + 3 * t + 1,
    ;
    assert(t * q == 6 * (size * q)) by (nonlinear_arith)
        requires
            t == 6 * size,
    ;
    assert(sum_of_squares(k + t) == sum_of_squares(k) + size * q);
    vstd::arithmetic::div_mod::lemma_mod_multiples_vanish(
        q as int,
        (hash as nat + sum_of_squares(k)) as int,
        size as int,
    );
}

/// Every slot that some number of tries leads to is among those that are tried: nothing is given up
/// that could still be found.
pub proof fn law_all_slots_are_tried(hash: u64, k: nat, size: nat)
    requires
        size > 0,
    ensures
        exists|j: nat| j < probe_limit(size) && #[trigger] probe(hash, j, size) == probe(hash, k, size),
    decreases k,
{
    if k >= 6 * size {
        let smaller = (k - 6 * size) as nat;
        law_probes_repeat(hash, smaller, size);
        law_all_slots_are_tried(hash, smaller, size);
        let j = choose|j: nat|
            j < probe_limit(size) && #[trigger] probe(hash, j, size) == probe(hash, smaller, size);
        assert(smaller + 6 * size == k);
        assert(j < probe_limit(size) && probe(hash, j, size) == probe(hash, k, size));
    } else {
        assert(k < probe_limit(size));
        lemma_probe_in_table(hash, k, size);
    }
}

proof fn lemma_probe_in_table(hash: u64, k: nat, size: nat)
    requires
        size > 0,
    ensures
        0 <= probe(hash, k, size) < size,
{
}

/// A look-up finds nothing but a tile of the table with the identity that was asked for.
pub proof fn law_found_matches(table: TableView, tiles: Seq<TextureTile>, id: TileId, k: nat)
    requires
        table.slots.len() > 0,
    ensures
        table.search(tiles, id, k) matches Some(index) ==> tiles[index as int].tile_id == id
            && table.holds(index),
    decreases probe_limit(table.slots.len()) - k,
{
    if k < probe_limit(table.slots.len()) {
        lemma_probe_in_table(id.hashed(), k, table.slots.len());
        match table.entry(id, k) {
            None => {},
            Some(index) => {
                if tiles[index as int].tile_id != id {
                    law_found_matches(table, tiles, id, k + 1);
                } else {
                    let slot = probe(id.hashed(), k, table.slots.len()) as int;
                    assert(table.slots[slot] == Some(index));
                }
            },
        }
    }
}

/// A table whose slots are all free finds nothing.
pub proof fn law_empty_table_finds_nothing(table: TableView, tiles: Seq<TextureTile>, id: TileId)
    requires
        table.slots.len() > 0,
        table.is_empty(),
    ensures
        table.found(tiles, id) is None,
{
    lemma_probe_in_table(id.hashed(), 0, table.slots.len());
}

proof fn lemma_search_reaches(
    table: TableView,
    tiles: Seq<TextureTile>,
    id: TileId,
    k: nat,
    target: nat,
)
    requires
        k <= target < probe_limit(table.slots.len()),
        forall|i: nat| k <= i <= target ==> #[trigger] table.entry(id, i) is Some,
        tiles[table.entry(id, target)->0 as int].tile_id == id,
    ensures
        table.search(tiles, id, k) is Some,
    decreases target - k,
{
    assert(table.entry(id, k) is Some);
    if k < target && tiles[table.entry(id, k)->0 as int].tile_id != id {
        lemma_search_reaches(table, tiles, id, k + 1, target);
    }
}

/// A tile that was inserted is found: a look-up for its identity finds it, or a tile that was
/// there before with the same identity. Where no other tile had the identity, it finds it.
pub proof fn law_inserted_is_found(table: TableView, tiles: Seq<TextureTile>, index: usize)
    requires
        table.slots.len() > 0,
    ensures
        ({
            let id = tiles[index as int].tile_id;
            let found = table.inserted(id, index).found(tiles, id);
            &&& found is Some
            &&& !table.holds_identity(tiles, id) ==> found == Some(index)
        }),
{
    let id = tiles[index as int].tile_id;
    let size = table.slots.len();
    let after = table.inserted(id, index);
    law_there_is_room(table, id);
    lemma_insertion_try(table, id, 0);
    let target = table.insertion_try(id, 0)->0;
    lemma_insertion_leads_to(table, id, index);
    lemma_search_reaches(after, tiles, id, 0, target);
    law_found_matches(after, tiles, id, 0);
    law_insert_keeps_tiles(table, id, index, after.found(tiles, id)->0);
}

/// The tries for an identity lead to the tile that was inserted with it.
proof fn lemma_insertion_leads_to(table: TableView, id: TileId, index: usize)
    requires
        table.slots.len() > 0,
    ensures
        table.insertion_try(id, 0) matches Some(k) && table.inserted(id, index).leads_to(
            id,
            index,
            k,
        ),
{
    let size = table.slots.len();
    let after = table.inserted(id, index);
    law_there_is_room(table, id);
    lemma_insertion_try(table, id, 0);
    let target = table.insertion_try(id, 0)->0;
    lemma_probe_in_table(id.hashed(), target, size);
    assert(after.slots.len() == size);
    assert forall|i: nat| 0 <= i <= target implies #[trigger] after.entry(id, i) is Some by {
        lemma_probe_in_table(id.hashed(), i, size);
        if i < target {
            assert(!table.admits(id, i));
        }
    }
}

/// A tile goes into the first free slot that is tried, if no two tries in a row before it find the
/// same tile.
pub proof fn law_insert_takes_first_free_slot(table: TableView, id: TileId, index: usize, m: nat)
    requires
        table.slots.len() > 0,
        table.entry(id, m) is None,
        forall|k: nat| k < m ==> #[trigger] table.entry(id, k) is Some,
        forall|k: nat|
            0 < k < m ==> #[trigger] table.entry(id, k) != table.entry(id, (k - 1) as nat),
    ensures
        table.inserted(id, index) == (TableView {
            slots: table.slots.update(
                probe(id.hashed(), m, table.slots.len()) as int,
                Some(index),
            ),
            ..table
        }),
{
    let size = table.slots.len();
    if m >= 6 * size {
        law_probes_repeat(id.hashed(), (m - 6 * size) as nat, size);
        assert(table.entry(id, (m - 6 * size) as nat) is Some);
    }
    lemma_insertion_try(table, id, 0);
    assert(table.admits(id, m));
    assert forall|k: nat| k < m implies !#[trigger] table.admits(id, k) by {
        assert(table.entry(id, k) is Some);
    }
}

/// Two tries in a row find the same tile only if they try the same slot, which they do only where
/// the square is a multiple of the size, or if the tile stands in both of the slots.
pub proof fn law_tries_in_a_row(table: TableView, id: TileId, k: nat)
    requires
        table.slots.len() > 0,
        k > 0,
        table.entry(id, k) is Some,
        table.entry(id, k) == table.entry(id, (k - 1) as nat),
    ensures
        (k * k) % table.slots.len() == 0 || !table.is_distinct(),
{
    let size = table.slots.len();
    let before = (k - 1) as nat;
    lemma_probe_in_table(id.hashed(), k, size);
    lemma_probe_in_table(id.hashed(), before, size);
    let (a, b) = (probe(id.hashed(), k, size) as int, probe(id.hashed(), before, size) as int);
    if a == b {
        lemma_same_slot_again(id.hashed(), k, size);
    } else if a < b {
        assert(table.slots[a] == table.slots[b]);
    } else {
        assert(table.slots[b] == table.slots[a]);
    }
}

/// A slot is tried twice in a row only where the square is a multiple of the size.
proof fn lemma_same_slot_again(hash: u64, k: nat, size: nat)
    requires
        size > 0,
        k > 0,
        probe(hash, k, size) == probe(hash, (k - 1) as nat, size),
    ensures
        (k * k) % size == 0,
{
    let before = (hash as nat + sum_of_squares((k - 1) as nat)) as int;
    let square = (k * k) as int;
    assert(sum_of_squares(k) == sum_of_squares((k - 1) as nat) + k * k);
    vstd::arithmetic::div_mod::lemma_sub_mod_noop(before + square, before, size as int);
    vstd::arithmetic::div_mod::lemma_small_mod(0, size);
}

/// Whether a tile with the identity goes into a slot that was free.
pub open spec fn goes_into_free_slot(table: TableView, id: TileId) -> bool {
    table.insertion_try(id, 0) matches Some(k) && table.entry(id, k) is None
}

/// Whether a tile with the identity goes into a slot that holds the tile `other`.
pub open spec fn lands_on(table: TableView, id: TileId, other: usize) -> bool {
    table.insertion_try(id, 0) matches Some(k) && table.entry(id, k) == Some(other)
}

/// Whether a tile with the identity takes over the slot of the tile `other`: the slot is tried
/// twice in a row.
pub open spec fn takes_over(table: TableView, id: TileId, other: usize) -> bool {
    let size = table.slots.len();
    &&& lands_on(table, id, other)
    &&& table.insertion_try(id, 0)->0 > 0
    &&& probe(id.hashed(), table.insertion_try(id, 0)->0, size) == probe(
        id.hashed(),
        (table.insertion_try(id, 0)->0 - 1) as nat,
        size,
    )
}

proof fn lemma_insert_keeps_search(
    table: TableView,
    tiles: Seq<TextureTile>,
    id: TileId,
    index: usize,
    other: TileId,
    k: nat,
)
    requires
        table.slots.len() > 0,
        table.search(tiles, other, k) matches Some(found) && !lands_on(table, id, found),
    ensures
        table.inserted(id, index).search(tiles, other, k) is Some,
        goes_into_free_slot(table, id) ==> table.inserted(id, index).search(tiles, other, k)
            == table.search(tiles, other, k),
    decreases probe_limit(table.slots.len()) - k,
{
    let size = table.slots.len();
    let after = table.inserted(id, index);
    lemma_probe_in_table(other.hashed(), k, size);
    law_there_is_room(table, id);
    lemma_probe_in_table(id.hashed(), table.insertion_try(id, 0)->0, size);
    assert(after.slots.len() == size);
    if tiles[table.entry(other, k)->0 as int].tile_id != other {
        lemma_insert_keeps_search(table, tiles, id, index, other, k + 1);
    }
}

/// A tile hides no other, unless it goes into the other's slot: what was found before is found
/// still, and as before if the slot was free.
pub proof fn law_insert_keeps_hits(
    table: TableView,
    tiles: Seq<TextureTile>,
    id: TileId,
    index: usize,
    other: TileId,
)
    requires
        table.slots.len() > 0,
        table.found(tiles, other) matches Some(found) && !lands_on(table, id, found),
    ensures
        table.inserted(id, index).found(tiles, other) is Some,
        goes_into_free_slot(table, id) ==> table.inserted(id, index).found(tiles, other)
            == table.found(tiles, other),
{
    lemma_insert_keeps_search(table, tiles, id, index, other, 0);
}

/// A tile that was inserted is in the table. It puts none out of the table, but for one whose slot
/// it takes over.
pub proof fn law_insert_keeps_tiles(table: TableView, id: TileId, index: usize, other: usize)
    requires
        table.slots.len() > 0,
    ensures
        table.inserted(id, index).holds(index),
        table.holds(other) ==> table.inserted(id, index).holds(other) || takes_over(
            table,
            id,
            other,
        ),
        table.inserted(id, index).holds(other) ==> table.holds(other) || other == index,
{
    let size = table.slots.len();
    let after = table.inserted(id, index);
    law_there_is_room(table, id);
    lemma_insertion_try(table, id, 0);
    let k = table.insertion_try(id, 0)->0;
    let slot = probe(id.hashed(), k, size) as int;
    lemma_probe_in_table(id.hashed(), k, size);
    assert(after.slots[slot] == Some(index));
    if table.holds(other) {
        let i = choose|i: int| 0 <= i < size && table.slots[i] == Some(other);
        if i != slot {
            assert(after.slots[i] == Some(other));
        } else {
            assert(table.admits(id, k));
            let before = probe(id.hashed(), (k - 1) as nat, size) as int;
            lemma_probe_in_table(id.hashed(), (k - 1) as nat, size);
            if before != slot {
                assert(after.slots[before] == Some(other));
            }
        }
    }
    if after.holds(other) {
        let i = choose|i: int| 0 <= i < size && after.slots[i] == Some(other);
        if i != slot {
            assert(table.slots[i] == Some(other));
        }
    }
}

/// In an orderly table, a tile is found by its identity; and what is not found is not there.
pub proof fn law_found_is_held(table: TableView, tiles: Seq<TextureTile>, id: TileId)
    requires
        table.slots.len() > 0,
        table.is_orderly(tiles),
    ensures
        table.found(tiles, id) is Some <==> table.holds_identity(tiles, id),
        forall|index: usize| #[trigger]
            table.holds(index) && tiles[index as int].tile_id == id ==> table.found(tiles, id)
                == Some(index),
{
    law_found_matches(table, tiles, id, 0);
    assert forall|index: usize| #[trigger]
        table.holds(index) && tiles[index as int].tile_id == id implies table.found(tiles, id)
        == Some(index) by {
        let k = choose|k: nat| #[trigger] table.leads_to(id, index, k);
        lemma_search_reaches(table, tiles, id, 0, k);
        let found = table.found(tiles, id)->0;
        assert(table.holds(found));
    }
}

/// An orderly table stays orderly when a tile goes into it that is not there, with an identity that
/// is not there.
pub proof fn law_insert_keeps_order(table: TableView, tiles: Seq<TextureTile>, index: usize)
    requires
        table.slots.len() > 0,
        table.is_orderly(tiles),
        !table.holds(index),
        !table.holds_identity(tiles, tiles[index as int].tile_id),
    ensures
        table.inserted(tiles[index as int].tile_id, index).is_orderly(tiles),
{
    let size = table.slots.len();
    let id = tiles[index as int].tile_id;
    let after = table.inserted(id, index);
    lemma_insertion_leads_to(table, id, index);
    let slot = probe(id.hashed(), table.insertion_try(id, 0)->0, size) as int;
    lemma_probe_in_table(id.hashed(), table.insertion_try(id, 0)->0, size);
    assert forall|i: int, j: int| 0 <= i < j < after.slots.len() implies #[trigger] after.slots[i] is None
        || #[trigger] after.slots[j] != after.slots[i] by {
        assert(table.slots[i] is None || table.slots[j] != table.slots[i]);
        if after.slots[i] == after.slots[j] && after.slots[i] is Some {
            let other = if i == slot {
                j
            } else {
                i
            };
            assert(table.slots[other] == Some(index));
        }
    }
    assert forall|other: usize| #[trigger] after.holds(other) implies exists|k: nat| #[trigger]
        after.leads_to(tiles[other as int].tile_id, other, k) by {
        law_insert_keeps_tiles(table, id, index, other);
        if other != index {
            assert(table.holds(other));
            let other_id = tiles[other as int].tile_id;
            let k = choose|k: nat| #[trigger] table.leads_to(other_id, other, k);
            lemma_still_leads_to(table, id, index, other_id, other, k);
        }
    }
    assert forall|a: usize, b: usize| #[trigger]
        after.holds(a) && #[trigger] after.holds(b) && tiles[a as int].tile_id
        == tiles[b as int].tile_id implies a == b by {
        law_insert_keeps_tiles(table, id, index, a);
        law_insert_keeps_tiles(table, id, index, b);
        if a == index && b != index {
            assert(table.holds(b));
        } else if b == index && a != index {
            assert(table.holds(a));
        }
    }
}

/// The tries for an identity still lead to a tile that is still in the table.
proof fn lemma_still_leads_to(
    table: TableView,
    id: TileId,
    index: usize,
    other_id: TileId,
    other: usize,
    k: nat,
)
    requires
        table.slots.len() > 0,
        table.is_distinct(),
        table.leads_to(other_id, other, k),
        table.inserted(id, index).holds(other),
        other != index,
    ensures
        table.inserted(id, index).leads_to(other_id, other, k),
{
    let size = table.slots.len();
    let after = table.inserted(id, index);
    law_there_is_room(table, id);
    let slot = probe(id.hashed(), table.insertion_try(id, 0)->0, size) as int;
    lemma_probe_in_table(id.hashed(), table.insertion_try(id, 0)->0, size);
    lemma_probe_in_table(other_id.hashed(), k, size);
    let here = probe(other_id.hashed(), k, size) as int;
    let i = choose|i: int| 0 <= i < size && after.slots[i] == Some(other);
    assert(table.slots[i] == Some(other));
    assert(table.slots[here] == Some(other));
    assert(i == here);
    assert forall|j: nat| j < k implies #[trigger] after.entry(other_id, j) is Some by {
        lemma_probe_in_table(other_id.hashed(), j, size);
        assert(table.entry(other_id, j) is Some);
    }
}

/// A table stays orderly when tiles that are not in it change, or when only marks do.
pub proof fn lemma_order_of_held(
    table: TableView,
    before: Seq<TextureTile>,
    after: Seq<TextureTile>,
)
    requires
        table.is_orderly(before),
        forall|index: usize| #[trigger]
            table.holds(index) ==> after[index as int].tile_id == before[index as int].tile_id,
    ensures
        table.is_orderly(after),
{
    assert forall|index: usize| #[trigger] table.holds(index) implies exists|k: nat| #[trigger]
        table.leads_to(after[index as int].tile_id, index, k) by {
        let k = choose|k: nat| #[trigger] table.leads_to(before[index as int].tile_id, index, k);
        assert(table.leads_to(after[index as int].tile_id, index, k));
    }
}

/// The table after tiles were inserted one after the other.
pub open spec fn filled(
    table: TableView,
    tiles: Seq<TextureTile>,
    order: Seq<usize>,
) -> TableView
    decreases order.len(),
{
    if order.len() == 0 {
        table
    } else {
        let index = order.last();
        filled(table, tiles, order.drop_last()).inserted(tiles[index as int].tile_id, index)
    }
}

/// Whether each of the tiles that are inserted one after the other goes into a free slot, so that
/// none is displaced.
pub open spec fn fills_free_slots(
    table: TableView,
    tiles: Seq<TextureTile>,
    order: Seq<usize>,
) -> bool
    decreases order.len(),
{
    order.len() > 0 ==> fills_free_slots(table, tiles, order.drop_last()) && goes_into_free_slot(
        filled(table, tiles, order.drop_last()),
        tiles[order.last() as int].tile_id,
    )
}

/// The first of the tiles with the identity.
pub open spec fn first_with_identity(
    tiles: Seq<TextureTile>,
    order: Seq<usize>,
    id: TileId,
) -> Option<usize>
    decreases order.len(),
{
    if order.len() == 0 {
        None
    } else {
        match first_with_identity(tiles, order.drop_last(), id) {
            Some(index) => Some(index),
            None => if tiles[order.last() as int].tile_id == id {
                Some(order.last())
            } else {
                None
            },
        }
    }
}

/// In a table that was filled tile by tile, with none displaced, a look-up finds the tile with the
/// identity that was inserted first; and nothing if and only if none with it was inserted.
pub proof fn law_look_up_finds_first_inserted(
    table: TableView,
    tiles: Seq<TextureTile>,
    order: Seq<usize>,
    id: TileId,
)
    requires
        table.slots.len() > 0,
        table.is_empty(),
        fills_free_slots(table, tiles, order),
    ensures
        filled(table, tiles, order).found(tiles, id) == first_with_identity(tiles, order, id),
        first_with_identity(tiles, order, id) is None <==> !filled(
            table,
            tiles,
            order,
        ).holds_identity(tiles, id),
    decreases order.len(),
{
    if order.len() == 0 {
        law_empty_table_finds_nothing(table, tiles, id);
        assert forall|index: usize| !#[trigger] table.holds(index) by {
            if table.holds(index) {
                let i = choose|i: int| 0 <= i < table.slots.len() && table.slots[i] == Some(index);
                assert(table.slots[i] is None);
            }
        }
    } else {
        let front = order.drop_last();
        let before = filled(table, tiles, front);
        let index = order.last();
        let after = filled(table, tiles, order);
        law_look_up_finds_first_inserted(table, tiles, front, id);
        lemma_filled_size(table, tiles, front);
        law_insert_keeps_tiles(before, tiles[index as int].tile_id, index, index);
        law_found_matches(after, tiles, id, 0);
        match before.found(tiles, id) {
            Some(found) => {
                law_insert_keeps_hits(before, tiles, tiles[index as int].tile_id, index, id);
                assert(after.holds_identity(tiles, id)) by {
                    assert(after.holds(after.found(tiles, id)->0));
                }
            },
            None => {
                if tiles[index as int].tile_id == id {
                    law_inserted_is_found(before, tiles, index);
                    assert(after.holds(index));
                } else {
                    assert forall|other: usize| #[trigger] after.holds(other) implies tiles[
                        other as int
                    ].tile_id != id by {
                        law_insert_keeps_tiles(
                            before,
                            tiles[index as int].tile_id,
                            index,
                            other,
                        );
                        if other != index {
                            assert(before.holds(other));
                        }
                    }
                }
            },
        }
    }
}

proof fn lemma_filled_size(table: TableView, tiles: Seq<TextureTile>, order: Seq<usize>)
    ensures
        filled(table, tiles, order).slots.len() == table.slots.len(),
    decreases order.len(),
{
    if order.len() > 0 {
        lemma_filled_size(table, tiles, order.drop_last());
    }
}

/// Whether the tile of a slot goes over and takes over the slot of the tile `other`.
pub open spec fn copy_takes_over(
    table: TableView,
    tiles: Seq<TextureTile>,
    dest: TableView,
    i: int,
    other: usize,
) -> bool {
    table.goes_over(tiles, i) && takes_over(
        table.copy_of(tiles, dest, i as nat),
        tiles[table.slots[i]->0 as int].tile_id,
        other,
    )
}

/// Whether the tile of a slot goes over into the slot of the tile that is found for an identity.
pub open spec fn copy_hides(
    table: TableView,
    tiles: Seq<TextureTile>,
    dest: TableView,
    i: int,
    id: TileId,
) -> bool {
    let before = table.copy_of(tiles, dest, i as nat);
    table.goes_over(tiles, i) && (before.found(tiles, id) matches Some(found) && lands_on(
        before,
        tiles[table.slots[i]->0 as int].tile_id,
        found,
    ))
}

/// The size of the other table stays as it is.
pub proof fn lemma_copy_keeps_size(
    table: TableView,
    tiles: Seq<TextureTile>,
    dest: TableView,
    count: nat,
)
    ensures
        table.copy_of(tiles, dest, count).slots.len() == dest.slots.len(),
        table.copy_of(tiles, dest, count).copied == dest.copied,
    decreases count,
{
    if count > 0 {
        lemma_copy_keeps_size(table, tiles, dest, (count - 1) as nat);
    }
}

/// What is in the other table stays there unless its slot is taken over, and what is new there went
/// over from the table.
pub proof fn lemma_copy_adds(
    table: TableView,
    tiles: Seq<TextureTile>,
    dest: TableView,
    count: nat,
    index: usize,
)
    requires
        count <= table.slots.len(),
        dest.slots.len() > 0,
        are_numbered(tiles),
        table.holds_below(tiles.len()),
    ensures
        dest.holds(index) ==> table.copy_of(tiles, dest, count).holds(index) || exists|i: int|
            0 <= i < count && #[trigger] copy_takes_over(table, tiles, dest, i, index),
        table.copy_of(tiles, dest, count).holds(index) ==> dest.holds(index) || exists|i: int|
            0 <= i < count && #[trigger] table.goes_over(tiles, i) && table.slots[i] == Some(index),
    decreases count,
{
    if count > 0 {
        let i = count - 1;
        lemma_copy_adds(table, tiles, dest, i as nat, index);
        lemma_copy_keeps_size(table, tiles, dest, i as nat);
        let before = table.copy_of(tiles, dest, i as nat);
        let after = table.copy_of(tiles, dest, count);
        if table.goes_over(tiles, i) {
            let here = table.slots[i]->0;
            assert(here < tiles.len());
            law_insert_keeps_tiles(before, tiles[here as int].tile_id, here, index);
            if before.holds(index) && !after.holds(index) {
                assert(copy_takes_over(table, tiles, dest, i, index));
            }
        }
    }
}

/// The tile of a slot that goes over is in the other table, unless its slot there was taken over.
proof fn lemma_copied_slot_holds(
    table: TableView,
    tiles: Seq<TextureTile>,
    dest: TableView,
    count: nat,
    i: int,
)
    requires
        count <= table.slots.len(),
        0 <= i < count,
        dest.slots.len() > 0,
        are_numbered(tiles),
        table.holds_below(tiles.len()),
        table.goes_over(tiles, i),
    ensures
        table.slots[i] matches Some(index) && (table.copy_of(tiles, dest, count).holds(index)
            || exists|k: int|
            0 <= k < count && #[trigger] copy_takes_over(table, tiles, dest, k, index)),
    decreases count,
{
    let last = count - 1;
    let before = table.copy_of(tiles, dest, last as nat);
    lemma_copy_keeps_size(table, tiles, dest, last as nat);
    let index = table.slots[i]->0;
    assert(index < tiles.len());
    if i < last {
        lemma_copied_slot_holds(table, tiles, dest, last as nat, i);
        if table.goes_over(tiles, last) {
            let here = table.slots[last]->0;
            assert(here < tiles.len());
            law_insert_keeps_tiles(before, tiles[here as int].tile_id, here, index);
            if before.holds(index) && !table.copy_of(tiles, dest, count).holds(index) {
                assert(copy_takes_over(table, tiles, dest, last, index));
            }
        }
    } else {
        law_insert_keeps_tiles(before, tiles[index as int].tile_id, index, index);
    }
}

/// The tile of a slot that goes over has its identity found in the other table, unless a later one
/// goes into the slot of what is found.
proof fn lemma_copied_slot_found(
    table: TableView,
    tiles: Seq<TextureTile>,
    dest: TableView,
    count: nat,
    i: int,
)
    requires
        count <= table.slots.len(),
        0 <= i < count,
        dest.slots.len() > 0,
        are_numbered(tiles),
        table.holds_below(tiles.len()),
        table.goes_over(tiles, i),
        forall|k: int|
            i < k < count ==> !#[trigger] copy_hides(
                table,
                tiles,
                dest,
                k,
                tiles[table.slots[i]->0 as int].tile_id,
            ),
    ensures
        table.copy_of(tiles, dest, count).found(
            tiles,
            tiles[table.slots[i]->0 as int].tile_id,
        ) is Some,
    decreases count,
{
    let last = count - 1;
    let before = table.copy_of(tiles, dest, last as nat);
    lemma_copy_keeps_size(table, tiles, dest, last as nat);
    let index = table.slots[i]->0;
    assert(index < tiles.len());
    if i < last {
        lemma_copied_slot_found(table, tiles, dest, last as nat, i);
        assert(!copy_hides(table, tiles, dest, last, tiles[index as int].tile_id));
        if table.goes_over(tiles, last) {
            let here = table.slots[last]->0;
            assert(here < tiles.len());
            law_insert_keeps_hits(
                before,
                tiles,
                tiles[here as int].tile_id,
                here,
                tiles[index as int].tile_id,
            );
        }
    } else {
        law_inserted_is_found(before, tiles, index);
    }
}

pub proof fn lemma_uncopied(table: TableView, count: nat, index: usize)
    requires
        count <= table.slots.len() == table.copied.len(),
    ensures
        table.uncopied(count).contains(index) <==> exists|i: int|
            0 <= i < count && #[trigger] table.slots[i] == Some(index) && !table.copied[i],
    decreases count,
{
    if count > 0 {
        let i = count - 1;
        lemma_uncopied(table, i as nat, index);
        let shorter = table.uncopied(i as nat);
        match table.slots[i] {
            Some(here) => {
                if !table.copied[i] {
                    lemma_contains_push(shorter, here);
                }
            },
            None => {},
        }
    }
}

/// What is reclaimed is what was in a slot and not copied from there.
pub proof fn law_reclaimed_tiles(table: TableView, index: usize)
    requires
        table.slots.len() == table.copied.len(),
    ensures
        table.uncopied(table.slots.len()).contains(index) <==> exists|i: int|
            0 <= i < table.slots.len() && #[trigger] table.slots[i] == Some(index)
                && !table.copied[i],
{
    lemma_uncopied(table, table.slots.len(), index);
}

/// No tile is reclaimed twice, if none stands in two slots.
pub proof fn law_reclaimed_once(table: TableView, count: nat)
    requires
        count <= table.slots.len() == table.copied.len(),
        table.is_distinct(),
    ensures
        table.uncopied(count).no_duplicates(),
    decreases count,
{
    if count > 0 {
        let i = count - 1;
        law_reclaimed_once(table, i as nat);
        if let Some(index) = table.slots[i] {
            lemma_uncopied(table, i as nat, index);
            let shorter = table.uncopied(i as nat);
            if shorter.contains(index) {
                let k = choose|k: int|
                    0 <= k < i && #[trigger] table.slots[k] == Some(index) && !table.copied[k];
                assert(table.slots[k] != table.slots[i]);
            }
            assert forall|a: int, b: int|
                0 <= a < b < shorter.push(index).len() implies shorter.push(index)[a]
                != shorter.push(index)[b] by {
                if b == shorter.len() {
                    assert(shorter.contains(shorter[a]));
                }
            }
        }
    }
}

/// What is reclaimed and what goes over are different tiles: no tile is free and in use at once.
pub proof fn law_reclaimed_are_not_copied(
    table: TableView,
    tiles: Seq<TextureTile>,
    dest: TableView,
    index: usize,
)
    requires
        dest.is_empty(),
        are_numbered(tiles),
        table.holds_below(tiles.len()),
        table.is_distinct(),
    ensures
        !(table.after_copy(tiles).uncopied(table.slots.len()).contains(index) && table.copy_to(
            tiles,
            dest,
        ).holds(index)),
{
    let size = table.slots.len();
    let after = table.after_copy(tiles);
    lemma_uncopied(after, size, index);
    if after.uncopied(size).contains(index) && table.copy_to(tiles, dest).holds(index) {
        let i = choose|i: int|
            0 <= i < size && #[trigger] after.slots[i] == Some(index) && !after.copied[i];
        lemma_copy_keeps_size(table, tiles, dest, size);
        lemma_copy_adds(table, tiles, dest, size, index);
        lemma_empty_holds_none(dest, index);
        let k = choose|k: int|
            0 <= k < size && #[trigger] table.goes_over(tiles, k) && table.slots[k] == Some(index);
        assert(table.slots[i] == Some(index));
        assert(i == k);
    }
}

/// An empty table holds no tile.
pub proof fn lemma_empty_holds_none(table: TableView, index: usize)
    requires
        table.is_empty(),
    ensures
        !table.holds(index),
{
    if table.holds(index) {
        let i = choose|i: int| 0 <= i < table.slots.len() && table.slots[i] == Some(index);
        assert(table.slots[i] is None);
    }
}

/// What goes over from an orderly table makes an orderly table.
pub proof fn law_copy_is_orderly(
    table: TableView,
    tiles: Seq<TextureTile>,
    dest: TableView,
    count: nat,
)
    requires
        count <= table.slots.len(),
        dest.slots.len() > 0,
        dest.is_empty(),
        are_numbered(tiles),
        table.holds_below(tiles.len()),
        table.is_orderly(tiles),
    ensures
        table.copy_of(tiles, dest, count).is_orderly(tiles),
    decreases count,
{
    if count == 0 {
        assert forall|index: usize| !#[trigger] dest.holds(index) by {
            lemma_empty_holds_none(dest, index);
        }
    } else {
        let i = count - 1;
        let before = table.copy_of(tiles, dest, i as nat);
        law_copy_is_orderly(table, tiles, dest, i as nat);
        lemma_copy_keeps_size(table, tiles, dest, i as nat);
        if table.goes_over(tiles, i) {
            let index = table.slots[i]->0;
            assert(index < tiles.len());
            assert(table.holds(index));
            assert forall|other: usize| #[trigger] before.holds(other) implies other != index
                && tiles[other as int].tile_id != tiles[index as int].tile_id by {
                lemma_copy_adds(table, tiles, dest, i as nat, other);
                lemma_empty_holds_none(dest, other);
                let k = choose|k: int|
                    0 <= k < i && #[trigger] table.goes_over(tiles, k) && table.slots[k] == Some(
                        other,
                    );
                assert(table.slots[k] != table.slots[i]);
                assert(table.holds(other));
            }
            law_insert_keeps_order(before, tiles, index);
        }
    }
}

/// No tile gets lost when tiles are freed: one that was in either table is in the other table
/// afterwards, or among the tiles that were not copied, unless its slot in the other table was
/// taken over.
pub proof fn law_no_tile_is_lost(
    table: TableView,
    tiles: Seq<TextureTile>,
    dest: TableView,
    index: usize,
)
    requires
        dest.slots.len() > 0,
        are_numbered(tiles),
        table.holds_below(tiles.len()),
        table.holds(index) || dest.holds(index),
    ensures
        table.copy_to(tiles, dest).holds(index) || table.after_copy(tiles).uncopied(
            table.slots.len(),
        ).contains(index) || exists|i: int|
            0 <= i < table.slots.len() && #[trigger] copy_takes_over(table, tiles, dest, i, index),
{
    let size = table.slots.len();
    let after = table.after_copy(tiles);
    lemma_copy_adds(table, tiles, dest, size, index);
    lemma_uncopied(after, size, index);
    if !dest.holds(index) {
        let i = choose|i: int| 0 <= i < size && table.slots[i] == Some(index);
        assert(after.slots[i] == Some(index));
        if table.goes_over(tiles, i) {
            lemma_copied_slot_holds(table, tiles, dest, size, i);
        }
    }
}

/// A tile that went over is found in the other table, unless a later one went into the slot of what
/// is found there.
pub proof fn law_copied_tile_is_found(
    table: TableView,
    tiles: Seq<TextureTile>,
    dest: TableView,
    i: int,
)
    requires
        0 <= i < table.slots.len(),
        dest.slots.len() > 0,
        are_numbered(tiles),
        table.holds_below(tiles.len()),
        table.goes_over(tiles, i),
        forall|k: int|
            i < k < table.slots.len() ==> !#[trigger] copy_hides(
                table,
                tiles,
                dest,
                k,
                tiles[table.slots[i]->0 as int].tile_id,
            ),
    ensures
        table.copy_to(tiles, dest).found(
            tiles,
            tiles[table.slots[i]->0 as int].tile_id,
        ) is Some,
{
    lemma_copied_slot_found(table, tiles, dest, table.slots.len(), i);
}

/// A tile that is marked is given up when tiles are freed. Where none is marked, those in the first
/// half of the slots are.
pub proof fn law_tiles_given_up(table: TableView, tiles: Seq<TextureTile>, i: int)
    requires
        0 <= i < table.slots.len(),
        table.slots[i] is Some,
        table.is_marked(tiles, i) || !table.has_marked(tiles) && i < table.slots.len() / 2,
    ensures
        table.after_copy(tiles).uncopied(table.slots.len()).contains(table.slots[i]->0),
{
    let after = table.after_copy(tiles);
    assert(after.slots[i] == Some(table.slots[i]->0));
    lemma_uncopied(after, table.slots.len(), table.slots[i]->0);
}

} // verus!
