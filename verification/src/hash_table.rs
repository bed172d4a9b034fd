//! Tiles by their identity: a hash table with open addressing.
use crate::decimal::{decimal, push_decimal};
use std::ops::Range;
use vstd::prelude::*;

verus! {

/// Which tile of which level of which texture, in sixteen bits each.
#[derive(Copy, Clone, Debug, PartialEq, Eq, Structural)]
pub struct TileId(pub u64);

impl Default for TileId {
    fn default() -> (id: Self)
        ensures
            id.0 == 0,
    {
        TileId(0)
    }
}

impl TileId {
    pub open spec fn packed(tex_id: u32, level: u32, tile_x: u32, tile_y: u32) -> u64 {
        tex_id as u64 | ((level as u64 & 0xffff) << 16) | ((tile_x as u64) << 32) | ((tile_y as u64)
            << 48)
    }

    /// The identity of a tile. Only a `tex_id`, a `tile_x` and a `tile_y` of sixteen bits are kept
    /// apart from their neighbours; of a level, the low sixteen bits count.
    pub fn new(tex_id: u32, level: u32, tile_x: u32, tile_y: u32) -> (id: Self)
        ensures
            id.0 == Self::packed(tex_id, level, tile_x, tile_y),
            tex_id < 0x1_0000 && level < 0x1_0000 && tile_x < 0x1_0000 && tile_y < 0x1_0000
                ==> id.0 == tex_id + 0x1_0000 * level + 0x1_0000_0000 * tile_x
                + 0x1_0000_0000_0000 * tile_y,
    {
        let mut bits: u64 = tex_id as u64;
        bits = bits | ((level as u64 & 0xffff) << 16);
        bits = bits | ((tile_x as u64) << 32);
        bits = bits | ((tile_y as u64) << 48);
        proof {
            let (t, l, x, y) = (tex_id as u64, level as u64, tile_x as u64, tile_y as u64);
            if t < 0x1_0000 && l < 0x1_0000 && x < 0x1_0000 && y < 0x1_0000 {
                assert(t | ((l & 0xffff) << 16) | (x << 32) | (y << 48) == t + 0x1_0000 * l
                    + 0x1_0000_0000 * x + 0x1_0000_0000_0000 * y) by (bit_vector)
                    requires
                        t < 0x1_0000,
                        l < 0x1_0000,
                        x < 0x1_0000,
                        y < 0x1_0000,
                ;
            }
        }
        TileId(bits)
    }

    /// The texture of the tile.
    pub open spec fn texture(self) -> nat {
        self.0 as nat % 0x1_0000
    }

    /// The level of the tile.
    pub open spec fn mip(self) -> nat {
        self.0 as nat / 0x1_0000 % 0x1_0000
    }

    /// How many tiles are left of the tile.
    pub open spec fn column(self) -> nat {
        self.0 as nat / 0x1_0000_0000 % 0x1_0000
    }

    /// How many rows of tiles are above the tile.
    pub open spec fn row(self) -> nat {
        self.0 as nat / 0x1_0000_0000_0000 % 0x1_0000
    }

    pub fn tex_id(&self) -> (tex_id: u32)
        ensures
            tex_id == self.texture(),
    {
        let bits: u64 = self.0;
        assert(bits & 0xffff == bits % 0x1_0000) by (bit_vector);
        (bits & 0xffff) as u32
    }

    pub fn level(&self) -> (level: u32)
        ensures
            level == self.mip(),
    {
        let bits: u64 = self.0;
        assert((bits >> 16) & 0xffff == bits / 0x1_0000 % 0x1_0000) by (bit_vector);
        ((bits >> 16) & 0xffff) as u32
    }

    pub fn tile_x(&self) -> (tile_x: u32)
        ensures
            tile_x == self.column(),
    {
        let bits: u64 = self.0;
        assert((bits >> 32) & 0xffff == bits / 0x1_0000_0000 % 0x1_0000) by (bit_vector);
        ((bits >> 32) & 0xffff) as u32
    }

    pub fn tile_y(&self) -> (tile_y: u32)
        ensures
            tile_y == self.row(),
    {
        let bits: u64 = self.0;
        assert((bits >> 48) & 0xffff == bits / 0x1_0000_0000_0000 % 0x1_0000) by (bit_vector);
        ((bits >> 48) & 0xffff) as u32
    }

    /// The identity in words.
    pub open spec fn described(self) -> Seq<char> {
        "TileId(tex:"@ + decimal(self.texture()) + ", lv:"@ + decimal(self.mip()) + ", x:"@
            + decimal(self.column()) + ", y:"@ + decimal(self.row()) + ")"@
    }

    /// The identity in words, such as `TileId(tex:1, lv:2, x:3, y:4)`.
    pub fn describe(&self) -> (text: String)
        ensures
            text@ == self.described(),
    {
        let mut text: String = "TileId(tex:".to_owned();
        push_decimal(&mut text, self.tex_id());
        text.append(", lv:");
        push_decimal(&mut text, self.level());
        text.append(", x:");
        push_decimal(&mut text, self.tile_x());
        text.append(", y:");
        push_decimal(&mut text, self.tile_y());
        text.append(")");
        text
    }

    /// The bits of the identity, mixed.
    pub open spec fn hashed(self) -> u64 {
        let v = self.0;
        let v = v ^ (v >> 31);
        let v = v.wrapping_mul(0x7fb5d329728ea185);
        let v = v ^ (v >> 27);
        let v = v.wrapping_mul(0x81dadef4bc2dd44d);
        v ^ (v >> 33)
    }

    pub fn hash(&self) -> (hash: u64)
        ensures
            hash == self.hashed(),
    {
        let v: u64 = self.0;
        let v: u64 = v ^ (v >> 31);
        let v: u64 = v.wrapping_mul(0x7fb5d329728ea185);
        let v: u64 = v ^ (v >> 27);
        let v: u64 = v.wrapping_mul(0x81dadef4bc2dd44d);
        let v: u64 = v ^ (v >> 33);
        v
    }
}

/// What goes into an identity comes out of it, as far as sixteen bits hold it.
pub proof fn law_tile_id_round_trip(tex_id: u32, level: u32, tile_x: u32, tile_y: u32)
    requires
        tex_id < 0x1_0000,
        level < 0x1_0000,
        tile_x < 0x1_0000,
        tile_y < 0x1_0000,
    ensures
        ({
            let id = TileId(TileId::packed(tex_id, level, tile_x, tile_y));
            &&& id.texture() == tex_id
            &&& id.mip() == level
            &&& id.column() == tile_x
            &&& id.row() == tile_y
        }),
{
    let (t, l, x, y) = (tex_id as u64, level as u64, tile_x as u64, tile_y as u64);
    let bits = t | ((l & 0xffff) << 16) | (x << 32) | (y << 48);
    assert(bits % 0x1_0000 == t && bits / 0x1_0000 % 0x1_0000 == l && bits / 0x1_0000_0000
        % 0x1_0000 == x && bits / 0x1_0000_0000_0000 % 0x1_0000 == y) by (bit_vector)
        requires
            bits == t | ((l & 0xffff) << 16) | (x << 32) | (y << 48),
            t < 0x1_0000,
            l < 0x1_0000,
            x < 0x1_0000,
            y < 0x1_0000,
    ;
}

/// Multiplying by a number that has an inverse loses nothing.
proof fn lemma_multiplication_is_injective(x: u64, y: u64, factor: u64, inverse: u64)
    requires
        (factor * inverse) % 0x1_0000_0000_0000_0000 == 1,
        x.wrapping_mul(factor) == y.wrapping_mul(factor),
    ensures
        x == y,
{
    lemma_undo_multiplication(x, factor, inverse);
    lemma_undo_multiplication(y, factor, inverse);
}

/// Multiplying by the inverse of a factor undoes the factor.
pub proof fn lemma_undo_multiplication(x: u64, factor: u64, inverse: u64)
    requires
        (factor * inverse) % 0x1_0000_0000_0000_0000 == 1,
    ensures
        (x.wrapping_mul(factor) * inverse) % 0x1_0000_0000_0000_0000 == x,
{
    let m: int = 0x1_0000_0000_0000_0000;
    assert(x.wrapping_mul(factor) == (x * factor) % m);
    vstd::arithmetic::div_mod::lemma_mul_mod_noop_left((x * factor) as int, inverse as int, m);
    assert((x * factor) * inverse == x * (factor * inverse)) by (nonlinear_arith);
    vstd::arithmetic::div_mod::lemma_mul_mod_noop_right(x as int, (factor * inverse) as int, m);
    vstd::arithmetic::div_mod::lemma_small_mod(x as nat, m as nat);
}

/// The mixing of the bits loses nothing: tiles with different identities have different hashes.
pub proof fn law_hash_is_injective(a: TileId, b: TileId)
    ensures
        a.hashed() == b.hashed() ==> a == b,
{
    if a.hashed() == b.hashed() {
        let (a0, b0) = (a.0, b.0);
        let (a1, b1) = (a0 ^ (a0 >> 31), b0 ^ (b0 >> 31));
        let (a2, b2) = (a1.wrapping_mul(0x7fb5d329728ea185), b1.wrapping_mul(0x7fb5d329728ea185));
        let (a3, b3) = (a2 ^ (a2 >> 27), b2 ^ (b2 >> 27));
        let (a4, b4) = (a3.wrapping_mul(0x81dadef4bc2dd44d), b3.wrapping_mul(0x81dadef4bc2dd44d));
        assert(a4 == b4) by (bit_vector)
            requires
                a4 ^ (a4 >> 33) == b4 ^ (b4 >> 33),
        ;
        lemma_multiplication_is_injective(a3, b3, 0x81dadef4bc2dd44d, 0x4d6dff26c61d8485);
        assert(a2 == b2) by (bit_vector)
            requires
                a2 ^ (a2 >> 27) == b2 ^ (b2 >> 27),
        ;
        lemma_multiplication_is_injective(a1, b1, 0x7fb5d329728ea185, 0x4c5ff4596f4a2f4d);
        assert(a0 == b0) by (bit_vector)
            requires
                a0 ^ (a0 >> 31) == b0 ^ (b0 >> 31),
        ;
    }
}

/// A tile of the cache: which tile it holds, and where its texels are.
#[derive(Debug)]
pub struct TextureTile {
    /// The place of the tile among all tiles.
    pub index: usize,
    pub tile_id: TileId,
    /// The place of the texels in the memory for tiles.
    pub texels: Range<usize>,
    /// Whether the tile was not looked up since tiles were last marked.
    pub marked: bool,
}

pub open spec fn sum_of_squares(n: nat) -> nat
    decreases n,
{
    if n == 0 {
        0
    } else {
        sum_of_squares((n - 1) as nat) + n * n
    }
}

/// The slot that is tried after `k` others: each time the distance grows to the next square.
pub open spec fn probe(hash: u64, k: nat, size: nat) -> nat {
    (hash as nat + sum_of_squares(k)) % size
}

/// How many slots are tried. From six times the size on the same slots come up again.
pub open spec fn probe_limit(size: nat) -> nat {
    6 * size
}

/// What a table holds: in each slot the place of a tile among all tiles, or nothing; and for each
/// slot, whether its tile was copied to the other table.
pub struct TableView {
    pub slots: Seq<Option<usize>>,
    pub copied: Seq<bool>,
}

impl TableView {
    /// The slot that is tried for an identity after `k` others.
    pub open spec fn entry(self, id: TileId, k: nat) -> Option<usize> {
        self.slots[probe(id.hashed(), k, self.slots.len()) as int]
    }

    /// Whether a tile can go into the slot that is tried after `k` others: one that is free, or
    /// that holds the same tile as the slot tried before it.
    pub open spec fn admits(self, id: TileId, k: nat) -> bool {
        self.entry(id, k) is None || k > 0 && self.entry(id, k) == self.entry(id, (k - 1) as nat)
    }

    /// The first try, from the one after `k` others on, that finds a slot for a tile.
    pub open spec fn insertion_try(self, id: TileId, k: nat) -> Option<nat>
        decreases probe_limit(self.slots.len()) - k,
    {
        if k >= probe_limit(self.slots.len()) {
            None
        } else if self.admits(id, k) {
            Some(k)
        } else {
            self.insertion_try(id, k + 1)
        }
    }

    /// Whether a tile with the identity finds a slot.
    pub open spec fn has_room(self, id: TileId) -> bool {
        self.insertion_try(id, 0) is Some
    }

    /// The table with the tile in the first slot that is found for it.
    pub open spec fn inserted(self, id: TileId, index: usize) -> TableView {
        match self.insertion_try(id, 0) {
            Some(k) => TableView {
                slots: self.slots.update(
                    probe(id.hashed(), k, self.slots.len()) as int,
                    Some(index),
                ),
                ..self
            },
            None => self,
        }
    }

    /// The tile with the identity, if a try, from the one after `k` others on, finds it before it
    /// finds a free slot.
    pub open spec fn search(self, tiles: Seq<TextureTile>, id: TileId, k: nat) -> Option<usize>
        decreases probe_limit(self.slots.len()) - k,
    {
        if k >= probe_limit(self.slots.len()) {
            None
        } else {
            match self.entry(id, k) {
                None => None,
                Some(index) => if tiles[index as int].tile_id == id {
                    Some(index)
                } else {
                    self.search(tiles, id, k + 1)
                },
            }
        }
    }

    /// The tile with the identity, if it is found.
    pub open spec fn found(self, tiles: Seq<TextureTile>, id: TileId) -> Option<usize> {
        self.search(tiles, id, 0)
    }

    /// Whether the table holds a tile.
    pub open spec fn holds(self, index: usize) -> bool {
        self.slots.contains(Some(index))
    }

    /// Whether all tiles in the table are among the first `count`.
    pub open spec fn holds_below(self, count: nat) -> bool {
        forall|i: int| 0 <= i < self.slots.len() ==> match #[trigger] self.slots[i] {
            Some(index) => index < count,
            None => true,
        }
    }

    /// Whether no tile stands in two slots.
    pub open spec fn is_distinct(self) -> bool {
        forall|i: int, j: int|
            0 <= i < j < self.slots.len() ==> #[trigger] self.slots[i] is None
                || #[trigger] self.slots[j] != self.slots[i]
    }

    /// Whether the tries for an identity lead to a tile after `k` others, before a free slot.
    pub open spec fn leads_to(self, id: TileId, index: usize, k: nat) -> bool {
        &&& k < probe_limit(self.slots.len())
        &&& self.entry(id, k) == Some(index)
        &&& forall|i: nat| i < k ==> #[trigger] self.entry(id, i) is Some
    }

    /// Whether each tile in the table is there once, is the only one with its identity, and is led
    /// to by the tries for its identity.
    pub open spec fn is_orderly(self, tiles: Seq<TextureTile>) -> bool {
        &&& self.is_distinct()
        &&& forall|index: usize| #[trigger]
            self.holds(index) ==> exists|k: nat| #[trigger]
                self.leads_to(tiles[index as int].tile_id, index, k)
        &&& forall|a: usize, b: usize| #[trigger]
            self.holds(a) && #[trigger] self.holds(b) && tiles[a as int].tile_id
                == tiles[b as int].tile_id ==> a == b
    }

    /// Whether the table holds a tile with the identity.
    pub open spec fn holds_identity(self, tiles: Seq<TextureTile>, id: TileId) -> bool {
        exists|index: usize| #[trigger] self.holds(index) && tiles[index as int].tile_id == id
    }

    /// The tiles, with those in the first `count` slots marked.
    pub open spec fn marked(self, tiles: Seq<TextureTile>, count: int) -> Seq<TextureTile> {
        Seq::new(
            tiles.len(),
            |i: int|
                if self.slots.take(count).contains(Some(i as usize)) {
                    TextureTile { marked: true, ..tiles[i] }
                } else {
                    tiles[i]
                },
        )
    }

    /// Whether a slot holds a tile that is marked.
    pub open spec fn is_marked(self, tiles: Seq<TextureTile>, i: int) -> bool {
        self.slots[i] matches Some(index) && tiles[index as int].marked
    }

    /// Whether the table holds a tile that is marked.
    pub open spec fn has_marked(self, tiles: Seq<TextureTile>) -> bool {
        exists|i: int| 0 <= i < self.slots.len() && #[trigger] self.is_marked(tiles, i)
    }

    /// Whether the tile of a slot goes over to the other table: one that is not marked. Where no
    /// tile is marked, those in the first half of the slots stay behind, so that tiles get free.
    pub open spec fn goes_over(self, tiles: Seq<TextureTile>, i: int) -> bool {
        &&& self.slots[i] is Some
        &&& !self.is_marked(tiles, i)
        &&& self.has_marked(tiles) || i >= self.slots.len() / 2
    }

    /// The other table after the tiles of the first `count` slots went over to it.
    pub open spec fn copy_of(
        self,
        tiles: Seq<TextureTile>,
        dest: TableView,
        count: nat,
    ) -> TableView
        decreases count,
    {
        if count == 0 {
            dest
        } else {
            let i = count - 1;
            let before = self.copy_of(tiles, dest, i as nat);
            if self.goes_over(tiles, i) {
                let tile = tiles[self.slots[i]->0 as int];
                before.inserted(tile.tile_id, tile.index)
            } else {
                before
            }
        }
    }

    /// The other table after all tiles that go over to it did.
    pub open spec fn copy_to(self, tiles: Seq<TextureTile>, dest: TableView) -> TableView {
        self.copy_of(tiles, dest, self.slots.len())
    }

    /// The table itself after tiles went over to another.
    pub open spec fn after_copy(self, tiles: Seq<TextureTile>) -> TableView {
        TableView {
            slots: self.slots,
            copied: Seq::new(self.slots.len(), |i: int| self.goes_over(tiles, i)),
        }
    }

    /// The tiles in the first `count` slots that were not copied.
    pub open spec fn uncopied(self, count: nat) -> Seq<usize>
        decreases count,
    {
        if count == 0 {
            Seq::empty()
        } else {
            let i = count - 1;
            match self.slots[i] {
                Some(index) => if self.copied[i] {
                    self.uncopied(i as nat)
                } else {
                    self.uncopied(i as nat).push(index)
                },
                None => self.uncopied(i as nat),
            }
        }
    }

    /// The table with all slots free.
    pub open spec fn cleared(self) -> TableView {
        TableView { slots: Seq::new(self.slots.len(), |i: int| None::<usize>), ..self }
    }

    pub open spec fn is_empty(self) -> bool {
        forall|i: int| 0 <= i < self.slots.len() ==> #[trigger] self.slots[i] is None
    }
}

/// The tiles, with one of them marked or not.
pub open spec fn with_mark(tiles: Seq<TextureTile>, index: int, marked: bool) -> Seq<TextureTile> {
    tiles.update(index, TextureTile { marked, ..tiles[index] })
}

/// The tile that a look-up finds is no longer marked.
pub open spec fn after_look_up(
    tiles: Seq<TextureTile>,
    found: Option<usize>,
) -> Seq<TextureTile> {
    match found {
        Some(index) => with_mark(tiles, index as int, false),
        None => tiles,
    }
}

/// A hash table of tiles.
pub struct TileHashTable {
    size: usize,
    table: Vec<Option<usize>>,
    hash_entry_copied: Vec<bool>,
}

impl View for TileHashTable {
    type V = TableView;

    closed spec fn view(&self) -> TableView {
        TableView { slots: self.table@, copied: self.hash_entry_copied@ }
    }
}

/// A step from one slot to the next.
proof fn lemma_probe_step(hash: u64, k: nat, size: nat)
    requires
        size > 0,
    ensures
        probe(hash, k, size) < size,
        probe(hash, k + 1, size) == (probe(hash, k, size) + (k + 1) * (k + 1)) % size,
{
    let before = (hash as nat + sum_of_squares(k)) as int;
    let square = ((k + 1) * (k + 1)) as int;
    assert(sum_of_squares(k + 1) == sum_of_squares(k) + (k + 1) * (k + 1));
    vstd::arithmetic::div_mod::lemma_add_mod_noop(before, square, size as int);
    vstd::arithmetic::div_mod::lemma_add_mod_noop(
        (before % size as int) as int,
        square,
        size as int,
    );
    vstd::arithmetic::div_mod::lemma_mod_twice(before, size as int);
}

/// The slot after `offset`, at the distance of the square of `step`.
fn next_offset(offset: usize, step: u128, size: usize, Ghost(hash): Ghost<u64>) -> (next: usize)
    requires
        0 < size <= isize::MAX,
        step >= 1,
        offset == probe(hash, (step - 1) as nat, size as nat),
    ensures
        next == probe(hash, step as nat, size as nat),
        next < size,
{
    // the square, up to multiples of the size
    let wide: u128 = size as u128;
    let rest: u128 = step % wide;
    proof {
        lemma_probe_step(hash, (step - 1) as nat, size as nat);
        assert(rest * rest <= 0x7fff_ffff_ffff_ffff * 0x7fff_ffff_ffff_ffff) by (nonlinear_arith)
            requires
                rest <= 0x7fff_ffff_ffff_ffff,
        ;
        let (o, s, r, n) = (offset as int, step as int, rest as int, size as int);
        vstd::arithmetic::div_mod::lemma_mul_mod_noop(s, s, n);
        vstd::arithmetic::div_mod::lemma_add_mod_noop(o, s * s, n);
        vstd::arithmetic::div_mod::lemma_add_mod_noop(o, r * r, n);
    }
    ((offset as u128 + rest * rest) % wide) as usize
}

/// The try that finds a slot for a tile, and those before it that do not.
pub proof fn lemma_insertion_try(table: TableView, id: TileId, k: nat)
    ensures
        match table.insertion_try(id, k) {
            Some(j) => k <= j < probe_limit(table.slots.len()) && table.admits(id, j) && (forall|
                i: nat,
            |
                k <= i < j ==> !#[trigger] table.admits(id, i)),
            None => forall|i: nat|
                k <= i < probe_limit(table.slots.len()) ==> !#[trigger] table.admits(id, i),
        },
    decreases probe_limit(table.slots.len()) - k,
{
    if k < probe_limit(table.slots.len()) && !table.admits(id, k) {
        lemma_insertion_try(table, id, k + 1);
    }
}

/// A tile always finds a slot: after as many tries as there are slots the same slot comes up twice
/// in a row, and is taken over if it is not free.
pub proof fn law_there_is_room(table: TableView, id: TileId)
    requires
        table.slots.len() > 0,
    ensures
        table.has_room(id),
{
    let size = table.slots.len();
    lemma_insertion_try(table, id, 0);
    let before = (id.hashed() as nat + sum_of_squares((size - 1) as nat)) as int;
    assert(sum_of_squares(size) == sum_of_squares((size - 1) as nat) + size * size);
    vstd::arithmetic::div_mod::lemma_mod_multiples_vanish(size as int, before, size as int);
    assert(probe(id.hashed(), size, size) == probe(id.hashed(), (size - 1) as nat, size));
    assert(table.admits(id, size));
}

impl TileHashTable {
    #[verifier::type_invariant]
    spec fn sizes_agree(self) -> bool {
        &&& self.table@.len() == self.size
        &&& self.hash_entry_copied@.len() == self.size
        &&& self.size <= isize::MAX
    }

    /// A table with `size` free slots.
    pub fn new(size: usize) -> (table: Self)
        requires
            size <= isize::MAX,
        ensures
            table@.slots == Seq::new(size as nat, |i: int| None::<usize>),
            table@.copied == Seq::new(size as nat, |i: int| false),
    {
        let mut table: Vec<Option<usize>> = Vec::new();
        let mut i: usize = 0;
        while i < size
            invariant
                i <= size,
                table@.len() == i,
                forall|k: int| 0 <= k < i ==> #[trigger] table@[k] is None,
            decreases size - i,
        {
            table.push(None);
            i = i + 1;
        }
        let hash_entry_copied: Vec<bool> = vec![false; size];
        let new = TileHashTable { size, table, hash_entry_copied };
        assert(new@.slots =~= Seq::new(size as nat, |i: int| None::<usize>));
        assert(new@.copied =~= Seq::new(size as nat, |i: int| false));
        new
    }

    /// Puts a tile into the first slot that is found for it.
    pub fn insert(&mut self, tile: &TextureTile)
        requires
            old(self)@.slots.len() > 0,
        ensures
            final(self)@ == old(self)@.inserted(tile.tile_id, tile.index),
    {
        proof {
            use_type_invariant(&*self);
            law_there_is_room(self@, tile.tile_id);
        }
        let hash: u64 = tile.tile_id.hash();
        let limit: u128 = 6 * self.size as u128;
        let mut hash_offset: usize = (hash % self.size as u64) as usize;
        let mut step: u128 = 1;
        let mut current: Option<usize> = None;
        let ghost before = self@;
        let ghost id = tile.tile_id;
        while step <= limit
            invariant
                self@ == before,
                before == old(self)@,
                id == tile.tile_id,
                hash == id.hashed(),
                0 < self.size <= isize::MAX,
                self.table@.len() == self.size,
                limit == probe_limit(self.size as nat),
                1 <= step <= limit + 1,
                hash_offset == probe(hash, (step - 1) as nat, self.size as nat),
                hash_offset < self.size,
                current == (if step == 1 {
                    None
                } else {
                    before.entry(id, (step - 2) as nat)
                }),
                before.has_room(id),
                before.insertion_try(id, 0) == before.insertion_try(id, (step - 1) as nat),
            decreases limit + 1 - step,
        {
            // attempt to insert the tile at the offset
            let entry: Option<usize> = self.table[hash_offset];
            assert(entry == before.entry(id, (step - 1) as nat));
            let admitted: bool = match (entry, current) {
                (None, _) => true,
                (Some(e), Some(c)) => e == c,
                (Some(e), None) => false,
            };
            if admitted {
                proof {
                    use_type_invariant(&*self);
                }
                self.table[hash_offset] = Some(tile.index);
                assert(self@ == before.inserted(id, tile.index));
                return;
            }
            // resolve the collision
            hash_offset = next_offset(hash_offset, step, self.size, Ghost(hash));
            step = step + 1;
            current = entry;
        }
    }

    /// The texels of the tile with the identity, if the tile is found. It is then no longer
    /// marked.
    pub fn look_up(&self, tile_id: TileId, tiles: &mut Vec<TextureTile>) -> (texels: Option<
        Range<usize>,
    >)
        requires
            self@.slots.len() > 0,
            self@.holds_below(old(tiles)@.len()),
        ensures
            final(tiles)@ == after_look_up(old(tiles)@, self@.found(old(tiles)@, tile_id)),
            match self@.found(old(tiles)@, tile_id) {
                Some(index) => index < old(tiles)@.len() && texels == Some(
                    old(tiles)@[index as int].texels,
                ),
                None => texels is None,
            },
    {
        proof {
            use_type_invariant(self);
        }
        let hash: u64 = tile_id.hash();
        let limit: u128 = 6 * self.size as u128;
        let mut hash_offset: usize = (hash % self.size as u64) as usize;
        let mut step: u128 = 1;
        while step <= limit
            invariant
                tiles@ == old(tiles)@,
                hash == tile_id.hashed(),
                0 < self.size <= isize::MAX,
                self.table@.len() == self.size,
                self@.holds_below(old(tiles)@.len()),
                limit == probe_limit(self.size as nat),
                1 <= step <= limit + 1,
                hash_offset == probe(hash, (step - 1) as nat, self.size as nat),
                hash_offset < self.size,
                self@.found(tiles@, tile_id) == self@.search(tiles@, tile_id, (step - 1) as nat),
            decreases limit + 1 - step,
        {
            let entry: Option<usize> = self.table[hash_offset];
            assert(entry == self@.entry(tile_id, (step - 1) as nat));
            match entry {
                None => {
                    return None;
                },
                Some(index) => {
                    assert(self@.slots[hash_offset as int] == Some(index));
                    if tiles[index].tile_id == tile_id {
                        // the tile was hit
                        tiles[index].marked = false;
                        let texels: Range<usize> = Range {
                            start: tiles[index].texels.start,
                            end: tiles[index].texels.end,
                        };
                        assert(tiles@ =~= with_mark(old(tiles)@, index as int, false));
                        return Some(texels);
                    }
                    // resolve the collision
                    hash_offset = next_offset(hash_offset, step, self.size, Ghost(hash));
                    step = step + 1;
                },
            }
        }
        None
    }

    /// Goes through the hash table and marks each tile in it.
    pub fn mark_entries(&self, tiles: &mut Vec<TextureTile>)
        requires
            self@.holds_below(old(tiles)@.len()),
        ensures
            final(tiles)@ == self@.marked(old(tiles)@, self@.slots.len() as int),
    {
        proof {
            use_type_invariant(self);
        }
        let mut i: usize = 0;
        let count: usize = tiles.len();
        assert(tiles@ =~= self@.marked(old(tiles)@, 0));
        while i < self.size
            invariant
                i <= self.size == self.table@.len(),
                self@.holds_below(old(tiles)@.len()),
                count == old(tiles)@.len(),
                tiles@ == self@.marked(old(tiles)@, i as int),
            decreases self.size - i,
        {
            let ghost before = tiles@;
            let ghost front = self@.slots.take(i as int);
            let ghost longer = self@.slots.take(i + 1);
            proof {
                assert(longer =~= front.push(self@.slots[i as int]));
                lemma_contains_push(front, self@.slots[i as int]);
            }
            match self.table[i] {
                None => {},
                Some(index) => {
                    assert(self@.slots[i as int] == Some(index));
                    tiles[index].marked = true;
                    assert(tiles@ =~= with_mark(before, index as int, true));
                },
            }
            assert(tiles@ =~= self@.marked(old(tiles)@, i + 1));
            i = i + 1;
        }
    }

    /// Whether the table holds a tile that is marked.
    fn any_marked(&self, tiles: &Vec<TextureTile>) -> (any: bool)
        requires
            self@.holds_below(tiles@.len()),
        ensures
            any == self@.has_marked(tiles@),
    {
        proof {
            use_type_invariant(self);
        }
        let mut i: usize = 0;
        while i < self.size
            invariant
                i <= self.size == self.table@.len(),
                self@.holds_below(tiles@.len()),
                forall|k: int| 0 <= k < i ==> !#[trigger] self@.is_marked(tiles@, k),
            decreases self.size - i,
        {
            if let Some(index) = self.table[i] {
                assert(self@.slots[i as int] == Some(index));
                if tiles[index].marked {
                    assert(self@.is_marked(tiles@, i as int));
                    return true;
                }
            }
            i = i + 1;
        }
        false
    }

    /// Copies a subset of the tiles to the new hash table, leaving a number of others to be freed.
    pub fn copy_active(&mut self, dest: &mut TileHashTable, tiles: &Vec<TextureTile>)
        requires
            old(self)@.holds_below(tiles@.len()),
            old(dest)@.slots.len() > 0,
        ensures
            final(self)@ == old(self)@.after_copy(tiles@),
            final(dest)@ == old(self)@.copy_to(tiles@, old(dest)@),
    {
        proof {
            use_type_invariant(&*self);
        }
        let ghost start = self@;
        let ghost dest_start = dest@;
        // where no tile is marked, those in the first half of the slots are left to be freed
        let first: usize = if self.any_marked(tiles) {
            0
        } else {
            self.size / 2
        };
        // insert unmarked entries from the hash table into the new one
        let mut i: usize = 0;
        while i < self.size
            invariant
                i <= self.size == self.table@.len(),
                self.size == self.hash_entry_copied@.len(),
                self@.slots == start.slots,
                start.holds_below(tiles@.len()),
                first == (if start.has_marked(tiles@) {
                    0
                } else {
                    self.size as int / 2
                }),
                dest@.slots.len() > 0,
                forall|k: int|
                    0 <= k < i ==> #[trigger] self@.copied[k] == start.goes_over(tiles@, k),
                dest@ == start.copy_of(tiles@, dest_start, i as nat),
            decreases self.size - i,
        {
            let mut copied: bool = false;
            if let Some(index) = self.table[i] {
                assert(start.slots[i as int] == Some(index));
                // add the entry to the new table if unmarked
                let tile: &TextureTile = &tiles[index];
                if !tile.marked && i >= first {
                    dest.insert(tile);
                    copied = true;
                }
            }
            assert(copied == start.goes_over(tiles@, i as int));
            proof {
                use_type_invariant(&*self);
            }
            let ghost before = self@.copied;
            self.hash_entry_copied[i] = copied;
            assert(self@.copied =~= before.update(i as int, copied));
            i = i + 1;
        }
        assert(self@.copied =~= start.after_copy(tiles@).copied);
    }

    /// Frees all slots, and returns the tiles that were not copied.
    pub fn reclaim_uncopied(&mut self, returned: &mut Vec<usize>)
        ensures
            final(self)@ == old(self)@.cleared(),
            final(returned)@ == old(returned)@ + old(self)@.uncopied(old(self)@.slots.len()),
    {
        proof {
            use_type_invariant(&*self);
        }
        let ghost start = self@;
        let mut i: usize = 0;
        assert(returned@ =~= old(returned)@ + start.uncopied(0));
        while i < self.size
            invariant
                i <= self.size == self.table@.len(),
                self.size == self.hash_entry_copied@.len(),
                start.slots.len() == self.size,
                self@.copied == start.copied,
                forall|k: int| 0 <= k < i ==> #[trigger] self@.slots[k] is None,
                forall|k: int|
                    i <= k < self.size ==> #[trigger] self@.slots[k] == start.slots[k],
                returned@ == old(returned)@ + start.uncopied(i as nat),
            decreases self.size - i,
        {
            proof {
                use_type_invariant(&*self);
            }
            let entry: Option<usize> = self.table[i];
            assert(self@.slots[i as int] == start.slots[i as int]);
            match entry {
                None => {},
                Some(index) => {
                    if !self.hash_entry_copied[i] {
                        returned.push(index);
                    }
                    self.table[i] = None;
                },
            }
            i = i + 1;
            assert(returned@ =~= old(returned)@ + start.uncopied(i as nat));
        }
        assert(self@.slots =~= start.cleared().slots);
    }
}

pub proof fn lemma_contains_push<A>(front: Seq<A>, last: A)
    ensures
        forall|a: A| #[trigger] front.push(last).contains(a) <==> front.contains(a) || a == last,
{
    assert forall|a: A| #[trigger] front.push(last).contains(a) <==> front.contains(a) || a
        == last by {
        if front.contains(a) {
            let i = choose|i: int| 0 <= i < front.len() && front[i] == a;
            assert(front.push(last)[i] == a);
        }
        if a == last {
            assert(front.push(last)[front.len() as int] == a);
        }
    }
}

} // verus!
