//! A bounded number of open files, one for each texture.
use std::collections::HashMap;
use vstd::prelude::*;

verus! {

broadcast use vstd::std_specs::hash::group_hash_axioms;

/// How many files are kept open at a time.
pub const MAX_OPENED_FILES: usize = 1024;

/// An open file, the texture that it is the file of, and its slot.
pub struct EntryView<F> {
    pub file: F,
    pub tex_id: u32,
    pub index: usize,
}

/// An open file that was handed out.
pub struct FdEntry<F> {
    file: F,
    tex_id: u32,
    index: usize,
}

impl<F> View for FdEntry<F> {
    type V = EntryView<F>;

    closed spec fn view(&self) -> EntryView<F> {
        EntryView { file: self.file, tex_id: self.tex_id, index: self.index }
    }
}

impl<F> std::ops::Deref for FdEntry<F> {
    type Target = F;

    fn deref(&self) -> (file: &F)
        ensures
            *file == self@.file,
    {
        &self.file
    }
}

impl<F> FdEntry<F> {
    /// The file, to read from or to write to.
    pub fn file_mut(&mut self) -> (file: &mut F)
        ensures
            *file == old(self)@.file,
            final(self)@ == (EntryView { file: *final(file), ..old(self)@ }),
    {
        &mut self.file
    }
}

/// What a cache of files holds: in each slot a file, if one is open and not handed out; the slots
/// that may be taken for another file, the last first; and the slot of each texture's file.
pub struct FdView<F> {
    pub files: Seq<Option<EntryView<F>>>,
    pub free_list: Seq<usize>,
    pub in_used: Map<u32, usize>,
}

impl<F> FdView<F> {
    pub open spec fn empty(max_opened_files: nat) -> FdView<F> {
        FdView {
            files: Seq::new(max_opened_files, |i: int| None::<EntryView<F>>),
            free_list: Seq::new(max_opened_files, |i: int| i as usize),
            in_used: Map::empty(),
        }
    }

    /// Whether the file of a texture, if it has one, can be handed out.
    pub open spec fn can_hand_out(self, tex_id: u32) -> bool {
        self.in_used.contains_key(tex_id) ==> self.in_used[tex_id] < self.files.len()
            && self.files[self.in_used[tex_id] as int] is Some
    }

    /// The file of a texture, if it has one, and what is left.
    pub open spec fn handed_out(self, tex_id: u32) -> (Option<EntryView<F>>, FdView<F>) {
        if self.in_used.contains_key(tex_id) {
            let i = self.in_used[tex_id] as int;
            (self.files[i], FdView { files: self.files.update(i, None), ..self })
        } else {
            (None, self)
        }
    }

    /// Whether there is a slot for a file.
    pub open spec fn has_slot(self) -> bool {
        self.free_list.len() > 0 && self.free_list.last() < self.files.len()
    }

    /// The file that was just opened for a texture, and what is left: the file has the last of the
    /// slots that may be taken, and the file that was there is closed.
    pub open spec fn opened(self, tex_id: u32, file: F) -> (EntryView<F>, FdView<F>) {
        let index = self.free_list.last();
        let in_used = self.in_used.insert(tex_id, index);
        (
            EntryView { file, tex_id, index },
            FdView {
                files: self.files.update(index as int, None),
                free_list: self.free_list.drop_last(),
                in_used: match self.files[index as int] {
                    Some(closed) => in_used.remove(closed.tex_id),
                    None => in_used,
                },
            },
        )
    }

    /// What there is after a file was given back.
    pub open spec fn given_back(self, entry: EntryView<F>) -> FdView<F> {
        FdView {
            files: self.files.update(entry.index as int, Some(entry)),
            free_list: self.free_list.push(entry.index),
            ..self
        }
    }

    /// Whether slots and textures agree, and no file is handed out but for that of `out`.
    pub open spec fn agrees_but_for(self, out: Option<u32>) -> bool {
        &&& forall|tex_id: u32| #[trigger]
            self.in_used.contains_key(tex_id) ==> self.in_used[tex_id] < self.files.len() && (
            match self.files[self.in_used[tex_id] as int] {
                Some(entry) => entry.tex_id == tex_id && entry.index == self.in_used[tex_id]
                    && out != Some(tex_id),
                None => out == Some(tex_id),
            })
        &&& forall|i: int|
            0 <= i < self.files.len() ==> (#[trigger] self.files[i] matches Some(entry)
                ==> self.in_used.contains_key(entry.tex_id) && self.in_used[entry.tex_id] == i)
        &&& forall|i: int|
            0 <= i < self.free_list.len() ==> #[trigger] self.free_list[i] < self.files.len()
    }

    /// Whether no file is handed out.
    pub open spec fn is_settled(self) -> bool {
        &&& self.agrees_but_for(None)
        &&& self.files.len() > 0 ==> self.free_list.len() > 0
    }

    /// Whether one file is handed out.
    pub open spec fn has_lent(self, entry: EntryView<F>) -> bool {
        &&& self.agrees_but_for(Some(entry.tex_id))
        &&& self.in_used.contains_key(entry.tex_id)
        &&& self.in_used[entry.tex_id] == entry.index
    }
}

/// The files in their slots, apart from how they are held.
pub open spec fn entry_views<F>(files: Seq<Option<FdEntry<F>>>) -> Seq<Option<EntryView<F>>> {
    Seq::new(
        files.len(),
        |i: int|
            match files[i] {
                Some(entry) => Some(entry@),
                None => None,
            },
    )
}

/// A cache of open files.
pub struct FdCache<F> {
    files: Vec<Option<FdEntry<F>>>,
    free_list: Vec<usize>,
    in_used: HashMap<u32, usize>,
}

impl<F> View for FdCache<F> {
    type V = FdView<F>;

    closed spec fn view(&self) -> FdView<F> {
        FdView {
            files: entry_views(self.files@),
            free_list: self.free_list@,
            in_used: self.in_used@,
        }
    }
}

impl<F> FdCache<F> {
    /// A cache that keeps at most `max_opened_files` files open.
    pub fn new(max_opened_files: usize) -> (cache: Self)
        ensures
            cache@ == FdView::<F>::empty(max_opened_files as nat),
    {
        let mut files: Vec<Option<FdEntry<F>>> = Vec::new();
        let mut free_list: Vec<usize> = Vec::new();
        let mut i: usize = 0;
        while i < max_opened_files
            invariant
                i <= max_opened_files,
                files@.len() == i,
                free_list@.len() == i,
                forall|k: int| 0 <= k < i ==> #[trigger] files@[k] is None,
                forall|k: int| 0 <= k < i ==> #[trigger] free_list@[k] == k,
            decreases max_opened_files - i,
        {
            files.push(None);
            free_list.push(i);
            i = i + 1;
        }
        let cache = FdCache { files, free_list, in_used: HashMap::new() };
        proof {
            let empty = FdView::<F>::empty(max_opened_files as nat);
            assert(cache@.files =~= empty.files);
            assert(cache@.free_list =~= empty.free_list);
        }
        cache
    }

    /// Whether the file of a texture, if it has one, can be handed out.
    pub fn can_hand_out(&self, tex_id: u32) -> (can: bool)
        ensures
            can == self@.can_hand_out(tex_id),
    {
        match self.in_used.get(&tex_id) {
            Some(index) => *index < self.files.len() && self.files[*index].is_some(),
            None => true,
        }
    }

    /// Whether there is a slot for a file.
    pub fn has_slot(&self) -> (has: bool)
        ensures
            has == self@.has_slot(),
    {
        let count: usize = self.free_list.len();
        count > 0 && self.free_list[count - 1] < self.files.len()
    }

    /// Hands out the open file of a texture. If the texture has none, its file has to be opened.
    pub fn look_up(&mut self, tex_id: u32) -> (entry: Option<FdEntry<F>>)
        requires
            old(self)@.can_hand_out(tex_id),
        ensures
            final(self)@ == old(self)@.handed_out(tex_id).1,
            match entry {
                Some(e) => old(self)@.handed_out(tex_id).0 == Some(e@),
                None => old(self)@.handed_out(tex_id).0 is None,
            },
    {
        match self.in_used.get(&tex_id) {
            Some(index) => {
                let index: usize = *index;
                let mut entry: Option<FdEntry<F>> = None;
                std::mem::swap(&mut entry, &mut self.files[index]);
                assert(self@.files =~= old(self)@.handed_out(tex_id).1.files);
                entry
            },
            None => None,
        }
    }

    /// Takes a slot for the file that was just opened for a texture, and hands the file out.
    pub fn open(&mut self, tex_id: u32, file: F) -> (entry: FdEntry<F>)
        requires
            old(self)@.has_slot(),
        ensures
            (entry@, final(self)@) == old(self)@.opened(tex_id, file),
    {
        let index: usize = self.free_list.pop().unwrap();
        self.in_used.insert(tex_id, index);
        let mut closed: Option<FdEntry<F>> = None;
        std::mem::swap(&mut closed, &mut self.files[index]);
        if let Some(entry) = closed {
            self.in_used.remove(&entry.tex_id);
        }
        assert(self@.files =~= old(self)@.opened(tex_id, file).1.files);
        FdEntry { file, tex_id, index }
    }

    /// Gives a file back. It stays open until its slot is taken.
    pub fn recycle(&mut self, entry: FdEntry<F>)
        requires
            entry@.index < old(self)@.files.len(),
        ensures
            final(self)@ == old(self)@.given_back(entry@),
    {
        let index: usize = entry.index;
        let ghost view = entry@;
        self.free_list.push(index);
        self.files[index] = Some(entry);
        assert(self@.files =~= old(self)@.given_back(view).files);
    }
}

/// A new cache has no file handed out.
pub proof fn law_new_is_settled<F>(max_opened_files: nat)
    requires
        max_opened_files <= usize::MAX,
    ensures
        FdView::<F>::empty(max_opened_files).is_settled(),
{
}

/// The file that is handed out is that of the texture. Files are handed out one at a time.
pub proof fn law_look_up_gives_own_file<F>(files: FdView<F>, tex_id: u32)
    requires
        files.is_settled(),
    ensures
        files.can_hand_out(tex_id),
        files.in_used.contains_key(tex_id) <==> files.handed_out(tex_id).0 is Some,
        files.handed_out(tex_id).0 matches Some(entry) ==> entry.tex_id == tex_id
            && files.handed_out(tex_id).1.has_lent(entry),
{
    let (entry, left) = files.handed_out(tex_id);
    if files.in_used.contains_key(tex_id) {
        let i = files.in_used[tex_id] as int;
        assert forall|other: u32| #[trigger] left.in_used.contains_key(other) implies
            left.in_used[other] < left.files.len() && (match left.files[left.in_used[other] as int] {
            Some(entry) => entry.tex_id == other && entry.index == left.in_used[other] && other
                != tex_id,
            None => other == tex_id,
        }) by {
            assert(files.in_used.contains_key(other));
            if files.in_used[other] == i {
                assert(files.files[i] is Some);
            }
        }
    }
}

/// A file that has to be opened finds a slot, and is then the file of its texture.
pub proof fn law_opened_file_is_own<F>(files: FdView<F>, tex_id: u32, file: F)
    requires
        files.is_settled(),
        files.files.len() > 0,
        !files.in_used.contains_key(tex_id),
    ensures
        files.has_slot(),
        files.opened(tex_id, file).0.tex_id == tex_id,
        files.opened(tex_id, file).0.file == file,
        files.opened(tex_id, file).1.has_lent(files.opened(tex_id, file).0),
{
    let last = files.free_list.len() - 1;
    assert(files.free_list[last] < files.files.len());
    let (entry, left) = files.opened(tex_id, file);
    let index = entry.index as int;
    assert forall|other: u32| #[trigger] left.in_used.contains_key(other) implies
        left.in_used[other] < left.files.len() && (match left.files[left.in_used[other] as int] {
        Some(entry) => entry.tex_id == other && entry.index == left.in_used[other] && other
            != tex_id,
        None => other == tex_id,
    }) by {
        if other != tex_id {
            assert(files.in_used.contains_key(other));
            if files.in_used[other] == index {
                assert(files.files[index] is Some);
            }
        }
    }
    assert forall|i: int| 0 <= i < left.files.len() implies (#[trigger] left.files[i] matches Some(
        entry,
    ) ==> left.in_used.contains_key(entry.tex_id) && left.in_used[entry.tex_id] == i) by {
        if i != index {
            assert(files.files[i] == left.files[i]);
            if let Some(closed) = files.files[index] {
                assert(files.in_used[closed.tex_id] == index);
            }
        }
    }
}

/// A file that was given back is handed out again when its texture is looked up next: it is not
/// opened twice.
pub proof fn law_recycled_file_is_found<F>(files: FdView<F>, entry: EntryView<F>)
    requires
        files.has_lent(entry),
    ensures
        files.given_back(entry).is_settled(),
        files.given_back(entry).handed_out(entry.tex_id).0 == Some(entry),
{
    let after = files.given_back(entry);
    let index = entry.index as int;
    assert forall|other: u32| #[trigger] after.in_used.contains_key(other) implies
        after.in_used[other] < after.files.len() && (match after.files[after.in_used[other] as int] {
        Some(entry) => entry.tex_id == other && entry.index == after.in_used[other],
        None => false,
    }) by {
        assert(files.in_used.contains_key(other));
        if files.in_used[other] == index {
            assert(files.files[index] is None) by {
                assert(files.in_used.contains_key(entry.tex_id));
            }
        }
    }
    assert forall|i: int| 0 <= i < after.free_list.len() implies #[trigger] after.free_list[i]
        < after.files.len() by {
        if i < files.free_list.len() {
            assert(files.free_list[i] == after.free_list[i]);
        }
    }
}

/// A new cache has as many slots as files may be open, all without a file and all to be taken, the
/// last first.
pub proof fn law_new_files<F>(max_opened_files: nat)
    requires
        max_opened_files <= usize::MAX,
    ensures
        ({
            let files = FdView::<F>::empty(max_opened_files);
            &&& files.files.len() == max_opened_files
            &&& files.free_list.len() == max_opened_files
            &&& forall|i: int|
                0 <= i < max_opened_files ==> #[trigger] files.files[i] is None
                    && files.free_list[i] == i
            &&& forall|tex_id: u32| !#[trigger] files.in_used.contains_key(tex_id)
        }),
{
}

/// Looking a file up takes it out of its slot, and changes nothing else. Where the texture has no
/// slot, nothing changes.
pub proof fn law_look_up_takes_one<F>(files: FdView<F>, tex_id: u32, i: int)
    requires
        files.can_hand_out(tex_id),
        0 <= i < files.files.len(),
    ensures
        ({
            let (entry, left) = files.handed_out(tex_id);
            let is_there = files.in_used.contains_key(tex_id);
            &&& left.files.len() == files.files.len()
            &&& left.free_list == files.free_list
            &&& left.in_used == files.in_used
            &&& is_there && i == files.in_used[tex_id] ==> entry == files.files[i]
                && left.files[i] is None
            &&& !is_there || i != files.in_used[tex_id] ==> left.files[i] == files.files[i]
            &&& !is_there ==> entry is None
        }),
{
}

/// Opening a file takes the last of the slots that may be taken. It closes the file in that slot, if
/// there is one, and no other: every other texture keeps its slot and its file.
pub proof fn law_opening_closes_one<F>(files: FdView<F>, tex_id: u32, file: F, i: int, other: u32)
    requires
        files.is_settled(),
        !files.in_used.contains_key(tex_id),
        0 <= i < files.files.len(),
        other != tex_id,
    ensures
        ({
            let (entry, left) = files.opened(tex_id, file);
            let taken = files.free_list[files.free_list.len() - 1];
            &&& entry.index == taken
            &&& entry.tex_id == tex_id
            &&& entry.file == file
            &&& left.files.len() == files.files.len()
            &&& left.free_list == files.free_list.take(files.free_list.len() - 1)
            &&& i == taken ==> left.files[i] is None
            &&& i != taken ==> left.files[i] == files.files[i]
            &&& left.in_used.contains_key(tex_id) && left.in_used[tex_id] == taken
            &&& left.in_used.contains_key(other) <==> files.in_used.contains_key(other)
                && files.in_used[other] != taken
            &&& left.in_used.contains_key(other) ==> left.in_used[other] == files.in_used[other]
        }),
{
    let last = files.free_list.len() - 1;
    assert(files.free_list.len() > 0);
    assert(files.free_list[last] < files.files.len());
    assert(files.free_list.drop_last() =~= files.free_list.take(last));
    let taken = files.free_list[last] as int;
    if let Some(closed) = files.files[taken] {
        assert(files.in_used.contains_key(closed.tex_id));
    }
    if files.in_used.contains_key(other) && files.in_used[other] == taken {
        assert(files.files[taken] is Some);
    }
}

/// Giving a file back puts it into its slot, which may then be taken before the others. Nothing else
/// changes.
pub proof fn law_giving_back<F>(files: FdView<F>, entry: EntryView<F>, i: int)
    requires
        entry.index < files.files.len(),
        0 <= i < files.files.len(),
    ensures
        ({
            let after = files.given_back(entry);
            &&& after.files.len() == files.files.len()
            &&& after.files[i] == (if i == entry.index {
                Some(entry)
            } else {
                files.files[i]
            })
            &&& after.in_used == files.in_used
            &&& after.free_list.len() == files.free_list.len() + 1
            &&& after.free_list[files.free_list.len() as int] == entry.index
            &&& forall|k: int|
                0 <= k < files.free_list.len() ==> #[trigger] after.free_list[k]
                    == files.free_list[k]
        }),
{
}

/// When a file can be handed out, and when there is a slot for one: the texture has no file, or has
/// one in its slot; and the last of the slots that may be taken is one of the slots.
pub proof fn law_when_slots_serve<F>(files: FdView<F>, tex_id: u32)
    ensures
        files.can_hand_out(tex_id) <==> {
            ||| !files.in_used.contains_key(tex_id)
            ||| files.in_used[tex_id] < files.files.len()
                && files.files[files.in_used[tex_id] as int] is Some
        },
        files.has_slot() <==> files.free_list.len() > 0 && files.free_list[files.free_list.len()
            - 1] < files.files.len(),
{
}

} // verus!
