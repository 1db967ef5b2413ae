//! The frames that hold page tables, found by their index.

use vstd::prelude::*;
use crate::frame::Frame;
use crate::paging::page::Page;
use crate::paging::table::{PageTable, PageTableLevel};

verus! {

/// The tables of one level, each in the frame that was allocated for it.
/// A frame index is turned into a table here and nowhere else.
pub struct TableArena<L: PageTableLevel> {
    frames: Vec<usize>,
    tables: Vec<PageTable<L>>,
}

impl<L: PageTableLevel> TableArena<L> {
    /// No frame holds two tables.
    pub closed spec fn wf(&self) -> bool {
        &&& self.frames.len() == self.tables.len()
        &&& forall|i: int, j: int|
            0 <= i < j < self.frames.len() ==> self.frames[i] != self.frames[j]
        &&& forall|i: int|
            0 <= i < self.frames.len() ==> #[trigger] self.frames[i] <= crate::frame::max_frame_idx()
    }

    /// The number of tables that the arena holds.
    pub closed spec fn count(&self) -> nat {
        self.frames.len() as nat
    }

    /// The frame of the table in slot `slot`, by the order in which the tables came.
    pub closed spec fn frame_at(&self, slot: int) -> int {
        self.frames[slot] as int
    }

    /// Each slot holds the table of its frame, and each table has a slot.
    pub proof fn lemma_slots(&self)
        requires
            self.wf(),
        ensures
            forall|slot: int|
                0 <= slot < self.count() ==> self@.contains_key(#[trigger] self.frame_at(slot)),
            forall|f: int| #[trigger]
                self@.contains_key(f) ==> exists|slot: int|
                    0 <= slot < self.count() && self.frame_at(slot) == f,
    {
        assert forall|slot: int| 0 <= slot < self.count() implies self@.contains_key(
            #[trigger] self.frame_at(slot),
        ) by {
            self.lemma_slot(slot);
        }
        assert forall|f: int| #[trigger] self@.contains_key(f) implies exists|slot: int|
            0 <= slot < self.count() && self.frame_at(slot) == f by {
            let slot = self.slot_of(f);
            assert(0 <= slot < self.count() && self.frame_at(slot) == f);
        }
    }

    /// The number of tables that the arena holds.
    pub fn len(&self) -> (n: usize)
        requires
            self.wf(),
        ensures
            n == self.count(),
    {
        self.frames.len()
    }

    /// The frame of the table in slot `slot`.
    pub fn frame(&self, slot: usize) -> (f: Frame)
        requires
            self.wf(),
            slot < self.count(),
        ensures
            f.index() == self.frame_at(slot as int),
    {
        Frame::from_idx(self.frames[slot])
    }

    /// The table in slot `slot`.
    pub fn table(&self, slot: usize) -> (t: &PageTable<L>)
        requires
            self.wf(),
            slot < self.count(),
        ensures
            self@.contains_key(self.frame_at(slot as int)),
            t@ == self@[self.frame_at(slot as int)],
    {
        proof {
            self.lemma_slot(slot as int);
        }
        &self.tables[slot]
    }

    spec fn slot_of(&self, f: int) -> int {
        choose|i: int| 0 <= i < self.frames.len() && self.frames[i] == f
    }

    /// The entries of each table, by the index of the frame that holds it.
    pub closed spec fn view(&self) -> Map<int, Seq<Page>> {
        Map::new(
            |f: int| exists|i: int| 0 <= i < self.frames.len() && self.frames[i] == f,
            |f: int| self.tables[self.slot_of(f)]@,
        )
    }

    proof fn lemma_slot(&self, i: int)
        requires
            self.wf(),
            0 <= i < self.frames.len(),
        ensures
            self@.contains_key(self.frames[i] as int),
            self.slot_of(self.frames[i] as int) == i,
            self@[self.frames[i] as int] == self.tables[i]@,
    {
    }

    /// Every table of the arena has 512 entries.
    pub proof fn lemma_tables(&self)
        requires
            self.wf(),
        ensures
            forall|f: int| #[trigger] self@.contains_key(f) ==> self@[f].len() == 512,
    {
        assert forall|f: int| #[trigger] self@.contains_key(f) implies self@[f].len() == 512 by {
            self.tables[self.slot_of(f)].lemma_len();
        }
    }

    /// An arena that holds no table.
    pub fn new() -> (a: Self)
        ensures
            a.wf(),
            a@ == Map::<int, Seq<Page>>::empty(),
    {
        let a = Self { frames: Vec::new(), tables: Vec::new() };
        assert(a@ =~= Map::<int, Seq<Page>>::empty());
        a
    }

    fn find(&self, frame: usize) -> (r: Option<usize>)
        requires
            self.wf(),
        ensures
            match r {
                Some(i) => i < self.frames.len() && self.frames[i as int] == frame,
                None => !self@.contains_key(frame as int),
            },
    {
        let mut i: usize = 0;
        while i < self.frames.len()
            invariant
                i <= self.frames.len(),
                forall|j: int| 0 <= j < i ==> self.frames[j] != frame,
            decreases self.frames.len() - i,
        {
            if self.frames[i] == frame {
                return Some(i);
            }
            i += 1;
        }
        None
    }

    /// The table in `frame`, if the arena holds one there.
    pub fn get(&self, frame: Frame) -> (t: Option<&PageTable<L>>)
        requires
            self.wf(),
        ensures
            match t {
                Some(table) => self@.contains_key(frame.index() as int) && table@
                    == self@[frame.index() as int],
                None => !self@.contains_key(frame.index() as int),
            },
    {
        match self.find(frame.idx()) {
            Some(i) => {
                proof {
                    self.lemma_slot(i as int);
                }
                Some(&self.tables[i])
            },
            None => None,
        }
    }

    /// The table in `frame`, to be changed in place.
    pub fn get_mut(&mut self, frame: Frame) -> (t: Option<&mut PageTable<L>>)
        requires
            old(self).wf(),
        ensures
            match t {
                Some(table) => {
                    &&& old(self)@.contains_key(frame.index() as int)
                    &&& table@ == old(self)@[frame.index() as int]
                    &&& final(self).wf()
                    &&& final(self)@ == old(self)@.insert(frame.index() as int, final(table)@)
                    &&& final(self).count() == old(self).count()
                    &&& forall|slot: int|
                        0 <= slot < old(self).count() ==> #[trigger] final(self).frame_at(slot)
                            == old(self).frame_at(slot)
                },
                None => !old(self)@.contains_key(frame.index() as int) && *final(self) == *old(
                    self,
                ),
            },
    {
        match self.find(frame.idx()) {
            Some(i) => {
                proof {
                    self.lemma_slot(i as int);
                }
                let table = &mut self.tables[i];
                Some(table)
            },
            None => None,
        }
    }

    /// Puts `table` into `frame`, which held none.
    pub fn insert(&mut self, frame: Frame, table: PageTable<L>)
        requires
            old(self).wf(),
            !old(self)@.contains_key(frame.index() as int),
        ensures
            final(self).wf(),
            final(self)@ == old(self)@.insert(frame.index() as int, table@),
            final(self).count() == old(self).count() + 1,
            final(self).frame_at(old(self).count() as int) == frame.index(),
            forall|slot: int|
                0 <= slot < old(self).count() ==> #[trigger] final(self).frame_at(slot) == old(
                    self,
                ).frame_at(slot),
    {
        proof {
            use_type_invariant(frame);
        }
        self.frames.push(frame.idx());
        self.tables.push(table);
        proof {
            let n = old(self).frames.len() as int;
            assert forall|i: int, j: int| 0 <= i < j < self.frames.len() implies self.frames[i]
                != self.frames[j] by {
                if j == n {
                    assert(old(self).frames[i] == self.frames[i]);
                }
            }
            assert forall|f: int| #[trigger] self@.contains_key(f) implies self@[f] == old(
                self,
            )@.insert(frame.index() as int, table@)[f] by {
                let i = self.slot_of(f);
                self.lemma_slot(i);
                if i < n {
                    old(self).lemma_slot(i);
                }
            }
            assert forall|f: int| #[trigger]
                old(self)@.insert(frame.index() as int, table@).contains_key(
                    f,
                ) implies self@.contains_key(f) by {
                if f == frame.index() {
                    self.lemma_slot(n);
                } else {
                    let i = old(self).slot_of(f);
                    self.lemma_slot(i);
                }
            }
            assert(self@ =~= old(self)@.insert(frame.index() as int, table@));
        }
    }
}

} // verus!
