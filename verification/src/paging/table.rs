//! Tables of 512 entries, one type for each level of the hierarchy.

use vstd::prelude::*;
use std::marker::PhantomData;
use crate::paging::arena::TableArena;
use crate::paging::page::Page;

verus! {

/// A level of the page-table hierarchy.
pub trait PageTableLevel {

}

/// The level of the leaf tables, whose entries name mapped frames.
pub struct Level1;

impl PageTableLevel for Level1 {

}

/// The level of the tables whose entries name leaf tables.
pub struct Level2;

impl PageTableLevel for Level2 {

}

/// The level below the root.
pub struct Level3;

impl PageTableLevel for Level3 {

}

/// The level of the root table.
pub struct Level4;

impl PageTableLevel for Level4 {

}

/// Bits 39 to 47 of `addr`: the index into the root table.
pub open spec fn l4_index(addr: usize) -> int {
    (addr as int / 0x80_0000_0000) % 512
}

/// Bits 30 to 38 of `addr`: the index into a level-3 table.
pub open spec fn l3_index(addr: usize) -> int {
    (addr as int / 0x4000_0000) % 512
}

/// Bits 21 to 29 of `addr`: the index into a level-2 table.
pub open spec fn l2_index(addr: usize) -> int {
    (addr as int / 0x20_0000) % 512
}

/// Bits 12 to 20 of `addr`: the index into a leaf table.
pub open spec fn l1_index(addr: usize) -> int {
    (addr as int / 0x1000) % 512
}

/// A table of the given number of entries, all of them empty.
pub open spec fn empty_table() -> Seq<Page> {
    Seq::new(512, |i: int| Page::new_spec())
}

/// A table of one level of the hierarchy.
pub struct PageTable<L: PageTableLevel> {
    entries: [Page; 512],
    level: PhantomData<L>,
}

impl<L: PageTableLevel> PageTable<L> {
    /// The entries of the table, in order.
    pub closed spec fn view(&self) -> Seq<Page> {
        self.entries@
    }

    /// A table has 512 entries.
    pub proof fn lemma_len(&self)
        ensures
            self@.len() == 512,
    {
    }

    /// A table whose entries are all empty.
    pub fn new() -> (t: Self)
        ensures
            t@ == empty_table(),
    {
        let t = Self { entries: [Page::new();512], level: PhantomData };
        assert(t@ =~= empty_table());
        t
    }

    /// Empties every entry.
    pub fn init(&mut self) -> (r: &mut Self)
        ensures
            r@ == empty_table(),
            *final(self) == *final(r),
    {
        let mut i: usize = 0;
        while i < 512
            invariant
                i <= 512,
                forall|j: int| 0 <= j < i ==> (#[trigger] self.entries@[j]) == Page::new_spec(),
            decreases 512 - i,
        {
            let ghost prev = self.entries@;
            self.entries[i] = Page::new();
            assert(self.entries@ =~= prev.update(i as int, self.entries@[i as int]));
            assert(forall|j: int| 0 <= j < i ==> self.entries@[j] == prev[j]);
            assert(forall|j: int| 0 <= j < i ==> (#[trigger] prev[j]) == Page::new_spec());
            i += 1;
        }
        assert(self@ =~= empty_table());
        self
    }

    /// Entry `idx` of the table.
    pub fn entry(&self, idx: usize) -> (p: &Page)
        requires
            idx < 512,
        ensures
            *p == self@[idx as int],
    {
        &self.entries[idx]
    }

    fn entry_mut(&mut self, idx: usize) -> (p: &mut Page)
        requires
            idx < 512,
        ensures
            *p == old(self)@[idx as int],
            final(self)@ == old(self)@.update(idx as int, *final(p)),
    {
        &mut self.entries[idx]
    }
}

impl PageTable<Level4> {
    /// The entry for `addr`.
    pub fn get(&self, addr: usize) -> (p: &Page)
        ensures
            *p == self@[l4_index(addr)],
    {
        self.entry((((addr as u64) / 0x80_0000_0000u64) % 512) as usize)
    }

    /// The entry for `addr`, to be changed in place.
    pub fn get_mut(&mut self, addr: usize) -> (p: &mut Page)
        ensures
            *p == old(self)@[l4_index(addr)],
            final(self)@ == old(self)@.update(l4_index(addr), *final(p)),
    {
        self.entry_mut((((addr as u64) / 0x80_0000_0000u64) % 512) as usize)
    }

    /// The table that the entry for `addr` names, if `arena` holds it.
    pub fn next<'a>(&self, addr: usize, arena: &'a TableArena<Level3>) -> (t: Option<
        &'a PageTable<Level3>,
    >)
        requires
            arena.wf(),
        ensures
            match t {
                Some(table) => arena@.contains_key(self@[l4_index(addr)].frame_index())
                    && table@ == arena@[self@[l4_index(addr)].frame_index()],
                None => !arena@.contains_key(self@[l4_index(addr)].frame_index()),
            },
    {
        arena.get(self.get(addr).frame())
    }

    /// The table that the entry for `addr` names, to be changed in place.
    pub fn next_mut<'a>(&self, addr: usize, arena: &'a mut TableArena<Level3>) -> (t: Option<
        &'a mut PageTable<Level3>,
    >)
        requires
            old(arena).wf(),
        ensures
            match t {
                Some(table) => {
                    let f = self@[l4_index(addr)].frame_index();
                    &&& old(arena)@.contains_key(f)
                    &&& table@ == old(arena)@[f]
                    &&& final(arena).wf()
                    &&& final(arena)@ == old(arena)@.insert(f, final(table)@)
                },
                None => !old(arena)@.contains_key(self@[l4_index(addr)].frame_index())
                    && *final(arena) == *old(arena),
            },
    {
        arena.get_mut(self.get(addr).frame())
    }
}

impl PageTable<Level3> {
    /// The entry for `addr`.
    pub fn get(&self, addr: usize) -> (p: &Page)
        ensures
            *p == self@[l3_index(addr)],
    {
        self.entry((((addr as u64) / 0x4000_0000u64) % 512) as usize)
    }

    /// The entry for `addr`, to be changed in place.
    pub fn get_mut(&mut self, addr: usize) -> (p: &mut Page)
        ensures
            *p == old(self)@[l3_index(addr)],
            final(self)@ == old(self)@.update(l3_index(addr), *final(p)),
    {
        self.entry_mut((((addr as u64) / 0x4000_0000u64) % 512) as usize)
    }

    /// The table that the entry for `addr` names, if `arena` holds it.
    pub fn next<'a>(&self, addr: usize, arena: &'a TableArena<Level2>) -> (t: Option<
        &'a PageTable<Level2>,
    >)
        requires
            arena.wf(),
        ensures
            match t {
                Some(table) => arena@.contains_key(self@[l3_index(addr)].frame_index())
                    && table@ == arena@[self@[l3_index(addr)].frame_index()],
                None => !arena@.contains_key(self@[l3_index(addr)].frame_index()),
            },
    {
        arena.get(self.get(addr).frame())
    }

    /// The table that the entry for `addr` names, to be changed in place.
    pub fn next_mut<'a>(&self, addr: usize, arena: &'a mut TableArena<Level2>) -> (t: Option<
        &'a mut PageTable<Level2>,
    >)
        requires
            old(arena).wf(),
        ensures
            match t {
                Some(table) => {
                    let f = self@[l3_index(addr)].frame_index();
                    &&& old(arena)@.contains_key(f)
                    &&& table@ == old(arena)@[f]
                    &&& final(arena).wf()
                    &&& final(arena)@ == old(arena)@.insert(f, final(table)@)
                },
                None => !old(arena)@.contains_key(self@[l3_index(addr)].frame_index())
                    && *final(arena) == *old(arena),
            },
    {
        arena.get_mut(self.get(addr).frame())
    }
}

impl PageTable<Level2> {
    /// The entry for `addr`.
    pub fn get(&self, addr: usize) -> (p: &Page)
        ensures
            *p == self@[l2_index(addr)],
    {
        self.entry((((addr as u64) / 0x20_0000u64) % 512) as usize)
    }

    /// The entry for `addr`, to be changed in place.
    pub fn get_mut(&mut self, addr: usize) -> (p: &mut Page)
        ensures
            *p == old(self)@[l2_index(addr)],
            final(self)@ == old(self)@.update(l2_index(addr), *final(p)),
    {
        self.entry_mut((((addr as u64) / 0x20_0000u64) % 512) as usize)
    }

    /// The table that the entry for `addr` names, if `arena` holds it.
    pub fn next<'a>(&self, addr: usize, arena: &'a TableArena<Level1>) -> (t: Option<
        &'a PageTable<Level1>,
    >)
        requires
            arena.wf(),
        ensures
            match t {
                Some(table) => arena@.contains_key(self@[l2_index(addr)].frame_index())
                    && table@ == arena@[self@[l2_index(addr)].frame_index()],
                None => !arena@.contains_key(self@[l2_index(addr)].frame_index()),
            },
    {
        arena.get(self.get(addr).frame())
    }

    /// The table that the entry for `addr` names, to be changed in place.
    pub fn next_mut<'a>(&self, addr: usize, arena: &'a mut TableArena<Level1>) -> (t: Option<
        &'a mut PageTable<Level1>,
    >)
        requires
            old(arena).wf(),
        ensures
            match t {
                Some(table) => {
                    let f = self@[l2_index(addr)].frame_index();
                    &&& old(arena)@.contains_key(f)
                    &&& table@ == old(arena)@[f]
                    &&& final(arena).wf()
                    &&& final(arena)@ == old(arena)@.insert(f, final(table)@)
                },
                None => !old(arena)@.contains_key(self@[l2_index(addr)].frame_index())
                    && *final(arena) == *old(arena),
            },
    {
        arena.get_mut(self.get(addr).frame())
    }
}

impl PageTable<Level1> {
    /// The entry for `addr`.
    pub fn get(&self, addr: usize) -> (p: &Page)
        ensures
            *p == self@[l1_index(addr)],
    {
        self.entry((((addr as u64) / 0x1000u64) % 512) as usize)
    }

    /// The entry for `addr`, to be changed in place.
    pub fn get_mut(&mut self, addr: usize) -> (p: &mut Page)
        ensures
            *p == old(self)@[l1_index(addr)],
            final(self)@ == old(self)@.update(l1_index(addr), *final(p)),
    {
        self.entry_mut((((addr as u64) / 0x1000u64) % 512) as usize)
    }
}

} // verus!
