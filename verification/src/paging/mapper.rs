//! The mapper: it walks the hierarchy for a virtual address, and makes the
//! tables of a walk where they are missing.

use vstd::prelude::*;
use crate::frame::Frame;
use crate::frame_alloc::{AllocError, FrameAlloc};
use crate::paging::arena::TableArena;
use crate::paging::page::{Page, PageFlags};
use crate::paging::table::{Level1, Level2, Level3, Level4, PageTable};
use crate::paging::tables::{path_of, Path, Tables};

verus! {

/// An address space: the root table in its frame, and below it the tables
/// of the three lower levels, each in the frame that an entry names.
pub struct AddressSpace {
    root: Frame,
    l4: PageTable<Level4>,
    l3: TableArena<Level3>,
    l2: TableArena<Level2>,
    l1: TableArena<Level1>,
}

/// An address space together with the allocator that supplies the frames
/// of its tables.
pub struct PageMapper<F: FrameAlloc> {
    space: AddressSpace,
    allocator: F,
}

impl AddressSpace {
    /// The tables of the hierarchy.
    pub closed spec fn tables(&self) -> Tables {
        Tables { root: self.l4@, l3: self.l3@, l2: self.l2@, l1: self.l1@ }
    }

    /// The frame that holds the root table.
    pub closed spec fn root_frame(&self) -> Frame {
        self.root
    }

    /// The frames that hold the tables of the hierarchy.
    pub closed spec fn table_frames(&self) -> Set<int> {
        self.l3@.dom().union(self.l2@.dom()).union(self.l1@.dom()).insert(
            self.root.index() as int,
        )
    }

    /// The leaf entries within reach of a walk, present or not.
    pub open spec fn entries(&self) -> Map<Path, Page> {
        self.tables().entries()
    }

    /// The mapping: each page whose walk ends in a present entry, with that entry.
    pub open spec fn view(&self) -> Map<Path, Page> {
        present_part(self.entries())
    }

    /// The hierarchy is a tree, and each of its tables lies in a frame of its own.
    pub closed spec fn wf(&self) -> bool {
        &&& self.l3.wf()
        &&& self.l2.wf()
        &&& self.l1.wf()
        &&& self.tables().wf()
        &&& self.l3@.dom().disjoint(self.l2@.dom())
        &&& self.l3@.dom().disjoint(self.l1@.dom())
        &&& self.l2@.dom().disjoint(self.l1@.dom())
        &&& !self.l3@.contains_key(self.root.index() as int)
        &&& !self.l2@.contains_key(self.root.index() as int)
        &&& !self.l1@.contains_key(self.root.index() as int)
    }

    /// What `wf` says to the outside: the hierarchy is a tree, and its
    /// tables lie in the frames of `table_frames`, the root in a frame that
    /// holds no other table.
    pub proof fn lemma_wf(&self)
        requires
            self.wf(),
        ensures
            self.tables().wf(),
            self.table_frames() == self.tables().l3.dom().union(self.tables().l2.dom()).union(
                self.tables().l1.dom(),
            ).insert(self.root_frame().index() as int),
            self.tables().l3.dom().disjoint(self.tables().l2.dom()),
            self.tables().l3.dom().disjoint(self.tables().l1.dom()),
            self.tables().l2.dom().disjoint(self.tables().l1.dom()),
            !self.tables().l3.contains_key(self.root_frame().index() as int),
            !self.tables().l2.contains_key(self.root_frame().index() as int),
            !self.tables().l1.contains_key(self.root_frame().index() as int),
    {
    }

    /// The frame that holds the root table: what the processor is pointed
    /// at to make this address space the active one.
    pub fn root(&self) -> (f: Frame)
        ensures
            f == self.root_frame(),
    {
        self.root
    }

    /// The root table.
    pub fn root_table(&self) -> (t: &PageTable<Level4>)
        ensures
            t@ == self.tables().root,
    {
        &self.l4
    }

    /// The tables of the level below the root.
    pub fn level3(&self) -> (a: &TableArena<Level3>)
        requires
            self.wf(),
        ensures
            a.wf(),
            a@ == self.tables().l3,
    {
        &self.l3
    }

    /// The tables whose entries name leaf tables.
    pub fn level2(&self) -> (a: &TableArena<Level2>)
        requires
            self.wf(),
        ensures
            a.wf(),
            a@ == self.tables().l2,
    {
        &self.l2
    }

    /// The leaf tables.
    pub fn level1(&self) -> (a: &TableArena<Level1>)
        requires
            self.wf(),
        ensures
            a.wf(),
            a@ == self.tables().l1,
    {
        &self.l1
    }

    /// The entry that maps the page of `addr`, if the page is mapped.
    pub fn get_page(&self, addr: usize) -> (r: Option<&Page>)
        requires
            self.wf(),
        ensures
            match r {
                Some(page) => self@.contains_key(path_of(addr)) && *page == self@[path_of(addr)],
                None => !self@.contains_key(path_of(addr)),
            },
    {
        let ghost t = self.tables();
        let ghost p = path_of(addr);
        proof {
            assert(t.top().contains_key(0));
        }
        let l4 = &self.l4;
        if !l4.get(addr).flags().bitand(PageFlags::present()) {
            return None;
        }
        let l3 = match l4.next(addr, &self.l3) {
            Some(table) => table,
            None => {
                return None;
            },
        };
        if !l3.get(addr).flags().bitand(PageFlags::present()) {
            return None;
        }
        let l2 = match l3.next(addr, &self.l2) {
            Some(table) => table,
            None => {
                return None;
            },
        };
        if !l2.get(addr).flags().bitand(PageFlags::present()) {
            return None;
        }
        let l1 = match l2.next(addr, &self.l1) {
            Some(table) => table,
            None => {
                return None;
            },
        };
        if !l1.get(addr).flags().bitand(PageFlags::present()) {
            return None;
        }
        Some(l1.get(addr))
    }
}

impl<F: FrameAlloc> PageMapper<F> {
    /// The address space that the mapper works on.
    pub closed spec fn space(&self) -> AddressSpace {
        self.space
    }

    /// The allocator that the mapper draws on.
    pub closed spec fn allocator(&self) -> F {
        self.allocator
    }

    /// The tables of the hierarchy.
    pub open spec fn tables(&self) -> Tables {
        self.space().tables()
    }

    /// The frame that holds the root table.
    pub open spec fn root_frame(&self) -> Frame {
        self.space().root_frame()
    }

    /// The frames that hold the tables of the hierarchy.
    pub open spec fn table_frames(&self) -> Set<int> {
        self.space().table_frames()
    }

    /// The frames that the allocator may still hand out.
    pub open spec fn free_frames(&self) -> Set<int> {
        self.allocator().free_frames()
    }

    /// How many levels of directory the walk to `p` passes.
    pub open spec fn levels(&self, p: Path) -> nat {
        self.tables().levels(p)
    }

    /// The leaf entries within reach of a walk, present or not.
    pub open spec fn entries(&self) -> Map<Path, Page> {
        self.tables().entries()
    }

    /// The mapping: each page whose walk ends in a present entry, with that entry.
    pub open spec fn view(&self) -> Map<Path, Page> {
        present_part(self.entries())
    }

    /// The address space is sound, and so is the allocator, in which no
    /// frame of a table is free.
    pub closed spec fn wf(&self) -> bool {
        &&& self.space.wf()
        &&& self.allocator.wf()
        &&& forall|f: int| #[trigger]
            self.allocator.free_frames().contains(f) ==> !self.space.l3@.contains_key(f)
                && !self.space.l2@.contains_key(f) && !self.space.l1@.contains_key(f) && f
                != self.space.root.index()
    }

    /// What `wf` says to the outside: the allocator is sound and hands out no frame of a table.
    pub proof fn lemma_wf(&self)
        requires
            self.wf(),
        ensures
            self.space().wf(),
            self.allocator().wf(),
            self.tables().wf(),
            self.table_frames().contains(self.root_frame().index() as int),
            self.table_frames().disjoint(self.free_frames()),
    {
    }

    /// A mapper for `space` that draws on `allocator`.
    pub fn from_parts(space: AddressSpace, allocator: F) -> (m: Self)
        requires
            space.wf(),
            allocator.wf(),
            space.table_frames().disjoint(allocator.free_frames()),
        ensures
            m.wf(),
            m.space() == space,
            m.allocator() == allocator,
    {
        let m = Self { space, allocator };
        proof {
            assert forall|f: int| #[trigger] m.allocator.free_frames().contains(f) implies !m.space.l3@.contains_key(f)
                && !m.space.l2@.contains_key(f) && !m.space.l1@.contains_key(f) && f != m.space.root.index() by {
                if m.space.l3@.contains_key(f) || m.space.l2@.contains_key(f) || m.space.l1@.contains_key(f) || f == m.space.root.index() {
                    assert(space.table_frames().contains(f));
                }
            }
        }
        m
    }

    /// Parts the address space from the allocator.
    pub fn into_parts(self) -> (parts: (AddressSpace, F))
        requires
            self.wf(),
        ensures
            parts.0 == self.space(),
            parts.1 == self.allocator(),
            parts.0.wf(),
            parts.1.wf(),
            parts.0.table_frames().disjoint(parts.1.free_frames()),
    {
        (self.space, self.allocator)
    }

    /// A mapper with an empty root table in a frame taken from `allocator`.
    /// Fails where `allocator` has no frame left.
    pub fn new(allocator: F) -> (r: Result<Self, AllocError>)
        requires
            allocator.wf(),
        ensures
            r is Ok <==> exists|f: int| allocator.free_frames().contains(f),
            r is Ok ==> {
                let m = r->Ok_0;
                &&& m.wf()
                &&& m.allocator().follows(&allocator)
                &&& m.tables() == Tables::fresh()
                &&& m.entries() == Map::<Path, Page>::empty()
                &&& forall|p: Path| p.valid() ==> #[trigger] m.levels(p) == 0
                &&& allocator.free_frames().contains(m.root_frame().index() as int)
                &&& m.free_frames() == allocator.free_frames().remove(
                    m.root_frame().index() as int,
                )
                &&& m.table_frames() == Set::<int>::empty().insert(m.root_frame().index() as int)
            },
    {
        let mut allocator = allocator;
        let frames = match allocator.allocate(1) {
            Ok(frames) => frames,
            Err(e) => {
                return Err(e);
            },
        };
        let root = frames.first();
        let m = PageMapper {
            space: AddressSpace {
                root,
                l4: PageTable::new(),
                l3: TableArena::new(),
                l2: TableArena::new(),
                l1: TableArena::new(),
            },
            allocator,
        };
        proof {
            Page::lemma_new_spec();
            assert(frames.indices().contains(root.index() as int));
            assert(m.tables().top().contains_key(0));
            assert(m.tables().wf());
            assert(m.entries() =~= Map::<Path, Page>::empty());
            assert(m.table_frames() =~= Set::<int>::empty().insert(m.root_frame().index() as int));
        }
        Ok(m)
    }

    /// A mapper on the address space that the processor uses, whose root
    /// table lies in `root`: the root table is emptied, and with it every
    /// mapping of that address space goes.
    pub fn current(root: Frame, allocator: F) -> (m: Self)
        requires
            allocator.wf(),
            !allocator.free_frames().contains(root.index() as int),
        ensures
            m.wf(),
            m.allocator() == allocator,
            m.root_frame() == root,
            m.tables() == Tables::fresh(),
            m.table_frames() == Set::<int>::empty().insert(root.index() as int),
    {
        let m = PageMapper {
            space: AddressSpace {
                root,
                l4: PageTable::new(),
                l3: TableArena::new(),
                l2: TableArena::new(),
                l1: TableArena::new(),
            },
            allocator,
        };
        proof {
            Page::lemma_new_spec();
            assert(m.tables().top().contains_key(0));
            assert(m.tables().wf());
            assert(m.table_frames() =~= Set::<int>::empty().insert(root.index() as int));
        }
        m
    }

    /// The frame that holds the root table.
    pub fn root(&self) -> (f: Frame)
        ensures
            f == self.root_frame(),
    {
        self.space.root()
    }

    /// The address space that the mapper works on.
    pub fn address_space(&self) -> (s: &AddressSpace)
        requires
            self.wf(),
        ensures
            *s == self.space(),
            s.wf(),
    {
        &self.space
    }

    /// Gives the allocator back and lets the address space go.
    pub fn into_allocator(self) -> (a: F)
        ensures
            a == self.allocator(),
    {
        self.allocator
    }

    /// The entry that maps the page of `addr`, if the page is mapped.
    pub fn get_page(&self, addr: usize) -> (r: Option<&Page>)
        requires
            self.wf(),
        ensures
            match r {
                Some(page) => self@.contains_key(path_of(addr)) && *page == self@[path_of(addr)],
                None => !self@.contains_key(path_of(addr)),
            },
    {
        self.space.get_page(addr)
    }

    /// The entry that maps the page of `addr`, to be changed in place, if
    /// the page is mapped. What the caller writes becomes the page's entry.
    pub fn get_page_mut(&mut self, addr: usize) -> (r: Option<&mut Page>)
        requires
            old(self).wf(),
        ensures
            match r {
                Some(page) => {
                    &&& old(self)@.contains_key(path_of(addr))
                    &&& *page == old(self)@[path_of(addr)]
                    &&& final(self).wf()
                    &&& final(self).tables() == old(self).tables().with_leaf(
                        path_of(addr),
                        *final(page),
                    )
                    &&& old(self).tables().absent_empty() && (final(page).is_present()
                        || *final(page) == Page::new_spec()) ==> final(self).tables().absent_empty()
                    &&& final(self).entries() == old(self).entries().insert(
                        path_of(addr),
                        *final(page),
                    )
                    &&& forall|q: Path|
                        q.valid() ==> #[trigger] final(self).levels(q) == old(self).levels(q)
                    &&& final(self).allocator() == old(self).allocator()
                    &&& final(self).root_frame() == old(self).root_frame()
                    &&& final(self).table_frames() == old(self).table_frames()
                },
                None => !old(self)@.contains_key(path_of(addr)) && *final(self) == *old(self),
            },
    {
        if self.get_page(addr).is_none() {
            return None;
        }
        let ghost t = self.tables();
        let ghost p = path_of(addr);
        proof {
            assert(t.top().contains_key(0));
            crate::paging::tables::lemma_walks_part(t, p, p);
        }
        let f3 = self.space.l4.get(addr).frame();
        let f2 = match self.space.l3.get(f3) {
            Some(table) => table.get(addr).frame(),
            None => {
                proof {
                    assert(false);
                }
                return None;
            },
        };
        let f1 = match self.space.l2.get(f2) {
            Some(table) => table.get(addr).frame(),
            None => {
                proof {
                    assert(false);
                }
                return None;
            },
        };
        match self.space.l1.get_mut(f1) {
            Some(table) => {
                let page = table.get_mut(addr);
                proof {
                    crate::paging::tables::lemma_with_leaf(t, p, *final(page));
                    if t.absent_empty() && (final(page).is_present() || *final(page)
                        == Page::new_spec()) {
                        crate::paging::tables::lemma_leaf_tidy(t, p, *final(page));
                    }
                    assert(t.l1.insert(
                        f1.index() as int,
                        t.l1[f1.index() as int].update(p.l1, *final(page)),
                    ).dom() =~= t.l1.dom());
                }
                Some(page)
            },
            None => {
                proof {
                    assert(false);
                }
                None
            },
        }
    }

    /// The level-3 table on the walk to `addr`, made if the root has none.
    fn enter_l4(&mut self, addr: usize, flags: PageFlags) -> (r: Result<Frame, AllocError>)
        requires
            old(self).wf(),
        ensures
            final(self).wf(),
            final(self).root_frame() == old(self).root_frame(),
            final(self).allocator().follows(&old(self).allocator()),
            old(self).tables().directories_flagged(dir_bits(flags)) ==> final(self).tables().directories_flagged(dir_bits(flags)),
            old(self).tables().absent_empty() ==> final(self).tables().absent_empty(),
            entered(
                old(self).tables(),
                old(self).free_frames(),
                final(self).tables(),
                final(self).free_frames(),
                path_of(addr),
                0,
                flags,
                r,
            ),
            final(self).table_frames() == old(self).table_frames().union(
                old(self).free_frames().difference(final(self).free_frames()),
            ),
    {
        let ghost t = self.tables();
        let ghost p = path_of(addr);
        proof {
            assert(t.top().contains_key(0));
        }
        if self.space.l4.get(addr).flags().bitand(PageFlags::present()) {
            proof {
                self.allocator.lemma_follows_itself();
                assert(self.table_frames() =~= self.table_frames().union(
                    self.free_frames().difference(self.free_frames()),
                ));
            }
            return Ok(self.space.l4.get(addr).frame());
        }
        let frames = match self.allocator.allocate(1) {
            Ok(frames) => frames,
            Err(e) => {
                proof {
                    assert(self.table_frames() =~= self.table_frames().union(
                        self.free_frames().difference(self.free_frames()),
                    ));
                }
                return Err(e);
            },
        };
        let frame = frames.first();
        proof {
            assert(frames.indices().contains(frame.index() as int));
        }
        self.space.l3.insert(frame, PageTable::new());
        let entry = self.space.l4.get_mut(addr);
        let dir_flags = PageFlags::present().bitor(flags);
        proof {
            use_type_invariant(flags);
            lemma_dir_bits(dir_flags, flags);
        }
        entry.set_frame(frame).set_flags(dir_flags);
        proof {
            let e = self.space.l4@[p.l4];
            crate::paging::tables::lemma_with_l3(t, p, frame.index() as int, e);
            if t.absent_empty() {
                crate::paging::tables::lemma_grown_tidy(t, p, frame.index() as int, e);
            }
            if t.directories_flagged(dir_bits(flags)) {
                crate::paging::tables::lemma_grown_flagged(
                    t,
                    p,
                    frame.index() as int,
                    e,
                    dir_bits(flags),
                );
            }
            assert(self.tables() == t.with_l3(p, frame.index() as int, e));
            assert(self.tables().top().contains_key(0));
            assert(self.table_frames() =~= old(self).table_frames().union(
                old(self).free_frames().difference(self.free_frames()),
            ));
        }
        Ok(frame)
    }

    /// The level-2 table on the walk to `addr`, made if the level-3 table has none.
    fn enter_l3(&mut self, addr: usize, flags: PageFlags) -> (r: Result<Frame, AllocError>)
        requires
            old(self).wf(),
            old(self).levels(path_of(addr)) >= 1,
        ensures
            final(self).wf(),
            final(self).root_frame() == old(self).root_frame(),
            final(self).allocator().follows(&old(self).allocator()),
            old(self).tables().directories_flagged(dir_bits(flags)) ==> final(self).tables().directories_flagged(dir_bits(flags)),
            old(self).tables().absent_empty() ==> final(self).tables().absent_empty(),
            entered(
                old(self).tables(),
                old(self).free_frames(),
                final(self).tables(),
                final(self).free_frames(),
                path_of(addr),
                1,
                flags,
                r,
            ),
            final(self).table_frames() == old(self).table_frames().union(
                old(self).free_frames().difference(final(self).free_frames()),
            ),
    {
        let ghost t = self.tables();
        let ghost p = path_of(addr);
        proof {
            assert(t.top().contains_key(0));
            crate::paging::tables::lemma_walks_part(t, p, p);
        }
        let f3 = self.space.l4.get(addr).frame();
        let present = match self.space.l3.get(f3) {
            Some(table) => table.get(addr).flags().bitand(PageFlags::present()),
            None => false,
        };
        if present {
            proof {
                self.allocator.lemma_follows_itself();
                assert(self.table_frames() =~= self.table_frames().union(
                    self.free_frames().difference(self.free_frames()),
                ));
            }
            match self.space.l3.get(f3) {
                Some(table) => {
                    return Ok(table.get(addr).frame());
                },
                None => {
                    return Err(AllocError::NoMemory);
                },
            }
        }
        let frames = match self.allocator.allocate(1) {
            Ok(frames) => frames,
            Err(e) => {
                proof {
                    assert(self.table_frames() =~= self.table_frames().union(
                        self.free_frames().difference(self.free_frames()),
                    ));
                }
                return Err(e);
            },
        };
        let frame = frames.first();
        proof {
            assert(frames.indices().contains(frame.index() as int));
        }
        self.space.l2.insert(frame, PageTable::new());
        match self.space.l3.get_mut(f3) {
            Some(table) => {
                let entry = table.get_mut(addr);
                let dir_flags = PageFlags::present().bitor(flags);
        proof {
            use_type_invariant(flags);
            lemma_dir_bits(dir_flags, flags);
        }
        entry.set_frame(frame).set_flags(dir_flags);
            },
            None => {
                proof {
                    assert(false);
                }
            },
        }
        proof {
            let e = self.space.l3@[f3.index() as int][p.l3];
            crate::paging::tables::lemma_with_l2(t, p, frame.index() as int, e);
            if t.absent_empty() {
                crate::paging::tables::lemma_grown_tidy(t, p, frame.index() as int, e);
            }
            if t.directories_flagged(dir_bits(flags)) {
                crate::paging::tables::lemma_grown_flagged(
                    t,
                    p,
                    frame.index() as int,
                    e,
                    dir_bits(flags),
                );
            }
            assert(self.tables() == t.with_l2(p, frame.index() as int, e));
            assert(self.tables().top().contains_key(0));
            assert(self.space.l3@.dom() =~= old(self).space.l3@.dom());
            assert(self.table_frames() =~= old(self).table_frames().union(
                old(self).free_frames().difference(self.free_frames()),
            ));
        }
        Ok(frame)
    }

    /// The leaf table on the walk to `addr`, made if the level-2 table has none.
    fn enter_l2(&mut self, addr: usize, flags: PageFlags) -> (r: Result<Frame, AllocError>)
        requires
            old(self).wf(),
            old(self).levels(path_of(addr)) >= 2,
        ensures
            final(self).wf(),
            final(self).root_frame() == old(self).root_frame(),
            final(self).allocator().follows(&old(self).allocator()),
            old(self).tables().directories_flagged(dir_bits(flags)) ==> final(self).tables().directories_flagged(dir_bits(flags)),
            old(self).tables().absent_empty() ==> final(self).tables().absent_empty(),
            entered(
                old(self).tables(),
                old(self).free_frames(),
                final(self).tables(),
                final(self).free_frames(),
                path_of(addr),
                2,
                flags,
                r,
            ),
            final(self).table_frames() == old(self).table_frames().union(
                old(self).free_frames().difference(final(self).free_frames()),
            ),
    {
        let ghost t = self.tables();
        let ghost p = path_of(addr);
        proof {
            assert(t.top().contains_key(0));
            crate::paging::tables::lemma_walks_part(t, p, p);
        }
        let f3 = self.space.l4.get(addr).frame();
        let f2 = match self.space.l3.get(f3) {
            Some(table) => table.get(addr).frame(),
            None => {
                proof {
                    assert(false);
                }
                return Err(AllocError::NoMemory);
            },
        };
        let present = match self.space.l2.get(f2) {
            Some(table) => table.get(addr).flags().bitand(PageFlags::present()),
            None => false,
        };
        if present {
            proof {
                self.allocator.lemma_follows_itself();
                assert(self.table_frames() =~= self.table_frames().union(
                    self.free_frames().difference(self.free_frames()),
                ));
            }
            match self.space.l2.get(f2) {
                Some(table) => {
                    return Ok(table.get(addr).frame());
                },
                None => {
                    return Err(AllocError::NoMemory);
                },
            }
        }
        let frames = match self.allocator.allocate(1) {
            Ok(frames) => frames,
            Err(e) => {
                proof {
                    assert(self.table_frames() =~= self.table_frames().union(
                        self.free_frames().difference(self.free_frames()),
                    ));
                }
                return Err(e);
            },
        };
        let frame = frames.first();
        proof {
            assert(frames.indices().contains(frame.index() as int));
        }
        self.space.l1.insert(frame, PageTable::new());
        match self.space.l2.get_mut(f2) {
            Some(table) => {
                let entry = table.get_mut(addr);
                let dir_flags = PageFlags::present().bitor(flags);
        proof {
            use_type_invariant(flags);
            lemma_dir_bits(dir_flags, flags);
        }
        entry.set_frame(frame).set_flags(dir_flags);
            },
            None => {
                proof {
                    assert(false);
                }
            },
        }
        proof {
            let e = self.space.l2@[f2.index() as int][p.l2];
            crate::paging::tables::lemma_with_l1(t, p, frame.index() as int, e);
            if t.absent_empty() {
                crate::paging::tables::lemma_grown_tidy(t, p, frame.index() as int, e);
            }
            if t.directories_flagged(dir_bits(flags)) {
                crate::paging::tables::lemma_grown_flagged(
                    t,
                    p,
                    frame.index() as int,
                    e,
                    dir_bits(flags),
                );
            }
            assert(self.tables() == t.with_l1(p, frame.index() as int, e));
            assert(self.tables().top().contains_key(0));
            assert(self.space.l2@.dom() =~= old(self).space.l2@.dom());
            assert(self.table_frames() =~= old(self).table_frames().union(
                old(self).free_frames().difference(self.free_frames()),
            ));
        }
        Ok(frame)
    }

    /// How a walk to `p` that makes what it lacks, with `flags`, has changed
    /// the mapper since `before`, whether it came to its end or not: as many
    /// tables were made as the walk lacked, or as the allocator had frames;
    /// each lies in a frame that was free; walks that share directory
    /// indices with `p` grew with it; and the directory entries that were
    /// there stay as they were.
    pub open spec fn walked(&self, before: &Self, p: Path, flags: PageFlags) -> bool {
        let made = tables_made(before.levels(p), before.free_frames().len());
        &&& self.wf()
        &&& self.root_frame() == before.root_frame()
        &&& self.allocator().follows(&before.allocator())
        &&& self.free_frames().subset_of(before.free_frames())
        &&& self.free_frames().len() == before.free_frames().len() - made
        &&& self.table_frames() == before.table_frames().union(
            before.free_frames().difference(self.free_frames()),
        )
        &&& self.levels(p) == before.levels(p) + made
        &&& before.tables().directories_flagged(dir_bits(flags))
            ==> self.tables().directories_flagged(dir_bits(flags))
        &&& forall|q: Path|
            q.valid() ==> #[trigger] self.levels(q) == levels_after(
                before.levels(q),
                p.shared(q),
                before.levels(p) + made,
            )
        &&& forall|d: nat|
            d < before.levels(p) ==> #[trigger] dir_entry(self.tables(), p, d) == dir_entry(
                before.tables(),
                p,
                d,
            )
        &&& forall|d: nat|
            before.levels(p) <= d < self.levels(p) ==> is_directory_entry(
                #[trigger] dir_entry(self.tables(), p, d),
                dir_entry(self.tables(), p, d).frame_index(),
                flags,
            ) && before.free_frames().contains(dir_entry(self.tables(), p, d).frame_index())
    }

    /// The leaf entry of the page of `addr`, to be filled by the caller. The
    /// tables that the walk lacks are made, each in a frame of its own with
    /// an entry that is present and has `flags` besides. Fails where the
    /// allocator has fewer frames than the walk lacks tables; the tables
    /// made until then stay.
    pub fn touch_page(&mut self, addr: usize, flags: PageFlags) -> (r: Result<
        &mut Page,
        AllocError,
    >)
        requires
            old(self).wf(),
        ensures
            final(self).walked(old(self), path_of(addr), flags),
            r is Ok <==> old(self).free_frames().len() >= 3 - old(self).levels(path_of(addr)),
            match r {
                Ok(page) => {
                    &&& *page == with_block(old(self).entries(), path_of(addr))[path_of(addr)]
                    &&& final(self).entries() == with_block(
                        old(self).entries(),
                        path_of(addr),
                    ).insert(path_of(addr), *final(page))
                    &&& final(self).tables() == grown_walk(
                        old(self).tables(),
                        final(self).tables(),
                        path_of(addr),
                        3,
                    ).with_leaf(path_of(addr), *final(page))
                    &&& old(self).tables().absent_empty() && (final(page).is_present()
                        || *final(page) == Page::new_spec()) ==> final(self).tables().absent_empty()
                },
                Err(_) => {
                    &&& final(self).entries() == old(self).entries()
                    &&& final(self).tables() == grown_walk(
                        old(self).tables(),
                        final(self).tables(),
                        path_of(addr),
                        final(self).levels(path_of(addr)),
                    )
                    &&& old(self).tables().absent_empty() ==> final(self).tables().absent_empty()
                },
            },
    {
        let ghost p = path_of(addr);
        let ghost t0 = self.tables();
        let ghost fr0 = self.free_frames();
        let ghost tf0 = self.table_frames();
        let ghost a0 = self.allocator;
        proof {
            crate::frame_alloc::lemma_free_frames_finite(&self.allocator);
            assert(tf0 =~= tf0.union(fr0.difference(fr0)));
        }
        let r1 = self.enter_l4(addr, flags);
        let ghost t1 = self.tables();
        let ghost fr1 = self.free_frames();
        let ghost a1 = self.allocator;
        proof {
            crate::frame_alloc::lemma_free_frames_finite(&self.allocator);
            if t0.levels(p) == 0 && r1 is Ok {
                crate::paging::tables::lemma_with_l3(
                    t0,
                    p,
                    r1->Ok_0.index() as int,
                    dir_entry(t1, p, 0),
                );
            }
            if r1 is Err {
                assert(fr0 =~= Set::<int>::empty());
            }
        }
        if r1.is_err() {
            return Err(AllocError::NoMemory);
        }
        let r2 = self.enter_l3(addr, flags);
        let ghost t2 = self.tables();
        let ghost fr2 = self.free_frames();
        let ghost a2 = self.allocator;
        proof {
            a2.lemma_follows_on(&a1, &a0);
            crate::frame_alloc::lemma_free_frames_finite(&self.allocator);
            if t1.levels(p) == 1 && r2 is Ok {
                crate::paging::tables::lemma_with_l2(
                    t1,
                    p,
                    r2->Ok_0.index() as int,
                    dir_entry(t2, p, 1),
                );
            }
            if r2 is Err {
                assert(fr1 =~= Set::<int>::empty());
            }
            assert(self.table_frames() =~= tf0.union(fr0.difference(fr2)));
        }
        if r2.is_err() {
            return Err(AllocError::NoMemory);
        }
        let r3 = self.enter_l2(addr, flags);
        let ghost t3 = self.tables();
        let ghost fr3 = self.free_frames();
        proof {
            self.allocator.lemma_follows_on(&a2, &a0);
            if t2.levels(p) == 2 && r3 is Ok {
                crate::paging::tables::lemma_with_l1(
                    t2,
                    p,
                    r3->Ok_0.index() as int,
                    dir_entry(t3, p, 2),
                );
            }
            if r3 is Err {
                assert(fr2 =~= Set::<int>::empty());
            }
            assert(self.table_frames() =~= tf0.union(fr0.difference(fr3)));
        }
        let f1 = match r3 {
            Ok(frame) => frame,
            Err(e) => {
                return Err(e);
            },
        };
        proof {
            assert(t3.top().contains_key(0));
            crate::paging::tables::lemma_walks_part(t3, p, p);
            assert(t3.entries() =~= with_block(t0.entries(), p));
        }
        match self.space.l1.get_mut(f1) {
            Some(table) => {
                let page = table.get_mut(addr);
                proof {
                    crate::paging::tables::lemma_with_leaf(t3, p, *final(page));
                    if t3.directories_flagged(dir_bits(flags)) {
                        crate::paging::tables::lemma_leaf_flagged(
                            t3,
                            p,
                            *final(page),
                            dir_bits(flags),
                        );
                    }
                    if t3.absent_empty() && (final(page).is_present() || *final(page)
                        == Page::new_spec()) {
                        crate::paging::tables::lemma_leaf_tidy(t3, p, *final(page));
                    }
                    assert(t3.l1.insert(
                        f1.index() as int,
                        t3.l1[f1.index() as int].update(p.l1, *final(page)),
                    ).dom() =~= t3.l1.dom());
                }
                Ok(page)
            },
            None => {
                proof {
                    assert(false);
                }
                Err(AllocError::NoMemory)
            },
        }
    }

    /// Maps the page of `addr` to `frame` with `flags`: walks as
    /// `touch_page` does, then overwrites the leaf entry, whatever it held.
    pub fn map_page(&mut self, addr: usize, frame: Frame, flags: PageFlags) -> (r: Result<
        &mut Page,
        AllocError,
    >)
        requires
            old(self).wf(),
        ensures
            final(self).walked(old(self), path_of(addr), flags),
            r is Ok <==> old(self).free_frames().len() >= 3 - old(self).levels(path_of(addr)),
            match r {
                Ok(page) => {
                    &&& page.frame_index() == frame.index()
                    &&& page.flag_bits() == flags.bits()
                    &&& final(self).entries() == with_block(
                        old(self).entries(),
                        path_of(addr),
                    ).insert(path_of(addr), *final(page))
                    &&& final(self).tables() == grown_walk(
                        old(self).tables(),
                        final(self).tables(),
                        path_of(addr),
                        3,
                    ).with_leaf(path_of(addr), *final(page))
                    &&& old(self).tables().absent_empty() && (final(page).is_present()
                        || *final(page) == Page::new_spec()) ==> final(self).tables().absent_empty()
                },
                Err(_) => {
                    &&& final(self).entries() == old(self).entries()
                    &&& final(self).tables() == grown_walk(
                        old(self).tables(),
                        final(self).tables(),
                        path_of(addr),
                        final(self).levels(path_of(addr)),
                    )
                    &&& old(self).tables().absent_empty() ==> final(self).tables().absent_empty()
                },
            },
    {
        match self.touch_page(addr, flags) {
            Ok(page) => Ok(page.set_frame(frame).set_flags(flags)),
            Err(e) => Err(e),
        }
    }

    /// Empties the leaf entry of the page of `addr` if the page is mapped.
    /// No table is given up, even one that holds nothing any more.
    pub fn clear_page(&mut self, addr: usize)
        requires
            old(self).wf(),
        ensures
            final(self).wf(),
            final(self).tables() == (if old(self)@.contains_key(path_of(addr)) {
                old(self).tables().with_leaf(path_of(addr), Page::new_spec())
            } else {
                old(self).tables()
            }),
            old(self).tables().absent_empty() ==> final(self).tables().absent_empty(),
            old(self).tables().directories_flagged(3) ==> final(self).tables().directories_flagged(
                3,
            ),
            final(self)@ == old(self)@.remove(path_of(addr)),
            final(self).entries() == (if old(self)@.contains_key(path_of(addr)) {
                old(self).entries().insert(path_of(addr), Page::new_spec())
            } else {
                old(self).entries()
            }),
            forall|q: Path| q.valid() ==> #[trigger] final(self).levels(q) == old(self).levels(q),
            final(self).allocator() == old(self).allocator(),
            final(self).root_frame() == old(self).root_frame(),
            final(self).table_frames() == old(self).table_frames(),
    {
        proof {
            Page::lemma_new_spec();
        }
        match self.get_page_mut(addr) {
            Some(page) => {
                *page = Page::new();
            },
            None => {},
        }
        proof {
            assert(self@ =~= old(self)@.remove(path_of(addr)));
            if old(self).tables().directories_flagged(3) && old(self)@.contains_key(path_of(addr)) {
                crate::paging::tables::lemma_leaf_flagged(
                    old(self).tables(),
                    path_of(addr),
                    Page::new_spec(),
                    3,
                );
            }
        }
    }
}

/// The address space with which a kernel starts: a root, and under it the
/// three tables of the walk to address zero, each entered as present and
/// writable. No page is mapped yet. It takes four frames of `allocator`.
pub fn alloc_kernel_page_directory<F: FrameAlloc>(allocator: F) -> (r: Result<
    PageMapper<F>,
    AllocError,
>)
    requires
        allocator.wf(),
    ensures
        r is Ok <==> allocator.free_frames().len() >= 4,
        r is Ok ==> {
            let m = r->Ok_0;
            &&& m.wf()
            &&& m.allocator().follows(&allocator)
            &&& m.tables() == grown_walk(Tables::fresh(), m.tables(), path_of(0), 3)
            &&& m@ == Map::<Path, Page>::empty()
            &&& forall|q: Path|
                q.valid() ==> #[trigger] m.levels(q) == levels_after(0, path_of(0).shared(q), 3)
            &&& forall|d: nat|
                d < 3 ==> is_directory_entry(
                    #[trigger] dir_entry(m.tables(), path_of(0), d),
                    dir_entry(m.tables(), path_of(0), d).frame_index(),
                    PageFlags::write_spec(),
                )
            &&& m.free_frames().subset_of(allocator.free_frames())
            &&& m.free_frames().len() == allocator.free_frames().len() - 4
            &&& m.table_frames() == allocator.free_frames().difference(m.free_frames())
        },
{
    proof {
        crate::frame_alloc::lemma_free_frames_finite(&allocator);
        if allocator.free_frames().len() > 0 {
            assert(allocator.free_frames().contains(allocator.free_frames().choose()));
        }
        if exists|f: int| allocator.free_frames().contains(f) {
            let f = choose|f: int| allocator.free_frames().contains(f);
            assert(allocator.free_frames().len() > 0);
        }
    }
    let mut mapper = match PageMapper::new(allocator) {
        Ok(mapper) => mapper,
        Err(e) => {
            return Err(e);
        },
    };
    let ghost first = mapper.allocator();
    let ghost before = mapper.entries();
    let ghost root = mapper.root_frame().index() as int;
    let ghost free = mapper.free_frames();
    proof {
        Page::lemma_new_spec();
        mapper.lemma_wf();
        crate::frame_alloc::lemma_free_frames_finite(&mapper.allocator());
    }
    let touched = match mapper.touch_page(0, PageFlags::write()) {
        Ok(_) => true,
        Err(_) => false,
    };
    if !touched {
        return Err(AllocError::NoMemory);
    }
    proof {
        mapper.allocator().lemma_follows_on(&first, &allocator);
        let p = path_of(0);
        let made = grown_walk(Tables::fresh(), mapper.tables(), p, 3);
        let leaves = made.e2(p).frame_index();
        assert(made.l1[leaves] =~= made.l1[leaves].update(p.l1, Page::new_spec()));
        assert(made.l1 =~= made.with_leaf(p, Page::new_spec()).l1);
        assert(mapper.tables() == made);
        assert(mapper@ =~= Map::<Path, Page>::empty());
        assert(mapper.table_frames() =~= allocator.free_frames().difference(
            mapper.free_frames(),
        ));
    }
    Ok(mapper)
}

/// The present entries among `entries`.
pub open spec fn present_part(entries: Map<Path, Page>) -> Map<Path, Page> {
    Map::new(
        |p: Path| entries.contains_key(p) && entries[p].is_present(),
        |p: Path| entries[p],
    )
}

/// `entries` together with the 512 pages of the leaf table of `p`: a page
/// that was out of reach gets the empty entry.
pub open spec fn with_block(entries: Map<Path, Page>, p: Path) -> Map<Path, Page> {
    Map::new(
        |q: Path| entries.contains_key(q) || (q.valid() && p.shared(q) == 3),
        |q: Path|
            if entries.contains_key(q) {
                entries[q]
            } else {
                Page::new_spec()
            },
    )
}

/// The entry on the walk to `p` that stands `d` levels below the root.
pub open spec fn dir_entry(t: Tables, p: Path, d: nat) -> Page {
    if d == 0 {
        t.e4(p)
    } else if d == 1 {
        t.e3(p)
    } else {
        t.e2(p)
    }
}

/// The hierarchy after a new table, in frame `f`, was hung into the walk to
/// `p` by the entry `e`, `d` levels below the root.
pub open spec fn grown(t: Tables, p: Path, d: nat, f: int, e: Page) -> Tables {
    if d == 0 {
        t.with_l3(p, f, e)
    } else if d == 1 {
        t.with_l2(p, f, e)
    } else {
        t.with_l1(p, f, e)
    }
}

/// The flags of the entry of a directory made for a request with `flags`,
/// as a number: those of the request, and present.
pub open spec fn dir_bits(flags: PageFlags) -> int {
    if flags.is_present() {
        flags.bits() as int
    } else {
        flags.bits() + 1
    }
}

/// The flags that are present and have of writable and user what `flags`
/// has are the flags of a directory made for `flags`.
pub proof fn lemma_dir_bits(made: PageFlags, flags: PageFlags)
    requires
        made.bits() <= 7,
        flags.bits() <= 7,
        made.is_present(),
        made.is_writable() == flags.is_writable(),
        made.is_user() == flags.is_user(),
    ensures
        made.bits() == dir_bits(flags),
{
    let a = made.bits() as int;
    let b = flags.bits() as int;
    assert(a == a % 2 + 2 * ((a / 2) % 2) + 4 * ((a / 4) % 2));
    assert(b == b % 2 + 2 * ((b / 2) % 2) + 4 * ((b / 4) % 2));
}

/// `e` is the entry of a directory made for a request with `flags`: it
/// names frame `f`, is present, and has the flags of the request besides.
pub open spec fn is_directory_entry(e: Page, f: int, flags: PageFlags) -> bool {
    &&& e.frame_index() == f
    &&& e.flag_bits() == dir_bits(flags)
    &&& e.is_present()
    &&& e.is_writable() == flags.is_writable()
    &&& e.is_user() == flags.is_user()
}

/// The hierarchy `t` once the walk to `p` has its table `d` levels below
/// the root, where it lacked it and `d` is below `reached`: the new table
/// is empty and lies where the entry of `after` for it says.
pub open spec fn grown_at(t: Tables, after: Tables, p: Path, d: nat, reached: nat) -> Tables {
    if t.levels(p) == d && d < reached {
        grown(t, p, d, dir_entry(after, p, d).frame_index(), dir_entry(after, p, d))
    } else {
        t
    }
}

/// The hierarchy `t` once the walk to `p` passes `reached` levels, or as
/// many as it passed before: each table that it lacked is empty and hangs
/// in the walk by the entry that `after` has for it; nothing else differs.
pub open spec fn grown_walk(t: Tables, after: Tables, p: Path, reached: nat) -> Tables {
    grown_at(grown_at(grown_at(t, after, p, 0, reached), after, p, 1, reached), after, p, 2, reached)
}

/// How many tables a walk that passes `levels` levels of directory lacks,
/// and how many of them `free` frames can supply.
pub open spec fn tables_made(levels: nat, free: nat) -> nat {
    if 3 - levels <= free {
        (3 - levels) as nat
    } else {
        free
    }
}

/// How many levels the walk to a page passes once the walk to another page,
/// with which it shares `shared` directory indices, passes `reached` levels.
pub open spec fn levels_after(before: nat, shared: nat, reached: nat) -> nat {
    let common = if shared <= reached {
        shared
    } else {
        reached
    };
    if before >= common {
        before
    } else {
        common
    }
}

/// One level of a walk that makes what it lacks: what `outcome` says of the
/// hierarchy and of the free frames after it, given those before it.
pub open spec fn entered(
    pre: Tables,
    pre_free: Set<int>,
    post: Tables,
    post_free: Set<int>,
    p: Path,
    d: nat,
    flags: PageFlags,
    outcome: Result<Frame, AllocError>,
) -> bool {
    if pre.levels(p) > d {
        &&& post == pre
        &&& post_free == pre_free
        &&& outcome is Ok
        &&& outcome->Ok_0.index() == dir_entry(pre, p, d).frame_index()
    } else {
        match outcome {
            Ok(frame) => {
                &&& pre_free.contains(frame.index() as int)
                &&& post_free == pre_free.remove(frame.index() as int)
                &&& is_directory_entry(dir_entry(post, p, d), frame.index() as int, flags)
                &&& post == grown(pre, p, d, frame.index() as int, dir_entry(post, p, d))
            },
            Err(_) => {
                &&& post == pre
                &&& post_free == pre_free
                &&& forall|f: int| !pre_free.contains(f)
            },
        }
    }
}

/// A page that is not mapped stays unmapped when another page is mapped.
pub proof fn lemma_unrelated_mapping(entries: Map<Path, Page>, p: Path, page: Page, q: Path)
    requires
        !present_part(entries).contains_key(q),
        p != q,
    ensures
        !present_part(with_block(entries, p).insert(p, page)).contains_key(q),
{
    Page::lemma_new_spec();
}

/// A page that was mapped with a present entry is found with that entry.
pub proof fn lemma_map_then_get(entries: Map<Path, Page>, p: Path, page: Page)
    requires
        page.is_present(),
    ensures
        present_part(with_block(entries, p).insert(p, page)).contains_key(p),
        present_part(with_block(entries, p).insert(p, page))[p] == page,
        present_part(with_block(entries, p).insert(p, page)) == present_part(entries).insert(
            p,
            page,
        ),
{
    Page::lemma_new_spec();
    assert(present_part(with_block(entries, p).insert(p, page)) =~= present_part(entries).insert(
        p,
        page,
    ));
}

/// A page whose entry was emptied is found no more, and every other page as before.
pub proof fn lemma_clear_then_get(entries: Map<Path, Page>, p: Path)
    ensures
        !present_part(entries.insert(p, Page::new_spec())).contains_key(p),
        present_part(entries.insert(p, Page::new_spec())) == present_part(entries).remove(p),
{
    Page::lemma_new_spec();
    assert(present_part(entries.insert(p, Page::new_spec())) =~= present_part(entries).remove(
        p,
    ));
}

} // verus!
