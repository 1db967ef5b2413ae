//! The page-table hierarchy as a mathematical object: what a walk finds,
//! what keeps the hierarchy a tree, and how each change acts on the walks.

use vstd::prelude::*;
use crate::paging::page::Page;
use crate::paging::table::{empty_table, l1_index, l2_index, l3_index, l4_index};

verus! {

/// A virtual page, named by the four table indices of a walk to it.
pub struct Path {
    pub l4: int,
    pub l3: int,
    pub l2: int,
    pub l1: int,
}

impl Path {
    /// Each index names an entry of a table.
    pub open spec fn valid(self) -> bool {
        &&& 0 <= self.l4 < 512
        &&& 0 <= self.l3 < 512
        &&& 0 <= self.l2 < 512
        &&& 0 <= self.l1 < 512
    }

    /// How many of the three directory indices `self` and `other` share, from the root down.
    pub open spec fn shared(self, other: Path) -> nat {
        if self.l4 != other.l4 {
            0
        } else if self.l3 != other.l3 {
            1
        } else if self.l2 != other.l2 {
            2
        } else {
            3
        }
    }
}

/// The page that holds `addr`.
pub open spec fn path_of(addr: usize) -> Path {
    Path { l4: l4_index(addr), l3: l3_index(addr), l2: l2_index(addr), l1: l1_index(addr) }
}

/// The page of any address is a valid path.
pub proof fn lemma_path_of(addr: usize)
    ensures
        path_of(addr).valid(),
{
}

/// Entry `i` of the table in frame `f`.
pub open spec fn at(m: Map<int, Seq<Page>>, f: int, i: int) -> Page {
    m[f][i]
}

/// Every table of `m` has 512 entries.
pub open spec fn full_tables(m: Map<int, Seq<Page>>) -> bool {
    forall|f: int| #[trigger] m.contains_key(f) ==> m[f].len() == 512
}

/// Every present entry of a table of `upper` names a frame that holds a table of `lower`.
pub open spec fn closed_under(upper: Map<int, Seq<Page>>, lower: Map<int, Seq<Page>>) -> bool {
    forall|g: int, i: int|
        upper.contains_key(g) && 0 <= i < 512 && (#[trigger] at(upper, g, i)).is_present()
            ==> lower.contains_key(at(upper, g, i).frame_index())
}

/// No two present entries of the tables of `upper` name the same frame.
pub open spec fn unshared(upper: Map<int, Seq<Page>>) -> bool {
    forall|g: int, i: int, h: int, j: int|
        upper.contains_key(g) && upper.contains_key(h) && 0 <= i < 512 && 0 <= j < 512 && (
        #[trigger] at(upper, g, i)).is_present() && (#[trigger] at(upper, h, j)).is_present()
            && at(upper, g, i).frame_index() == at(upper, h, j).frame_index() ==> g == h && i
            == j
}

/// The tables of a hierarchy: the root, and the tables of each lower level
/// by the index of the frame that holds them.
pub struct Tables {
    pub root: Seq<Page>,
    pub l3: Map<int, Seq<Page>>,
    pub l2: Map<int, Seq<Page>>,
    pub l1: Map<int, Seq<Page>>,
}

impl Tables {
    /// The hierarchy of an empty root table and no other table.
    pub open spec fn fresh() -> Tables {
        Tables {
            root: empty_table(),
            l3: Map::<int, Seq<Page>>::empty(),
            l2: Map::<int, Seq<Page>>::empty(),
            l1: Map::<int, Seq<Page>>::empty(),
        }
    }

    /// The root as a map of one table, in frame 0 of its own level.
    pub open spec fn top(self) -> Map<int, Seq<Page>> {
        Map::<int, Seq<Page>>::empty().insert(0, self.root)
    }

    /// The hierarchy is a tree: present entries lead to tables, and no table is reached twice.
    pub open spec fn wf(self) -> bool {
        &&& self.root.len() == 512
        &&& full_tables(self.l3)
        &&& full_tables(self.l2)
        &&& full_tables(self.l1)
        &&& closed_under(self.top(), self.l3)
        &&& closed_under(self.l3, self.l2)
        &&& closed_under(self.l2, self.l1)
        &&& unshared(self.top())
        &&& unshared(self.l3)
        &&& unshared(self.l2)
    }

    /// Every present entry of a directory, at whichever level, has exactly the flags `bits`.
    pub open spec fn directories_flagged(self, bits: int) -> bool {
        &&& flagged(self.top(), bits)
        &&& flagged(self.l3, bits)
        &&& flagged(self.l2, bits)
    }

    /// Every entry that is not present, at whichever level, is the empty entry.
    pub open spec fn absent_empty(self) -> bool {
        &&& tidy(self.top())
        &&& tidy(self.l3)
        &&& tidy(self.l2)
        &&& tidy(self.l1)
    }

    /// The root entry on the walk to `p`.
    pub open spec fn e4(self, p: Path) -> Page {
        at(self.top(), 0, p.l4)
    }

    /// The level-3 entry on the walk to `p`.
    pub open spec fn e3(self, p: Path) -> Page {
        at(self.l3, self.e4(p).frame_index(), p.l3)
    }

    /// The level-2 entry on the walk to `p`.
    pub open spec fn e2(self, p: Path) -> Page {
        at(self.l2, self.e3(p).frame_index(), p.l2)
    }

    /// The leaf entry of `p`.
    pub open spec fn e1(self, p: Path) -> Page {
        at(self.l1, self.e2(p).frame_index(), p.l1)
    }

    /// How many levels of directory the walk to `p` passes: three where it reaches a leaf table.
    pub open spec fn levels(self, p: Path) -> nat {
        if !self.e4(p).is_present() {
            0
        } else if !self.e3(p).is_present() {
            1
        } else if !self.e2(p).is_present() {
            2
        } else {
            3
        }
    }

    /// The leaf entries that walks reach, present or not.
    pub open spec fn entries(self) -> Map<Path, Page> {
        Map::new(|p: Path| p.valid() && self.levels(p) == 3, |p: Path| self.e1(p))
    }

    /// The hierarchy after a table of empty entries was put into frame `f`
    /// and the root entry for `p` was set to `e`.
    pub open spec fn with_l3(self, p: Path, f: int, e: Page) -> Tables {
        Tables { root: self.root.update(p.l4, e), l3: self.l3.insert(f, empty_table()), ..self }
    }

    /// The same one level down: the new table is of level 2.
    pub open spec fn with_l2(self, p: Path, f: int, e: Page) -> Tables {
        let g = self.e4(p).frame_index();
        Tables {
            l3: self.l3.insert(g, self.l3[g].update(p.l3, e)),
            l2: self.l2.insert(f, empty_table()),
            ..self
        }
    }

    /// The same for a new leaf table.
    pub open spec fn with_l1(self, p: Path, f: int, e: Page) -> Tables {
        let g = self.e3(p).frame_index();
        Tables {
            l2: self.l2.insert(g, self.l2[g].update(p.l2, e)),
            l1: self.l1.insert(f, empty_table()),
            ..self
        }
    }

    /// The hierarchy after the leaf entry of `p` was set to `page`.
    pub open spec fn with_leaf(self, p: Path, page: Page) -> Tables {
        let g = self.e2(p).frame_index();
        Tables { l1: self.l1.insert(g, self.l1[g].update(p.l1, page)), ..self }
    }
}

/// Walks that part ways at some level pass different tables from there on.
pub proof fn lemma_walks_part(t: Tables, p: Path, q: Path)
    requires
        t.wf(),
        p.valid(),
        q.valid(),
    ensures
        p.shared(q) < 1 && t.levels(p) >= 1 && t.levels(q) >= 1 ==> t.e4(p).frame_index()
            != t.e4(q).frame_index(),
        p.shared(q) < 2 && t.levels(p) >= 2 && t.levels(q) >= 2 ==> t.e3(p).frame_index()
            != t.e3(q).frame_index(),
        p.shared(q) < 3 && t.levels(p) >= 3 && t.levels(q) >= 3 ==> t.e2(p).frame_index()
            != t.e2(q).frame_index(),
        t.levels(p) >= 1 ==> t.l3.contains_key(t.e4(p).frame_index()),
        t.levels(p) >= 2 ==> t.l2.contains_key(t.e3(p).frame_index()),
        t.levels(p) >= 3 ==> t.l1.contains_key(t.e2(p).frame_index()),
{
    assert(t.top().contains_key(0));
}

/// A new level-3 table makes the walks below one root entry one level longer, and changes no other.
pub proof fn lemma_with_l3(t: Tables, p: Path, f: int, e: Page)
    requires
        t.wf(),
        p.valid(),
        t.levels(p) == 0,
        !t.l3.contains_key(f),
        e.is_present(),
        e.frame_index() == f,
    ensures
        t.with_l3(p, f, e).wf(),
        forall|q: Path|
            q.valid() ==> #[trigger] t.with_l3(p, f, e).levels(q) == (if p.shared(q) >= 1 {
                1
            } else {
                t.levels(q)
            }),
        t.with_l3(p, f, e).entries() == t.entries(),
{
    let u = t.with_l3(p, f, e);
    Page::lemma_new_spec();
    assert(t.top().contains_key(0));
    assert(u.top().contains_key(0));
    assert forall|g: int, i: int|
        u.top().contains_key(g) && 0 <= i < 512 && (#[trigger] at(
            u.top(),
            g,
            i,
        )).is_present() implies u.l3.contains_key(at(u.top(), g, i).frame_index()) by {
        if i != p.l4 {
            assert(at(t.top(), 0, i).is_present());
        }
    }
    assert forall|g: int, i: int|
        u.l3.contains_key(g) && 0 <= i < 512 && (#[trigger] at(
            u.l3,
            g,
            i,
        )).is_present() implies u.l2.contains_key(at(u.l3, g, i).frame_index()) by {
        if g != f {
            assert(at(t.l3, g, i).is_present());
        }
    }
    assert forall|g: int, i: int, h: int, j: int|
        u.top().contains_key(g) && u.top().contains_key(h) && 0 <= i < 512 && 0 <= j < 512 && (
        #[trigger] at(u.top(), g, i)).is_present() && (#[trigger] at(u.top(), h, j)).is_present()
            && at(u.top(), g, i).frame_index() == at(u.top(), h, j).frame_index() implies g == h
        && i == j by {
        if i != p.l4 {
            assert(at(t.top(), 0, i).is_present());
        }
        if j != p.l4 {
            assert(at(t.top(), 0, j).is_present());
        }
    }
    assert forall|g: int, i: int, h: int, j: int|
        u.l3.contains_key(g) && u.l3.contains_key(h) && 0 <= i < 512 && 0 <= j < 512 && (
        #[trigger] at(u.l3, g, i)).is_present() && (#[trigger] at(u.l3, h, j)).is_present() && at(
            u.l3,
            g,
            i,
        ).frame_index() == at(u.l3, h, j).frame_index() implies g == h && i == j by {
        assert(at(t.l3, g, i).is_present());
        assert(at(t.l3, h, j).is_present());
    }
    assert(u.wf());
    assert forall|q: Path| q.valid() implies #[trigger] u.levels(q) == (if p.shared(q) >= 1 {
        1nat
    } else {
        t.levels(q)
    }) && (u.levels(q) == 3 ==> u.e1(q) == t.e1(q)) by {
        if q.l4 != p.l4 {
            assert(u.e4(q) == t.e4(q));
            if t.e4(q).is_present() {
                assert(at(t.top(), 0, q.l4).is_present());
                assert(t.l3.contains_key(t.e4(q).frame_index()));
            }
        }
    }
    assert(u.entries() =~= t.entries());
}

/// A new level-2 table makes the walks below one level-3 entry one level longer, and changes no other.
pub proof fn lemma_with_l2(t: Tables, p: Path, f: int, e: Page)
    requires
        t.wf(),
        p.valid(),
        t.levels(p) == 1,
        !t.l2.contains_key(f),
        e.is_present(),
        e.frame_index() == f,
    ensures
        t.with_l2(p, f, e).wf(),
        forall|q: Path|
            q.valid() ==> #[trigger] t.with_l2(p, f, e).levels(q) == (if p.shared(q) >= 2 {
                2
            } else {
                t.levels(q)
            }),
        t.with_l2(p, f, e).entries() == t.entries(),
{
    let u = t.with_l2(p, f, e);
    let g0 = t.e4(p).frame_index();
    Page::lemma_new_spec();
    assert(t.top().contains_key(0));
    assert(u.top() == t.top());
    assert(at(t.top(), 0, p.l4).is_present());
    assert(t.l3.contains_key(g0));
    assert forall|g: int, i: int|
        u.l3.contains_key(g) && 0 <= i < 512 && (#[trigger] at(
            u.l3,
            g,
            i,
        )).is_present() implies u.l2.contains_key(at(u.l3, g, i).frame_index()) by {
        if !(g == g0 && i == p.l3) {
            assert(at(t.l3, g, i).is_present());
        }
    }
    assert forall|g: int, i: int|
        u.l2.contains_key(g) && 0 <= i < 512 && (#[trigger] at(
            u.l2,
            g,
            i,
        )).is_present() implies u.l1.contains_key(at(u.l2, g, i).frame_index()) by {
        if g != f {
            assert(at(t.l2, g, i).is_present());
        }
    }
    assert forall|g: int, i: int, h: int, j: int|
        u.l3.contains_key(g) && u.l3.contains_key(h) && 0 <= i < 512 && 0 <= j < 512 && (
        #[trigger] at(u.l3, g, i)).is_present() && (#[trigger] at(u.l3, h, j)).is_present() && at(
            u.l3,
            g,
            i,
        ).frame_index() == at(u.l3, h, j).frame_index() implies g == h && i == j by {
        if !(g == g0 && i == p.l3) {
            assert(at(t.l3, g, i).is_present());
        }
        if !(h == g0 && j == p.l3) {
            assert(at(t.l3, h, j).is_present());
        }
    }
    assert forall|g: int, i: int, h: int, j: int|
        u.l2.contains_key(g) && u.l2.contains_key(h) && 0 <= i < 512 && 0 <= j < 512 && (
        #[trigger] at(u.l2, g, i)).is_present() && (#[trigger] at(u.l2, h, j)).is_present() && at(
            u.l2,
            g,
            i,
        ).frame_index() == at(u.l2, h, j).frame_index() implies g == h && i == j by {
        assert(at(t.l2, g, i).is_present());
        assert(at(t.l2, h, j).is_present());
    }
    assert(full_tables(u.l3));
    assert(u.wf());
    assert forall|q: Path| q.valid() implies #[trigger] u.levels(q) == (if p.shared(q) >= 2 {
        2nat
    } else {
        t.levels(q)
    }) && (u.levels(q) == 3 ==> u.e1(q) == t.e1(q)) by {
        lemma_walks_part(t, p, q);
        assert(u.e4(q) == t.e4(q));
        if t.levels(q) >= 1 && p.shared(q) < 2 {
            assert(u.e3(q) == t.e3(q));
            if t.levels(q) >= 2 {
                assert(at(t.l3, t.e4(q).frame_index(), q.l3).is_present());
            }
        }
    }
    assert(u.entries() =~= t.entries());
}

/// A new leaf table brings its 512 pages within reach, each with an empty entry, and changes no other walk.
pub proof fn lemma_with_l1(t: Tables, p: Path, f: int, e: Page)
    requires
        t.wf(),
        p.valid(),
        t.levels(p) == 2,
        !t.l1.contains_key(f),
        e.is_present(),
        e.frame_index() == f,
    ensures
        t.with_l1(p, f, e).wf(),
        forall|q: Path|
            q.valid() ==> #[trigger] t.with_l1(p, f, e).levels(q) == (if p.shared(q) >= 3 {
                3
            } else {
                t.levels(q)
            }),
        forall|q: Path|
            q.valid() && t.with_l1(p, f, e).levels(q) == 3 ==> #[trigger] t.with_l1(p, f, e).e1(q)
                == (if p.shared(q) >= 3 {
                Page::new_spec()
            } else {
                t.e1(q)
            }),
{
    let u = t.with_l1(p, f, e);
    let g0 = t.e3(p).frame_index();
    Page::lemma_new_spec();
    assert(t.top().contains_key(0));
    assert(u.top() == t.top());
    lemma_walks_part(t, p, p);
    assert forall|g: int, i: int|
        u.l2.contains_key(g) && 0 <= i < 512 && (#[trigger] at(
            u.l2,
            g,
            i,
        )).is_present() implies u.l1.contains_key(at(u.l2, g, i).frame_index()) by {
        if !(g == g0 && i == p.l2) {
            assert(at(t.l2, g, i).is_present());
        }
    }
    assert forall|g: int, i: int, h: int, j: int|
        u.l2.contains_key(g) && u.l2.contains_key(h) && 0 <= i < 512 && 0 <= j < 512 && (
        #[trigger] at(u.l2, g, i)).is_present() && (#[trigger] at(u.l2, h, j)).is_present() && at(
            u.l2,
            g,
            i,
        ).frame_index() == at(u.l2, h, j).frame_index() implies g == h && i == j by {
        if !(g == g0 && i == p.l2) {
            assert(at(t.l2, g, i).is_present());
        }
        if !(h == g0 && j == p.l2) {
            assert(at(t.l2, h, j).is_present());
        }
    }
    assert(full_tables(u.l2));
    assert(full_tables(u.l1));
    assert(u.wf());
    assert forall|q: Path| q.valid() implies #[trigger] u.levels(q) == (if p.shared(q) >= 3 {
        3nat
    } else {
        t.levels(q)
    }) && (u.levels(q) == 3 ==> u.e1(q) == (if p.shared(q) >= 3 {
        Page::new_spec()
    } else {
        t.e1(q)
    })) by {
        lemma_walks_part(t, p, q);
        assert(u.e4(q) == t.e4(q));
        assert(u.e3(q) == t.e3(q));
        if t.levels(q) >= 2 && p.shared(q) < 3 {
            assert(u.e2(q) == t.e2(q));
            if t.levels(q) >= 3 {
                assert(at(t.l2, t.e3(q).frame_index(), q.l2).is_present());
            }
        }
    }
}

/// Setting the leaf entry of a page changes that entry and nothing else.
pub proof fn lemma_with_leaf(t: Tables, p: Path, page: Page)
    requires
        t.wf(),
        p.valid(),
        t.levels(p) == 3,
    ensures
        t.with_leaf(p, page).wf(),
        forall|q: Path| q.valid() ==> #[trigger] t.with_leaf(p, page).levels(q) == t.levels(q),
        t.with_leaf(p, page).entries() == t.entries().insert(p, page),
{
    let u = t.with_leaf(p, page);
    lemma_walks_part(t, p, p);
    assert(full_tables(u.l1));
    assert(u.wf());
    assert forall|q: Path| q.valid() implies #[trigger] u.levels(q) == t.levels(q) && (u.levels(q)
        == 3 ==> u.e1(q) == (if q == p {
        page
    } else {
        t.e1(q)
    })) by {
        lemma_walks_part(t, p, q);
    }
    assert(u.entries() =~= t.entries().insert(p, page));
}

/// Every present entry of the tables of `m` has exactly the flags `bits`.
pub open spec fn flagged(m: Map<int, Seq<Page>>, bits: int) -> bool {
    forall|g: int, i: int|
        m.contains_key(g) && 0 <= i < 512 && (#[trigger] at(m, g, i)).is_present() ==> at(
            m,
            g,
            i,
        ).flag_bits() == bits
}

/// The new entry `e` and the empty table behind it keep the directories'
/// flags what they are, at whichever level the table is hung in.
pub proof fn lemma_grown_flagged(t: Tables, p: Path, f: int, e: Page, bits: int)
    requires
        t.wf(),
        p.valid(),
        t.directories_flagged(bits),
        e.flag_bits() == bits,
    ensures
        t.levels(p) == 0 ==> t.with_l3(p, f, e).directories_flagged(bits),
        t.levels(p) == 1 ==> t.with_l2(p, f, e).directories_flagged(bits),
        t.levels(p) == 2 ==> t.with_l1(p, f, e).directories_flagged(bits),
{
    Page::lemma_new_spec();
    assert(t.top().contains_key(0));
    lemma_walks_part(t, p, p);
    if t.levels(p) == 0 {
        let u = t.with_l3(p, f, e);
        assert forall|g: int, i: int|
            u.top().contains_key(g) && 0 <= i < 512 && (#[trigger] at(
                u.top(),
                g,
                i,
            )).is_present() implies at(u.top(), g, i).flag_bits() == bits by {
            if i != p.l4 {
                assert(at(t.top(), 0, i).is_present());
            }
        }
        assert forall|g: int, i: int|
            u.l3.contains_key(g) && 0 <= i < 512 && (#[trigger] at(
                u.l3,
                g,
                i,
            )).is_present() implies at(u.l3, g, i).flag_bits() == bits by {
            if g != f {
                assert(at(t.l3, g, i).is_present());
            }
        }
    }
    if t.levels(p) == 1 {
        let u = t.with_l2(p, f, e);
        let g0 = t.e4(p).frame_index();
        assert(u.top() == t.top());
        assert forall|g: int, i: int|
            u.l3.contains_key(g) && 0 <= i < 512 && (#[trigger] at(
                u.l3,
                g,
                i,
            )).is_present() implies at(u.l3, g, i).flag_bits() == bits by {
            if !(g == g0 && i == p.l3) {
                assert(at(t.l3, g, i).is_present());
            }
        }
        assert forall|g: int, i: int|
            u.l2.contains_key(g) && 0 <= i < 512 && (#[trigger] at(
                u.l2,
                g,
                i,
            )).is_present() implies at(u.l2, g, i).flag_bits() == bits by {
            if g != f {
                assert(at(t.l2, g, i).is_present());
            }
        }
    }
    if t.levels(p) == 2 {
        let u = t.with_l1(p, f, e);
        let g0 = t.e3(p).frame_index();
        assert(u.top() == t.top());
        assert forall|g: int, i: int|
            u.l2.contains_key(g) && 0 <= i < 512 && (#[trigger] at(
                u.l2,
                g,
                i,
            )).is_present() implies at(u.l2, g, i).flag_bits() == bits by {
            if !(g == g0 && i == p.l2) {
                assert(at(t.l2, g, i).is_present());
            }
        }
    }
}

/// A leaf entry is no entry of a directory: setting one keeps the directories' flags.
pub proof fn lemma_leaf_flagged(t: Tables, p: Path, page: Page, bits: int)
    requires
        t.directories_flagged(bits),
    ensures
        t.with_leaf(p, page).directories_flagged(bits),
{
    assert(t.with_leaf(p, page).top() == t.top());
}

/// Every entry of the tables of `m` that is not present is the empty entry.
pub open spec fn tidy(m: Map<int, Seq<Page>>) -> bool {
    forall|g: int, i: int|
        m.contains_key(g) && 0 <= i < 512 && !(#[trigger] at(m, g, i)).is_present() ==> at(m, g, i)
            == Page::new_spec()
}

/// A hierarchy of an empty root alone has no entry that is not empty.
pub proof fn lemma_fresh_tidy()
    ensures
        Tables::fresh().absent_empty(),
        forall|bits: int| #[trigger] Tables::fresh().directories_flagged(bits),
{
    Page::lemma_new_spec();
    assert(Tables::fresh().top().contains_key(0));
}

/// A new empty table, hung in by a present entry, leaves no entry that is
/// absent and not empty, at whichever level the table is hung in.
pub proof fn lemma_grown_tidy(t: Tables, p: Path, f: int, e: Page)
    requires
        t.wf(),
        p.valid(),
        t.absent_empty(),
        e.is_present(),
    ensures
        t.levels(p) == 0 ==> t.with_l3(p, f, e).absent_empty(),
        t.levels(p) == 1 ==> t.with_l2(p, f, e).absent_empty(),
        t.levels(p) == 2 ==> t.with_l1(p, f, e).absent_empty(),
{
    assert(t.top().contains_key(0));
    lemma_walks_part(t, p, p);
    if t.levels(p) == 0 {
        let u = t.with_l3(p, f, e);
        assert forall|g: int, i: int|
            u.top().contains_key(g) && 0 <= i < 512 && !(#[trigger] at(
                u.top(),
                g,
                i,
            )).is_present() implies at(u.top(), g, i) == Page::new_spec() by {
            if i != p.l4 {
                assert(!at(t.top(), 0, i).is_present());
            }
        }
        assert forall|g: int, i: int|
            u.l3.contains_key(g) && 0 <= i < 512 && !(#[trigger] at(
                u.l3,
                g,
                i,
            )).is_present() implies at(u.l3, g, i) == Page::new_spec() by {
            if g != f {
                assert(!at(t.l3, g, i).is_present());
            }
        }
    }
    if t.levels(p) == 1 {
        let u = t.with_l2(p, f, e);
        let g0 = t.e4(p).frame_index();
        assert(u.top() == t.top());
        assert forall|g: int, i: int|
            u.l3.contains_key(g) && 0 <= i < 512 && !(#[trigger] at(
                u.l3,
                g,
                i,
            )).is_present() implies at(u.l3, g, i) == Page::new_spec() by {
            if !(g == g0 && i == p.l3) {
                assert(!at(t.l3, g, i).is_present());
            }
        }
        assert forall|g: int, i: int|
            u.l2.contains_key(g) && 0 <= i < 512 && !(#[trigger] at(
                u.l2,
                g,
                i,
            )).is_present() implies at(u.l2, g, i) == Page::new_spec() by {
            if g != f {
                assert(!at(t.l2, g, i).is_present());
            }
        }
    }
    if t.levels(p) == 2 {
        let u = t.with_l1(p, f, e);
        let g0 = t.e3(p).frame_index();
        assert(u.top() == t.top());
        assert forall|g: int, i: int|
            u.l2.contains_key(g) && 0 <= i < 512 && !(#[trigger] at(
                u.l2,
                g,
                i,
            )).is_present() implies at(u.l2, g, i) == Page::new_spec() by {
            if !(g == g0 && i == p.l2) {
                assert(!at(t.l2, g, i).is_present());
            }
        }
        assert forall|g: int, i: int|
            u.l1.contains_key(g) && 0 <= i < 512 && !(#[trigger] at(
                u.l1,
                g,
                i,
            )).is_present() implies at(u.l1, g, i) == Page::new_spec() by {
            if g != f {
                assert(!at(t.l1, g, i).is_present());
            }
        }
    }
}

/// A leaf entry that is set to a present entry, or to the empty one,
/// leaves no entry that is absent and not empty.
pub proof fn lemma_leaf_tidy(t: Tables, p: Path, page: Page)
    requires
        t.wf(),
        p.valid(),
        t.levels(p) == 3,
        t.absent_empty(),
        page.is_present() || page == Page::new_spec(),
    ensures
        t.with_leaf(p, page).absent_empty(),
{
    let u = t.with_leaf(p, page);
    let g0 = t.e2(p).frame_index();
    lemma_walks_part(t, p, p);
    assert(u.top() == t.top());
    assert forall|g: int, i: int|
        u.l1.contains_key(g) && 0 <= i < 512 && !(#[trigger] at(
            u.l1,
            g,
            i,
        )).is_present() implies at(u.l1, g, i) == Page::new_spec() by {
        if !(g == g0 && i == p.l1) {
            assert(!at(t.l1, g, i).is_present());
        }
    }
}

} // verus!
