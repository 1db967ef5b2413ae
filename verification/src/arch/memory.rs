//! Bringing up memory: from the boot loader's memory map to an address
//! space that maps all of it onto itself and an allocator for the frames
//! that are left.

use vstd::prelude::*;
use crate::bitmap::{frames_tracked, BitmapAlloc, FrameBitmap};
use crate::bump::{frames_from, placement, prefix_size, regions_ok, BumpAlloc};
use crate::frame::{Frame, MemoryArea, PAGE_SIZE};
use crate::frame_alloc::{AllocError, FrameAlloc};
use crate::multiboot2::{AreaType, BootInfo};
use crate::paging::mapper::{AddressSpace, PageMapper};
use crate::paging::page::{Page, PageFlags};
use crate::paging::tables::{path_of, Path};

verus! {

/// Memory below this address is never handed out.
pub const FIRST_FREE_FRAME: usize = 0x100000;

/// The end of what four levels of tables can map.
pub open spec fn address_limit() -> int {
    0x1_0000_0000_0000
}

/// The first address at or above `addr` that is a multiple of the page size.
pub open spec fn page_up(addr: int) -> int {
    if addr % 0x1000 == 0 {
        addr
    } else {
        addr - addr % 0x1000 + 0x1000
    }
}

/// The last address at or below `addr` that is a multiple of the page size.
pub open spec fn page_down(addr: int) -> int {
    addr - addr % 0x1000
}

/// The larger of two numbers.
pub open spec fn larger(a: int, b: int) -> int {
    if a >= b {
        a
    } else {
        b
    }
}

/// The lowest address from which memory may be handed out: past the first
/// megabyte, the boot information and the kernel image.
pub open spec fn lowest_start(boot_end: int, kernel_end: int) -> int {
    larger(larger(0x100000, boot_end), kernel_end)
}

/// The part of `area` that may be handed out, given that nothing below
/// `floor` may: whole pages only, and only if the area is available memory.
pub open spec fn region_of(area: crate::multiboot2::MemoryArea, floor: int) -> Option<
    (int, int),
> {
    if area.typ == AreaType::Available {
        whole_pages(larger(area.base_addr as usize as int, floor), area.end())
    } else {
        None
    }
}

/// The whole pages between `start` and `end`, by start and size, if there are any.
pub open spec fn whole_pages(start: int, end: int) -> Option<(int, int)> {
    if page_up(start) < page_down(end) {
        Some((page_up(start), page_down(end) - page_up(start)))
    } else {
        None
    }
}

/// The whole pages between `start` and `end`.
pub fn cut_to_pages(start: usize, end: usize) -> (r: Option<MemoryArea>)
    ensures
        match whole_pages(start as int, end as int) {
            Some(pages) => r is Some && r->Some_0.base() == pages.0 && r->Some_0.length()
                == pages.1 && r->Some_0.wf() && r->Some_0.page_aligned() && r->Some_0.base()
                >= start && r->Some_0.length() > 0,
            None => r is None,
        },
{
    let last = end - end % PAGE_SIZE;
    let rest = start % PAGE_SIZE;
    let first = if rest == 0 {
        start
    } else if start - rest < last {
        start - rest + PAGE_SIZE
    } else {
        return None;
    };
    if first < last {
        Some(MemoryArea::new(first, last - first))
    } else {
        None
    }
}

/// The regions of `areas`, in order, each as its start and its size. A
/// region starts no lower than the region before it ends.
pub open spec fn regions_from(areas: Seq<crate::multiboot2::MemoryArea>, floor: int) -> Seq<
    (int, int),
>
    decreases areas.len(),
{
    if areas.len() == 0 {
        Seq::empty()
    } else {
        match region_of(areas[0], floor) {
            Some(region) => regions_from(areas.skip(1), region.0 + region.1).insert(0, region),
            None => regions_from(areas.skip(1), floor),
        }
    }
}

/// The areas that `pairs` give by start and size.
pub open spec fn region_areas(pairs: Seq<(int, int)>) -> Seq<MemoryArea> {
    Seq::new(pairs.len(), |k: int| MemoryArea::of(pairs[k].0 as usize, pairs[k].1 as usize))
}

/// The regions from which frames are handed out when the kernel boots with
/// the memory map `areas`, its boot information ending at `boot_end` and
/// its own image at `kernel_end`.
pub open spec fn boot_regions(
    areas: Seq<crate::multiboot2::MemoryArea>,
    boot_end: int,
    kernel_end: int,
) -> Seq<MemoryArea> {
    region_areas(regions_from(areas, lowest_start(boot_end, kernel_end)))
}

/// `regions` are the areas that `pairs` give by start and size.
pub open spec fn same_regions(regions: Seq<MemoryArea>, pairs: Seq<(int, int)>) -> bool {
    &&& regions.len() == pairs.len()
    &&& forall|k: int|
        0 <= k < regions.len() ==> (#[trigger] regions[k]).base() == pairs[k].0
            && regions[k].length() == pairs[k].1
}

/// Every area ends at an address that the tables can map.
pub open spec fn areas_ok(areas: Seq<crate::multiboot2::MemoryArea>) -> bool {
    forall|i: int|
        0 <= i < areas.len() ==> (#[trigger] areas[i]).end() <= usize::MAX && areas[i].end()
            <= address_limit()
}

proof fn lemma_regions_step(
    areas: Seq<crate::multiboot2::MemoryArea>,
    i: int,
    floor0: int,
    floor: int,
    done: Seq<(int, int)>,
)
    requires
        0 <= i < areas.len(),
        regions_from(areas, floor0) == done + regions_from(areas.skip(i), floor),
    ensures
        match region_of(areas[i], floor) {
            Some(region) => regions_from(areas, floor0) == done.push(region) + regions_from(
                areas.skip(i + 1),
                region.0 + region.1,
            ),
            None => regions_from(areas, floor0) == done + regions_from(areas.skip(i + 1), floor),
        },
{
    let rest = areas.skip(i);
    assert(rest[0] == areas[i]);
    assert(rest.skip(1) =~= areas.skip(i + 1));
    match region_of(areas[i], floor) {
        Some(region) => {
            let tail = regions_from(areas.skip(i + 1), region.0 + region.1);
            assert(done + tail.insert(0, region) =~= done.push(region) + tail);
        },
        None => {},
    }
}

/// The part of `area` that may be handed out, given that nothing below `floor` may.
pub fn usable_part(area: &crate::multiboot2::MemoryArea, floor: usize) -> (r: Option<MemoryArea>)
    requires
        area.end() <= usize::MAX,
    ensures
        match region_of(*area, floor as int) {
            Some(region) => r is Some && r->Some_0.base() == region.0 && r->Some_0.length()
                == region.1 && r->Some_0.wf() && r->Some_0.page_aligned() && r->Some_0.base()
                >= floor && r->Some_0.length() > 0,
            None => r is None,
        },
{
    let available = match area.typ() {
        AreaType::Available => true,
        _ => false,
    };
    if !available {
        return None;
    }
    let mut start = area.start_addr();
    if floor > start {
        start = floor;
    }
    cut_to_pages(start, area.end_addr())
}

/// The regions of `areas` from which frames are handed out.
pub fn regions(areas: &[crate::multiboot2::MemoryArea], boot_end: usize, kernel_end: usize) -> (v:
    Vec<MemoryArea>)
    requires
        forall|i: int| 0 <= i < areas@.len() ==> (#[trigger] areas@[i]).end() <= usize::MAX,
    ensures
        regions_ok(v@),
        same_regions(v@, regions_from(areas@, lowest_start(boot_end as int, kernel_end as int))),
        v@ == boot_regions(areas@, boot_end as int, kernel_end as int),
{
    let mut floor = FIRST_FREE_FRAME;
    if boot_end > floor {
        floor = boot_end;
    }
    if kernel_end > floor {
        floor = kernel_end;
    }
    let ghost floor0 = floor as int;
    let mut v: Vec<MemoryArea> = Vec::new();
    let ghost mut pairs: Seq<(int, int)> = Seq::empty();
    let mut i: usize = 0;
    proof {
        assert(areas@.skip(0) =~= areas@);
        assert(pairs + regions_from(areas@.skip(0), floor as int) =~= regions_from(
            areas@,
            floor0,
        ));
    }
    while i < areas.len()
        invariant
            i <= areas.len(),
            forall|i: int| 0 <= i < areas@.len() ==> (#[trigger] areas@[i]).end() <= usize::MAX,
            same_regions(v@, pairs),
            regions_from(areas@, floor0) == pairs + regions_from(
                areas@.skip(i as int),
                floor as int,
            ),
            forall|k: int|
                0 <= k < v@.len() ==> (#[trigger] v@[k]).wf() && v@[k].page_aligned() && v@[k].end()
                    <= floor,
            forall|j: int, k: int|
                0 <= j < k < v@.len() ==> (#[trigger] v@[j]).end() <= (#[trigger] v@[k]).base(),
            prefix_size(v@, v@.len() as int) <= floor,
        decreases areas.len() - i,
    {
        proof {
            assert(areas@[i as int].end() <= usize::MAX);
            lemma_regions_step(areas@, i as int, floor0, floor as int, pairs);
        }
        match usable_part(&areas[i], floor) {
            Some(region) => {
                let ghost before = v@;
                proof {
                    pairs = pairs.push((region.base() as int, region.length() as int));
                }
                floor = region.end_addr();
                v.push(region);
                proof {
                    assert(v@.drop_last() =~= before);
                    lemma_prefix_same(v@, before, before.len() as int);
                    assert forall|j: int, k: int| 0 <= j < k < v@.len() implies (
                    #[trigger] v@[j]).end() <= (#[trigger] v@[k]).base() by {
                        assert(v@[j] == before[j]);
                        if k < before.len() {
                            assert(v@[k] == before[k]);
                        }
                    }
                }
            },
            None => {},
        }
        i += 1;
    }
    proof {
        assert(areas@.skip(areas@.len() as int) =~= Seq::<crate::multiboot2::MemoryArea>::empty());
        assert(pairs + Seq::<(int, int)>::empty() =~= pairs);
        assert forall|k: int| 0 <= k < v@.len() implies v@[k] == region_areas(pairs)[k] by {
            MemoryArea::lemma_of(v@[k].base(), v@[k].length());
        }
        assert(v@ =~= region_areas(pairs));
    }
    v
}

proof fn lemma_prefix_same(a: Seq<MemoryArea>, b: Seq<MemoryArea>, k: int)
    requires
        0 <= k <= a.len(),
        k <= b.len(),
        forall|j: int| 0 <= j < k ==> a[j] == b[j],
    ensures
        prefix_size(a, k) == prefix_size(b, k),
    decreases k,
{
    if k > 0 {
        lemma_prefix_same(a, b, k - 1);
    }
}

/// `a` is one of the addresses of `area` at which a page is mapped: the
/// start of the area and every page size from there, up to its end.
pub open spec fn on_grid(area: crate::multiboot2::MemoryArea, a: int) -> bool {
    area.base_addr as usize <= a < area.end() && (a - area.base_addr as usize) % 0x1000 == 0
}

/// `a` is an address of one of `areas` at which a page is mapped.
pub open spec fn covered(areas: Seq<crate::multiboot2::MemoryArea>, a: int) -> bool {
    exists|i: int| 0 <= i < areas.len() && on_grid(#[trigger] areas[i], a)
}

/// `page` maps the page of address `a` onto itself: present, writable, nothing else.
pub open spec fn identity_entry(page: Page, a: int) -> bool {
    page.frame_index() == a / 0x1000 && page.flag_bits() == 3
}

/// `a` was mapped by the time the first `i` of `areas` were done and area
/// `i` was mapped up to `cursor`.
spec fn visited(
    areas: Seq<crate::multiboot2::MemoryArea>,
    i: int,
    cursor: int,
    a: int,
) -> bool {
    (exists|j: int| 0 <= j < i && j < areas.len() && on_grid(#[trigger] areas[j], a)) || (0 <= i
        < areas.len() && on_grid(areas[i], a) && a < cursor)
}

/// `view` maps what was visited onto itself, and nothing else.
#[verifier::opaque]
spec fn identity_so_far(
    view: Map<Path, Page>,
    areas: Seq<crate::multiboot2::MemoryArea>,
    i: int,
    cursor: int,
) -> bool {
    &&& forall|a: usize| #[trigger]
        visited(areas, i, cursor, a as int) ==> view.contains_key(path_of(a)) && identity_entry(
            view[path_of(a)],
            a as int,
        )
    &&& forall|p: Path| #[trigger]
        view.contains_key(p) ==> exists|a: usize| #[trigger]
            visited(areas, i, cursor, a as int) && path_of(a) == p
}

/// `view` maps every page of `areas` onto itself, and nothing else.
pub open spec fn identity_mapped(view: Map<Path, Page>, areas: Seq<crate::multiboot2::MemoryArea>) -> bool {
    &&& forall|a: usize| #[trigger]
        covered(areas, a as int) ==> view.contains_key(path_of(a)) && identity_entry(
            view[path_of(a)],
            a as int,
        )
    &&& forall|p: Path| #[trigger]
        view.contains_key(p) ==> exists|a: usize| #[trigger]
            covered(areas, a as int) && path_of(a) == p
}

proof fn lemma_same_page_bits(a: u64, b: u64)
    by (bit_vector)
    requires
        a < 0x1_0000_0000_0000,
        b < 0x1_0000_0000_0000,
        (a / 0x80_0000_0000) % 512 == (b / 0x80_0000_0000) % 512,
        (a / 0x4000_0000) % 512 == (b / 0x4000_0000) % 512,
        (a / 0x20_0000) % 512 == (b / 0x20_0000) % 512,
        (a / 0x1000) % 512 == (b / 0x1000) % 512,
    ensures
        a / 0x1000 == b / 0x1000,
{
}

/// Below the limit of the tables, addresses with the same walk lie in the same page.
pub proof fn lemma_same_page(a: usize, b: usize)
    requires
        a < address_limit(),
        b < address_limit(),
        path_of(a) == path_of(b),
    ensures
        a / 0x1000 == b / 0x1000,
{
    lemma_same_page_bits(a as u64, b as u64);
}

proof fn lemma_visited_start(areas: Seq<crate::multiboot2::MemoryArea>, i: int)
    requires
        0 <= i < areas.len(),
    ensures
        forall|a: usize|
            visited(areas, i, areas[i].base_addr as usize as int, a as int) == visited(
                areas,
                i,
                0,
                a as int,
            ),
{
}

proof fn lemma_visited_end(areas: Seq<crate::multiboot2::MemoryArea>, i: int, cursor: int)
    requires
        0 <= i < areas.len(),
        cursor >= areas[i].end(),
    ensures
        forall|a: usize|
            visited(areas, i, cursor, a as int) == visited(areas, i + 1, 0, a as int),
{
    assert forall|a: usize|
        visited(areas, i, cursor, a as int) == visited(areas, i + 1, 0, a as int) by {
        if visited(areas, i, cursor, a as int) {
            if on_grid(areas[i], a as int) {
                assert(0 <= i < i + 1 && i < areas.len() && on_grid(areas[i], a as int));
            } else {
                let j = choose|j: int|
                    0 <= j < i && j < areas.len() && on_grid(#[trigger] areas[j], a as int);
                assert(0 <= j < i + 1 && j < areas.len() && on_grid(areas[j], a as int));
            }
        }
        if visited(areas, i + 1, 0, a as int) {
            let j = choose|j: int|
                0 <= j < i + 1 && j < areas.len() && on_grid(#[trigger] areas[j], a as int);
            if j < i {
                assert(0 <= j < i && j < areas.len() && on_grid(areas[j], a as int));
            }
        }
    }
}

proof fn lemma_visited_all(areas: Seq<crate::multiboot2::MemoryArea>)
    ensures
        forall|a: usize|
            visited(areas, areas.len() as int, 0, a as int) == covered(areas, a as int),
{
    assert forall|a: usize|
        visited(areas, areas.len() as int, 0, a as int) == covered(areas, a as int) by {
        if visited(areas, areas.len() as int, 0, a as int) {
            let j = choose|j: int|
                0 <= j < areas.len() && j < areas.len() && on_grid(#[trigger] areas[j], a as int);
            assert(0 <= j < areas.len() && on_grid(areas[j], a as int));
        }
        if covered(areas, a as int) {
            let j = choose|j: int| 0 <= j < areas.len() && on_grid(#[trigger] areas[j], a as int);
            assert(0 <= j < areas.len() && j < areas.len() && on_grid(areas[j], a as int));
        }
    }
}

proof fn lemma_same_visited(
    view: Map<Path, Page>,
    areas: Seq<crate::multiboot2::MemoryArea>,
    i1: int,
    c1: int,
    i2: int,
    c2: int,
)
    requires
        identity_so_far(view, areas, i1, c1),
        forall|a: usize| visited(areas, i1, c1, a as int) == visited(areas, i2, c2, a as int),
    ensures
        identity_so_far(view, areas, i2, c2),
{
    reveal(identity_so_far);
    assert forall|a: usize| #[trigger] visited(areas, i2, c2, a as int) implies view.contains_key(
        path_of(a),
    ) && identity_entry(view[path_of(a)], a as int) by {
        assert(visited(areas, i1, c1, a as int));
    }
    assert forall|p: Path| #[trigger] view.contains_key(p) implies exists|a: usize| #[trigger]
        visited(areas, i2, c2, a as int) && path_of(a) == p by {
        let a = choose|a: usize| #[trigger] visited(areas, i1, c1, a as int) && path_of(a) == p;
        assert(visited(areas, i2, c2, a as int) && path_of(a) == p);
    }
}

proof fn lemma_visited_limit(areas: Seq<crate::multiboot2::MemoryArea>, i: int, c: int, a: usize)
    requires
        areas_ok(areas),
        visited(areas, i, c, a as int),
    ensures
        a < address_limit(),
{
    if 0 <= i < areas.len() && on_grid(areas[i], a as int) {
        assert(areas[i].end() <= address_limit());
    } else {
        let j = choose|j: int|
            0 <= j < i && j < areas.len() && on_grid(#[trigger] areas[j], a as int);
        assert(areas[j].end() <= address_limit());
    }
}

proof fn lemma_visit(
    view: Map<Path, Page>,
    areas: Seq<crate::multiboot2::MemoryArea>,
    i: int,
    addr: usize,
    page: Page,
)
    requires
        areas_ok(areas),
        0 <= i < areas.len(),
        on_grid(areas[i], addr as int),
        identity_so_far(view, areas, i, addr as int),
        identity_entry(page, addr as int),
    ensures
        identity_so_far(view.insert(path_of(addr), page), areas, i, addr + 0x1000),
{
    reveal(identity_so_far);
    let after = view.insert(path_of(addr), page);
    let next = addr + 0x1000;
    assert(visited(areas, i, next, addr as int));
    assert forall|a: usize| #[trigger] visited(areas, i, next, a as int) implies after.contains_key(
        path_of(a),
    ) && identity_entry(after[path_of(a)], a as int) by {
        if a != addr {
            assert(visited(areas, i, addr as int, a as int)) by {
                if on_grid(areas[i], a as int) && a < next {
                    assert(a < addr) by {
                        assert((a - areas[i].base_addr as usize) % 0x1000 == 0);
                        assert((addr - areas[i].base_addr as usize) % 0x1000 == 0);
                    }
                }
            }
        }
        if path_of(a) == path_of(addr) {
            lemma_visited_limit(areas, i, next, a);
            lemma_visited_limit(areas, i, next, addr);
            lemma_same_page(a, addr);
        }
    }
    assert forall|p: Path| #[trigger] after.contains_key(p) implies exists|a: usize| #[trigger]
        visited(areas, i, next, a as int) && path_of(a) == p by {
        if p == path_of(addr) {
            assert(visited(areas, i, next, addr as int) && path_of(addr) == p);
        } else {
            let a = choose|a: usize| #[trigger]
                visited(areas, i, addr as int, a as int) && path_of(a) == p;
            assert(visited(areas, i, next, a as int) && path_of(a) == p);
        }
    }
}

/// A number for the table that the walk to `p` passes `d` levels below
/// the root, `d` from 1 to 3: walks pass the same table at that depth
/// exactly if the numbers are the same.
pub open spec fn dir_id(p: Path, d: int) -> int {
    if d == 1 {
        1 + p.l4
    } else if d == 2 {
        1000 + p.l4 * 512 + p.l3
    } else {
        1_000_000 + (p.l4 * 512 + p.l3) * 512 + p.l2
    }
}

/// The tables below the root that it takes to map every page of `areas`.
pub open spec fn tables_needed(areas: Seq<crate::multiboot2::MemoryArea>) -> Set<int> {
    Set::new(
        |id: int|
            exists|a: usize, d: int|
                1 <= d <= 3 && covered(areas, a as int) && id == #[trigger] dir_id(path_of(a), d),
    )
}

/// `made` are the tables that it takes to map what was visited.
#[verifier::opaque]
spec fn made_so_far(
    made: Set<int>,
    areas: Seq<crate::multiboot2::MemoryArea>,
    i: int,
    cursor: int,
) -> bool {
    &&& made.finite()
    &&& forall|id: int| #[trigger]
        made.contains(id) ==> exists|a: usize, d: int|
            1 <= d <= 3 && visited(areas, i, cursor, a as int) && id == #[trigger] dir_id(
                path_of(a),
                d,
            )
    &&& forall|a: usize, d: int|
        1 <= d <= 3 && visited(areas, i, cursor, a as int) ==> made.contains(
            #[trigger] dir_id(path_of(a), d),
        )
}

/// The walks of `levels` pass exactly the tables of `made`.
#[verifier::opaque]
spec fn levels_match(levels: spec_fn(Path) -> nat, made: Set<int>) -> bool {
    forall|q: Path, d: int|
        q.valid() && 1 <= d <= 3 ==> (levels(q) >= d) == made.contains(#[trigger] dir_id(q, d))
}

/// The numbers of tables tell the tables apart.
pub proof fn lemma_dir_id(p: Path, q: Path, d: int, e: int)
    requires
        p.valid(),
        q.valid(),
        1 <= d <= 3,
        1 <= e <= 3,
    ensures
        0 <= dir_id(p, d) < 200_000_000,
        (dir_id(p, d) == dir_id(q, e)) == (d == e && p.shared(q) >= d),
{
}

/// Only finitely many tables are needed.
pub proof fn lemma_tables_needed_finite(areas: Seq<crate::multiboot2::MemoryArea>)
    ensures
        tables_needed(areas).finite(),
{
    let range = vstd::set_lib::set_int_range(0, 200_000_000);
    vstd::set_lib::lemma_int_range(0, 200_000_000);
    assert forall|id: int| tables_needed(areas).contains(id) implies range.contains(id) by {
        let (a, d) = choose|a: usize, d: int|
            1 <= d <= 3 && covered(areas, a as int) && id == #[trigger] dir_id(path_of(a), d);
        lemma_dir_id(path_of(a), path_of(a), d, d);
    }
    vstd::set_lib::lemma_set_subset_finite(range, tables_needed(areas));
}

proof fn lemma_same_made(
    made: Set<int>,
    areas: Seq<crate::multiboot2::MemoryArea>,
    i1: int,
    c1: int,
    i2: int,
    c2: int,
)
    requires
        made_so_far(made, areas, i1, c1),
        forall|a: usize| visited(areas, i1, c1, a as int) == visited(areas, i2, c2, a as int),
    ensures
        made_so_far(made, areas, i2, c2),
{
    reveal(made_so_far);
    assert forall|id: int| #[trigger] made.contains(id) implies exists|a: usize, d: int|
        1 <= d <= 3 && visited(areas, i2, c2, a as int) && id == #[trigger] dir_id(
            path_of(a),
            d,
        ) by {
        let (a, d) = choose|a: usize, d: int|
            1 <= d <= 3 && visited(areas, i1, c1, a as int) && id == #[trigger] dir_id(
                path_of(a),
                d,
            );
        assert(visited(areas, i2, c2, a as int) && id == dir_id(path_of(a), d));
    }
    assert forall|a: usize, d: int|
        1 <= d <= 3 && visited(areas, i2, c2, a as int) implies made.contains(
        #[trigger] dir_id(path_of(a), d),
    ) by {
        assert(visited(areas, i1, c1, a as int));
    }
}

/// The tables of `made` together with those of the walk to `p`.
spec fn with_walk(made: Set<int>, p: Path) -> Set<int> {
    made.insert(dir_id(p, 1)).insert(dir_id(p, 2)).insert(dir_id(p, 3))
}

proof fn lemma_made_step(
    made: Set<int>,
    areas: Seq<crate::multiboot2::MemoryArea>,
    i: int,
    addr: usize,
)
    requires
        0 <= i < areas.len(),
        on_grid(areas[i], addr as int),
        made_so_far(made, areas, i, addr as int),
    ensures
        made_so_far(with_walk(made, path_of(addr)), areas, i, addr + 0x1000),
{
    reveal(made_so_far);
    let p = path_of(addr);
    let after = with_walk(made, p);
    let next = addr + 0x1000;
    assert(visited(areas, i, next, addr as int));
    assert forall|id: int| #[trigger] after.contains(id) implies exists|a: usize, d: int|
        1 <= d <= 3 && visited(areas, i, next, a as int) && id == #[trigger] dir_id(
            path_of(a),
            d,
        ) by {
        if made.contains(id) {
            let (a, d) = choose|a: usize, d: int|
                1 <= d <= 3 && visited(areas, i, addr as int, a as int) && id
                    == #[trigger] dir_id(path_of(a), d);
            assert(visited(areas, i, next, a as int) && id == dir_id(path_of(a), d));
        } else {
            let d = if id == dir_id(p, 1) {
                1int
            } else if id == dir_id(p, 2) {
                2int
            } else {
                3int
            };
            assert(1 <= d <= 3 && visited(areas, i, next, addr as int) && id == dir_id(
                path_of(addr),
                d,
            ));
        }
    }
    assert forall|a: usize, d: int|
        1 <= d <= 3 && visited(areas, i, next, a as int) implies after.contains(
        #[trigger] dir_id(path_of(a), d),
    ) by {
        if a != addr {
            assert(visited(areas, i, addr as int, a as int)) by {
                if on_grid(areas[i], a as int) && a < next {
                    assert((a - areas[i].base_addr as usize) % 0x1000 == 0);
                    assert((addr - areas[i].base_addr as usize) % 0x1000 == 0);
                }
            }
        }
    }
}

/// How the tables of a walk add to those that were made: by as many as the walk lacked.
proof fn lemma_walk_count(levels: spec_fn(Path) -> nat, made: Set<int>, p: Path)
    requires
        made.finite(),
        p.valid(),
        levels(p) <= 3,
        levels_match(levels, made),
    ensures
        with_walk(made, p).finite(),
        with_walk(made, p).len() == made.len() + 3 - levels(p),
        levels_match(
            |q: Path| crate::paging::mapper::levels_after(levels(q), p.shared(q), 3),
            with_walk(made, p),
        ),
{
    reveal(levels_match);
    let id1 = dir_id(p, 1);
    let id2 = dir_id(p, 2);
    let id3 = dir_id(p, 3);
    lemma_dir_id(p, p, 1, 2);
    lemma_dir_id(p, p, 1, 3);
    lemma_dir_id(p, p, 2, 3);
    assert((levels(p) >= 1) == made.contains(id1));
    assert((levels(p) >= 2) == made.contains(id2));
    assert((levels(p) >= 3) == made.contains(id3));
    let m1 = made.insert(id1);
    let m2 = m1.insert(id2);
    assert(m1.len() == made.len() + (if made.contains(id1) { 0int } else { 1 }));
    assert(m2.len() == m1.len() + (if m1.contains(id2) { 0int } else { 1 }));
    assert(m2.insert(id3).len() == m2.len() + (if m2.contains(id3) { 0int } else { 1 }));
    let after = with_walk(made, p);
    let grown = |q: Path| crate::paging::mapper::levels_after(levels(q), p.shared(q), 3);
    assert forall|q: Path, d: int| q.valid() && 1 <= d <= 3 implies (grown(q) >= d)
        == after.contains(#[trigger] dir_id(q, d)) by {
        lemma_dir_id(q, p, d, 1);
        lemma_dir_id(q, p, d, 2);
        lemma_dir_id(q, p, d, 3);
        assert((levels(q) >= d) == made.contains(dir_id(q, d)));
    }
}

/// What was made on the way is among what is needed in the end.
proof fn lemma_made_needed(
    made: Set<int>,
    areas: Seq<crate::multiboot2::MemoryArea>,
    i: int,
    cursor: int,
)
    requires
        made_so_far(made, areas, i, cursor),
        0 <= i <= areas.len(),
    ensures
        made.subset_of(tables_needed(areas)),
        made.len() <= tables_needed(areas).len(),
{
    reveal(made_so_far);
    assert forall|id: int| made.contains(id) implies tables_needed(areas).contains(id) by {
        let (a, d) = choose|a: usize, d: int|
            1 <= d <= 3 && visited(areas, i, cursor, a as int) && id == #[trigger] dir_id(
                path_of(a),
                d,
            );
        if 0 <= i < areas.len() && on_grid(areas[i], a as int) {
            assert(covered(areas, a as int));
        } else {
            let j = choose|j: int|
                0 <= j < i && j < areas.len() && on_grid(#[trigger] areas[j], a as int);
            assert(0 <= j < areas.len() && on_grid(areas[j], a as int));
        }
        assert(1 <= d <= 3 && covered(areas, a as int) && id == dir_id(path_of(a), d));
    }
    lemma_tables_needed_finite(areas);
    vstd::set_lib::lemma_len_subset(made, tables_needed(areas));
}

/// Maps the page of `addr` onto itself, present and writable.
fn map_onto_itself<F: FrameAlloc>(
    mapper: &mut PageMapper<F>,
    addr: usize,
    Ghost(made): Ghost<Set<int>>,
) -> (r: bool)
    requires
        old(mapper).wf(),
        old(mapper).tables().directories_flagged(3),
        old(mapper).tables().absent_empty(),
        made.finite(),
        levels_match(|q: Path| old(mapper).levels(q), made),
    ensures
        final(mapper).wf(),
        final(mapper).tables().directories_flagged(3),
        final(mapper).tables().absent_empty(),
        final(mapper).root_frame() == old(mapper).root_frame(),
        final(mapper).allocator().follows(&old(mapper).allocator()),
        final(mapper).free_frames().subset_of(old(mapper).free_frames()),
        final(mapper).table_frames() == old(mapper).table_frames().union(
            old(mapper).free_frames().difference(final(mapper).free_frames()),
        ),
        with_walk(made, path_of(addr)).finite(),
        with_walk(made, path_of(addr)).len() == made.len() + 3 - old(mapper).levels(path_of(addr)),
        r <==> old(mapper).free_frames().len() >= 3 - old(mapper).levels(path_of(addr)),
        !r ==> final(mapper).free_frames().len() == 0,
        r ==> {
            &&& final(mapper)@.contains_key(path_of(addr))
            &&& identity_entry(final(mapper)@[path_of(addr)], addr as int)
            &&& final(mapper)@ == old(mapper)@.insert(path_of(addr), final(mapper)@[path_of(addr)])
            &&& levels_match(|q: Path| final(mapper).levels(q), with_walk(made, path_of(addr)))
            &&& final(mapper).free_frames().len() + with_walk(made, path_of(addr)).len() == old(mapper).free_frames().len() + made.len()
        },
{
    let flags = PageFlags::present().bitor(PageFlags::write());
    let ghost before = mapper@;
    let ghost entries = mapper.entries();
    let ghost p = path_of(addr);
    let ghost levels = |q: Path| mapper.levels(q);
    proof {
        mapper.lemma_wf();
        assert(levels(p) <= 3);
        lemma_walk_count(levels, made, p);
        use_type_invariant(flags);
        crate::paging::mapper::lemma_dir_bits(flags, flags);
        assert(crate::paging::mapper::dir_bits(flags) == 3);
    }
    match mapper.map_page(addr, Frame::from_addr(addr), flags) {
        Ok(page) => {
            proof {
                crate::paging::mapper::lemma_map_then_get(entries, p, *page);
            }
        },
        Err(_) => {
            return false;
        },
    }
    proof {
        reveal(levels_match);
        let page = mapper@[p];
        assert(mapper@ == before.insert(p, page));
        assert(identity_entry(page, addr as int));
        assert forall|q: Path, d: int| q.valid() && 1 <= d <= 3 implies (mapper.levels(q) >= d)
            == with_walk(made, p).contains(#[trigger] dir_id(q, d)) by {
            assert(mapper.levels(q) == crate::paging::mapper::levels_after(
                levels(q),
                p.shared(q),
                3,
            ));
        }
    }
    true
}

/// Maps every page of `areas` onto itself, present and writable, in an
/// address space that holds no table but its root. The entries of the
/// directories that it makes are present and writable too. Fails exactly
/// where the allocator has fewer frames than the mapping takes tables.
pub fn identity_map<F: FrameAlloc>(
    mapper: &mut PageMapper<F>,
    areas: &[crate::multiboot2::MemoryArea],
) -> (r: Result<(), AllocError>)
    requires
        old(mapper).wf(),
        areas_ok(areas@),
        forall|q: Path| q.valid() ==> #[trigger] old(mapper).levels(q) == 0,
        old(mapper).tables().directories_flagged(3),
        old(mapper).tables().absent_empty(),
    ensures
        final(mapper).wf(),
        final(mapper).tables().directories_flagged(3),
        final(mapper).tables().absent_empty(),
        final(mapper).root_frame() == old(mapper).root_frame(),
        final(mapper).allocator().follows(&old(mapper).allocator()),
        final(mapper).free_frames().subset_of(old(mapper).free_frames()),
        final(mapper).table_frames() == old(mapper).table_frames().union(
            old(mapper).free_frames().difference(final(mapper).free_frames()),
        ),
        r is Ok <==> old(mapper).free_frames().len() >= tables_needed(areas@).len(),
        r is Ok ==> identity_mapped(final(mapper)@, areas@) && final(mapper).free_frames().len()
            == old(mapper).free_frames().len() - tables_needed(areas@).len(),
        r is Err ==> final(mapper).free_frames().len() == 0,
{
    let ghost tf0 = mapper.table_frames();
    let ghost fr0 = mapper.free_frames();
    let ghost a0 = mapper.allocator();
    let ghost mut made: Set<int> = Set::empty();
    let mut i: usize = 0;
    proof {
        reveal(identity_so_far);
        reveal(made_so_far);
        reveal(levels_match);
        a0.lemma_follows_itself();
        assert(tf0 =~= tf0.union(fr0.difference(fr0)));
        assert forall|a: usize| !visited(areas@, 0, 0, a as int) by {}
        assert forall|q: Path| !mapper.entries().contains_key(q) by {
            if q.valid() {
                assert(mapper.levels(q) == 0);
            }
        }
        assert(mapper@ =~= Map::<Path, Page>::empty());
        assert forall|q: Path, d: int| q.valid() && 1 <= d <= 3 implies (mapper.levels(q) >= d)
            == made.contains(#[trigger] dir_id(q, d)) by {}
    }
    while i < areas.len()
        invariant
            i <= areas.len(),
            areas_ok(areas@),
            mapper.wf(),
            mapper.tables().directories_flagged(3),
            mapper.tables().absent_empty(),
            mapper.root_frame() == old(mapper).root_frame(),
            tf0 == old(mapper).table_frames(),
            fr0 == old(mapper).free_frames(),
            a0 == old(mapper).allocator(),
            mapper.allocator().follows(&a0),
            mapper.free_frames().subset_of(fr0),
            mapper.table_frames() == tf0.union(fr0.difference(mapper.free_frames())),
            identity_so_far(mapper@, areas@, i as int, 0),
            made.finite(),
            made_so_far(made, areas@, i as int, 0),
            levels_match(|q: Path| mapper.levels(q), made),
            mapper.free_frames().len() + made.len() == fr0.len(),
        decreases areas.len() - i,
    {
        let area = areas[i];
        proof {
            assert(areas@[i as int].end() <= usize::MAX);
        }
        let end = area.end_addr();
        let mut addr = area.start_addr();
        let ghost mut cursor: int = addr as int;
        proof {
            lemma_visited_start(areas@, i as int);
            lemma_same_visited(mapper@, areas@, i as int, 0, i as int, cursor);
            lemma_same_made(made, areas@, i as int, 0, i as int, cursor);
        }
        while addr < end
            invariant
                i < areas.len(),
                area == areas@[i as int],
                end == area.end(),
                areas_ok(areas@),
                addr < end ==> cursor == addr && on_grid(area, addr as int),
                addr >= end ==> cursor >= end,
                mapper.wf(),
                mapper.tables().directories_flagged(3),
                mapper.tables().absent_empty(),
                mapper.root_frame() == old(mapper).root_frame(),
                tf0 == old(mapper).table_frames(),
                fr0 == old(mapper).free_frames(),
                a0 == old(mapper).allocator(),
                mapper.allocator().follows(&a0),
                mapper.free_frames().subset_of(fr0),
                mapper.table_frames() == tf0.union(fr0.difference(mapper.free_frames())),
                identity_so_far(mapper@, areas@, i as int, cursor),
                made.finite(),
                made_so_far(made, areas@, i as int, cursor),
                levels_match(|q: Path| mapper.levels(q), made),
                mapper.free_frames().len() + made.len() == fr0.len(),
            decreases end - addr,
        {
            let ghost before = mapper@;
            let ghost p = path_of(addr);
            let ghost a1 = mapper.allocator();
            proof {
                lemma_made_step(made, areas@, i as int, addr);
            }
            let mapped = map_onto_itself(mapper, addr, Ghost(made));
            proof {
                mapper.allocator().lemma_follows_on(&a1, &a0);
                assert(mapper.table_frames() =~= tf0.union(fr0.difference(mapper.free_frames())));
            }
            if !mapped {
                proof {
                    lemma_made_needed(with_walk(made, p), areas@, i as int, addr + 0x1000);
                }
                return Err(AllocError::NoMemory);
            }
            proof {
                lemma_visit(before, areas@, i as int, addr, mapper@[p]);
                cursor = addr + 0x1000;
                made = with_walk(made, p);
            }
            if end - addr <= PAGE_SIZE {
                addr = end;
            } else {
                addr = addr + PAGE_SIZE;
            }
        }
        proof {
            lemma_visited_end(areas@, i as int, cursor);
            lemma_same_visited(mapper@, areas@, i as int, cursor, i + 1, 0);
            lemma_same_made(made, areas@, i as int, cursor, i + 1, 0);
        }
        i += 1;
    }
    proof {
        reveal(identity_so_far);
        reveal(made_so_far);
        lemma_visited_all(areas@);
        lemma_made_needed(made, areas@, i as int, 0);
        assert(made =~= tables_needed(areas@)) by {
            assert forall|id: int| tables_needed(areas@).contains(id) implies made.contains(id) by {
                let (a, d) = choose|a: usize, d: int|
                    1 <= d <= 3 && covered(areas@, a as int) && id == #[trigger] dir_id(
                        path_of(a),
                        d,
                    );
                assert(visited(areas@, i as int, 0, a as int));
            }
        }
        assert(identity_mapped(mapper@, areas@)) by {
            assert forall|a: usize| #[trigger] covered(areas@, a as int) implies mapper@.contains_key(
                path_of(a),
            ) && identity_entry(mapper@[path_of(a)], a as int) by {
                assert(visited(areas@, i as int, 0, a as int));
            }
            assert forall|q: Path| #[trigger] mapper@.contains_key(q) implies exists|a: usize| #[trigger]
                covered(areas@, a as int) && path_of(a) == q by {
                let a = choose|a: usize| #[trigger]
                    visited(areas@, i as int, 0, a as int) && path_of(a) == q;
                assert(covered(areas@, a as int) && path_of(a) == q);
            }
        }
    }
    Ok(())
}

/// Why memory could not be brought up.
#[derive(Debug, Clone, Copy, PartialEq, Eq, Structural)]
pub enum InitError {
    /// The boot information holds no memory map that can be read.
    NoMemoryMap,
    /// An area of the memory map ends beyond what the tables can map.
    AreaOutOfRange,
    /// The frames of the regions do not suffice for the tables and the bitmap.
    NoMemory,
}

/// Whether every area ends at an address that the tables can map.
pub fn areas_in_range(areas: &[crate::multiboot2::MemoryArea]) -> (b: bool)
    ensures
        b == areas_ok(areas@),
{
    let mut i: usize = 0;
    while i < areas.len()
        invariant
            i <= areas.len(),
            forall|j: int|
                0 <= j < i ==> (#[trigger] areas@[j]).end() <= usize::MAX && areas@[j].end()
                    <= address_limit(),
        decreases areas.len() - i,
    {
        let start = areas[i].start_addr();
        let size = areas[i].size();
        if size > usize::MAX - start {
            return false;
        }
        let end = (start + size) as u64;
        if end > 0x1_0000_0000_0000u64 {
            return false;
        }
        i += 1;
    }
    true
}

/// What holds of the address space and the allocator that a boot leaves
/// behind: all of `areas` is mapped onto itself and nothing else is; every
/// entry of a directory is present and writable and nothing more, and
/// every entry that is not present is empty; the
/// tables and the allocator's bitmap lie in frames of `regions`; and what
/// the allocator has free is among the frames of `regions` that hold
/// neither, all of them where the bitmap fits one frame.
pub open spec fn booted(
    space: AddressSpace,
    allocator: BitmapAlloc,
    areas: Seq<crate::multiboot2::MemoryArea>,
    regions: Seq<MemoryArea>,
) -> bool {
    let all = frames_from(regions, 0);
    let taken = space.table_frames().union(allocator.backing().indices());
    &&& space.wf()
    &&& allocator.wf()
    &&& identity_mapped(space@, areas)
    &&& space.tables().directories_flagged(3)
    &&& space.tables().absent_empty()
    &&& space.table_frames().subset_of(all)
    &&& allocator.backing().indices().subset_of(all)
    &&& space.table_frames().disjoint(allocator.backing().indices())
    &&& allocator.backing().len() == FrameBitmap::frames_needed(frames_tracked(regions))
    &&& allocator.tracked_frames() == frames_tracked(regions)
    &&& allocator.free_frames().subset_of(all.difference(taken))
    &&& allocator.backing().len() == 1 ==> allocator.free_frames() == all.difference(taken)
    &&& space.table_frames().len() == 1 + tables_needed(areas).len()
    &&& space.table_frames() == all.difference(
        frames_from(regions, ((1 + tables_needed(areas).len()) * 0x1000) as int),
    )
    &&& allocator.backing().start() * 0x1000 == bitmap_placement(areas, regions)->Some_0.0
    &&& allocator.free_frames() == frames_from(regions, bitmap_placement(areas, regions)->Some_0.1)
}

/// Where the allocator's bitmap is placed once the root and the tables
/// that map `areas` have each taken a frame of `regions`.
pub open spec fn bitmap_placement(
    areas: Seq<crate::multiboot2::MemoryArea>,
    regions: Seq<MemoryArea>,
) -> Option<(int, int)> {
    placement(
        regions,
        ((1 + tables_needed(areas).len()) * 0x1000) as int,
        FrameBitmap::frames_needed(frames_tracked(regions)),
    )
}

/// Whether `regions` hold the frames that a boot with the memory map
/// `areas` takes: one for the root, one for each table that the mapping
/// needs, and after them room for the allocator's bitmap.
pub open spec fn boot_fits(
    areas: Seq<crate::multiboot2::MemoryArea>,
    regions: Seq<MemoryArea>,
) -> bool {
    &&& frames_from(regions, 0).len() >= 1 + tables_needed(areas).len()
    &&& bitmap_placement(areas, regions) is Some
}

/// Brings up memory from the areas of a memory map: builds the regions,
/// maps every area onto itself with tables taken from the regions, then
/// turns what is left of the regions over to a bitmap allocator.
pub fn bootstrap(areas: &[crate::multiboot2::MemoryArea], boot_end: usize, kernel_end: usize) -> (r:
    Result<(AddressSpace, BitmapAlloc), AllocError>)
    requires
        areas_ok(areas@),
    ensures
        r is Ok <==> boot_fits(areas@, boot_regions(areas@, boot_end as int, kernel_end as int)),
        r is Ok ==> booted(
            r->Ok_0.0,
            r->Ok_0.1,
            areas@,
            boot_regions(areas@, boot_end as int, kernel_end as int),
        ),
{
    let mmap = regions(areas, boot_end, kernel_end);
    let ghost rs = mmap@;
    let ghost all = frames_from(rs, 0);
    let ghost needed = tables_needed(areas@);
    let bump_alloc = BumpAlloc::new(mmap);
    let ghost bump0 = bump_alloc;
    proof {
        crate::bump::lemma_frames_count(rs, 0);
        crate::bump::lemma_prefix_size(rs, 0, rs.len() as int);
        lemma_tables_needed_finite(areas@);
    }
    let mut mapper = match PageMapper::new(bump_alloc) {
        Ok(mapper) => mapper,
        Err(e) => {
            proof {
                assert forall|f: int| !all.contains(f) by {
                    if all.contains(f) {
                        assert(bump0.free_frames().contains(f));
                    }
                }
                assert(all =~= Set::<int>::empty());
            }
            return Err(e);
        },
    };
    let ghost root = mapper.root_frame().index() as int;
    let ghost fr1 = mapper.free_frames();
    let ghost bump1 = mapper.allocator();
    proof {
        assert(fr1 == all.remove(root));
        assert(fr1.len() == all.len() - 1);
        crate::paging::tables::lemma_fresh_tidy();
    }
    match identity_map(&mut mapper, areas) {
        Ok(_) => {},
        Err(e) => {
            return Err(e);
        },
    }
    let ghost fr2 = mapper.free_frames();
    let ghost tables = mapper.table_frames();
    proof {
        mapper.lemma_wf();
        mapper.allocator().lemma_follows_on(&bump1, &bump0);
        assert(tables =~= Set::<int>::empty().insert(root).union(fr1.difference(fr2)));
        assert(tables.subset_of(all));
        assert(tables.disjoint(fr2));
        assert(all.contains(root));
        assert(tables.union(fr2) =~= all);
        vstd::set_lib::lemma_set_subset_finite(all, tables);
        vstd::set_lib::lemma_set_subset_finite(all, fr2);
        vstd::set_lib::lemma_set_disjoint_lens(tables, fr2);
        assert(tables.len() == 1 + needed.len());
    }
    let (space, bump_alloc) = mapper.into_parts();
    let ghost pos = bump_alloc.position() as int;
    proof {
        assert(bump_alloc.areas() == rs);
        assert(fr2 == frames_from(rs, pos));
        crate::bump::lemma_frames_count(rs, pos);
        assert(pos == (1 + needed.len()) * 0x1000);
    }
    let allocator = match BitmapAlloc::new(bump_alloc) {
        Ok(allocator) => allocator,
        Err(e) => {
            return Err(e);
        },
    };
    proof {
        lemma_booted(space, allocator, areas@, rs, tables, fr2, pos);
    }
    Ok((space, allocator))
}

proof fn lemma_booted(
    space: AddressSpace,
    allocator: BitmapAlloc,
    areas: Seq<crate::multiboot2::MemoryArea>,
    rs: Seq<MemoryArea>,
    tables: Set<int>,
    fr2: Set<int>,
    pos: int,
)
    requires
        regions_ok(rs),
        0 <= pos,
        pos % 0x1000 == 0,
        space.wf(),
        allocator.wf(),
        identity_mapped(space@, areas),
        space.tables().directories_flagged(3),
        space.tables().absent_empty(),
        tables == space.table_frames(),
        tables.subset_of(frames_from(rs, 0)),
        tables.disjoint(fr2),
        fr2 == frames_from(rs, pos),
        fr2.subset_of(frames_from(rs, 0)),
        tables.union(fr2) == frames_from(rs, 0),
        placement(rs, pos, FrameBitmap::frames_needed(frames_tracked(rs))) is Some,
        allocator.tracked_frames() == frames_tracked(rs),
        allocator.free_frames() == frames_from(
            rs,
            placement(rs, pos, FrameBitmap::frames_needed(frames_tracked(rs)))->Some_0.1,
        ),
        allocator.backing().start() * 0x1000 == placement(
            rs,
            pos,
            FrameBitmap::frames_needed(frames_tracked(rs)),
        )->Some_0.0,
        allocator.backing().len() == FrameBitmap::frames_needed(frames_tracked(rs)),
        tables.len() == 1 + tables_needed(areas).len(),
        pos == (1 + tables_needed(areas).len()) * 0x1000,
    ensures
        booted(space, allocator, areas, rs),
{
    let needed = FrameBitmap::frames_needed(frames_tracked(rs));
    crate::bitmap::lemma_highest_end(rs);
    crate::bump::lemma_placement(rs, pos, needed);
    let (addr, next) = placement(rs, pos, needed)->Some_0;
    let all = frames_from(rs, 0);
    let backing = allocator.backing().indices();
    assert(backing =~= crate::bump::run_at(addr, needed));
    let taken = tables.union(backing);
    assert(tables =~= all.difference(fr2));
    assert(allocator.free_frames().subset_of(all.difference(taken)));
    if needed == 1 {
        assert(allocator.free_frames() =~= all.difference(taken));
    }
}

/// Brings up memory from the boot information of a kernel whose image ends
/// at `kernel_end`. The processor is not touched: the caller points it at
/// the root of the address space that comes back.
pub fn init(boot_info: &BootInfo, kernel_end: usize) -> (r: Result<
    (AddressSpace, BitmapAlloc),
    InitError,
>)
    requires
        boot_info.wf(),
    ensures
        boot_info.memory_areas() is None ==> r == Err::<(AddressSpace, BitmapAlloc), InitError>(
            InitError::NoMemoryMap,
        ),
        boot_info.memory_areas() is Some && !areas_ok(boot_info.memory_areas()->Some_0) ==> r
            == Err::<(AddressSpace, BitmapAlloc), InitError>(InitError::AreaOutOfRange),
        boot_info.memory_areas() is Some && areas_ok(boot_info.memory_areas()->Some_0) ==> match r {
            Ok((space, allocator)) => boot_fits(
                boot_info.memory_areas()->Some_0,
                boot_regions(
                    boot_info.memory_areas()->Some_0,
                    boot_info.base() + boot_info.data().len(),
                    kernel_end as int,
                ),
            ) && booted(
                space,
                allocator,
                boot_info.memory_areas()->Some_0,
                boot_regions(
                    boot_info.memory_areas()->Some_0,
                    boot_info.base() + boot_info.data().len(),
                    kernel_end as int,
                ),
            ),
            Err(e) => e == InitError::NoMemory && !boot_fits(
                boot_info.memory_areas()->Some_0,
                boot_regions(
                    boot_info.memory_areas()->Some_0,
                    boot_info.base() + boot_info.data().len(),
                    kernel_end as int,
                ),
            ),
        },
{
    let areas = match boot_info.memory_map() {
        Some(tag) => tag.areas().collect(),
        None => {
            return Err(InitError::NoMemoryMap);
        },
    };
    if !areas_in_range(areas.as_slice()) {
        return Err(InitError::AreaOutOfRange);
    }
    match bootstrap(areas.as_slice(), boot_info.end_addr(), kernel_end) {
        Ok(parts) => Ok(parts),
        Err(_) => Err(InitError::NoMemory),
    }
}

} // verus!
