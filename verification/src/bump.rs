//! The allocator of the boot window: it walks once through a list of memory
//! areas and never takes a frame back.

use vstd::prelude::*;
use crate::frame::{max_frame_idx, FrameRange, MemoryArea, PAGE_SIZE};
use crate::frame_alloc::{AllocError, FrameAlloc};

verus! {

/// Bytes held by the first `k` areas together.
pub open spec fn prefix_size(areas: Seq<MemoryArea>, k: int) -> int
    decreases k,
{
    if k <= 0 {
        0
    } else {
        prefix_size(areas, k - 1) + areas[k - 1].length()
    }
}

/// The areas are page-aligned, lie in rising order without overlap, and
/// their sizes add up to a machine word.
pub open spec fn regions_ok(areas: Seq<MemoryArea>) -> bool {
    &&& forall|k: int| 0 <= k < areas.len() ==> (#[trigger] areas[k]).wf() && areas[k].page_aligned()
    &&& forall|i: int, j: int|
        0 <= i < j < areas.len() ==> (#[trigger] areas[i]).end() <= (#[trigger] areas[j]).base()
    &&& prefix_size(areas, areas.len() as int) <= usize::MAX
}

/// Bytes of area `k` that lie below `offset`, an offset into the areas laid end to end.
pub open spec fn used_in(areas: Seq<MemoryArea>, offset: int, k: int) -> int {
    let rel = offset - prefix_size(areas, k);
    if rel <= 0 {
        0
    } else if rel >= areas[k].length() {
        areas[k].length() as int
    } else {
        rel
    }
}

/// Bytes of area `k` that lie at or above `offset`.
pub open spec fn space_in(areas: Seq<MemoryArea>, offset: int, k: int) -> int {
    areas[k].length() - used_in(areas, offset, k)
}

/// The first area from `k` on with at least `need` bytes left, or the
/// number of areas if there is none.
pub open spec fn find_region(areas: Seq<MemoryArea>, offset: int, need: int, k: int) -> int
    decreases areas.len() - k,
{
    if k >= areas.len() {
        areas.len() as int
    } else if space_in(areas, offset, k) >= need {
        k
    } else {
        find_region(areas, offset, need, k + 1)
    }
}

/// Where a request for `count` frames is placed: the address of its first
/// frame, and the offset past it. The request goes to the first area that
/// has room for it, at the start of what is left of that area.
pub open spec fn placement(areas: Seq<MemoryArea>, offset: int, count: int) -> Option<(int, int)> {
    let need = count * 0x1000;
    let k = find_region(areas, offset, need, 0);
    if k < areas.len() {
        Some(
            (
                areas[k].base() + used_in(areas, offset, k),
                prefix_size(areas, k) + used_in(areas, offset, k) + need,
            ),
        )
    } else {
        None
    }
}

/// Frame `f` lies in the part of area `k` at or above `offset`.
pub open spec fn region_free(areas: Seq<MemoryArea>, offset: int, k: int, f: int) -> bool {
    areas[k].base() + used_in(areas, offset, k) <= f * 0x1000 < areas[k].end()
}

/// The frames at or above `offset`.
pub open spec fn frames_from(areas: Seq<MemoryArea>, offset: int) -> Set<int> {
    Set::new(|f: int| exists|k: int| 0 <= k < areas.len() && region_free(areas, offset, k, f))
}

/// The frames of the run of `count` frames that starts at address `addr`.
pub open spec fn run_at(addr: int, count: int) -> Set<int> {
    Set::new(|f: int| addr / 0x1000 <= f < addr / 0x1000 + count)
}

/// The areas before an area hold no more bytes than those up to it, and whole pages only.
pub proof fn lemma_prefix_size(areas: Seq<MemoryArea>, i: int, j: int)
    requires
        0 <= i <= j <= areas.len(),
        forall|k: int| 0 <= k < areas.len() ==> (#[trigger] areas[k]).page_aligned(),
    ensures
        0 <= prefix_size(areas, i) <= prefix_size(areas, j),
        prefix_size(areas, i) % 0x1000 == 0,
        i < j ==> prefix_size(areas, i) + areas[i].length() <= prefix_size(areas, j),
    decreases j,
{
    if j > 0 {
        if i < j {
            lemma_prefix_size(areas, i, j - 1);
            assert(areas[j - 1].page_aligned());
        } else {
            lemma_prefix_size(areas, i - 1, j - 1);
            assert(areas[i - 1].page_aligned());
        }
    }
}

/// `find_region` gives the least index from `k` on whose area has room.
pub proof fn lemma_find_region(areas: Seq<MemoryArea>, offset: int, need: int, k: int)
    requires
        0 <= k <= areas.len(),
    ensures
        k <= find_region(areas, offset, need, k) <= areas.len(),
        find_region(areas, offset, need, k) < areas.len() ==> space_in(
            areas,
            offset,
            find_region(areas, offset, need, k),
        ) >= need,
        forall|j: int|
            k <= j < find_region(areas, offset, need, k) ==> space_in(areas, offset, j) < need,
    decreases areas.len() - k,
{
    if k < areas.len() && space_in(areas, offset, k) < need {
        lemma_find_region(areas, offset, need, k + 1);
    }
}

/// What is used of an area is a whole number of pages, within the area.
proof fn lemma_used_aligned(areas: Seq<MemoryArea>, offset: int, k: int)
    requires
        regions_ok(areas),
        0 <= k < areas.len(),
        offset % 0x1000 == 0,
    ensures
        0 <= used_in(areas, offset, k) <= areas[k].length(),
        used_in(areas, offset, k) % 0x1000 == 0,
        space_in(areas, offset, k) % 0x1000 == 0,
        (areas[k].base() + used_in(areas, offset, k)) % 0x1000 == 0,
{
    lemma_prefix_size(areas, k, k);
    assert(areas[k].page_aligned());
}

/// An area below `j` into which `offset` falls, where `offset` lies below the start of area `j`.
spec fn search_offset(areas: Seq<MemoryArea>, offset: int, j: int) -> int
    decreases j,
{
    if j <= 0 {
        0
    } else if prefix_size(areas, j - 1) <= offset {
        j - 1
    } else {
        search_offset(areas, offset, j - 1)
    }
}

proof fn lemma_search_offset(areas: Seq<MemoryArea>, offset: int, j: int)
    requires
        0 <= offset < prefix_size(areas, j),
        0 <= j <= areas.len(),
    ensures
        0 <= search_offset(areas, offset, j) < j,
        prefix_size(areas, search_offset(areas, offset, j)) <= offset < prefix_size(
            areas,
            search_offset(areas, offset, j) + 1,
        ),
    decreases j,
{
    if j > 0 && prefix_size(areas, j - 1) > offset {
        lemma_search_offset(areas, offset, j - 1);
    }
}

/// A successful placement: where it lies and what it leaves free.
#[verifier::rlimit(40)]
pub proof fn lemma_placement(areas: Seq<MemoryArea>, offset: int, count: int)
    requires
        regions_ok(areas),
        0 <= offset,
        offset % 0x1000 == 0,
        count > 0,
        placement(areas, offset, count) is Some,
    ensures
        ({
            let (addr, next) = placement(areas, offset, count)->Some_0;
            &&& addr % 0x1000 == 0
            &&& 0 <= addr
            &&& addr + count * 0x1000 <= usize::MAX
            &&& offset < next
            &&& offset + count * 0x1000 <= next
            &&& next % 0x1000 == 0
            &&& next <= prefix_size(areas, areas.len() as int)
            &&& run_at(addr, count).subset_of(frames_from(areas, offset))
            &&& frames_from(areas, next).subset_of(
                frames_from(areas, offset).difference(run_at(addr, count)),
            )
            &&& count == 1 ==> frames_from(areas, next) == frames_from(areas, offset).remove(
                addr / 0x1000,
            )
            &&& count == 1 ==> next == offset + 0x1000
        }),
{
    let need = count * 0x1000;
    let j = find_region(areas, offset, need, 0);
    let (addr, next) = placement(areas, offset, count)->Some_0;
    lemma_find_region(areas, offset, need, 0);
    lemma_used_aligned(areas, offset, j);
    lemma_prefix_size(areas, j, areas.len() as int);
    assert(areas[j].wf());
    assert(used_in(areas, next, j) == used_in(areas, offset, j) + need);
    if count == 1 && offset < prefix_size(areas, j) {
        let i = search_offset(areas, offset, j);
        lemma_search_offset(areas, offset, j);
        lemma_used_aligned(areas, offset, i);
        lemma_prefix_size(areas, i, i + 1);
        assert(space_in(areas, offset, i) < need);
        assert(false);
    }
    assert forall|f: int| run_at(addr, count).contains(f) implies frames_from(
        areas,
        offset,
    ).contains(f) by {
        assert(region_free(areas, offset, j, f));
    }
    assert forall|f: int| frames_from(areas, next).contains(f) implies frames_from(
        areas,
        offset,
    ).difference(run_at(addr, count)).contains(f) by {
        let k = choose|k: int| 0 <= k < areas.len() && region_free(areas, next, k, f);
        assert(region_free(areas, offset, k, f));
        if k < j {
            assert(areas[k].end() <= areas[j].base());
        } else if k > j {
            assert(areas[j].end() <= areas[k].base());
        }
    }
    if count == 1 {
        assert forall|f: int|
            frames_from(areas, offset).contains(f) && f != addr / 0x1000 implies frames_from(
            areas,
            next,
        ).contains(f) by {
            let k = choose|k: int| 0 <= k < areas.len() && region_free(areas, offset, k, f);
            lemma_used_aligned(areas, offset, k);
            if k < j {
                assert(space_in(areas, offset, k) < need);
            } else if k > j {
                lemma_prefix_size(areas, j, k);
            }
            assert(region_free(areas, next, k, f));
        }
        assert(frames_from(areas, next) =~= frames_from(areas, offset).remove(addr / 0x1000));
    }
}

/// A request that is placed in the area into which the offset points moves
/// the offset by the size of the request and no further.
pub proof fn lemma_placement_advance(areas: Seq<MemoryArea>, offset: int, count: int)
    requires
        regions_ok(areas),
        0 <= offset,
        count > 0,
        placement(areas, offset, count) is Some,
        prefix_size(areas, find_region(areas, offset, count * 0x1000, 0)) <= offset,
    ensures
        placement(areas, offset, count)->Some_0.1 == offset + count * 0x1000,
{
    lemma_find_region(areas, offset, count * 0x1000, 0);
}

/// Where no area has room for a single frame, no frame is free.
pub proof fn lemma_no_placement(areas: Seq<MemoryArea>, offset: int)
    requires
        regions_ok(areas),
        0 <= offset,
        offset % 0x1000 == 0,
        placement(areas, offset, 1) is None,
    ensures
        forall|f: int| !frames_from(areas, offset).contains(f),
{
    lemma_find_region(areas, offset, 0x1000, 0);
    assert forall|f: int| !frames_from(areas, offset).contains(f) by {
        if frames_from(areas, offset).contains(f) {
            let k = choose|k: int| 0 <= k < areas.len() && region_free(areas, offset, k, f);
            lemma_used_aligned(areas, offset, k);
            assert(space_in(areas, offset, k) < 0x1000);
        }
    }
}

/// The frames of the first `n` areas at or above `offset`.
pub open spec fn frames_upto(areas: Seq<MemoryArea>, offset: int, n: int) -> Set<int> {
    Set::new(|f: int| exists|k: int| 0 <= k < n && k < areas.len() && region_free(areas, offset, k, f))
}

/// How many frames lie at or above an offset: as many as there are pages past it.
pub proof fn lemma_frames_count(areas: Seq<MemoryArea>, offset: int)
    requires
        regions_ok(areas),
        0 <= offset <= prefix_size(areas, areas.len() as int),
        offset % 0x1000 == 0,
    ensures
        frames_from(areas, offset).finite(),
        frames_from(areas, offset).len() * 0x1000 == prefix_size(areas, areas.len() as int)
            - offset,
{
    lemma_frames_count_upto(areas, offset, areas.len() as int);
    assert(frames_upto(areas, offset, areas.len() as int) =~= frames_from(areas, offset));
}

proof fn lemma_frames_count_upto(areas: Seq<MemoryArea>, offset: int, n: int)
    requires
        regions_ok(areas),
        0 <= offset,
        offset % 0x1000 == 0,
        0 <= n <= areas.len(),
    ensures
        frames_upto(areas, offset, n).finite(),
        frames_upto(areas, offset, n).len() * 0x1000 == prefix_size(areas, n) - (if offset
            <= prefix_size(areas, n) {
            offset
        } else {
            prefix_size(areas, n)
        }),
    decreases n,
{
    if n == 0 {
        assert(frames_upto(areas, offset, 0) =~= Set::<int>::empty());
    } else {
        let k = n - 1;
        lemma_frames_count_upto(areas, offset, k);
        lemma_used_aligned(areas, offset, k);
        lemma_prefix_size(areas, k, n);
        assert(areas[k].wf());
        assert(areas[k].page_aligned());
        let lo = (areas[k].base() + used_in(areas, offset, k)) / 0x1000;
        let hi = areas[k].end() / 0x1000;
        let part = vstd::set_lib::set_int_range(lo, hi);
        vstd::set_lib::lemma_int_range(lo, hi);
        let rest = frames_upto(areas, offset, k);
        assert forall|f: int| part.contains(f) == region_free(areas, offset, k, f) by {}
        assert(rest.disjoint(part)) by {
            assert forall|f: int| rest.contains(f) implies !part.contains(f) by {
                let j = choose|j: int|
                    0 <= j < k && j < areas.len() && region_free(areas, offset, j, f);
                assert(areas[j].end() <= areas[k].base());
            }
        }
        vstd::set_lib::lemma_set_disjoint_lens(rest, part);
        assert(frames_upto(areas, offset, n) =~= rest + part) by {
            assert forall|f: int| frames_upto(areas, offset, n).contains(f) implies (rest
                + part).contains(f) by {
                let j = choose|j: int|
                    0 <= j < n && j < areas.len() && region_free(areas, offset, j, f);
                if j < k {
                    assert(rest.contains(f));
                }
            }
            assert forall|f: int| (rest + part).contains(f) implies frames_upto(
                areas,
                offset,
                n,
            ).contains(f) by {
                if rest.contains(f) {
                    let j = choose|j: int|
                        0 <= j < k && j < areas.len() && region_free(areas, offset, j, f);
                    assert(0 <= j < n && j < areas.len() && region_free(areas, offset, j, f));
                } else {
                    assert(0 <= k < n && k < areas.len() && region_free(areas, offset, k, f));
                }
            }
        }
        assert((hi - lo) * 0x1000 == space_in(areas, offset, k));
    }
}

/// Allocations come in rising order and never overlap: a request placed at
/// or after the offset that an earlier request left behind lies wholly above
/// that earlier request, and both start on a page boundary.
pub proof fn lemma_bump_monotonic(
    areas: Seq<MemoryArea>,
    offset1: int,
    count1: int,
    offset2: int,
    count2: int,
)
    requires
        regions_ok(areas),
        0 <= offset1,
        offset1 % 0x1000 == 0,
        offset2 % 0x1000 == 0,
        count1 > 0,
        count2 > 0,
        placement(areas, offset1, count1) is Some,
        placement(areas, offset1, count1)->Some_0.1 <= offset2,
        placement(areas, offset2, count2) is Some,
    ensures
        placement(areas, offset1, count1)->Some_0.0 % 0x1000 == 0,
        placement(areas, offset2, count2)->Some_0.0 % 0x1000 == 0,
        placement(areas, offset1, count1)->Some_0.0 + count1 * 0x1000 <= placement(
            areas,
            offset2,
            count2,
        )->Some_0.0,
        offset1 < placement(areas, offset1, count1)->Some_0.1,
        offset2 < placement(areas, offset2, count2)->Some_0.1,
{
    lemma_placement(areas, offset1, count1);
    lemma_placement(areas, offset2, count2);
    let need1 = count1 * 0x1000;
    let need2 = count2 * 0x1000;
    let j = find_region(areas, offset1, need1, 0);
    let k = find_region(areas, offset2, need2, 0);
    lemma_find_region(areas, offset1, need1, 0);
    lemma_find_region(areas, offset2, need2, 0);
    lemma_used_aligned(areas, offset1, j);
    lemma_used_aligned(areas, offset2, k);
    if k < j {
        lemma_prefix_size(areas, k, j);
        assert(space_in(areas, offset2, k) == 0);
    } else if k > j {
        assert(areas[j].end() <= areas[k].base());
    }
}

/// What a run of requests gets, one after the other, from `offset` on: the
/// address and the count of each request that found room, in order. A
/// request that finds no room leaves the offset where it was.
pub open spec fn placements(areas: Seq<MemoryArea>, offset: int, counts: Seq<int>) -> Seq<
    (int, int),
>
    decreases counts.len(),
{
    if counts.len() == 0 {
        Seq::empty()
    } else {
        match placement(areas, offset, counts[0]) {
            Some((addr, next)) => placements(areas, next, counts.skip(1)).insert(
                0,
                (addr, counts[0]),
            ),
            None => placements(areas, offset, counts.skip(1)),
        }
    }
}

proof fn lemma_placements_above(
    areas: Seq<MemoryArea>,
    offset0: int,
    count0: int,
    offset: int,
    counts: Seq<int>,
)
    requires
        regions_ok(areas),
        0 <= offset0,
        offset0 % 0x1000 == 0,
        offset % 0x1000 == 0,
        count0 > 0,
        forall|k: int| 0 <= k < counts.len() ==> counts[k] > 0,
        placement(areas, offset0, count0) is Some,
        placement(areas, offset0, count0)->Some_0.1 <= offset,
    ensures
        forall|i: int|
            0 <= i < placements(areas, offset, counts).len() ==> placement(
                areas,
                offset0,
                count0,
            )->Some_0.0 + count0 * 0x1000 <= (#[trigger] placements(areas, offset, counts)[i]).0,
    decreases counts.len(),
{
    if counts.len() > 0 {
        let rest = counts.skip(1);
        assert forall|k: int| 0 <= k < rest.len() implies rest[k] > 0 by {
            assert(rest[k] == counts[k + 1]);
        }
        match placement(areas, offset, counts[0]) {
            Some((addr, next)) => {
                lemma_bump_monotonic(areas, offset0, count0, offset, counts[0]);
                lemma_placement(areas, offset, counts[0]);
                lemma_placements_above(areas, offset0, count0, next, rest);
                let tail = placements(areas, next, rest);
                assert(placements(areas, offset, counts) == tail.insert(0, (addr, counts[0])));
                assert forall|i: int|
                    0 <= i < placements(areas, offset, counts).len() implies placement(
                    areas,
                    offset0,
                    count0,
                )->Some_0.0 + count0 * 0x1000 <= (#[trigger] placements(
                    areas,
                    offset,
                    counts,
                )[i]).0 by {
                    if i > 0 {
                        assert(placements(areas, offset, counts)[i] == tail[i - 1]);
                    }
                }
            },
            None => {
                lemma_placements_above(areas, offset0, count0, offset, rest);
                assert(placements(areas, offset, counts) == placements(areas, offset, rest));
            },
        }
    } else {
        assert(placements(areas, offset, counts).len() == 0);
    }
}

/// Whatever is asked of a bump allocator, one request after the other:
/// each address that it hands out lies on a page boundary, and each run of
/// frames lies wholly below every run that is handed out after it. So the
/// addresses rise, and no frame is handed out twice.
pub proof fn lemma_bump_run_monotonic(areas: Seq<MemoryArea>, offset: int, counts: Seq<int>)
    requires
        regions_ok(areas),
        0 <= offset,
        offset % 0x1000 == 0,
        forall|k: int| 0 <= k < counts.len() ==> counts[k] > 0,
    ensures
        forall|i: int|
            0 <= i < placements(areas, offset, counts).len() ==> (#[trigger] placements(
                areas,
                offset,
                counts,
            )[i]).0 % 0x1000 == 0,
        forall|i: int, j: int|
            0 <= i < j < placements(areas, offset, counts).len() ==> (#[trigger] placements(
                areas,
                offset,
                counts,
            )[i]).0 + placements(areas, offset, counts)[i].1 * 0x1000 <= (#[trigger] placements(
                areas,
                offset,
                counts,
            )[j]).0,
    decreases counts.len(),
{
    if counts.len() > 0 {
        let rest = counts.skip(1);
        assert forall|k: int| 0 <= k < rest.len() implies rest[k] > 0 by {
            assert(rest[k] == counts[k + 1]);
        }
        let run = placements(areas, offset, counts);
        match placement(areas, offset, counts[0]) {
            Some((addr, next)) => {
                lemma_placement(areas, offset, counts[0]);
                lemma_bump_run_monotonic(areas, next, rest);
                lemma_placements_above(areas, offset, counts[0], next, rest);
                let tail = placements(areas, next, rest);
                assert(run == tail.insert(0, (addr, counts[0])));
                assert forall|i: int| 0 <= i < run.len() implies (#[trigger] run[i]).0 % 0x1000
                    == 0 by {
                    if i > 0 {
                        assert(run[i] == tail[i - 1]);
                    }
                }
                assert forall|i: int, j: int| 0 <= i < j < run.len() implies (#[trigger] run[i]).0
                    + run[i].1 * 0x1000 <= (#[trigger] run[j]).0 by {
                    assert(run[j] == tail[j - 1]);
                    if i > 0 {
                        assert(run[i] == tail[i - 1]);
                    }
                }
            },
            None => {
                lemma_bump_run_monotonic(areas, offset, rest);
                assert(run == placements(areas, offset, rest));
            },
        }
    } else {
        assert(placements(areas, offset, counts).len() == 0);
    }
}

/// A request larger than all that is left fails, and the offset stays.
pub proof fn lemma_bump_exhaustion(areas: Seq<MemoryArea>, offset: int, count: int)
    requires
        regions_ok(areas),
        0 <= offset <= prefix_size(areas, areas.len() as int),
        count * 0x1000 > prefix_size(areas, areas.len() as int) - offset,
    ensures
        placement(areas, offset, count) is None,
{
    let need = count * 0x1000;
    let j = find_region(areas, offset, need, 0);
    lemma_find_region(areas, offset, need, 0);
    if j < areas.len() {
        lemma_prefix_size(areas, j, areas.len() as int);
        lemma_prefix_size(areas, 0, j);
    }
}

/// The bump allocator: an offset into its areas laid end to end.
pub struct BumpAlloc {
    offset: usize,
    mmap: Vec<MemoryArea>,
}

impl BumpAlloc {
    /// The areas that this allocator walks through.
    pub closed spec fn areas(&self) -> Seq<MemoryArea> {
        self.mmap@
    }

    /// How far into its areas, laid end to end, the allocator has come.
    pub closed spec fn position(&self) -> usize {
        self.offset
    }

    /// An allocator over `mmap` that has handed out nothing yet.
    pub fn new(mmap: Vec<MemoryArea>) -> (b: Self)
        requires
            regions_ok(mmap@),
        ensures
            b.wf(),
            b.areas() == mmap@,
            b.position() == 0,
    {
        proof {
            lemma_prefix_size(mmap@, 0, mmap@.len() as int);
        }
        Self { offset: 0, mmap }
    }

    pub fn offset(&self) -> (o: usize)
        ensures
            o == self.position(),
    {
        self.offset
    }

    pub fn mmap(&self) -> (m: &[MemoryArea])
        ensures
            m@ == self.areas(),
    {
        self.mmap.as_slice()
    }
}

impl FrameAlloc for BumpAlloc {
    open spec fn wf(&self) -> bool {
        &&& regions_ok(self.areas())
        &&& self.position() % 0x1000 == 0
        &&& self.position() <= prefix_size(self.areas(), self.areas().len() as int)
    }

    open spec fn free_frames(&self) -> Set<int> {
        frames_from(self.areas(), self.position() as int)
    }

    open spec fn reclaims(&self) -> bool {
        false
    }

    /// The areas are the same, and the offset has not gone back.
    open spec fn follows(&self, earlier: &Self) -> bool {
        self.areas() == earlier.areas() && self.position() >= earlier.position()
    }

    proof fn lemma_follows_itself(&self) {
    }

    proof fn lemma_follows_on(&self, mid: &Self, earlier: &Self) {
    }

    proof fn lemma_free_frames_bounded(&self) {
        let areas = (*self).areas();
        assert forall|f: int| #[trigger] (*self).free_frames().contains(f) implies 0 <= f
            <= max_frame_idx() by {
            let k = choose|k: int|
                0 <= k < areas.len() && region_free(areas, (*self).position() as int, k, f);
            assert(areas[k].wf());
        }
    }

    /// Places the request as `placement` says and moves the offset past it;
    /// fails, and leaves the offset where it was, where no area has room.
    fn allocate(&mut self, count: usize) -> (r: Result<FrameRange, AllocError>)
        ensures
            final(self).areas() == old(self).areas(),
            match placement(old(self).areas(), old(self).position() as int, count as int) {
                Some((addr, next)) => r is Ok && r->Ok_0.start() == addr / 0x1000
                    && r->Ok_0.start() * 0x1000 == addr && final(self).position() == next,
                None => r is Err && final(self).position() == old(self).position(),
            },
    {
        let ghost areas = self.mmap@;
        let ghost start = self.offset as int;
        let need = match count.checked_mul(PAGE_SIZE) {
            Some(n) => n,
            None => {
                proof {
                    lemma_bump_exhaustion(areas, start, count as int);
                    if count == 1 {
                        lemma_no_placement(areas, start);
                    }
                }
                return Err(AllocError::NoMemory);
            },
        };
        let mut base: usize = 0;
        let mut i: usize = 0;
        while i < self.mmap.len()
            invariant
                0 <= i <= self.mmap.len(),
                self.mmap@ == areas,
                self.offset == start,
                areas == old(self).mmap@,
                start == old(self).offset,
                regions_ok(areas),
                start % 0x1000 == 0,
                need == count * 0x1000,
                count > 0,
                base == prefix_size(areas, i as int),
                find_region(areas, start, need as int, 0) == find_region(
                    areas,
                    start,
                    need as int,
                    i as int,
                ),
            decreases self.mmap.len() - i,
        {
            let area = self.mmap[i];
            let used = if self.offset <= base {
                0
            } else if self.offset - base >= area.size() {
                area.size()
            } else {
                self.offset - base
            };
            let space = area.size() - used;
            proof {
                lemma_prefix_size(areas, i as int, areas.len() as int);
                assert(areas[i as int].wf());
                assert(used == used_in(areas, start, i as int));
            }
            if space >= need {
                proof {
                    lemma_placement(areas, start, count as int);
                    lemma_used_aligned(areas, start, i as int);
                }
                self.offset = base + used + need;
                let frames = FrameRange::from_addr(area.start_addr() + used, count);
                proof {
                    let addr = area.base() + used;
                    assert(frames.indices() =~= run_at(addr, count as int));
                    assert(find_region(areas, start, need as int, 0) == i);
                    assert(run_at(addr, count as int).contains(addr / 0x1000));
                    assert(frames_from(areas, start).contains(addr / 0x1000));
                    assert((*old(self)).free_frames() == frames_from(areas, start));
                    assert((*old(self)).free_frames().contains(addr / 0x1000));
                    assert(exists|f: int| (*old(self)).free_frames().contains(f));
                }
                return Ok(frames);
            }
            base = base + area.size();
            i += 1;
        }
        proof {
            if count == 1 {
                lemma_no_placement(areas, start);
            }
        }
        Err(AllocError::NoMemory)
    }

    /// This allocator takes nothing back: no caller can meet what this asks.
    fn free(&mut self, frames: FrameRange) {
        vstd::pervasive::unreached()
    }
}

} // verus!
