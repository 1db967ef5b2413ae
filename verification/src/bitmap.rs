//! The allocator for the rest of the kernel's life: one bit for each frame,
//! set while the frame is free.

use vstd::prelude::*;
use crate::bump::{frames_from, placement, region_free, regions_ok, used_in, BumpAlloc};
use crate::frame::{max_frame_idx, Frame, FrameRange, MemoryArea, PAGE_SIZE};
use crate::frame_alloc::{AllocError, FrameAlloc};

verus! {

/// Whether bit `bit` of `byte` is set.
pub open spec fn bit_set(byte: u8, bit: u8) -> bool {
    byte & (1u8 << bit) != 0
}

proof fn lemma_bit_ops(byte: u8, b: u8, c: u8)
    requires
        b < 8,
        c < 8,
    ensures
        !bit_set(0u8, c),
        bit_set(byte | (1u8 << b), c) == (c == b || bit_set(byte, c)),
        bit_set(byte & !(1u8 << b), c) == (c != b && bit_set(byte, c)),
{
    assert(0u8 & (1u8 << c) == 0) by (bit_vector);
    assert(b < 8 && c < 8 ==> (((byte | (1u8 << b)) & (1u8 << c) != 0) == (c == b || (byte & (1u8
        << c) != 0)))) by (bit_vector);
    assert(b < 8 && c < 8 ==> (((byte & !(1u8 << b)) & (1u8 << c) != 0) == (c != b && (byte & (1u8
        << c) != 0)))) by (bit_vector);
}

/// All frames from `first` up to, not including, `end`.
pub open spec fn span(first: int, end: int) -> Set<int> {
    Set::new(|i: int| first <= i < end)
}

/// The `count` frames from `i` on are all in `free`.
pub open spec fn run_free(free: Set<int>, i: int, count: int) -> bool {
    forall|j: int| i <= j < i + count ==> free.contains(j)
}

/// `i` starts the lowest run of `count` free frames.
pub open spec fn is_first_fit(free: Set<int>, count: int, i: int) -> bool {
    &&& 0 <= i
    &&& run_free(free, i, count)
    &&& forall|k: int| 0 <= k < i ==> !run_free(free, k, count)
}

/// A run of frames that was handed out and is freed again leaves no trace
/// in an allocator that tracks the frames below `limit`: the free frames
/// are those that were free before the run was handed out.
pub proof fn lemma_bitmap_balanced(free: Set<int>, limit: int, count: int, i: int)
    requires
        free.subset_of(span(0, limit)),
        is_first_fit(free, count, i),
    ensures
        free.difference(span(i, i + count)).union(span(i, i + count).intersect(span(0, limit)))
            == free,
{
    assert(free.difference(span(i, i + count)).union(
        span(i, i + count).intersect(span(0, limit)),
    ) =~= free);
}

/// A frame that was handed out alone and freed at once is free again, and
/// is the frame that the next request for one frame gets.
pub proof fn lemma_bitmap_round_trip(free: Set<int>, limit: int, f: int)
    requires
        free.subset_of(span(0, limit)),
        is_first_fit(free, 1, f),
    ensures
        free.difference(span(f, f + 1)).union(span(f, f + 1).intersect(span(0, limit))) == free,
        is_first_fit(
            free.difference(span(f, f + 1)).union(span(f, f + 1).intersect(span(0, limit))),
            1,
            f,
        ),
{
    lemma_bitmap_balanced(free, limit, 1, f);
}

/// Two requests for one frame, with nothing freed between them, never get
/// the same frame.
pub proof fn lemma_bitmap_no_double_issue(free: Set<int>, f1: int, f2: int)
    requires
        is_first_fit(free, 1, f1),
        is_first_fit(free.difference(span(f1, f1 + 1)), 1, f2),
    ensures
        f1 != f2,
        f1 < f2,
{
    assert(free.difference(span(f1, f1 + 1)).contains(f2));
    if f2 < f1 {
        assert(!run_free(free, f2, 1));
    }
}

/// The lowest run of free frames is the only one that a request can get,
/// and free frames that do not lie side by side are no run.
pub proof fn lemma_first_fit_unique(free: Set<int>, count: int, i: int, j: int)
    requires
        is_first_fit(free, count, i),
        is_first_fit(free, count, j),
    ensures
        i == j,
{
}

/// The bits themselves, with the frames that hold them.
pub struct FrameBitmap {
    inner: Vec<u8>,
    n_frames: usize,
    storage: FrameRange,
}

impl FrameBitmap {
    /// The number of frames that the bitmap tracks: indices below it have a bit.
    pub closed spec fn tracked_frames(&self) -> usize {
        self.n_frames
    }

    /// The frames that hold the bitmap.
    pub closed spec fn backing(&self) -> FrameRange {
        self.storage
    }

    pub closed spec fn wf(&self) -> bool {
        &&& self.inner.len() == self.n_frames / 8 + 1
        &&& self.n_frames <= max_frame_idx() + 1
    }

    /// Whether frame `i` is marked free.
    pub closed spec fn is_marked(&self, i: int) -> bool {
        0 <= i < self.n_frames && bit_set(self.inner[i / 8], (i % 8) as u8)
    }

    /// The frames marked free.
    pub open spec fn free_set(&self) -> Set<int> {
        Set::new(|i: int| self.is_marked(i))
    }

    /// Only frames that the bitmap tracks are marked free.
    pub proof fn lemma_free_set_bounded(&self)
        requires
            self.wf(),
        ensures
            forall|i: int| #[trigger]
                self.free_set().contains(i) ==> 0 <= i < self.tracked_frames() && i
                    <= max_frame_idx(),
    {
    }

    /// The number of frames that it takes to hold one bit for each of `n_frames` frames.
    pub open spec fn frames_needed(n_frames: int) -> int {
        (n_frames / 8 + 1) / 0x1000 + 1
    }

    /// A bitmap for the frames below `n_frames`, none of them marked free,
    /// in frames taken from `bump_alloc`.
    pub fn new(bump_alloc: &mut BumpAlloc, n_frames: usize) -> (r: Result<Self, AllocError>)
        requires
            (*old(bump_alloc)).wf(),
            n_frames <= max_frame_idx() + 1,
        ensures
            (*final(bump_alloc)).wf(),
            final(bump_alloc).areas() == old(bump_alloc).areas(),
            match placement(
                old(bump_alloc).areas(),
                old(bump_alloc).position() as int,
                Self::frames_needed(n_frames as int),
            ) {
                Some((addr, next)) => {
                    &&& r is Ok
                    &&& r->Ok_0.wf()
                    &&& r->Ok_0.tracked_frames() == n_frames
                    &&& r->Ok_0.free_set() == Set::<int>::empty()
                    &&& r->Ok_0.backing().start() * 0x1000 == addr
                    &&& r->Ok_0.backing().len() == Self::frames_needed(n_frames as int)
                    &&& final(bump_alloc).position() == next
                },
                None => r is Err && final(bump_alloc).position() == old(bump_alloc).position(),
            },
    {
        let size = n_frames / 8 + 1;
        let storage = match bump_alloc.allocate(size / PAGE_SIZE + 1) {
            Ok(frames) => frames,
            Err(e) => {
                return Err(e);
            },
        };
        let mut inner: Vec<u8> = Vec::new();
        let mut i: usize = 0;
        while i < size
            invariant
                i <= size,
                inner.len() == i,
                forall|j: int| 0 <= j < i ==> inner[j] == 0u8,
            decreases size - i,
        {
            inner.push(0u8);
            i += 1;
        }
        let bitmap = Self { inner, n_frames, storage };
        proof {
            assert forall|k: int| !bitmap.is_marked(k) by {
                if 0 <= k < n_frames {
                    lemma_bit_ops(0u8, 0u8, (k % 8) as u8);
                }
            }
            assert(bitmap.free_set() =~= Set::<int>::empty());
        }
        Ok(bitmap)
    }

    /// Whether `frame` is marked free. A frame that the bitmap does not track is not.
    pub fn is_free(&self, frame: Frame) -> (b: bool)
        requires
            self.wf(),
        ensures
            b == self.free_set().contains(frame.index() as int),
    {
        if frame.idx() < self.n_frames {
            let idx = frame.idx() / 8;
            let bit = (frame.idx() % 8) as u8;
            (self.inner[idx] & (1u8 << bit)) != 0
        } else {
            false
        }
    }

    /// Marks `frame` as handed out, if the bitmap tracks it.
    pub fn alloc_frame(&mut self, frame: Frame)
        requires
            old(self).wf(),
        ensures
            final(self).wf(),
            final(self).tracked_frames() == old(self).tracked_frames(),
            final(self).backing() == old(self).backing(),
            final(self).free_set() == old(self).free_set().remove(frame.index() as int),
    {
        if frame.idx() < self.n_frames {
            let idx = frame.idx() / 8;
            let bit = (frame.idx() % 8) as u8;
            let byte = self.inner[idx];
            self.inner.set(idx, byte & !(1u8 << bit));
            proof {
                assert forall|k: int| self.is_marked(k) == (k != frame.index() && old(
                    self,
                ).is_marked(k)) by {
                    if 0 <= k < self.n_frames {
                        lemma_bit_ops(byte, bit, (k % 8) as u8);
                    }
                }
            }
        }
        assert(self.free_set() =~= old(self).free_set().remove(frame.index() as int));
    }

    /// Marks `frame` as free, if the bitmap tracks it.
    pub fn free_frame(&mut self, frame: Frame)
        requires
            old(self).wf(),
        ensures
            final(self).wf(),
            final(self).tracked_frames() == old(self).tracked_frames(),
            final(self).backing() == old(self).backing(),
            frame.index() < old(self).tracked_frames() ==> final(self).free_set() == old(
                self,
            ).free_set().insert(frame.index() as int),
            frame.index() >= old(self).tracked_frames() ==> final(self).free_set() == old(
                self,
            ).free_set(),
    {
        if frame.idx() < self.n_frames {
            let idx = frame.idx() / 8;
            let bit = (frame.idx() % 8) as u8;
            let byte = self.inner[idx];
            self.inner.set(idx, byte | (1u8 << bit));
            proof {
                assert forall|k: int| self.is_marked(k) == (k == frame.index() || old(
                    self,
                ).is_marked(k)) by {
                    if 0 <= k < self.n_frames {
                        lemma_bit_ops(byte, bit, (k % 8) as u8);
                    }
                }
            }
            assert(self.free_set() =~= old(self).free_set().insert(frame.index() as int));
        } else {
            assert(self.free_set() =~= old(self).free_set());
        }
    }

    /// Marks the frames from `first` up to, not including, `end` as free,
    /// as far as the bitmap tracks them.
    pub fn free_span(&mut self, first: usize, end: usize)
        requires
            old(self).wf(),
        ensures
            final(self).wf(),
            final(self).tracked_frames() == old(self).tracked_frames(),
            final(self).backing() == old(self).backing(),
            final(self).free_set() == old(self).free_set().union(
                span(first as int, end as int).intersect(
                    span(0, old(self).tracked_frames() as int),
                ),
            ),
    {
        let stop = if end < self.n_frames {
            end
        } else {
            self.n_frames
        };
        let mut i = first;
        assert(self.free_set() =~= old(self).free_set().union(
            span(first as int, i as int).intersect(span(0, old(self).tracked_frames() as int)),
        ));
        while i < stop
            invariant
                first <= i,
                i <= stop || i == first,
                stop <= self.n_frames,
                stop <= end,
                stop == end || stop == self.n_frames,
                self.wf(),
                self.tracked_frames() == old(self).tracked_frames(),
                self.backing() == old(self).backing(),
                self.free_set() == old(self).free_set().union(
                    span(first as int, i as int).intersect(
                        span(0, old(self).tracked_frames() as int),
                    ),
                ),
            decreases stop - i,
        {
            self.free_frame(Frame::from_idx(i));
            i += 1;
            assert(self.free_set() =~= old(self).free_set().union(
                span(first as int, i as int).intersect(
                    span(0, old(self).tracked_frames() as int),
                ),
            ));
        }
        assert(self.free_set() =~= old(self).free_set().union(
            span(first as int, end as int).intersect(span(0, old(self).tracked_frames() as int)),
        ));
    }

    /// The lowest run of `count` free frames, if there is one.
    pub fn first_free_frames(&self, count: usize) -> (r: Option<FrameRange>)
        requires
            self.wf(),
            count > 0,
        ensures
            match r {
                Some(frames) => frames.len() == count && is_first_fit(
                    self.free_set(),
                    count as int,
                    frames.start() as int,
                ),
                None => forall|i: int| 0 <= i ==> !run_free(self.free_set(), i, count as int),
            },
    {
        let mut i: usize = 0;
        while i < self.n_frames
            invariant
                i <= self.n_frames,
                self.wf(),
                count > 0,
                forall|k: int| 0 <= k < i ==> !run_free(self.free_set(), k, count as int),
            decreases self.n_frames - i,
        {
            let mut bad = false;
            let mut j: usize = 0;
            while j < count
                invariant_except_break
                    !bad,
                invariant
                    j <= count,
                    i < self.n_frames,
                    self.wf(),
                    !bad ==> forall|k: int| i <= k < i + j ==> self.free_set().contains(k),
                    !bad ==> i + j <= self.n_frames,
                    bad ==> !run_free(self.free_set(), i as int, count as int),
                ensures
                    !bad ==> j == count,
                decreases count - j,
            {
                if j >= self.n_frames - i {
                    bad = true;
                    assert(!self.free_set().contains(i + j));
                    break ;
                }
                if !self.is_free(Frame::from_idx(i + j)) {
                    bad = true;
                    break ;
                }
                j += 1;
            }
            if !bad {
                return Some(FrameRange::from_idx(i, count));
            }
            i += 1;
        }
        proof {
            assert forall|k: int| 0 <= k implies !run_free(self.free_set(), k, count as int) by {
                if k >= self.n_frames {
                    assert(!self.free_set().contains(k));
                }
            }
        }
        None
    }
}

/// The highest end address among `areas`, or zero where there are none.
pub open spec fn highest_end(areas: Seq<MemoryArea>) -> int
    decreases areas.len(),
{
    if areas.len() == 0 {
        0
    } else {
        let rest = highest_end(areas.drop_last());
        if areas.last().end() > rest {
            areas.last().end()
        } else {
            rest
        }
    }
}

/// No area ends above `highest_end`, and it is zero or the end of one of them.
pub proof fn lemma_highest_end(areas: Seq<MemoryArea>)
    ensures
        0 <= highest_end(areas),
        forall|k: int| 0 <= k < areas.len() ==> (#[trigger] areas[k]).end() <= highest_end(areas),
        highest_end(areas) == 0 || exists|k: int|
            0 <= k < areas.len() && (#[trigger] areas[k]).end() == highest_end(areas),
    decreases areas.len(),
{
    if areas.len() > 0 {
        let rest = areas.drop_last();
        lemma_highest_end(rest);
        assert forall|k: int| 0 <= k < areas.len() implies (#[trigger] areas[k]).end()
            <= highest_end(areas) by {
            if k < rest.len() {
                assert(rest[k] == areas[k]);
            }
        }
        if highest_end(areas) != 0 {
            if areas.last().end() > highest_end(rest) {
                assert(areas[areas.len() - 1].end() == highest_end(areas));
            } else {
                let k = choose|k: int|
                    0 <= k < rest.len() && (#[trigger] rest[k]).end() == highest_end(rest);
                assert(rest[k] == areas[k]);
            }
        }
    }
}

/// The number of frames that a bitmap over `areas` tracks: one more than
/// the index of the frame at their highest end.
pub open spec fn frames_tracked(areas: Seq<MemoryArea>) -> int {
    highest_end(areas) / 0x1000 + 1
}

/// The bitmap allocator.
pub struct BitmapAlloc {
    bitmap: FrameBitmap,
}

impl BitmapAlloc {
    /// The number of frames that the allocator tracks.
    pub closed spec fn tracked_frames(&self) -> usize {
        self.bitmap.tracked_frames()
    }

    /// The frames that hold the allocator's bitmap.
    pub closed spec fn backing(&self) -> FrameRange {
        self.bitmap.backing()
    }

    /// Takes over from a bump allocator. The bitmap's own frames are taken
    /// from `bump_alloc` first; then every frame that `bump_alloc` has not
    /// handed out by then is free, and no other.
    #[verifier::rlimit(40)]
    pub fn new(bump_alloc: BumpAlloc) -> (r: Result<Self, AllocError>)
        requires
            bump_alloc.wf(),
        ensures
            match placement(
                bump_alloc.areas(),
                bump_alloc.position() as int,
                FrameBitmap::frames_needed(frames_tracked(bump_alloc.areas())),
            ) {
                Some((addr, next)) => {
                    &&& r is Ok
                    &&& r->Ok_0.wf()
                    &&& r->Ok_0.tracked_frames() == frames_tracked(bump_alloc.areas())
                    &&& r->Ok_0.free_frames() == frames_from(bump_alloc.areas(), next)
                    &&& r->Ok_0.backing().start() * 0x1000 == addr
                    &&& r->Ok_0.backing().len() == FrameBitmap::frames_needed(
                        frames_tracked(bump_alloc.areas()),
                    )
                },
                None => r is Err,
            },
    {
        let mut bump_alloc = bump_alloc;
        let ghost areas = bump_alloc.areas();
        let last_addr = Self::last_free_addr(bump_alloc.mmap());
        let n_frames = last_addr / PAGE_SIZE + 1;
        let mut bitmap = match FrameBitmap::new(&mut bump_alloc, n_frames) {
            Ok(bitmap) => bitmap,
            Err(e) => {
                return Err(e);
            },
        };
        let offset = bump_alloc.offset();
        let mmap = bump_alloc.mmap();
        let mut base: usize = 0;
        let mut k: usize = 0;
        let ghost backing = bitmap.backing();
        proof {
            lemma_highest_end(areas);
            assert(bitmap.free_set() =~= Set::new(
                |f: int| exists|j: int| 0 <= j < k && region_free(areas, offset as int, j, f),
            ));
        }
        while k < mmap.len()
            invariant
                k <= mmap.len(),
                mmap@ == areas,
                regions_ok(areas),
                offset % 0x1000 == 0,
                base == crate::bump::prefix_size(areas, k as int),
                bitmap.wf(),
                bitmap.tracked_frames() == n_frames,
                n_frames == frames_tracked(areas),
                bitmap.backing() == backing,
                forall|j: int| 0 <= j < areas.len() ==> (#[trigger] areas[j]).end() <= highest_end(
                    areas,
                ),
                bitmap.free_set() == Set::new(
                    |f: int| exists|j: int| 0 <= j < k && region_free(areas, offset as int, j, f),
                ),
            decreases mmap.len() - k,
        {
            let area = mmap[k];
            proof {
                crate::bump::lemma_prefix_size(areas, k as int, areas.len() as int);
                assert(areas[k as int].wf());
                assert(areas[k as int].page_aligned());
            }
            let used = if offset <= base {
                0
            } else if offset - base >= area.size() {
                area.size()
            } else {
                offset - base
            };
            let first = (area.start_addr() + used) / PAGE_SIZE;
            let end = area.end_addr() / PAGE_SIZE;
            let ghost before = bitmap.free_set();
            bitmap.free_span(first, end);
            proof {
                assert(used == used_in(areas, offset as int, k as int));
                crate::bump::lemma_prefix_size(areas, k as int, k as int);
                assert forall|f: int| region_free(areas, offset as int, k as int, f) == (first
                    <= f < end) by {
                }
                assert(bitmap.free_set() =~= Set::new(
                    |f: int|
                        exists|j: int| 0 <= j < k + 1 && region_free(areas, offset as int, j, f),
                )) by {
                    assert forall|f: int| bitmap.free_set().contains(f) implies exists|j: int|
                        0 <= j < k + 1 && region_free(areas, offset as int, j, f) by {
                        if before.contains(f) {
                            let j = choose|j: int|
                                0 <= j < k && region_free(areas, offset as int, j, f);
                            assert(0 <= j < k + 1 && region_free(areas, offset as int, j, f));
                        } else {
                            assert(region_free(areas, offset as int, k as int, f));
                        }
                    }
                    assert forall|f: int|
                        (exists|j: int|
                            0 <= j < k + 1 && region_free(
                                areas,
                                offset as int,
                                j,
                                f,
                            )) implies bitmap.free_set().contains(f) by {
                        let j = choose|j: int|
                            0 <= j < k + 1 && region_free(areas, offset as int, j, f);
                        if j < k {
                            assert(before.contains(f));
                        } else {
                            assert(first <= f < end);
                            assert(span(first as int, end as int).contains(f));
                            assert(span(0, n_frames as int).contains(f));
                        }
                    }
                }
            }
            base = base + area.size();
            k += 1;
        }
        let b = Self { bitmap };
        proof {
            assert(b.free_frames() =~= frames_from(areas, offset as int));
        }
        Ok(b)
    }

    /// The highest end address among `mmap`.
    pub fn last_free_addr(mmap: &[MemoryArea]) -> (addr: usize)
        requires
            forall|k: int| 0 <= k < mmap@.len() ==> (#[trigger] mmap@[k]).wf(),
        ensures
            addr == highest_end(mmap@),
    {
        let mut addr: usize = 0;
        let mut i: usize = 0;
        while i < mmap.len()
            invariant
                i <= mmap.len(),
                forall|k: int| 0 <= k < mmap@.len() ==> (#[trigger] mmap@[k]).wf(),
                addr == highest_end(mmap@.take(i as int)),
            decreases mmap.len() - i,
        {
            let area = mmap[i];
            proof {
                assert(mmap@[i as int].wf());
                assert(mmap@.take(i + 1).drop_last() =~= mmap@.take(i as int));
                assert(mmap@.take(i + 1).last() == mmap@[i as int]);
            }
            if area.end_addr() > addr {
                addr = area.end_addr();
            }
            i += 1;
        }
        proof {
            assert(mmap@.take(mmap@.len() as int) =~= mmap@);
        }
        addr
    }

    /// Whether `frame` is free. A frame that the allocator does not track is not.
    pub fn is_free(&self, frame: Frame) -> (b: bool)
        requires
            self.wf(),
        ensures
            b == self.free_frames().contains(frame.index() as int),
    {
        self.bitmap.is_free(frame)
    }

    /// Only frames that the allocator tracks are free.
    pub proof fn lemma_free_frames_tracked(&self)
        requires
            self.wf(),
        ensures
            self.free_frames().subset_of(span(0, self.tracked_frames() as int)),
            self.tracked_frames() <= max_frame_idx() + 1,
    {
        self.bitmap.lemma_free_set_bounded();
    }

    /// Handing a run of frames out and taking it back restores the free
    /// frames: `after` is the allocator that `self` becomes when it hands
    /// out `frames`, and what freeing `frames` makes free then is what was
    /// free in `self`.
    pub proof fn lemma_balanced(&self, after: &Self, frames: FrameRange)
        requires
            self.wf(),
            after.tracked_frames() == self.tracked_frames(),
            is_first_fit(self.free_frames(), frames.len() as int, frames.start() as int),
            after.free_frames() == self.free_frames().difference(frames.indices()),
        ensures
            after.free_frames().union(
                frames.indices().intersect(span(0, after.tracked_frames() as int)),
            ) == self.free_frames(),
    {
        self.lemma_free_frames_tracked();
        assert(frames.indices() =~= span(frames.start() as int, frames.start() + frames.len()));
        lemma_bitmap_balanced(
            self.free_frames(),
            self.tracked_frames() as int,
            frames.len() as int,
            frames.start() as int,
        );
    }
}

impl FrameAlloc for BitmapAlloc {
    closed spec fn wf(&self) -> bool {
        self.bitmap.wf()
    }

    closed spec fn free_frames(&self) -> Set<int> {
        self.bitmap.free_set()
    }

    open spec fn reclaims(&self) -> bool {
        true
    }

    /// The same frames are tracked, and the bitmap lies where it lay.
    open spec fn follows(&self, earlier: &Self) -> bool {
        self.tracked_frames() == earlier.tracked_frames() && self.backing() == earlier.backing()
    }

    proof fn lemma_follows_itself(&self) {
    }

    proof fn lemma_follows_on(&self, mid: &Self, earlier: &Self) {
    }

    proof fn lemma_free_frames_bounded(&self) {
        (*self).bitmap.lemma_free_set_bounded();
    }

    /// Hands out the lowest run of `count` free frames; fails, and changes
    /// nothing, where no `count` free frames lie side by side.
    fn allocate(&mut self, count: usize) -> (r: Result<FrameRange, AllocError>)
        ensures
            (*final(self)).tracked_frames() == (*old(self)).tracked_frames(),
            (*final(self)).backing() == (*old(self)).backing(),
            match r {
                Ok(frames) => is_first_fit(
                    (*old(self)).free_frames(),
                    count as int,
                    frames.start() as int,
                ) && (*final(self)).free_frames() == (*old(self)).free_frames().difference(
                    frames.indices(),
                ),
                Err(_) => forall|i: int|
                    0 <= i ==> !run_free((*old(self)).free_frames(), i, count as int),
            },
    {
        match self.bitmap.first_free_frames(count) {
            Some(frames) => {
                let ghost free = self.bitmap.free_set();
                let mut j: usize = 0;
                assert(self.bitmap.free_set() =~= free.difference(
                    span(frames.start() as int, frames.start() + j),
                ));
                while j < count
                    invariant
                        j <= count,
                        frames.len() == count,
                        self.bitmap.wf(),
                        self.bitmap.tracked_frames() == old(self).bitmap.tracked_frames(),
                        self.bitmap.backing() == old(self).bitmap.backing(),
                        self.bitmap.free_set() == free.difference(
                            span(frames.start() as int, frames.start() + j),
                        ),
                    decreases count - j,
                {
                    self.bitmap.alloc_frame(frames.get(j));
                    j += 1;
                    assert(self.bitmap.free_set() =~= free.difference(
                        span(frames.start() as int, frames.start() + j),
                    ));
                }
                proof {
                    assert(frames.indices() =~= span(
                        frames.start() as int,
                        frames.start() + count,
                    ));
                    assert(free.contains(frames.start() as int));
                    if count == 1 {
                        assert(free.difference(frames.indices()) =~= free.remove(
                            frames.start() as int,
                        ));
                    }
                }
                Ok(frames)
            },
            None => {
                proof {
                    if count == 1 {
                        assert forall|f: int| !self.bitmap.free_set().contains(f) by {
                            self.bitmap.lemma_free_set_bounded();
                            if self.bitmap.free_set().contains(f) {
                                assert(run_free(self.bitmap.free_set(), f, 1));
                            }
                        }
                    }
                }
                Err(AllocError::NoMemory)
            },
        }
    }

    /// Marks every frame of `frames` that the allocator tracks as free.
    fn free(&mut self, frames: FrameRange)
        ensures
            (*final(self)).tracked_frames() == (*old(self)).tracked_frames(),
            (*final(self)).backing() == (*old(self)).backing(),
            (*final(self)).free_frames() == (*old(self)).free_frames().union(
                frames.indices().intersect(span(0, (*old(self)).tracked_frames() as int)),
            ),
    {
        let first = frames.first().idx();
        let end = frames.last().idx() + 1;
        proof {
            assert(frames.indices() =~= span(first as int, end as int));
        }
        self.bitmap.free_span(first, end);
    }
}

} // verus!
