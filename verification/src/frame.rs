//! Frames, frame ranges and memory areas.

use vstd::prelude::*;

verus! {

/// Number of address bits covered by one page.
pub const PAGE_SHIFT: usize = 12;

/// Mask of the byte offset inside a page.
pub const PAGE_MASK: usize = 0xFFF;

/// Size of a page, and of a frame, in bytes.
pub const PAGE_SIZE: usize = 0x1000;

/// Largest frame index whose byte address still fits in a machine word.
pub open spec fn max_frame_idx() -> int {
    usize::MAX as int / 0x1000
}

/// A frame of physical memory, named by its index (its address divided by the page size).
#[derive(Debug, Clone, Copy, PartialEq, Eq, Structural, PartialOrd, Ord)]
pub struct Frame(usize);

impl Frame {
    /// The index of this frame.
    pub closed spec fn index(self) -> usize {
        self.0
    }

    /// The address of the first byte of this frame.
    pub open spec fn address(self) -> int {
        self.index() * 0x1000
    }

    /// Every frame has an address.
    #[verifier::type_invariant]
    pub open spec fn wf(self) -> bool {
        self.index() <= max_frame_idx()
    }

    pub fn from_idx(idx: usize) -> (f: Self)
        requires
            idx <= max_frame_idx(),
        ensures
            f.index() == idx,
    {
        Self(idx)
    }

    /// The frame that holds the byte at `addr`.
    pub fn from_addr(addr: usize) -> (f: Self)
        ensures
            f.index() == addr / 0x1000,
    {
        Self(addr / PAGE_SIZE)
    }

    pub fn idx(self) -> (i: usize)
        ensures
            i == self.index(),
            i <= max_frame_idx(),
    {
        proof {
            use_type_invariant(self);
        }
        self.0
    }

    pub fn addr(self) -> (a: usize)
        ensures
            a == self.address(),
    {
        proof {
            use_type_invariant(self);
        }
        self.0 * PAGE_SIZE
    }
}

/// A run of `count` consecutive frames, never empty.
#[derive(Debug, Clone, Copy, PartialEq, Eq, Structural)]
pub struct FrameRange {
    first: usize,
    count: usize,
}

impl FrameRange {
    /// Index of the first frame of the range.
    pub closed spec fn start(self) -> usize {
        self.first
    }

    /// Number of frames in the range.
    pub closed spec fn len(self) -> usize {
        self.count
    }

    /// Every range holds a frame, and each of its frames has an address.
    #[verifier::type_invariant]
    pub open spec fn wf(self) -> bool {
        self.len() > 0 && self.start() + self.len() - 1 <= max_frame_idx()
    }

    /// The frame indices of the range, as a set.
    pub open spec fn indices(self) -> Set<int> {
        Set::new(|i: int| self.start() <= i < self.start() + self.len())
    }

    pub fn from_idx(first: usize, count: usize) -> (r: Self)
        requires
            count > 0,
            first + count - 1 <= max_frame_idx(),
        ensures
            r.start() == first,
            r.len() == count,
    {
        Self { first, count }
    }

    /// The range of `count` frames that begins with the frame holding `first`.
    pub fn from_addr(first: usize, count: usize) -> (r: Self)
        requires
            count > 0,
            first / 0x1000 + count - 1 <= max_frame_idx(),
        ensures
            r.start() == first / 0x1000,
            r.len() == count,
    {
        Self { first: first / PAGE_SIZE, count }
    }

    /// The address of the first byte of the range: that of its first frame.
    pub fn addr(&self) -> (a: usize)
        ensures
            a == self.start() * 0x1000,
    {
        proof {
            use_type_invariant(self);
        }
        self.first * PAGE_SIZE
    }

    /// Number of frames in the range.
    pub fn count(&self) -> (n: usize)
        ensures
            n == self.len(),
            n > 0,
    {
        proof {
            use_type_invariant(self);
        }
        self.count
    }

    pub fn get(&self, idx: usize) -> (f: Frame)
        requires
            idx < self.len(),
        ensures
            f.index() == self.start() + idx,
    {
        proof {
            use_type_invariant(self);
        }
        Frame::from_idx(self.first + idx)
    }

    pub fn first(&self) -> (f: Frame)
        ensures
            f.index() == self.start(),
    {
        proof {
            use_type_invariant(self);
        }
        self.get(0)
    }

    pub fn last(&self) -> (f: Frame)
        ensures
            f.index() == self.start() + self.len() - 1,
    {
        proof {
            use_type_invariant(self);
        }
        self.get(self.count - 1)
    }

    /// A cursor over the frames of the range, in rising order.
    pub fn iter(&self) -> (it: FrameIter)
        ensures
            it.remaining() == Seq::new(self.len() as nat, |i: int| self.start() + i),
    {
        proof {
            use_type_invariant(self);
        }
        let it = FrameIter { current: self.first, last: self.first + self.count };
        assert(it.remaining() =~= Seq::new(self.len() as nat, |i: int| self.start() + i));
        it
    }
}

/// A cursor over the frames of a range.
pub struct FrameIter {
    current: usize,
    last: usize,
}

impl FrameIter {
    #[verifier::type_invariant]
    spec fn inv(self) -> bool {
        self.current <= self.last <= max_frame_idx() + 1
    }

    /// The indices of the frames still to come, in the order in which they come.
    pub closed spec fn remaining(self) -> Seq<int> {
        Seq::new((self.last - self.current) as nat, |i: int| self.current + i)
    }

    /// Hands out the next frame, if one is left, and steps past it.
    pub fn next(&mut self) -> (r: Option<Frame>)
        ensures
            old(self).remaining().len() == 0 ==> r is None && final(self).remaining()
                == old(self).remaining(),
            old(self).remaining().len() > 0 ==> r is Some && r->Some_0.index() == old(
                self,
            ).remaining()[0] && final(self).remaining() == old(self).remaining().skip(1),
    {
        proof {
            use_type_invariant(&*self);
        }
        if self.current < self.last {
            let frame = Frame::from_idx(self.current);
            let ghost before = self.remaining();
            self.current += 1;
            assert(self.remaining() =~= before.skip(1));
            Some(frame)
        } else {
            None
        }
    }
}

/// A span of physical memory: where it starts and how many bytes it holds.
#[derive(Debug, Clone, Copy, PartialEq, Eq, Structural)]
pub struct MemoryArea {
    start: usize,
    size: usize,
}

impl MemoryArea {
    /// Address of the first byte.
    pub closed spec fn base(self) -> usize {
        self.start
    }

    /// Number of bytes.
    pub closed spec fn length(self) -> usize {
        self.size
    }

    /// Address just past the last byte.
    pub open spec fn end(self) -> int {
        self.base() + self.length()
    }

    /// The end of the area is an address.
    pub open spec fn wf(self) -> bool {
        self.end() <= usize::MAX
    }

    /// The area starts and ends on page boundaries.
    pub open spec fn page_aligned(self) -> bool {
        self.base() % 0x1000 == 0 && self.length() % 0x1000 == 0
    }

    /// The area of `size` bytes from `start` on.
    pub closed spec fn of(start: usize, size: usize) -> Self {
        Self { start, size }
    }

    /// An area is what it was made of, and nothing more.
    pub proof fn lemma_of(start: usize, size: usize)
        ensures
            Self::of(start, size).base() == start,
            Self::of(start, size).length() == size,
            forall|a: MemoryArea|
                a.base() == start && a.length() == size ==> a == #[trigger] Self::of(
                    start,
                    size,
                ),
    {
    }

    pub fn new(start: usize, size: usize) -> (a: Self)
        ensures
            a == Self::of(start, size),
            a.base() == start,
            a.length() == size,
    {
        Self { start, size }
    }

    pub fn start_addr(&self) -> (a: usize)
        ensures
            a == self.base(),
    {
        self.start
    }

    pub fn size(&self) -> (n: usize)
        ensures
            n == self.length(),
    {
        self.size
    }

    pub fn end_addr(&self) -> (a: usize)
        requires
            self.wf(),
        ensures
            a == self.end(),
    {
        self.start_addr() + self.size()
    }
}

} // verus!
