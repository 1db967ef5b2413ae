//! What every frame allocator offers, whatever its stage of life.

use vstd::prelude::*;
use crate::frame::{max_frame_idx, FrameRange};

verus! {

/// Why an allocation failed.
#[derive(Debug, Clone, Copy, PartialEq, Eq, Structural)]
pub enum AllocError {
    /// No run of free frames of the length asked for is left.
    NoMemory,
}

impl AllocError {
    /// The text that describes this error.
    pub fn message(&self) -> (s: &'static str)
        ensures
            s@ == "no memory"@,
    {
        match self {
            AllocError::NoMemory => "no memory",
        }
    }
}

/// A source of physical frames.
///
/// The model of an allocator is the set of frame indices that it may still
/// hand out. A frame leaves that set when it is handed out and, where the
/// allocator can take frames back, returns to it when it is freed. Neither
/// operation may be entered again while a call on the same allocator runs.
pub trait FrameAlloc {
    /// The allocator's own invariant.
    spec fn wf(&self) -> bool;

    /// The frames that may still be handed out.
    spec fn free_frames(&self) -> Set<int>;

    /// Whether this allocator takes frames back.
    spec fn reclaims(&self) -> bool;

    /// Whether `self` can be what `earlier` has become by handing out
    /// frames and taking frames back: what an allocator is made of stays.
    spec fn follows(&self, earlier: &Self) -> bool;

    /// An allocator follows itself.
    proof fn lemma_follows_itself(&self)
        ensures
            self.follows(self),
    ;

    /// What follows a follower follows.
    proof fn lemma_follows_on(&self, mid: &Self, earlier: &Self)
        requires
            self.follows(mid),
            mid.follows(earlier),
        ensures
            self.follows(earlier),
    ;

    /// Only frames that have an address are ever free, so only finitely many.
    proof fn lemma_free_frames_bounded(&self)
        requires
            self.wf(),
        ensures
            forall|f: int| #[trigger] self.free_frames().contains(f) ==> 0 <= f <= max_frame_idx(),
    ;

    /// Hands out `count` consecutive frames that were free, or fails with
    /// `NoMemory` and leaves the free frames as they were. A single frame is
    /// handed out whenever one is free, and nothing but that frame is lost.
    fn allocate(&mut self, count: usize) -> (r: Result<FrameRange, AllocError>)
        requires
            old(self).wf(),
            count > 0,
        ensures
            final(self).wf(),
            final(self).reclaims() == old(self).reclaims(),
            final(self).follows(old(self)),
            match r {
                Ok(frames) => {
                    &&& frames.len() == count
                    &&& frames.indices().subset_of(old(self).free_frames())
                    &&& final(self).free_frames().subset_of(
                        old(self).free_frames().difference(frames.indices()),
                    )
                },
                Err(_) => final(self).free_frames() == old(self).free_frames(),
            },
            count == 1 ==> (r is Ok <==> exists|f: int| old(self).free_frames().contains(f)),
            count == 1 && r is Ok ==> final(self).free_frames() == old(self).free_frames().remove(
                r->Ok_0.start() as int,
            ),
    ;

    /// Takes `frames` back: they may be handed out again. Whether they had
    /// been handed out before is not checked.
    fn free(&mut self, frames: FrameRange)
        requires
            old(self).wf(),
            old(self).reclaims(),
        ensures
            final(self).wf(),
            final(self).reclaims(),
            final(self).follows(old(self)),
            old(self).free_frames().subset_of(final(self).free_frames()),
            final(self).free_frames().subset_of(old(self).free_frames().union(frames.indices())),
    ;
}

impl<T: FrameAlloc> FrameAlloc for &mut T {
    open spec fn wf(&self) -> bool {
        (**self).wf()
    }

    open spec fn free_frames(&self) -> Set<int> {
        (**self).free_frames()
    }

    open spec fn reclaims(&self) -> bool {
        (**self).reclaims()
    }

    open spec fn follows(&self, earlier: &Self) -> bool {
        (**self).follows(&**earlier)
    }

    proof fn lemma_follows_itself(&self) {
        (**self).lemma_follows_itself();
    }

    proof fn lemma_follows_on(&self, mid: &Self, earlier: &Self) {
        (**self).lemma_follows_on(&**mid, &**earlier);
    }

    proof fn lemma_free_frames_bounded(&self) {
        (**self).lemma_free_frames_bounded();
    }

    fn allocate(&mut self, count: usize) -> (r: Result<FrameRange, AllocError>) {
        T::allocate(self, count)
    }

    fn free(&mut self, frames: FrameRange) {
        T::free(self, frames)
    }
}

/// The free frames of an allocator are finitely many.
pub proof fn lemma_free_frames_finite<F: FrameAlloc>(allocator: &F)
    requires
        allocator.wf(),
    ensures
        allocator.free_frames().finite(),
{
    allocator.lemma_free_frames_bounded();
    let range = vstd::set_lib::set_int_range(0, max_frame_idx() + 1);
    vstd::set_lib::lemma_int_range(0, max_frame_idx() + 1);
    assert(allocator.free_frames().subset_of(range));
    vstd::set_lib::lemma_set_subset_finite(range, allocator.free_frames());
}

} // verus!
