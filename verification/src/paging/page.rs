//! One entry of a page table: a frame and a few flags in one machine word.

use vstd::prelude::*;
use crate::addr::PhysAddr;
use crate::frame::{Frame, PAGE_SIZE};

verus! {

/// The protection flags of an entry: present, writable, open to user mode.
#[derive(Debug, Clone, Copy)]
pub struct PageFlags(usize);

impl PageFlags {
    /// The flags as a number: 1 for present, 2 for writable, 4 for user.
    pub closed spec fn bits(self) -> usize {
        self.0
    }

    /// Only the three flags that exist can be set.
    #[verifier::type_invariant]
    pub open spec fn wf(self) -> bool {
        self.bits() <= 7
    }

    /// Whether the present flag is set.
    pub open spec fn is_present(self) -> bool {
        self.bits() % 2 == 1
    }

    /// Whether the writable flag is set.
    pub open spec fn is_writable(self) -> bool {
        (self.bits() / 2) % 2 == 1
    }

    /// Whether the user flag is set.
    pub open spec fn is_user(self) -> bool {
        (self.bits() / 4) % 2 == 1
    }

    /// The flag of an entry that is in use.
    pub fn present() -> (f: Self)
        ensures
            f.bits() == 1,
    {
        Self(1)
    }

    /// The flag of memory that may be written, as a value of contracts.
    pub closed spec fn write_spec() -> Self {
        Self(2)
    }

    /// The writable flag is the second bit.
    pub proof fn lemma_write_spec()
        ensures
            Self::write_spec().bits() == 2,
    {
    }

    /// The flag of memory that may be written.
    pub fn write() -> (f: Self)
        ensures
            f == Self::write_spec(),
            f.bits() == 2,
    {
        Self(2)
    }

    /// The flag of memory that user mode may reach.
    pub fn user() -> (f: Self)
        ensures
            f.bits() == 4,
    {
        Self(4)
    }

    pub(crate) fn new(val: usize) -> (f: Self)
        requires
            val <= 7,
        ensures
            f.bits() == val,
    {
        Self(val)
    }

    pub fn raw(self) -> (r: usize)
        ensures
            r == self.bits(),
            r <= 7,
    {
        proof {
            use_type_invariant(self);
        }
        self.0
    }

    /// Whether the two have a flag in common.
    pub fn bitand(self, rhs: Self) -> (r: bool)
        ensures
            r == ((self.is_present() && rhs.is_present()) || (self.is_writable()
                && rhs.is_writable()) || (self.is_user() && rhs.is_user())),
    {
        proof {
            use_type_invariant(self);
            use_type_invariant(rhs);
            lemma_flag_bits(self.0, rhs.0);
        }
        (self.0 & rhs.0) != 0
    }

    /// The flags of either.
    pub fn bitor(self, rhs: Self) -> (r: Self)
        ensures
            r.is_present() == (self.is_present() || rhs.is_present()),
            r.is_writable() == (self.is_writable() || rhs.is_writable()),
            r.is_user() == (self.is_user() || rhs.is_user()),
            r.bits() <= 7,
    {
        proof {
            use_type_invariant(self);
            use_type_invariant(rhs);
            lemma_flag_bits(self.0, rhs.0);
        }
        Self(self.0 | rhs.0)
    }
}

proof fn lemma_flag_bits(a: usize, b: usize)
    requires
        a <= 7,
        b <= 7,
    ensures
        (a | b) <= 7,
        (a | b) % 2 == 1 <==> (a % 2 == 1 || b % 2 == 1),
        ((a | b) / 2) % 2 == 1 <==> ((a / 2) % 2 == 1 || (b / 2) % 2 == 1),
        ((a | b) / 4) % 2 == 1 <==> ((a / 4) % 2 == 1 || (b / 4) % 2 == 1),
        (a & b) != 0 <==> ((a % 2 == 1 && b % 2 == 1) || ((a / 2) % 2 == 1 && (b / 2) % 2 == 1) || (
        (a / 4) % 2 == 1 && (b / 4) % 2 == 1)),
{
    assert(a <= 7 && b <= 7 ==> (a | b) <= 7) by (bit_vector);
    assert(a <= 7 && b <= 7 ==> ((a | b) % 2 == 1 <==> (a % 2 == 1 || b % 2 == 1)))
        by (bit_vector);
    assert(a <= 7 && b <= 7 ==> (((a | b) / 2) % 2 == 1 <==> ((a / 2) % 2 == 1 || (b / 2) % 2
        == 1))) by (bit_vector);
    assert(a <= 7 && b <= 7 ==> (((a | b) / 4) % 2 == 1 <==> ((a / 4) % 2 == 1 || (b / 4) % 2
        == 1))) by (bit_vector);
    assert(a <= 7 && b <= 7 ==> ((a & b) != 0 <==> ((a % 2 == 1 && b % 2 == 1) || ((a / 2) % 2
        == 1 && (b / 2) % 2 == 1) || ((a / 4) % 2 == 1 && (b / 4) % 2 == 1)))) by (bit_vector);
}

/// An entry of a page table. The frame's address fills the upper bits of
/// the word, the flags the lowest three.
#[derive(Debug, Clone, Copy)]
pub struct Page(usize);

impl Page {
    /// The entry as one machine word.
    pub closed spec fn word(self) -> usize {
        self.0
    }

    /// The index of the frame that the entry names.
    pub open spec fn frame_index(self) -> int {
        self.word() as int / 0x1000
    }

    /// The flags of the entry, as a number.
    pub open spec fn flag_bits(self) -> int {
        self.word() as int % 0x1000
    }

    /// Whether the entry is in use. The frame of an entry that is not says nothing.
    pub open spec fn is_present(self) -> bool {
        self.flag_bits() % 2 == 1
    }

    /// Whether the entry lets the memory be written.
    pub open spec fn is_writable(self) -> bool {
        (self.flag_bits() / 2) % 2 == 1
    }

    /// Whether the entry lets user mode reach the memory.
    pub open spec fn is_user(self) -> bool {
        (self.flag_bits() / 4) % 2 == 1
    }

    /// Below the frame's address only flags are set.
    #[verifier::type_invariant]
    pub open spec fn wf(self) -> bool {
        self.flag_bits() <= 7
    }

    /// The empty entry as a value of contracts.
    pub closed spec fn new_spec() -> Self {
        Self(0)
    }

    /// The empty entry names frame 0 and has no flag.
    pub proof fn lemma_new_spec()
        ensures
            Self::new_spec().word() == 0,
            !Self::new_spec().is_present(),
    {
    }

    /// The empty entry: no frame, no flag.
    #[verifier::when_used_as_spec(new_spec)]
    pub fn new() -> (p: Self)
        ensures
            p == Self::new_spec(),
            p.word() == 0,
    {
        Self(0)
    }

    pub fn raw(&self) -> (r: usize)
        ensures
            r == self.word(),
    {
        self.0
    }

    pub fn frame(&self) -> (f: Frame)
        ensures
            f.index() == self.frame_index(),
    {
        Frame::from_addr(self.0)
    }

    /// The address of the frame that the entry names.
    pub fn addr(&self) -> (a: PhysAddr)
        ensures
            a.value() == self.frame_index() * 0x1000,
    {
        PhysAddr::new(self.0 - self.0 % PAGE_SIZE)
    }

    pub fn flags(&self) -> (f: PageFlags)
        ensures
            f.bits() == self.flag_bits(),
    {
        proof {
            use_type_invariant(self);
        }
        PageFlags::new(self.0 % PAGE_SIZE)
    }

    /// Names `frame`, and keeps the flags.
    pub fn set_frame(&mut self, frame: Frame) -> (r: &mut Self)
        ensures
            r.frame_index() == frame.index(),
            r.flag_bits() == old(self).flag_bits(),
            *final(self) == *final(r),
    {
        proof {
            use_type_invariant(&*self);
            use_type_invariant(frame);
        }
        let low = self.0 % PAGE_SIZE;
        let high = frame.addr();
        assert(high + low <= usize::MAX) by {
            assert(frame.index() * 0x1000 + 0xFFF <= usize::MAX);
        }
        *self = Self(high + low);
        self
    }

    /// Names the frame that holds `addr`, and keeps the flags.
    pub fn set_addr(&mut self, addr: PhysAddr) -> (r: &mut Self)
        ensures
            r.frame_index() == addr.value() / 0x1000,
            r.flag_bits() == old(self).flag_bits(),
            *final(self) == *final(r),
    {
        self.set_frame(Frame::from_addr(addr.inner()))
    }

    /// Takes `flags`, and keeps the frame.
    pub fn set_flags(&mut self, flags: PageFlags) -> (r: &mut Self)
        ensures
            r.frame_index() == old(self).frame_index(),
            r.flag_bits() == flags.bits(),
            *final(self) == *final(r),
    {
        proof {
            use_type_invariant(&*self);
        }
        let high = self.0 - self.0 % PAGE_SIZE;
        let low = flags.raw();
        *self = Self(high + low);
        self
    }
}

} // verus!
