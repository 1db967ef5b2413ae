//! Physical and virtual addresses, kept apart by their types.

use vstd::prelude::*;

verus! {

/// The largest multiple of `size` that is not above `addr`.
pub open spec fn round_down(addr: int, size: int) -> int {
    addr - addr % size
}

/// The smallest multiple of `size` that is above `addr`.
pub open spec fn next_multiple(addr: int, size: int) -> int {
    addr - addr % size + size
}

/// An address in physical memory.
#[derive(Debug, Clone, Copy, PartialEq, Eq, Structural)]
pub struct PhysAddr(usize);

impl PhysAddr {
    /// The address as a number.
    pub closed spec fn value(self) -> usize {
        self.0
    }

    pub fn new(addr: usize) -> (a: Self)
        ensures
            a.value() == addr,
    {
        Self(addr)
    }

    pub fn zero() -> (a: Self)
        ensures
            a.value() == 0,
    {
        Self(0)
    }

    pub fn inner(self) -> (n: usize)
        ensures
            n == self.value(),
    {
        self.0
    }

    /// Rounds the address down to a multiple of `val`.
    pub fn align(self, val: usize) -> (a: Self)
        requires
            val > 0,
        ensures
            a.value() == round_down(self.value() as int, val as int),
            a.value() % val == 0,
            a.value() <= self.value() < a.value() + val,
    {
        proof {
            lemma_round_down(self.0 as int, val as int);
        }
        Self(self.0 - self.0 % val)
    }

    /// Rounds the address up to the next multiple of `val`; an address that
    /// is a multiple already moves up by `val`.
    pub fn align_up(self, val: usize) -> (a: Self)
        requires
            val > 0,
            next_multiple(self.value() as int, val as int) <= usize::MAX,
        ensures
            a.value() == next_multiple(self.value() as int, val as int),
            a.value() % val == 0,
            a.value() - val <= self.value() < a.value(),
    {
        proof {
            lemma_round_down(self.0 as int, val as int);
            lemma_next_multiple(self.0 as int, val as int);
        }
        Self(self.0 - self.0 % val + val)
    }
}

/// An address in a virtual address space.
#[derive(Debug, Clone, Copy, PartialEq, Eq, Structural)]
pub struct VirtAddr(usize);

impl VirtAddr {
    /// The address as a number.
    pub closed spec fn value(self) -> usize {
        self.0
    }

    pub fn new(addr: usize) -> (a: Self)
        ensures
            a.value() == addr,
    {
        Self(addr)
    }

    pub fn zero() -> (a: Self)
        ensures
            a.value() == 0,
    {
        Self(0)
    }

    pub fn inner(self) -> (n: usize)
        ensures
            n == self.value(),
    {
        self.0
    }

    /// Rounds the address down to a multiple of `val`.
    pub fn align(self, val: usize) -> (a: Self)
        requires
            val > 0,
        ensures
            a.value() == round_down(self.value() as int, val as int),
            a.value() % val == 0,
            a.value() <= self.value() < a.value() + val,
    {
        proof {
            lemma_round_down(self.0 as int, val as int);
        }
        Self(self.0 - self.0 % val)
    }

    /// Rounds the address up to the next multiple of `val`; an address that
    /// is a multiple already moves up by `val`.
    pub fn align_up(self, val: usize) -> (a: Self)
        requires
            val > 0,
            next_multiple(self.value() as int, val as int) <= usize::MAX,
        ensures
            a.value() == next_multiple(self.value() as int, val as int),
            a.value() % val == 0,
            a.value() - val <= self.value() < a.value(),
    {
        proof {
            lemma_round_down(self.0 as int, val as int);
            lemma_next_multiple(self.0 as int, val as int);
        }
        Self(self.0 - self.0 % val + val)
    }
}

impl From<PhysAddr> for usize {
    fn from(value: PhysAddr) -> (n: usize) {
        value.0
    }
}

impl vstd::std_specs::convert::FromSpecImpl<PhysAddr> for usize {
    open spec fn obeys_from_spec() -> bool {
        true
    }

    open spec fn from_spec(value: PhysAddr) -> usize {
        value.value()
    }
}

impl From<VirtAddr> for usize {
    fn from(value: VirtAddr) -> (n: usize) {
        value.0
    }
}

impl vstd::std_specs::convert::FromSpecImpl<VirtAddr> for usize {
    open spec fn obeys_from_spec() -> bool {
        true
    }

    open spec fn from_spec(value: VirtAddr) -> usize {
        value.value()
    }
}

/// Rounding down gives a multiple of `size` that is at most `size - 1` below `addr`.
pub proof fn lemma_round_down(addr: int, size: int)
    requires
        addr >= 0,
        size > 0,
    ensures
        round_down(addr, size) % size == 0,
        0 <= round_down(addr, size) <= addr < round_down(addr, size) + size,
        round_down(addr, size) == (addr / size) * size,
{
    vstd::arithmetic::div_mod::lemma_fundamental_div_mod(addr, size);
    vstd::arithmetic::div_mod::lemma_mod_multiples_basic(addr / size, size);
    vstd::arithmetic::div_mod::lemma_mod_bound(addr, size);
    assert(size * (addr / size) == (addr / size) * size) by (nonlinear_arith);
}

/// Rounding up gives the multiple of `size` that follows `addr`.
pub proof fn lemma_next_multiple(addr: int, size: int)
    requires
        addr >= 0,
        size > 0,
    ensures
        next_multiple(addr, size) % size == 0,
        next_multiple(addr, size) - size <= addr < next_multiple(addr, size),
        next_multiple(addr, size) == (addr / size + 1) * size,
{
    lemma_round_down(addr, size);
    vstd::arithmetic::div_mod::lemma_mod_multiples_basic(addr / size + 1, size);
    assert((addr / size + 1) * size == (addr / size) * size + size) by (nonlinear_arith);
}

} // verus!
