//! The table of segment descriptors and the task state segment: how their
//! entries are put together.

use vstd::prelude::*;

verus! {

/// Most tables that can be in use at once.
pub const MAX_GDTS: usize = 16;

/// A code segment.
pub const CODE: u32 = 0x1800;

/// A data segment.
pub const DATA: u32 = 0x1200;

/// A task state segment.
pub const TSS: u32 = 0x0900;

/// Reachable from privilege level 0 only.
pub const DPL0: u32 = 0x0000;

/// Reachable from privilege level 1.
pub const DPL1: u32 = 0x2000;

/// Reachable from privilege level 2.
pub const DPL2: u32 = 0x4000;

/// Reachable from every privilege level.
pub const DPL3: u32 = 0x6000;

/// The segment is in use.
pub const PRESENT: u32 = 0x8000;

/// A segment of 64-bit code.
pub const LONG: u32 = 0x20_0000;

/// The selector of the kernel's code segment.
pub const KERNEL_CODE: u16 = 0x08;

/// The selector of the task state segment.
pub const TSS_SELECTOR: u16 = 0x20;

/// What the descriptor of a task state segment at `base`, with limit
/// `limit`, holds in its low word: bits 0 to 15 of the limit below bits 0
/// to 15 of the base.
pub open spec fn tss_low_bits(base: usize, limit: usize) -> int {
    limit as int % 0x1_0000 + (base as int % 0x1_0000) * 0x1_0000
}

/// What the same descriptor holds in its high word, beside its flags: bits
/// 16 to 23 of the base at the bottom, bits 16 to 19 of the limit from bit
/// 16 on, and bits 24 to 31 of the base at the top.
pub open spec fn tss_high_bits(base: usize, limit: usize) -> int {
    (base as int / 0x1_0000) % 0x100 + ((limit as int / 0x1_0000) % 0x10) * 0x1_0000 + ((base as int
        / 0x100_0000) % 0x100) * 0x100_0000
}

/// What the word after the descriptor holds: bits 32 to 63 of the base.
pub open spec fn tss_upper_bits(base: usize) -> int {
    (base as int / 0x1_0000_0000) % 0x1_0000_0000
}

/// One entry of the table: two words.
#[derive(Clone, Copy)]
pub struct Entry {
    low: u32,
    high: u32,
}

impl Entry {
    /// The low word.
    pub closed spec fn low_word(self) -> u32 {
        self.low
    }

    /// The high word.
    pub closed spec fn high_word(self) -> u32 {
        self.high
    }

    /// The entry of two zero words as a value of contracts.
    pub closed spec fn zero() -> Self {
        Entry { low: 0, high: 0 }
    }

    /// The words of the zero entry are zero.
    pub proof fn lemma_zero()
        ensures
            Self::zero().low_word() == 0,
            Self::zero().high_word() == 0,
    {
    }

    pub fn new() -> (e: Self)
        ensures
            e == Self::zero(),
            e.low_word() == 0,
            e.high_word() == 0,
    {
        Self { low: 0, high: 0 }
    }

    /// The low word.
    pub fn low(&self) -> (w: u32)
        ensures
            w == self.low_word(),
    {
        self.low
    }

    /// The high word.
    pub fn high(&self) -> (w: u32)
        ensures
            w == self.high_word(),
    {
        self.high
    }

    pub fn set_addr(&mut self, addr: u32) -> (r: &mut Self)
        ensures
            r.low_word() == addr,
            r.high_word() == old(self).high_word(),
            *final(self) == *final(r),
    {
        self.low = addr;
        self
    }

    pub fn set_flags(&mut self, flags: u32) -> (r: &mut Self)
        ensures
            r.low_word() == old(self).low_word(),
            r.high_word() == flags,
            *final(self) == *final(r),
    {
        self.high = flags;
        self
    }

    /// Adds the base and the limit of a task state segment to the entry.
    pub fn encode_tss_low(&mut self, base: usize, limit: usize) -> (r: &mut Self)
        ensures
            r.low_word() == old(self).low_word() | (tss_low_bits(base, limit) as u32),
            r.high_word() == old(self).high_word() | (tss_high_bits(base, limit) as u32),
            tss_low_bits(base, limit) <= u32::MAX,
            tss_high_bits(base, limit) <= u32::MAX,
            *final(self) == *final(r),
    {
        let high = ((base / 0x1_0000) % 0x100) as u32 + (((limit / 0x1_0000) % 0x10) as u32)
            * 0x1_0000 + (((base / 0x100_0000) % 0x100) as u32) * 0x100_0000;
        let low = (limit % 0x1_0000) as u32 + ((base % 0x1_0000) as u32) * 0x1_0000;
        self.high = self.high | high;
        self.low = self.low | low;
        self
    }

    /// Makes the entry the word that follows such a descriptor.
    pub fn encode_tss_high(&mut self, base: usize, _limit: usize) -> (r: &mut Self)
        ensures
            r.low_word() == tss_upper_bits(base),
            r.high_word() == old(self).high_word(),
            *final(self) == *final(r),
    {
        self.low = (((base as u64) / 0x1_0000_0000u64) % 0x1_0000_0000u64) as u32;
        self
    }
}

/// The table of segment descriptors.
pub struct Gdt {
    entries: [Entry; 256],
    length: usize,
}

impl Gdt {
    /// The entries of the table, those not yet in use too.
    pub closed spec fn view(&self) -> Seq<Entry> {
        self.entries@
    }

    /// The number of entries in use.
    pub closed spec fn len(&self) -> usize {
        self.length
    }

    /// A table with the empty entry that every table starts with, and no other.
    pub fn new() -> (g: Self)
        ensures
            g.len() == 1,
            g@.len() == 256,
            forall|i: int| 0 <= i < 256 ==> #[trigger] g@[i] == Entry::zero(),
    {
        Self { entries: [Entry::new();256], length: 1 }
    }

    /// The number of entries in use.
    pub fn length(&self) -> (n: usize)
        ensures
            n == self.len(),
    {
        self.length
    }

    /// Entry `idx` of the table.
    pub fn entry(&self, idx: usize) -> (e: Entry)
        requires
            idx < 256,
        ensures
            e == self@[idx as int],
    {
        self.entries[idx]
    }

    /// The limit that the processor is given with the table: the number of
    /// the last byte in use.
    pub fn limit(&self) -> (l: u16)
        requires
            1 <= self.len() <= 256,
        ensures
            l == self.len() * 8 - 1,
    {
        (self.length * 8 - 1) as u16
    }

    /// Takes the next entry into use, as a segment at address zero with `flags`.
    pub fn add_segment(&mut self, flags: u32) -> (r: &mut Entry)
        requires
            old(self).len() < 256,
        ensures
            r.low_word() == 0,
            r.high_word() == flags,
            final(self).len() == old(self).len() + 1,
            final(self)@ == old(self)@.update(old(self).len() as int, *final(r)),
    {
        let idx = self.length;
        self.length = self.length + 1;
        let entry = &mut self.entries[idx];
        entry.set_addr(0).set_flags(flags)
    }
}

/// The task state segment.
#[derive(Clone, Copy)]
pub struct Tss {
    _reserved0: u32,
    rsp0: u64,
    rsp1: u64,
    rsp2: u64,
    _reserved1: u64,
    ist1: u64,
    ist2: u64,
    ist3: u64,
    ist4: u64,
    ist5: u64,
    ist6: u64,
    ist7: u64,
    _reserved2: u64,
    _reserved3: u16,
    iopb: u16,
}

impl Tss {
    /// The stack that the processor takes when it enters the kernel.
    pub closed spec fn kernel_stack(&self) -> u64 {
        self.rsp0
    }

    /// Every other field of the segment is zero, always.
    #[verifier::type_invariant]
    pub closed spec fn rest_is_zero(&self) -> bool {
        &&& self._reserved0 == 0
        &&& self.rsp1 == 0
        &&& self.rsp2 == 0
        &&& self._reserved1 == 0
        &&& self.ist1 == 0
        &&& self.ist2 == 0
        &&& self.ist3 == 0
        &&& self.ist4 == 0
        &&& self.ist5 == 0
        &&& self.ist6 == 0
        &&& self.ist7 == 0
        &&& self._reserved2 == 0
        &&& self._reserved3 == 0
        &&& self.iopb == 0
    }

    pub fn new() -> (t: Self)
        ensures
            t.kernel_stack() == 0,
            t.rest_is_zero(),
    {
        Self {
            _reserved0: 0,
            rsp0: 0,
            rsp1: 0,
            rsp2: 0,
            _reserved1: 0,
            ist1: 0,
            ist2: 0,
            ist3: 0,
            ist4: 0,
            ist5: 0,
            ist6: 0,
            ist7: 0,
            _reserved2: 0,
            _reserved3: 0,
            iopb: 0,
        }
    }

    pub fn set_kernel_stack(&mut self, rsp: u64)
        ensures
            final(self).kernel_stack() == rsp,
            final(self).rest_is_zero(),
    {
        proof {
            use_type_invariant(&*self);
        }
        self.rsp0 = rsp;
    }

    /// The stack that the processor takes when it enters the kernel.
    pub fn rsp0(&self) -> (rsp: u64)
        ensures
            rsp == self.kernel_stack(),
    {
        self.rsp0
    }
}

/// Fills a table with the kernel's segments: code for the kernel, code and
/// data for user mode, and the task state segment at `tss_base`, whose
/// descriptor takes two entries.
pub fn init(gdt: &mut Gdt, tss_base: usize, tss_limit: usize)
    requires
        old(gdt).len() + 5 <= 256,
        old(gdt)@.len() == 256,
    ensures
        final(gdt).len() == old(gdt).len() + 5,
        final(gdt)@.len() == 256,
        forall|i: int|
            0 <= i < 256 && !(old(gdt).len() <= i < old(gdt).len() + 5) ==> #[trigger] final(gdt)@[i]
                == old(gdt)@[i],
        ({
            let n = old(gdt).len() as int;
            let t = final(gdt)@;
            &&& t[n].low_word() == 0 && t[n].high_word() == PRESENT | DPL0 | CODE | LONG
            &&& t[n + 1].low_word() == 0 && t[n + 1].high_word() == PRESENT | DPL3 | CODE | LONG
            &&& t[n + 2].low_word() == 0 && t[n + 2].high_word() == PRESENT | DPL3 | DATA
            &&& t[n + 3].low_word() == 0u32 | (tss_low_bits(tss_base, tss_limit) as u32)
            &&& t[n + 3].high_word() == (PRESENT | TSS) | (tss_high_bits(tss_base, tss_limit) as u32)
            &&& t[n + 4].low_word() == tss_upper_bits(tss_base)
            &&& t[n + 4].high_word() == 0
        }),
{
    gdt.add_segment(PRESENT | DPL0 | CODE | LONG);
    gdt.add_segment(PRESENT | DPL3 | CODE | LONG);
    gdt.add_segment(PRESENT | DPL3 | DATA);
    gdt.add_segment(PRESENT | TSS).encode_tss_low(tss_base, tss_limit);
    gdt.add_segment(0).encode_tss_high(tss_base, tss_limit);
}

} // verus!
