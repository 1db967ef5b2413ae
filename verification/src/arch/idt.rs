//! The table of interrupt handlers: how its entries are put together.

use vstd::prelude::*;

verus! {

/// The entry is in use.
pub const PRESENT: u8 = 0x80;

/// Reachable from privilege level 0 only.
pub const DPL0: u8 = 0x00;

/// Reachable from privilege level 1.
pub const DPL1: u8 = 0x20;

/// Reachable from privilege level 2.
pub const DPL2: u8 = 0x40;

/// Reachable from every privilege level.
pub const DPL3: u8 = 0x60;

/// A gate that turns interrupts off while its handler runs.
pub const INTERRUPT: u8 = 0xE;

/// The selector of the code segment in which handlers run.
pub const KERNEL_CODE: u16 = 0x08;

/// The limit that the processor is given with the table.
pub const IDT_LIMIT: u16 = 2047;

/// One entry of the table: the address of a handler in three parts, the
/// code segment it runs in, the stack it takes and its flags.
#[derive(Clone, Copy)]
pub struct Entry {
    base_low: u16,
    cs: u16,
    ist: u8,
    flags: u8,
    base_mid: u16,
    base_high: u32,
    _reserved: u32,
}

impl Entry {
    /// The address of the handler, put together from its three parts.
    pub closed spec fn base(self) -> int {
        self.base_low + self.base_mid * 0x1_0000 + self.base_high * 0x1_0000_0000
    }

    /// The three parts of the handler's address, lowest first.
    pub closed spec fn base_parts(self) -> (u16, u16, u32) {
        (self.base_low, self.base_mid, self.base_high)
    }

    /// The selector of the code segment.
    pub closed spec fn code_segment(self) -> u16 {
        self.cs
    }

    /// The number of the stack in the task state segment, or zero for none.
    pub closed spec fn stack_index(self) -> u8 {
        self.ist
    }

    /// The flags of the entry.
    pub closed spec fn flag_bits(self) -> u8 {
        self.flags
    }

    /// The entry's last word, which is not in use.
    pub closed spec fn reserved(self) -> u32 {
        self._reserved
    }

    /// The entry that is all zero, as a value of contracts.
    pub closed spec fn zero() -> Self {
        Entry { base_low: 0, cs: 0, ist: 0, flags: 0, base_mid: 0, base_high: 0, _reserved: 0 }
    }

    /// All of the zero entry is zero.
    pub proof fn lemma_zero()
        ensures
            Self::zero().base() == 0,
            Self::zero().base_parts() == (0u16, 0u16, 0u32),
            Self::zero().code_segment() == 0,
            Self::zero().stack_index() == 0,
            Self::zero().flag_bits() == 0,
            Self::zero().reserved() == 0,
    {
    }

    pub fn new() -> (e: Self)
        ensures
            e == Self::zero(),
    {
        Self { base_low: 0, cs: 0, ist: 0, flags: 0, base_mid: 0, base_high: 0, _reserved: 0 }
    }

    /// The fields of the entry in the order in which they lie in memory.
    pub fn fields(&self) -> (f: (u16, u16, u8, u8, u16, u32, u32))
        ensures
            f.0 == self.base_parts().0,
            f.1 == self.code_segment(),
            f.2 == self.stack_index(),
            f.3 == self.flag_bits(),
            f.4 == self.base_parts().1,
            f.5 == self.base_parts().2,
            f.6 == self.reserved(),
    {
        (
            self.base_low,
            self.cs,
            self.ist,
            self.flags,
            self.base_mid,
            self.base_high,
            self._reserved,
        )
    }

    /// Points the entry at the handler at `base`.
    pub fn set_base(&mut self, base: usize) -> (r: &mut Self)
        ensures
            r.base() == base,
            r.base_parts() == (
                (base as int % 0x1_0000) as u16,
                ((base as int / 0x1_0000) % 0x1_0000) as u16,
                ((base as int / 0x1_0000_0000) % 0x1_0000_0000) as u32,
            ),
            r.code_segment() == old(self).code_segment(),
            r.stack_index() == old(self).stack_index(),
            r.flag_bits() == old(self).flag_bits(),
            r.reserved() == old(self).reserved(),
            *final(self) == *final(r),
    {
        let wide = base as u64;
        self.base_low = (wide % 0x1_0000) as u16;
        self.base_mid = ((wide / 0x1_0000) % 0x1_0000) as u16;
        self.base_high = ((wide / 0x1_0000_0000) % 0x1_0000_0000) as u32;
        self
    }

    pub fn set_cs(&mut self, cs: u16) -> (r: &mut Self)
        ensures
            r.code_segment() == cs,
            r.base_parts() == old(self).base_parts(),
            r.base() == old(self).base(),
            r.stack_index() == old(self).stack_index(),
            r.flag_bits() == old(self).flag_bits(),
            r.reserved() == old(self).reserved(),
            *final(self) == *final(r),
    {
        self.cs = cs;
        self
    }

    pub fn set_ist(&mut self, ist: u8) -> (r: &mut Self)
        ensures
            r.stack_index() == ist,
            r.base_parts() == old(self).base_parts(),
            r.base() == old(self).base(),
            r.code_segment() == old(self).code_segment(),
            r.flag_bits() == old(self).flag_bits(),
            r.reserved() == old(self).reserved(),
            *final(self) == *final(r),
    {
        self.ist = ist;
        self
    }

    /// Sets `flags` in addition to the flags that are set.
    pub fn set_flags(&mut self, flags: u8) -> (r: &mut Self)
        ensures
            r.flag_bits() == old(self).flag_bits() | flags,
            r.base_parts() == old(self).base_parts(),
            r.base() == old(self).base(),
            r.code_segment() == old(self).code_segment(),
            r.stack_index() == old(self).stack_index(),
            r.reserved() == old(self).reserved(),
            *final(self) == *final(r),
    {
        self.flags = self.flags | flags;
        self
    }
}

/// The table of interrupt handlers: one entry for each of the 256 vectors.
pub struct Idt {
    entries: [Entry; 256],
}

impl Idt {
    /// The entries of the table, by vector.
    pub closed spec fn view(&self) -> Seq<Entry> {
        self.entries@
    }

    /// A table without handlers.
    pub fn new() -> (t: Self)
        ensures
            t@.len() == 256,
            forall|i: int| 0 <= i < 256 ==> #[trigger] t@[i] == Entry::zero(),
    {
        Self { entries: [Entry::new();256] }
    }

    /// The entry of vector `id`.
    pub fn entry(&self, id: usize) -> (e: Entry)
        requires
            id < 256,
        ensures
            e == self@[id as int],
    {
        self.entries[id]
    }

    /// Makes the code at `handler` the handler of vector `id`: an interrupt
    /// gate in the kernel's code segment, on the stack in use.
    pub fn set_handler_fn(&mut self, id: usize, handler: usize) -> (r: &mut Entry)
        requires
            id < 256,
        ensures
            r.base() == handler,
            r.code_segment() == KERNEL_CODE,
            r.stack_index() == 0,
            r.flag_bits() == old(self)@[id as int].flag_bits() | (PRESENT | DPL0 | INTERRUPT),
            r.reserved() == old(self)@[id as int].reserved(),
            final(self)@ == old(self)@.update(id as int, *final(r)),
    {
        let entry = &mut self.entries[id];
        entry.set_base(handler).set_cs(KERNEL_CODE).set_ist(0).set_flags(
            PRESENT | DPL0 | INTERRUPT,
        )
    }
}

/// The registers that an interrupt's entry code leaves on the stack, from
/// the top of the stack down.
#[derive(Debug, Clone, Copy)]
pub struct InterruptStack {
    pub r15: u64,
    pub r14: u64,
    pub r13: u64,
    pub r12: u64,
    pub r11: u64,
    pub r10: u64,
    pub r9: u64,
    pub r8: u64,
    pub rsi: u64,
    pub rdi: u64,
    pub rbp: u64,
    pub rdx: u64,
    pub rcx: u64,
    pub rbx: u64,
    pub rax: u64,
    pub rip: u64,
    pub cs: u64,
    pub rflags: u64,
    pub rsp: u64,
    pub ss: u64,
}

} // verus!
