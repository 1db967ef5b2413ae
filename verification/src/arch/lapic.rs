//! The local interrupt controller of a processor: where its registers lie
//! and what is written to them.

use vstd::prelude::*;
use crate::arch::io::{Mmio, MmioWrite};

verus! {

/// One step of a sequence on the controller: a register is written, or
/// time is let pass, counted in thousandths of the time-stamp counter's megahertz.
#[derive(Debug, Clone, Copy, PartialEq, Eq, Structural)]
pub enum ApicStep {
    Write(MmioWrite),
    Delay(u64),
}

/// The bit of the low command word that is set while a message waits to be sent.
pub const DELIVERY_PENDING: u32 = 0x1000;

/// The registers of a local interrupt controller.
pub struct LocalApic {
    id: Mmio<u32>,
    eoi: Mmio<u32>,
    svr: Mmio<u32>,
    icr_lo: Mmio<u32>,
    icr_hi: Mmio<u32>,
    timer: Mmio<u32>,
    ticr: Mmio<u32>,
    tccr: Mmio<u32>,
    tdcr: Mmio<u32>,
}

impl LocalApic {
    /// The address from which the registers are counted.
    pub closed spec fn base(&self) -> int {
        self.id.address() - 0x020
    }

    /// Each register lies at its place above the base.
    pub closed spec fn wf(&self) -> bool {
        &&& self.base() >= 0
        &&& self.eoi.address() == self.base() + 0x0B0
        &&& self.svr.address() == self.base() + 0x0F0
        &&& self.icr_lo.address() == self.base() + 0x300
        &&& self.icr_hi.address() == self.base() + 0x310
        &&& self.timer.address() == self.base() + 0x320
        &&& self.ticr.address() == self.base() + 0x380
        &&& self.tccr.address() == self.base() + 0x390
        &&& self.tdcr.address() == self.base() + 0x3E0
        &&& self.base() + 0x3E0 <= usize::MAX
    }

    /// The write of `value` to the register `offset` bytes above the base.
    pub open spec fn write_at(&self, offset: int, value: u32) -> MmioWrite {
        MmioWrite { addr: (self.base() + offset) as usize, value }
    }

    pub fn new(base: Mmio<u32>) -> (a: Self)
        requires
            base.address() + 0x3E0 <= usize::MAX,
        ensures
            a.wf(),
            a.base() == base.address(),
    {
        Self {
            id: base.add(0x020),
            eoi: base.add(0x0B0),
            svr: base.add(0x0F0),
            icr_lo: base.add(0x300),
            icr_hi: base.add(0x310),
            timer: base.add(0x320),
            ticr: base.add(0x380),
            tccr: base.add(0x390),
            tdcr: base.add(0x3E0),
        }
    }

    /// The register from which the timer's current count is read.
    pub fn tccr(&self) -> (m: &Mmio<u32>)
        requires
            self.wf(),
        ensures
            m.address() == self.base() + 0x390,
    {
        &self.tccr
    }

    /// The register from which the state of a message is read.
    pub fn icr_lo(&self) -> (m: &Mmio<u32>)
        requires
            self.wf(),
        ensures
            m.address() == self.base() + 0x300,
    {
        &self.icr_lo
    }

    /// The first part of the set-up: the controller is switched on and its
    /// timer counts down from the highest count for a hundred thousand
    /// units of time, then is stopped. The count is read after that.
    pub fn init(&self) -> (steps: Vec<ApicStep>)
        requires
            self.wf(),
        ensures
            steps@ == seq![
                ApicStep::Write(self.write_at(0x0F0, 0x127)),
                ApicStep::Write(self.write_at(0x320, 0x7E)),
                ApicStep::Write(self.write_at(0x3E0, 0x3)),
                ApicStep::Write(self.write_at(0x380, u32::MAX)),
                ApicStep::Delay(100000),
                ApicStep::Write(self.write_at(0x320, 0x10000)),
            ],
    {
        let mut steps: Vec<ApicStep> = Vec::new();
        steps.push(ApicStep::Write(self.svr.write(0x127)));
        steps.push(ApicStep::Write(self.timer.write(0x7E)));
        steps.push(ApicStep::Write(self.tdcr.write(0x3)));
        steps.push(ApicStep::Write(self.ticr.write(u32::MAX)));
        steps.push(ApicStep::Delay(100000));
        steps.push(ApicStep::Write(self.timer.write(0x10000)));
        assert(steps@ =~= seq![
            ApicStep::Write(self.write_at(0x0F0, 0x127)),
            ApicStep::Write(self.write_at(0x320, 0x7E)),
            ApicStep::Write(self.write_at(0x3E0, 0x3)),
            ApicStep::Write(self.write_at(0x380, u32::MAX)),
            ApicStep::Delay(100000),
            ApicStep::Write(self.write_at(0x320, 0x10000)),
        ]);
        steps
    }

    /// The second part of the set-up, once the timer's count `tccr` was
    /// read: the timer fires again and again, each time after as many
    /// counts as went by during the first part.
    pub fn init_timer(&self, tccr: u32) -> (writes: Vec<MmioWrite>)
        requires
            self.wf(),
        ensures
            writes@ == seq![
                self.write_at(0x320, 0x7Eu32 | 0x20000u32),
                self.write_at(0x3E0, 0x3),
                self.write_at(0x380, (u32::MAX - tccr) as u32),
            ],
    {
        let freq = u32::MAX - tccr;
        let mut writes: Vec<MmioWrite> = Vec::new();
        writes.push(self.timer.write(0x7Eu32 | 0x20000u32));
        writes.push(self.tdcr.write(0x3));
        writes.push(self.ticr.write(freq));
        assert(writes@ =~= seq![
            self.write_at(0x320, 0x7Eu32 | 0x20000u32),
            self.write_at(0x3E0, 0x3),
            self.write_at(0x380, (u32::MAX - tccr) as u32),
        ]);
        writes
    }

    /// The steps that wake the processor `id` and let it start at `addr`:
    /// the processor is reset, then told twice where to start.
    pub fn wake(&self, id: usize, addr: usize) -> (steps: Vec<ApicStep>)
        requires
            self.wf(),
        ensures
            steps@ == seq![
                ApicStep::Write(self.write_at(0x310, (id as u32) << 24)),
                ApicStep::Write(self.write_at(0x300, 0xC500)),
                ApicStep::Delay(200),
                ApicStep::Write(self.write_at(0x310, (id as u32) << 24)),
                ApicStep::Write(self.write_at(0x300, 0x8500)),
                ApicStep::Delay(10000),
                ApicStep::Write(self.write_at(0x310, (id as u32) << 24)),
                ApicStep::Write(self.write_at(0x300, 0x600 | ((addr >> 12) as u32))),
                ApicStep::Delay(200),
                ApicStep::Write(self.write_at(0x310, (id as u32) << 24)),
                ApicStep::Write(self.write_at(0x300, 0x600 | ((addr >> 12) as u32))),
                ApicStep::Delay(200),
            ],
    {
        let target = (id as u32) << 24;
        let start = 0x600 | ((addr >> 12) as u32);
        let mut steps: Vec<ApicStep> = Vec::new();
        steps.push(ApicStep::Write(self.icr_hi.write(target)));
        steps.push(ApicStep::Write(self.icr_lo.write(0xC500)));
        steps.push(ApicStep::Delay(200));
        steps.push(ApicStep::Write(self.icr_hi.write(target)));
        steps.push(ApicStep::Write(self.icr_lo.write(0x8500)));
        steps.push(ApicStep::Delay(10000));
        let ghost head = steps@;
        let ghost again = seq![
            ApicStep::Write(self.write_at(0x310, target)),
            ApicStep::Write(self.write_at(0x300, start)),
            ApicStep::Delay(200),
        ];
        let mut round: usize = 0;
        while round < 2
            invariant
                self.wf(),
                round <= 2,
                again == seq![
                    ApicStep::Write(self.write_at(0x310, target)),
                    ApicStep::Write(self.write_at(0x300, start)),
                    ApicStep::Delay(200),
                ],
                round == 0 ==> steps@ == head,
                round == 1 ==> steps@ == head + again,
                round == 2 ==> steps@ == head + again + again,
            decreases 2 - round,
        {
            let ghost before = steps@;
            steps.push(ApicStep::Write(self.icr_hi.write(target)));
            steps.push(ApicStep::Write(self.icr_lo.write(start)));
            steps.push(ApicStep::Delay(200));
            proof {
                assert(steps@ =~= before + again);
            }
            round += 1;
        }
        proof {
            assert(head =~= seq![
                ApicStep::Write(self.write_at(0x310, target)),
                ApicStep::Write(self.write_at(0x300, 0xC500)),
                ApicStep::Delay(200),
                ApicStep::Write(self.write_at(0x310, target)),
                ApicStep::Write(self.write_at(0x300, 0x8500)),
                ApicStep::Delay(10000),
            ]);
            assert(steps@ =~= seq![
                ApicStep::Write(self.write_at(0x310, target)),
                ApicStep::Write(self.write_at(0x300, 0xC500)),
                ApicStep::Delay(200),
                ApicStep::Write(self.write_at(0x310, target)),
                ApicStep::Write(self.write_at(0x300, 0x8500)),
                ApicStep::Delay(10000),
                ApicStep::Write(self.write_at(0x310, target)),
                ApicStep::Write(self.write_at(0x300, start)),
                ApicStep::Delay(200),
                ApicStep::Write(self.write_at(0x310, target)),
                ApicStep::Write(self.write_at(0x300, start)),
                ApicStep::Delay(200),
            ]);
        }
        steps
    }

    /// The write that sends the interrupt `num` to all other processors.
    /// The message is on its way once `ipi_pending` of the low command word is false.
    pub fn send_ipi(&self, num: usize) -> (w: MmioWrite)
        requires
            self.wf(),
        ensures
            w == self.write_at(0x300, 0xC0000 | (num as u32)),
    {
        self.icr_lo.write(0xC0000 | (num as u32))
    }

    /// Whether the low command word `icr_lo` says that a message still waits to be sent.
    pub fn ipi_pending(icr_lo: u32) -> (pending: bool)
        ensures
            pending == (icr_lo & DELIVERY_PENDING != 0),
    {
        icr_lo & DELIVERY_PENDING != 0
    }

    /// The write that tells the controller that an interrupt was handled.
    pub fn send_eoi(&self) -> (w: MmioWrite)
        requires
            self.wf(),
        ensures
            w == self.write_at(0x0B0, 0),
    {
        self.eoi.write(0)
    }
}

/// The frequency of the time-stamp counter in megahertz, from its count at
/// the start and at the end of a hundredth of a second.
pub fn tsc_mhz(start: u64, end: u64) -> (mhz: u64)
    requires
        start <= end,
    ensures
        mhz == (end - start) / 10000,
{
    (end - start) / 10000
}

/// Whether `msecs` units of time have gone by since the time-stamp counter
/// stood at `start`, now that it stands at `now` and counts `freq` to the unit.
pub fn tsc_elapsed(now: u64, start: u64, msecs: u64, freq: u64) -> (done: bool)
    requires
        start + msecs * freq <= u64::MAX,
    ensures
        done == (now >= start + msecs * freq),
{
    assert(msecs * freq <= u64::MAX) by (nonlinear_arith)
        requires
            start + msecs * freq <= u64::MAX,
            start >= 0,
    ;
    !(now < start + msecs * freq)
}

} // verus!
