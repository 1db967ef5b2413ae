use kmem::arch::gdt::{self, Gdt, Tss};
use kmem::arch::idt::{self, Idt, InterruptStack};
use kmem::arch::io::{Mmio, MmioWrite, Pio, PortWrite};
use kmem::arch::lapic::{tsc_elapsed, tsc_mhz, ApicStep, LocalApic};
use kmem::arch::pic::{self, Pic};
use kmem::arch::serial::{self, SerialPort};

#[test]
fn gdt_entries_pack_base_and_limit() {
    let mut entry = gdt::Entry::new();
    entry.set_addr(0x1234).set_flags(0x8900);
    assert_eq!(entry.low(), 0x1234);
    assert_eq!(entry.high(), 0x8900);
    let mut tss = gdt::Entry::new();
    tss.set_flags(gdt::PRESENT | gdt::TSS).encode_tss_low(0xFFFF_8000_1234_5678, 0x67);
    assert_eq!(tss.low(), 0x5678_0067);
    assert_eq!(tss.high(), 0x1200_8934);
    let mut upper = gdt::Entry::new();
    upper.encode_tss_high(0xFFFF_8000_1234_5678, 0x67);
    assert_eq!(upper.low(), 0xFFFF_8000);
    assert_eq!(upper.high(), 0);
}

#[test]
fn gdt_init_adds_the_kernel_segments() {
    let mut table = Gdt::new();
    assert_eq!(table.length(), 1);
    gdt::init(&mut table, 0x10_2030, 0x67);
    assert_eq!(table.length(), 6);
    assert_eq!(table.limit(), 47);
    assert_eq!(table.entry(0).high(), 0);
    assert_eq!(table.entry(1).high(), 0x20_9800);
    assert_eq!(table.entry(2).high(), 0x20_F800);
    assert_eq!(table.entry(3).high(), 0xF200);
    assert_eq!(table.entry(4).low(), 0x2030_0067);
    assert_eq!(table.entry(4).high(), 0x8910);
    assert_eq!(table.entry(5).low(), 0);
    let mut tss = Tss::new();
    tss.set_kernel_stack(0xFFFF_0000);
    assert_eq!(tss.rsp0(), 0xFFFF_0000);
}

#[test]
fn idt_entry_splits_the_handler_address() {
    let mut table = Idt::new();
    table.set_handler_fn(0x0E, 0xFFFF_8000_0012_3456);
    let fields = table.entry(0x0E).fields();
    assert_eq!(fields, (0x3456, 0x08, 0, 0x8E, 0x0012, 0xFFFF_8000, 0));
    assert_eq!(table.entry(0x0F).fields(), (0, 0, 0, 0, 0, 0, 0));
    let mut entry = idt::Entry::new();
    entry.set_flags(idt::DPL3).set_flags(idt::PRESENT).set_ist(2).set_cs(0x10);
    assert_eq!(entry.fields(), (0, 0x10, 2, 0xE0, 0, 0, 0));
    let stack = InterruptStack {
        r15: 0, r14: 0, r13: 0, r12: 0, r11: 0, r10: 0, r9: 0, r8: 0, rsi: 0, rdi: 0,
        rbp: 0, rdx: 0, rcx: 0, rbx: 0, rax: 1, rip: 2, cs: 8, rflags: 0, rsp: 3, ss: 0,
    };
    assert_eq!(stack.rip, 2);
}

#[test]
fn pic_set_up_writes() {
    let master = Pic::new(Pio::new(0x20), true, 0x20);
    assert_eq!(
        master.init(),
        vec![
            PortWrite { port: 0x20, value: 0x11 },
            PortWrite { port: 0x21, value: 0x20 },
            PortWrite { port: 0x21, value: 0x04 },
            PortWrite { port: 0x21, value: 0x01 },
        ]
    );
    assert_eq!(master.send_eoi(), PortWrite { port: 0x20, value: 0x20 });
    let both = pic::init();
    assert_eq!(both.len(), 8);
    assert_eq!(both[5], PortWrite { port: 0xA1, value: 0x28 });
    assert_eq!(both[6], PortWrite { port: 0xA1, value: 0x02 });
}

#[test]
fn serial_port_set_up_and_send() {
    let port = SerialPort::new(Pio::new(0x3f8));
    let writes = port.init();
    assert_eq!(writes.len(), 8);
    assert_eq!(writes[0], PortWrite { port: 0x3f9, value: 0x00 });
    assert_eq!(writes[1], PortWrite { port: 0x3fb, value: 0x80 });
    assert_eq!(writes[2], PortWrite { port: 0x3f8, value: 0x01 });
    assert_eq!(writes[5], PortWrite { port: 0x3fa, value: 0x07 });
    assert_eq!(writes[6], PortWrite { port: 0x3fc, value: 0x0B });
    assert_eq!(port.line_status().port(), 0x3fd);
    assert_eq!(port.write_byte(b'x', 0x00), None);
    assert_eq!(port.write_byte(b'x', 0x40), None);
    assert_eq!(port.write_byte(b'x', 0x60), Some(PortWrite { port: 0x3f8, value: b'x' }));
    let both = serial::init();
    assert_eq!(both.len(), 16);
    assert_eq!(both[8], PortWrite { port: 0x2f9, value: 0x00 });
}

#[test]
fn local_apic_registers_and_sequences() {
    let apic = LocalApic::new(Mmio::new(0xFEE0_0000));
    assert_eq!(apic.send_eoi(), MmioWrite { addr: 0xFEE0_00B0, value: 0 });
    assert_eq!(apic.send_ipi(0x7F), MmioWrite { addr: 0xFEE0_0300, value: 0xC007F });
    assert!(LocalApic::ipi_pending(0x1000));
    assert!(!LocalApic::ipi_pending(0xC007F));
    let start = apic.init();
    assert_eq!(start.len(), 6);
    assert_eq!(start[0], ApicStep::Write(MmioWrite { addr: 0xFEE0_00F0, value: 0x127 }));
    assert_eq!(start[3], ApicStep::Write(MmioWrite { addr: 0xFEE0_0380, value: u32::MAX }));
    assert_eq!(start[4], ApicStep::Delay(100000));
    let finish = apic.init_timer(u32::MAX - 5000);
    assert_eq!(finish[0], MmioWrite { addr: 0xFEE0_0320, value: 0x2007E });
    assert_eq!(finish[2], MmioWrite { addr: 0xFEE0_0380, value: 5000 });
    let wake = apic.wake(3, 0x8000);
    assert_eq!(wake.len(), 12);
    assert_eq!(wake[0], ApicStep::Write(MmioWrite { addr: 0xFEE0_0310, value: 0x0300_0000 }));
    assert_eq!(wake[7], ApicStep::Write(MmioWrite { addr: 0xFEE0_0300, value: 0x608 }));
    assert_eq!(wake[10], wake[7]);
    assert_eq!(apic.tccr().addr(), 0xFEE0_0390);
    assert_eq!(tsc_mhz(1_000, 30_001_000), 3000);
    assert!(!tsc_elapsed(1999, 1000, 10, 100));
    assert!(tsc_elapsed(2000, 1000, 10, 100));
}
