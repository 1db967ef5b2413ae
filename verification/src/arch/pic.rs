//! The two legacy interrupt controllers: what is written to them to set
//! them up and to acknowledge an interrupt.

use vstd::prelude::*;
use crate::arch::io::{Pio, PortWrite};

verus! {

/// The command port of the master controller.
pub const PIC1_PORT: u16 = 0x20;

/// The command port of the slave controller.
pub const PIC2_PORT: u16 = 0xA0;

/// One interrupt controller.
pub struct Pic {
    cmd: Pio<u8>,
    data: Pio<u8>,
    is_master: bool,
    offset: u8,
}

impl Pic {
    /// The command port.
    pub closed spec fn cmd_port(&self) -> u16 {
        self.cmd.number()
    }

    /// The data port: the one above the command port.
    pub closed spec fn data_port(&self) -> u16 {
        self.data.number()
    }

    /// Whether this is the master controller.
    pub closed spec fn master(&self) -> bool {
        self.is_master
    }

    /// The interrupt vector of the controller's first line.
    pub closed spec fn vector_offset(&self) -> u8 {
        self.offset
    }

    /// What `init` writes: the start of the set-up, the vector offset, the
    /// line on which master and slave meet, and the mode.
    pub open spec fn init_writes(&self) -> Seq<PortWrite> {
        seq![
            PortWrite { port: self.cmd_port(), value: 0x11 },
            PortWrite { port: self.data_port(), value: self.vector_offset() },
            PortWrite {
                port: self.data_port(),
                value: if self.master() {
                    0x04
                } else {
                    0x02
                },
            },
            PortWrite { port: self.data_port(), value: 0x01 },
        ]
    }

    pub fn new(port: Pio<u8>, is_master: bool, offset: u8) -> (p: Self)
        requires
            port.number() < u16::MAX,
        ensures
            p.cmd_port() == port.number(),
            p.data_port() == port.number() + 1,
            p.master() == is_master,
            p.vector_offset() == offset,
    {
        let data = port.add(1);
        Self { cmd: port, data, is_master, offset }
    }

    /// The writes that set the controller up, in order.
    pub fn init(&self) -> (writes: Vec<PortWrite>)
        ensures
            writes@ == self.init_writes(),
    {
        let mut writes: Vec<PortWrite> = Vec::new();
        writes.push(self.cmd.write(0x11));
        writes.push(self.data.write(self.offset));
        if self.is_master {
            writes.push(self.data.write(0x04));
        } else {
            writes.push(self.data.write(0x02));
        }
        writes.push(self.data.write(0x1));
        assert(writes@ =~= self.init_writes());
        writes
    }

    /// The write that tells the controller that an interrupt was handled.
    pub fn send_eoi(&self) -> (w: PortWrite)
        ensures
            w == (PortWrite { port: self.cmd_port(), value: 0x20 }),
    {
        self.cmd.write(0x20)
    }
}

/// The master controller, with its lines at vectors 0x20 to 0x27.
pub fn master() -> (p: Pic)
    ensures
        p.cmd_port() == 0x20,
        p.data_port() == 0x21,
        p.master(),
        p.vector_offset() == 0x20,
{
    Pic::new(Pio::new(PIC1_PORT), true, 0x20)
}

/// The slave controller, with its lines at vectors 0x28 to 0x2F.
pub fn slave() -> (p: Pic)
    ensures
        p.cmd_port() == 0xA0,
        p.data_port() == 0xA1,
        !p.master(),
        p.vector_offset() == 0x28,
{
    Pic::new(Pio::new(PIC2_PORT), false, 0x28)
}

/// The writes that set both controllers up: the master first, then the slave.
pub fn init() -> (writes: Vec<PortWrite>)
    ensures
        writes@ == seq![
            PortWrite { port: 0x20, value: 0x11 },
            PortWrite { port: 0x21, value: 0x20 },
            PortWrite { port: 0x21, value: 0x04 },
            PortWrite { port: 0x21, value: 0x01 },
            PortWrite { port: 0xA0, value: 0x11 },
            PortWrite { port: 0xA1, value: 0x28 },
            PortWrite { port: 0xA1, value: 0x02 },
            PortWrite { port: 0xA1, value: 0x01 },
        ],
{
    let first = master();
    let second = slave();
    let mut writes = first.init();
    let mut rest = second.init();
    writes.append(&mut rest);
    assert(writes@ =~= seq![
        PortWrite { port: 0x20, value: 0x11 },
        PortWrite { port: 0x21, value: 0x20 },
        PortWrite { port: 0x21, value: 0x04 },
        PortWrite { port: 0x21, value: 0x01 },
        PortWrite { port: 0xA0, value: 0x11 },
        PortWrite { port: 0xA1, value: 0x28 },
        PortWrite { port: 0xA1, value: 0x02 },
        PortWrite { port: 0xA1, value: 0x01 },
    ]);
    writes
}

} // verus!
