//! The serial ports: what is written to them to set them up, and when a
//! byte may be sent.

use vstd::prelude::*;
use crate::arch::io::{Pio, PortWrite};

verus! {

/// The first port of the first serial line.
pub const COM1_PORT: u16 = 0x3f8;

/// The first port of the second serial line.
pub const COM2_PORT: u16 = 0x2f8;

/// The bit of the line status that says that the transmitter is empty.
pub const TRANSMIT_EMPTY: u8 = 0x20;

/// A serial port: eight ports in a row, from the data port on.
pub struct SerialPort {
    data: Pio<u8>,
    int_enable: Pio<u8>,
    fifo_ctrl: Pio<u8>,
    line_ctrl: Pio<u8>,
    modem_ctrl: Pio<u8>,
    line_status: Pio<u8>,
    _modem_status: Pio<u8>,
}

impl SerialPort {
    /// The data port, the first of the row.
    pub closed spec fn base(&self) -> u16 {
        self.data.number()
    }

    /// The ports lie in a row.
    pub closed spec fn wf(&self) -> bool {
        &&& self.int_enable.number() == self.base() + 1
        &&& self.fifo_ctrl.number() == self.base() + 2
        &&& self.line_ctrl.number() == self.base() + 3
        &&& self.modem_ctrl.number() == self.base() + 4
        &&& self.line_status.number() == self.base() + 5
        &&& self._modem_status.number() == self.base() + 6
    }

    /// The port from which the line status is read.
    pub open spec fn status_port(&self) -> int {
        self.base() + 5
    }

    /// What `init` writes: interrupts off, the divisor of the baud rate set
    /// to one, eight bits without parity and one stop bit, the buffers on
    /// and emptied, the modem lines set, and the receive interrupt on.
    pub open spec fn init_writes(&self) -> Seq<PortWrite> {
        seq![
            PortWrite { port: (self.base() + 1) as u16, value: 0x00 },
            PortWrite { port: (self.base() + 3) as u16, value: 0x80 },
            PortWrite { port: self.base(), value: 0x01 },
            PortWrite { port: (self.base() + 1) as u16, value: 0x00 },
            PortWrite { port: (self.base() + 3) as u16, value: 0x03 },
            PortWrite { port: (self.base() + 2) as u16, value: 0x07 },
            PortWrite { port: (self.base() + 4) as u16, value: 0x0B },
            PortWrite { port: (self.base() + 1) as u16, value: 0x01 },
        ]
    }

    pub fn new(port: Pio<u8>) -> (p: Self)
        requires
            port.number() + 6 <= u16::MAX,
        ensures
            p.wf(),
            p.base() == port.number(),
    {
        let int_enable = port.add(1);
        let fifo_ctrl = port.add(2);
        let line_ctrl = port.add(3);
        let modem_ctrl = port.add(4);
        let line_status = port.add(5);
        let _modem_status = port.add(6);
        Self {
            data: port,
            int_enable,
            fifo_ctrl,
            line_ctrl,
            modem_ctrl,
            line_status,
            _modem_status,
        }
    }

    /// The writes that set the port up, in order.
    pub fn init(&self) -> (writes: Vec<PortWrite>)
        requires
            self.wf(),
        ensures
            writes@ == self.init_writes(),
    {
        let mut writes: Vec<PortWrite> = Vec::new();
        writes.push(self.int_enable.write(0x00));
        writes.push(self.line_ctrl.write(0x80));
        writes.push(self.data.write(0x01));
        writes.push(self.int_enable.write(0x00));
        writes.push(self.line_ctrl.write(0x03));
        writes.push(self.fifo_ctrl.write(0x07));
        writes.push(self.modem_ctrl.write(0x0B));
        writes.push(self.int_enable.write(0x01));
        assert(writes@ =~= self.init_writes());
        writes
    }

    /// The port from which the line status is read.
    pub fn line_status(&self) -> (p: &Pio<u8>)
        requires
            self.wf(),
        ensures
            p.number() == self.status_port(),
    {
        &self.line_status
    }

    /// Whether a line that reports `status` can take a byte.
    pub open spec fn ready(status: u8) -> bool {
        (status / 0x20) % 2 == 1
    }

    /// What to do about sending `c` when the line reports `status`: the
    /// write that sends it, or nothing yet, and the status is read again.
    pub fn write_byte(&self, c: u8, status: u8) -> (w: Option<PortWrite>)
        ensures
            w == (if Self::ready(status) {
                Some(PortWrite { port: self.base(), value: c })
            } else {
                None
            }),
    {
        assert((status & 0x20 == 0) == ((status / 0x20) % 2 != 1)) by (bit_vector);
        if (status & TRANSMIT_EMPTY) == 0 {
            None
        } else {
            Some(self.data.write(c))
        }
    }
}

/// The first serial line.
pub fn com1() -> (p: SerialPort)
    ensures
        p.wf(),
        p.base() == 0x3f8,
{
    SerialPort::new(Pio::new(COM1_PORT))
}

/// The second serial line.
pub fn com2() -> (p: SerialPort)
    ensures
        p.wf(),
        p.base() == 0x2f8,
{
    SerialPort::new(Pio::new(COM2_PORT))
}

/// The writes that set both serial lines up: the first line first.
pub fn init() -> (writes: Vec<PortWrite>)
    ensures
        writes@.len() == 16,
        forall|i: int|
            0 <= i < 8 ==> #[trigger] writes@[i].port - 0x3f8 == writes@[i + 8].port - 0x2f8
                && writes@[i].value == writes@[i + 8].value,
        writes@.subrange(0, 8) == seq![
            PortWrite { port: 0x3f9, value: 0x00 },
            PortWrite { port: 0x3fb, value: 0x80 },
            PortWrite { port: 0x3f8, value: 0x01 },
            PortWrite { port: 0x3f9, value: 0x00 },
            PortWrite { port: 0x3fb, value: 0x03 },
            PortWrite { port: 0x3fa, value: 0x07 },
            PortWrite { port: 0x3fc, value: 0x0B },
            PortWrite { port: 0x3f9, value: 0x01 },
        ],
{
    let first = com1();
    let second = com2();
    let mut writes = first.init();
    let mut rest = second.init();
    let ghost a = writes@;
    let ghost b = rest@;
    writes.append(&mut rest);
    proof {
        assert(writes@ =~= a + b);
        assert(writes@.subrange(0, 8) =~= a);
        assert(a =~= seq![
            PortWrite { port: 0x3f9, value: 0x00 },
            PortWrite { port: 0x3fb, value: 0x80 },
            PortWrite { port: 0x3f8, value: 0x01 },
            PortWrite { port: 0x3f9, value: 0x00 },
            PortWrite { port: 0x3fb, value: 0x03 },
            PortWrite { port: 0x3fa, value: 0x07 },
            PortWrite { port: 0x3fc, value: 0x0B },
            PortWrite { port: 0x3f9, value: 0x01 },
        ]);
    }
    writes
}

} // verus!
