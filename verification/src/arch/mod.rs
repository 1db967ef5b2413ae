//! What the kernel does on the processor it runs on: bringing up memory,
//! and the tables and device registers of the machine.

pub mod gdt;
pub mod idt;
pub mod io;
pub mod lapic;
pub mod memory;
pub mod pic;
pub mod serial;
