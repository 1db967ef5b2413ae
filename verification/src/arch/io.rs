//! Where the registers of devices lie: ports of the processor's I/O space
//! and addresses of memory-mapped registers. Reading and writing them is
//! the caller's part; what is written where is decided here.

use vstd::prelude::*;
use std::marker::PhantomData;

verus! {

/// A value that can pass through a port.
pub trait PortInOut {

}

impl PortInOut for u8 {

}

/// A port of the I/O space through which values of type `T` pass.
pub struct Pio<T: PortInOut> {
    port: u16,
    phantom: PhantomData<T>,
}

impl<T: PortInOut> Pio<T> {
    /// The number of the port.
    pub closed spec fn number(&self) -> u16 {
        self.port
    }

    pub fn new(port: u16) -> (p: Self)
        ensures
            p.number() == port,
    {
        Self { port, phantom: PhantomData }
    }

    /// The number of the port.
    pub fn port(&self) -> (n: u16)
        ensures
            n == self.number(),
    {
        self.port
    }

    /// The port `rhs` above this one.
    pub fn add(&self, rhs: u16) -> (p: Self)
        requires
            self.number() + rhs <= u16::MAX,
        ensures
            p.number() == self.number() + rhs,
    {
        Self { port: self.port + rhs, phantom: PhantomData }
    }

    /// What has to be done to send `val` through this port.
    pub fn write(&self, val: u8) -> (w: PortWrite)
        ensures
            w == (PortWrite { port: self.number(), value: val }),
    {
        PortWrite { port: self.port, value: val }
    }
}

/// One byte to be written to a port.
#[derive(Debug, Clone, Copy, PartialEq, Eq, Structural)]
pub struct PortWrite {
    pub port: u16,
    pub value: u8,
}

/// A register of type `T` that lies at an address in memory.
pub struct Mmio<T> {
    addr: usize,
    phantom: PhantomData<T>,
}

impl<T> Mmio<T> {
    /// The address of the register.
    pub closed spec fn address(&self) -> usize {
        self.addr
    }

    pub fn new(addr: usize) -> (m: Self)
        ensures
            m.address() == addr,
    {
        Self { addr, phantom: PhantomData }
    }

    /// The address of the register.
    pub fn addr(&self) -> (a: usize)
        ensures
            a == self.address(),
    {
        self.addr
    }

    /// The register `rhs` bytes above this one.
    pub fn add(&self, rhs: usize) -> (m: Self)
        requires
            self.address() + rhs <= usize::MAX,
        ensures
            m.address() == self.address() + rhs,
    {
        Self { addr: self.addr + rhs, phantom: PhantomData }
    }
}

impl Mmio<u32> {
    /// What has to be done to set this register to `val`.
    pub fn write(&self, val: u32) -> (w: MmioWrite)
        ensures
            w == (MmioWrite { addr: self.address(), value: val }),
    {
        MmioWrite { addr: self.addr, value: val }
    }
}

/// One word to be written to a memory-mapped register.
#[derive(Debug, Clone, Copy, PartialEq, Eq, Structural)]
pub struct MmioWrite {
    pub addr: usize,
    pub value: u32,
}

} // verus!
