pub mod gdt;
pub mod idt;
pub mod pic;
pub mod pit;

use vstd::prelude::*;

verus! {

/// One byte written to an I/O port.
#[derive(Debug, Clone, Copy, PartialEq, Eq, Structural)]
pub struct PortWrite {
    pub port: u16,
    pub value: u8,
}

/// The port written to give the bus time to settle between writes.
pub const IO_WAIT_PORT: u16 = 0x80;

} // verus!
