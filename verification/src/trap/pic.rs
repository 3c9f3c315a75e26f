use vstd::prelude::*;
use crate::trap::{PortWrite, IO_WAIT_PORT};

verus! {

/// Command port of the master controller.
pub const PIC1_COMMAND: u16 = 0x20;
/// Data port of the master controller.
pub const PIC1_DATA: u16 = 0x21;
/// Command port of the slave controller.
pub const PIC2_COMMAND: u16 = 0xA0;
/// Data port of the slave controller.
pub const PIC2_DATA: u16 = 0xA1;
/// End-of-interrupt command.
pub const PIC_EOI: u8 = 0x20;
/// ICW1: an ICW4 follows.
pub const ICW1_ICW4: u8 = 0x01;
/// ICW1: start initialisation.
pub const ICW1_INIT: u8 = 0x10;
/// ICW4: 8086 mode.
pub const ICW4_8086: u8 = 0x01;
/// The master line the slave controller is cascaded on.
pub const CASCADE_IRQ: u8 = 2;
/// Vector of the first hardware interrupt line.
pub const IRQ_BASE: u8 = 32;
/// Number of hardware interrupt lines.
pub const IRQ_COUNT: u8 = 16;

/// A write followed by the settling write.
pub open spec fn with_wait(port: u16, value: u8) -> Seq<PortWrite> {
    seq![PortWrite { port, value }, PortWrite { port: IO_WAIT_PORT, value: 0 }]
}

/// The writes that initialise both controllers in cascade mode with their
/// vectors starting at `offset1` and `offset2`, and then mask every line.
pub open spec fn remap_spec(offset1: u8, offset2: u8) -> Seq<PortWrite> {
    with_wait(PIC1_COMMAND, 0x11) + with_wait(PIC2_COMMAND, 0x11) + with_wait(PIC1_DATA, offset1) + with_wait(
        PIC2_DATA,
        offset2,
    ) + with_wait(PIC1_DATA, 4) + with_wait(PIC2_DATA, 2) + with_wait(PIC1_DATA, 1) + with_wait(PIC2_DATA, 1) + seq![
        PortWrite { port: PIC1_DATA, value: 0xff },
        PortWrite { port: PIC2_DATA, value: 0xff },
    ]
}

fn push_with_wait(w: &mut Vec<PortWrite>, port: u16, value: u8)
    ensures
        final(w)@ == old(w)@ + with_wait(port, value),
{
    w.push(PortWrite { port, value });
    w.push(PortWrite { port: IO_WAIT_PORT, value: 0 });
    assert(w@ =~= old(w)@ + with_wait(port, value));
}

/// The port writes that remap the two controllers; see `remap_spec`.
pub fn pic_remap(offset1: u8, offset2: u8) -> (w: Vec<PortWrite>)
    ensures
        w@ == remap_spec(offset1, offset2),
{
    let mut w: Vec<PortWrite> = Vec::new();
    push_with_wait(&mut w, PIC1_COMMAND, ICW1_INIT | ICW1_ICW4);
    push_with_wait(&mut w, PIC2_COMMAND, ICW1_INIT | ICW1_ICW4);
    push_with_wait(&mut w, PIC1_DATA, offset1);
    push_with_wait(&mut w, PIC2_DATA, offset2);
    push_with_wait(&mut w, PIC1_DATA, 1 << CASCADE_IRQ);
    push_with_wait(&mut w, PIC2_DATA, 2);
    push_with_wait(&mut w, PIC1_DATA, ICW4_8086);
    push_with_wait(&mut w, PIC2_DATA, ICW4_8086);
    w.push(PortWrite { port: PIC1_DATA, value: 0xff });
    w.push(PortWrite { port: PIC2_DATA, value: 0xff });
    assert(ICW1_INIT | ICW1_ICW4 == 0x11) by (bit_vector);
    assert(1u8 << 2u8 == 4) by (bit_vector);
    assert(w@ =~= remap_spec(offset1, offset2));
    w
}

/// The writes that remap the controllers to the vectors after the CPU exceptions.
pub fn init() -> (w: Vec<PortWrite>)
    ensures
        w@ == remap_spec(32, 40),
{
    pic_remap(IRQ_BASE, IRQ_BASE + 8)
}

/// Where the mask bit of an interrupt line lies: its controller's data
/// port, the bit, and whether the cascade line of the master must be
/// unmasked too.
#[derive(Debug, Clone, Copy, PartialEq, Eq, Structural)]
pub struct MaskBit {
    pub port: u16,
    pub bit: u8,
    pub cascade: bool,
}

/// The mask bit of line `irq`, or `None` for a line that does not exist.
pub open spec fn mask_bit_spec(irq: u8) -> Option<MaskBit> {
    if irq >= 16 {
        None
    } else if irq < 8 {
        Some(MaskBit { port: PIC1_DATA, bit: irq, cascade: false })
    } else {
        Some(MaskBit { port: PIC2_DATA, bit: (irq - 8) as u8, cascade: true })
    }
}

/// Where to unmask line `irq`; see `mask_bit_spec`. The caller reads the
/// port, clears the bit with `clear_bit` and writes it back, and for a line
/// of the slave does the same with bit `CASCADE_IRQ` of `PIC1_DATA`.
pub fn unmask_irq(irq: u8) -> (m: Option<MaskBit>)
    ensures
        m == mask_bit_spec(irq),
{
    if irq >= IRQ_COUNT {
        return None;
    }
    if irq < 8 {
        Some(MaskBit { port: PIC1_DATA, bit: irq, cascade: false })
    } else {
        Some(MaskBit { port: PIC2_DATA, bit: irq - 8, cascade: true })
    }
}

/// `mask` with bit `bit` cleared.
pub fn clear_bit(mask: u8, bit: u8) -> (r: u8)
    requires
        bit < 8,
    ensures
        r == mask & !(1u8 << bit),
        r & (1u8 << bit) == 0,
        forall|b: u8| b < 8 && b != bit ==> #[trigger] (r & (1u8 << b)) == mask & (1u8 << b),
{
    let r = mask & !(1u8 << bit);
    assert(r & (1u8 << bit) == 0) by (bit_vector)
        requires
            r == mask & !(1u8 << bit),
            bit < 8,
    ;
    assert forall|b: u8| b < 8 && b != bit implies #[trigger] (r & (1u8 << b)) == mask & (1u8 << b) by {
        assert(b < 8 && b != bit ==> (r & (1u8 << b)) == mask & (1u8 << b)) by (bit_vector)
            requires
                r == mask & !(1u8 << bit),
                bit < 8,
        ;
    }
    r
}

/// The end-of-interrupt writes for line `irq`: the slave's first when the
/// line is one of its own, then the master's.
pub open spec fn eoi_spec(irq: u8) -> Seq<PortWrite> {
    if irq >= 8 {
        seq![PortWrite { port: PIC2_COMMAND, value: PIC_EOI }, PortWrite { port: PIC1_COMMAND, value: PIC_EOI }]
    } else {
        seq![PortWrite { port: PIC1_COMMAND, value: PIC_EOI }]
    }
}

/// The end-of-interrupt writes for line `irq`; see `eoi_spec`.
pub fn end_of_interrupt(irq: u8) -> (w: Vec<PortWrite>)
    ensures
        w@ == eoi_spec(irq),
{
    let mut w: Vec<PortWrite> = Vec::new();
    if irq >= 8 {
        w.push(PortWrite { port: PIC2_COMMAND, value: PIC_EOI });
    }
    w.push(PortWrite { port: PIC1_COMMAND, value: PIC_EOI });
    assert(w@ =~= eoi_spec(irq));
    w
}

} // verus!
