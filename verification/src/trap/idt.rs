use vstd::prelude::*;
use crate::trap::gdt::{DOUBLE_FAULT_IST_INDEX, KERNEL_CODE_SELECTOR};

verus! {

/// Number of gates in the table.
pub const IDT_ENTRIES: usize = 256;
/// Type of a present ring-0 interrupt gate.
pub const INTERRUPT_GATE: u8 = 0x8E;
/// Number of CPU exception vectors.
pub const EXCEPTION_COUNT: usize = 32;
/// Number of hardware interrupt vectors, from 32 on.
pub const IRQ_VECTORS: usize = 16;

/// One gate of the interrupt descriptor table, field by field as the CPU
/// reads it.
#[derive(Debug, Clone, Copy, PartialEq, Eq, Structural)]
pub struct IdtEntry {
    pub offset_low: u16,
    pub selector: u16,
    pub ist: u8,
    pub type_attr: u8,
    pub offset_mid: u16,
    pub offset_high: u32,
    pub reserved: u32,
}

/// An entry that sends a vector to code at `addr`, run on interrupt stack
/// `ist` (of which the low three bits count).
pub open spec fn gate(addr: u64, ist: u8) -> IdtEntry {
    IdtEntry {
        offset_low: addr as u16,
        selector: KERNEL_CODE_SELECTOR,
        ist: ist & 7,
        type_attr: INTERRUPT_GATE,
        offset_mid: (addr >> 16) as u16,
        offset_high: (addr >> 32) as u32,
        reserved: 0,
    }
}

/// The code address that a gate holds.
pub open spec fn gate_address(e: IdtEntry) -> u64 {
    (e.offset_low as u64) | ((e.offset_mid as u64) << 16) | ((e.offset_high as u64) << 32)
}

impl IdtEntry {
    /// A gate that is not present.
    pub fn missing() -> (e: Self)
        ensures
            e == (IdtEntry {
                offset_low: 0,
                selector: 0,
                ist: 0,
                type_attr: 0,
                offset_mid: 0,
                offset_high: 0,
                reserved: 0,
            }),
    {
        IdtEntry { offset_low: 0, selector: 0, ist: 0, type_attr: 0, offset_mid: 0, offset_high: 0, reserved: 0 }
    }

    /// Points this entry at code at address `handler`, run on interrupt stack `ist`.
    pub fn set_handler(&mut self, handler: u64, ist: u8)
        ensures
            *final(self) == gate(handler, ist),
    {
        self.offset_low = handler as u16;
        self.selector = KERNEL_CODE_SELECTOR;
        self.ist = ist & 0x7;
        self.type_attr = INTERRUPT_GATE;
        self.offset_mid = (handler >> 16) as u16;
        self.offset_high = (handler >> 32) as u32;
        self.reserved = 0;
    }

    /// The code address that this entry holds.
    pub fn handler_address(&self) -> (a: u64)
        ensures
            a == gate_address(*self),
    {
        (self.offset_low as u64) | ((self.offset_mid as u64) << 16) | ((self.offset_high as u64) << 32)
    }
}

/// A gate gives back the handler address it was made with.
pub proof fn law_gate_round_trip(addr: u64, ist: u8)
    ensures
        gate_address(gate(addr, ist)) == addr,
        gate(addr, ist).ist < 8,
{
    assert(((addr as u16) as u64) | ((((addr >> 16u64) as u16) as u64) << 16u64) | ((((addr >> 32u64) as u32) as u64)
        << 32u64) == addr) by (bit_vector);
    assert(ist & 7 < 8) by (bit_vector);
}

/// The stack a CPU exception runs on: the double fault has a stack of its own.
pub open spec fn exception_ist(vector: int) -> u8 {
    if vector == 8 {
        DOUBLE_FAULT_IST_INDEX
    } else {
        0
    }
}

/// The table after `init_entries`: the exceptions and the hardware
/// interrupts get their handlers; the other gates stay as they were.
pub open spec fn entries_spec(old_table: Seq<IdtEntry>, exceptions: Seq<u64>, irqs: Seq<u64>) -> Seq<IdtEntry> {
    Seq::new(
        256,
        |v: int|
            if v < 32 {
                gate(exceptions[v], exception_ist(v))
            } else if v < 48 {
                gate(irqs[v - 32], 0)
            } else {
                old_table[v]
            },
    )
}

/// Fills the gates of the 32 CPU exceptions and of the 16 hardware
/// interrupts from 32 on with the handler addresses given.
pub fn init_entries(table: &mut [IdtEntry; 256], exceptions: &[u64; 32], irqs: &[u64; 16])
    ensures
        final(table)@ == entries_spec(old(table)@, exceptions@, irqs@),
{
    let ghost t0 = table@;
    let mut vector: usize = 0;
    while vector < EXCEPTION_COUNT
        invariant
            vector <= 32,
            table@.len() == 256,
            forall|v: int| 0 <= v < vector ==> #[trigger] table@[v] == gate(exceptions@[v], exception_ist(v)),
            forall|v: int| vector <= v < 256 ==> #[trigger] table@[v] == t0[v],
        decreases 32 - vector,
    {
        let ist = if vector == 8 {
            DOUBLE_FAULT_IST_INDEX
        } else {
            0
        };
        let mut e = table[vector];
        e.set_handler(exceptions[vector], ist);
        table[vector] = e;
        vector = vector + 1;
    }
    let mut irq: usize = 0;
    while irq < IRQ_VECTORS
        invariant
            irq <= 16,
            table@.len() == 256,
            forall|v: int| 0 <= v < 32 ==> #[trigger] table@[v] == gate(exceptions@[v], exception_ist(v)),
            forall|v: int| 32 <= v < 32 + irq ==> #[trigger] table@[v] == gate(irqs@[v - 32], 0),
            forall|v: int| 32 + irq <= v < 256 ==> #[trigger] table@[v] == t0[v],
        decreases 16 - irq,
    {
        let mut e = table[32 + irq];
        e.set_handler(irqs[irq], 0);
        table[32 + irq] = e;
        irq = irq + 1;
    }
    assert(table@ =~= entries_spec(t0, exceptions@, irqs@));
}

/// The name of CPU exception `vector`.
pub open spec fn exception_name_spec(vector: usize) -> Seq<char> {
    if vector == 0 {
        "Divide Error"@
    } else if vector == 1 {
        "Debug"@
    } else if vector == 2 {
        "NMI"@
    } else if vector == 3 {
        "Breakpoint"@
    } else if vector == 4 {
        "Overflow"@
    } else if vector == 5 {
        "Bound Range Exceeded"@
    } else if vector == 6 {
        "Invalid Opcode"@
    } else if vector == 7 {
        "Device Not Available"@
    } else if vector == 8 {
        "Double Fault"@
    } else if vector == 9 {
        "Coprocessor Segment Overrun"@
    } else if vector == 10 {
        "Invalid TSS"@
    } else if vector == 11 {
        "Segment Not Present"@
    } else if vector == 12 {
        "Stack Segment Fault"@
    } else if vector == 13 {
        "General Protection Fault"@
    } else if vector == 14 {
        "Page Fault"@
    } else if vector == 15 {
        "Reserved"@
    } else if vector == 16 {
        "x87 Floating-Point Exception"@
    } else if vector == 17 {
        "Alignment Check"@
    } else if vector == 18 {
        "Machine Check"@
    } else if vector == 19 {
        "SIMD Floating-Point Exception"@
    } else if vector == 20 {
        "Virtualization Exception"@
    } else if vector == 21 {
        "Control Protection Exception"@
    } else if 22 <= vector <= 27 {
        "Reserved"@
    } else if vector == 28 {
        "Hypervisor Injection Exception"@
    } else if vector == 29 {
        "VMM Communication Exception"@
    } else if vector == 30 {
        "Security Exception"@
    } else if vector == 31 {
        "Reserved"@
    } else {
        "Unknown"@
    }
}

/// The name of CPU exception `vector`; "Unknown" past 31.
pub fn exception_name(vector: usize) -> (r: &'static str)
    ensures
        r@ == exception_name_spec(vector),
{
    match vector {
        0 => "Divide Error",
        1 => "Debug",
        2 => "NMI",
        3 => "Breakpoint",
        4 => "Overflow",
        5 => "Bound Range Exceeded",
        6 => "Invalid Opcode",
        7 => "Device Not Available",
        8 => "Double Fault",
        9 => "Coprocessor Segment Overrun",
        10 => "Invalid TSS",
        11 => "Segment Not Present",
        12 => "Stack Segment Fault",
        13 => "General Protection Fault",
        14 => "Page Fault",
        15 => "Reserved",
        16 => "x87 Floating-Point Exception",
        17 => "Alignment Check",
        18 => "Machine Check",
        19 => "SIMD Floating-Point Exception",
        20 => "Virtualization Exception",
        21 => "Control Protection Exception",
        22..=27 => "Reserved",
        28 => "Hypervisor Injection Exception",
        29 => "VMM Communication Exception",
        30 => "Security Exception",
        31 => "Reserved",
        _ => "Unknown",
    }
}

/// What a hardware interrupt asks of the kernel.
#[derive(Debug, Clone, Copy, PartialEq, Eq, Structural)]
pub enum IrqEvent {
    /// Line 0: the timer ticked.
    Timer,
    /// Line 1: the keyboard has a scan code.
    Keyboard,
    /// Line 4: the serial port received a byte.
    SerialReceive,
    /// Any other line.
    Unexpected(u8),
}

/// The line of interrupt vector `vector`: its distance from the first
/// hardware vector, 0 below it, in eight bits.
pub open spec fn irq_line(vector: u64) -> u8 {
    (if vector >= 32 { vector - 32 } else { 0 }) as u8
}

/// The event of line `irq`.
pub open spec fn irq_event(irq: u8) -> IrqEvent {
    if irq == 0 {
        IrqEvent::Timer
    } else if irq == 1 {
        IrqEvent::Keyboard
    } else if irq == 4 {
        IrqEvent::SerialReceive
    } else {
        IrqEvent::Unexpected(irq)
    }
}

/// The line of interrupt `vector` and what it asks for. The caller handles
/// the event and then signals the end of the interrupt on that line.
pub fn classify_irq(vector: u64) -> (r: (u8, IrqEvent))
    ensures
        r.0 == irq_line(vector),
        r.1 == irq_event(irq_line(vector)),
{
    let irq = vector.saturating_sub(32) as u8;
    let event = match irq {
        0 => IrqEvent::Timer,
        1 => IrqEvent::Keyboard,
        4 => IrqEvent::SerialReceive,
        _ => IrqEvent::Unexpected(irq),
    };
    (irq, event)
}

} // verus!
