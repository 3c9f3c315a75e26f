use zeronix::trap::gdt::{stack_top, TaskStateSegment, DOUBLE_FAULT_IST_INDEX, KERNEL_CODE_SELECTOR, STACK_SIZE, TSS_SIZE};
use zeronix::trap::idt::{classify_irq, exception_name, init_entries, IdtEntry, IrqEvent};
use zeronix::trap::pic::{clear_bit, end_of_interrupt, init, unmask_irq, MaskBit, PIC1_DATA, PIC2_DATA};
use zeronix::trap::pit::{init as pit_init, init_100hz};
use zeronix::trap::PortWrite;

fn w(port: u16, value: u8) -> PortWrite {
    PortWrite { port, value }
}

#[test]
fn gate_holds_its_address() {
    let mut e = IdtEntry::missing();
    assert_eq!(e.handler_address(), 0);
    e.set_handler(0xffff_8000_1234_5678, 9);
    assert_eq!(e.handler_address(), 0xffff_8000_1234_5678);
    assert_eq!(e.offset_low, 0x5678);
    assert_eq!(e.offset_mid, 0x1234);
    assert_eq!(e.offset_high, 0xffff_8000);
    assert_eq!(e.ist, 1);
    assert_eq!(e.selector, KERNEL_CODE_SELECTOR);
    assert_eq!(e.type_attr, 0x8E);
}

#[test]
fn table_gets_exception_and_irq_gates() {
    let mut table = [IdtEntry::missing(); 256];
    let mut exceptions = [0u64; 32];
    for (i, a) in exceptions.iter_mut().enumerate() {
        *a = 0x1000 + i as u64 * 16;
    }
    let mut irqs = [0u64; 16];
    for (i, a) in irqs.iter_mut().enumerate() {
        *a = 0x2000 + i as u64 * 16;
    }
    init_entries(&mut table, &exceptions, &irqs);
    assert_eq!(table[0].handler_address(), 0x1000);
    assert_eq!(table[8].ist, DOUBLE_FAULT_IST_INDEX);
    assert_eq!(table[9].ist, 0);
    assert_eq!(table[32].handler_address(), 0x2000);
    assert_eq!(table[47].handler_address(), 0x2000 + 15 * 16);
    assert_eq!(table[48], IdtEntry::missing());
}

#[test]
fn exception_names() {
    assert_eq!(exception_name(0), "Divide Error");
    assert_eq!(exception_name(8), "Double Fault");
    assert_eq!(exception_name(14), "Page Fault");
    assert_eq!(exception_name(25), "Reserved");
    assert_eq!(exception_name(30), "Security Exception");
    assert_eq!(exception_name(99), "Unknown");
}

#[test]
fn irq_classification() {
    assert_eq!(classify_irq(32), (0, IrqEvent::Timer));
    assert_eq!(classify_irq(33), (1, IrqEvent::Keyboard));
    assert_eq!(classify_irq(36), (4, IrqEvent::SerialReceive));
    assert_eq!(classify_irq(40), (8, IrqEvent::Unexpected(8)));
    assert_eq!(classify_irq(3), (0, IrqEvent::Timer));
}

#[test]
fn pic_remap_sequence() {
    let writes = init();
    assert_eq!(writes.len(), 18);
    assert_eq!(writes[0], w(0x20, 0x11));
    assert_eq!(writes[1], w(0x80, 0));
    assert_eq!(writes[4], w(0x21, 32));
    assert_eq!(writes[6], w(0xA1, 40));
    assert_eq!(writes[8], w(0x21, 4));
    assert_eq!(writes[16], w(0x21, 0xff));
    assert_eq!(writes[17], w(0xA1, 0xff));
}

#[test]
fn unmasking_lines() {
    assert_eq!(unmask_irq(1), Some(MaskBit { port: PIC1_DATA, bit: 1, cascade: false }));
    assert_eq!(unmask_irq(12), Some(MaskBit { port: PIC2_DATA, bit: 4, cascade: true }));
    assert_eq!(unmask_irq(16), None);
    assert_eq!(clear_bit(0xff, 0), 0xfe);
    assert_eq!(clear_bit(0xff, 4), 0xef);
    assert_eq!(clear_bit(0x00, 2), 0x00);
}

#[test]
fn end_of_interrupt_writes() {
    assert_eq!(end_of_interrupt(0), vec![w(0x20, 0x20)]);
    assert_eq!(end_of_interrupt(9), vec![w(0xA0, 0x20), w(0x20, 0x20)]);
}

#[test]
fn timer_programming() {
    assert_eq!(init_100hz(), vec![w(0x43, 0x36), w(0x40, 0x9b), w(0x40, 0x2e)]);
    assert_eq!(pit_init(0x1_0005), vec![w(0x43, 0x36), w(0x40, 5), w(0x40, 0)]);
}

#[test]
fn task_state_segment_stacks() {
    let mut tss = TaskStateSegment::new();
    assert_eq!(tss.iomap_base, TSS_SIZE);
    tss.init_stacks(0x1000, 0x2000);
    assert_eq!(tss.rsp[0], 0x1000);
    assert_eq!(tss.ist[0], 0x2000);
    tss.set_kernel_stack(0x3000);
    assert_eq!(tss.rsp, [0x3000, 0, 0]);
    assert_eq!(tss.ist[0], 0x2000);
    assert_eq!(stack_top(0x10_0000), 0x10_0000 + STACK_SIZE);
}
