use noodle_kernel::idt::{init_idt, GateType, HandlerAddresses, Idt, IdtDescriptor, IdtEntry, KERNEL_CODE_SELECTOR};

fn addresses() -> HandlerAddresses {
    HandlerAddresses {
        divide_by_zero: 0x1000,
        debug: 0x1100,
        breakpoint: 0x1200,
        invalid_opcode: 0x1300,
        double_fault: 0x1400,
        general_protection_fault: 0x1500,
        page_fault: 0x1600,
        timer: 0x2000,
        keyboard: 0x2100,
        serial: 0x2200,
        unhandled: 0xFFFF_8000_0000_3000,
    }
}

#[test]
fn entry_splits_handler_address() {
    let e = IdtEntry::new(0x1234_5678_9ABC_DEF0, 0x08, GateType::InterruptGate);
    assert_eq!(e.offset_low, 0xDEF0);
    assert_eq!(e.offset_middle, 0x9ABC);
    assert_eq!(e.offset_high, 0x1234_5678);
    assert_eq!(e.type_attributes, 0x8E);
    assert_eq!(e.selector, 0x08);
    let t = IdtEntry::new(0, 0x10, GateType::TrapGate);
    assert_eq!(t.type_attributes, 0x8F);
    assert_eq!(IdtEntry::empty().type_attributes, 0);
}

#[test]
fn kernel_table_layout() {
    let h = addresses();
    let idt = init_idt(&h);
    assert_eq!(idt.entry(0), IdtEntry::new(0x1000, KERNEL_CODE_SELECTOR, GateType::InterruptGate));
    assert_eq!(idt.entry(3), IdtEntry::new(0x1200, KERNEL_CODE_SELECTOR, GateType::TrapGate));
    assert_eq!(idt.entry(14), IdtEntry::new(0x1600, KERNEL_CODE_SELECTOR, GateType::InterruptGate));
    assert_eq!(idt.entry(2), IdtEntry::empty());
    assert_eq!(idt.entry(31), IdtEntry::empty());
    assert_eq!(idt.entry(33), IdtEntry::new(0x2100, KERNEL_CODE_SELECTOR, GateType::InterruptGate));
    assert_eq!(idt.entry(36), IdtEntry::new(0x2200, KERNEL_CODE_SELECTOR, GateType::InterruptGate));
    assert_eq!(idt.entry(34), IdtEntry::new(h.unhandled, KERNEL_CODE_SELECTOR, GateType::InterruptGate));
    assert_eq!(idt.entry(255), IdtEntry::new(h.unhandled, KERNEL_CODE_SELECTOR, GateType::InterruptGate));
}

#[test]
fn set_handler_replaces_one_entry() {
    let mut idt = Idt::new();
    idt.set_handler(7, 0xABCD, 0x08, GateType::TrapGate);
    assert_eq!(idt.entry(7), IdtEntry::new(0xABCD, 0x08, GateType::TrapGate));
    assert_eq!(idt.entry(6), IdtEntry::empty());
    assert_eq!(IdtDescriptor::new(0x5000).limit, 4095);
}
