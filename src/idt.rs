//! Interrupt descriptor table entries and the table the kernel installs.

use vstd::prelude::*;

verus! {

/// Number of entries of the interrupt descriptor table.
pub const IDT_ENTRIES: usize = 256;

/// Code-segment selector of the kernel's code.
pub const KERNEL_CODE_SELECTOR: u16 = 0x08;

/// Kinds of gates.
#[derive(Debug, Clone, Copy, PartialEq, Eq, Structural)]
pub enum GateType {
    /// Interrupts stay disabled while the handler runs.
    InterruptGate,
    /// Interrupts stay enabled while the handler runs.
    TrapGate,
}

impl GateType {
    /// Value of the descriptor-type field.
    pub open spec fn spec_code(self) -> u8 {
        match self {
            GateType::InterruptGate => 0b1110,
            GateType::TrapGate => 0b1111,
        }
    }

    /// Value of the descriptor-type field.
    pub fn code(self) -> (r: u8)
        ensures
            r == self.spec_code(),
    {
        match self {
            GateType::InterruptGate => 0b1110,
            GateType::TrapGate => 0b1111,
        }
    }
}

/// One 16-byte entry of the interrupt descriptor table.
#[derive(Debug, Clone, Copy, PartialEq, Eq, Structural)]
pub struct IdtEntry {
    /// Bits 0..16 of the handler's address.
    pub offset_low: u16,
    /// Code-segment selector.
    pub selector: u16,
    /// Interrupt-stack-table slot.
    pub ist: u8,
    /// Gate type and attributes (bit 7: present).
    pub type_attributes: u8,
    /// Bits 16..32 of the handler's address.
    pub offset_middle: u16,
    /// Bits 32..64 of the handler's address.
    pub offset_high: u32,
    /// Always zero.
    pub reserved: u32,
}

/// A present gate to `handler` through `selector`.
pub open spec fn gate_entry(handler: u64, selector: u16, gate_type: GateType) -> IdtEntry {
    IdtEntry {
        offset_low: (handler & 0xFFFF) as u16,
        selector,
        ist: 0,
        type_attributes: gate_type.spec_code() | 0x80,
        offset_middle: ((handler >> 16u64) & 0xFFFF) as u16,
        offset_high: ((handler >> 32u64) & 0xFFFF_FFFF) as u32,
        reserved: 0,
    }
}

/// An entry that is not present.
pub open spec fn empty_entry() -> IdtEntry {
    IdtEntry {
        offset_low: 0,
        selector: 0,
        ist: 0,
        type_attributes: 0,
        offset_middle: 0,
        offset_high: 0,
        reserved: 0,
    }
}

/// The handler's address, put back together from the three parts.
pub open spec fn handler_of(e: IdtEntry) -> int {
    e.offset_low + e.offset_middle * 0x1_0000 + e.offset_high * 0x1_0000_0000
}

impl IdtEntry {
    /// A present gate to `handler` through `selector`.
    pub fn new(handler: u64, selector: u16, gate_type: GateType) -> (r: IdtEntry)
        ensures
            r == gate_entry(handler, selector, gate_type),
            handler_of(r) == handler,
    {
        let lo = handler & 0xFFFF;
        let mid = (handler >> 16) & 0xFFFF;
        let hi = (handler >> 32) & 0xFFFF_FFFF;
        proof {
            assert(lo + mid * 0x1_0000 + hi * 0x1_0000_0000 == handler) by (bit_vector)
                requires
                    lo == handler & 0xFFFF,
                    mid == (handler >> 16) & 0xFFFF,
                    hi == (handler >> 32) & 0xFFFF_FFFF,
            ;
            assert(lo < 0x1_0000 && mid < 0x1_0000 && hi < 0x1_0000_0000) by (bit_vector)
                requires
                    lo == handler & 0xFFFF,
                    mid == (handler >> 16) & 0xFFFF,
                    hi == (handler >> 32) & 0xFFFF_FFFF,
            ;
        }
        IdtEntry {
            offset_low: lo as u16,
            selector,
            ist: 0,
            type_attributes: gate_type.code() | 0x80,
            offset_middle: mid as u16,
            offset_high: hi as u32,
            reserved: 0,
        }
    }

    /// An entry that is not present.
    pub fn empty() -> (r: IdtEntry)
        ensures
            r == empty_entry(),
    {
        IdtEntry {
            offset_low: 0,
            selector: 0,
            ist: 0,
            type_attributes: 0,
            offset_middle: 0,
            offset_high: 0,
            reserved: 0,
        }
    }
}

/// Operand of the instruction that loads the table.
#[derive(Debug, Clone, Copy, PartialEq, Eq, Structural)]
pub struct IdtDescriptor {
    /// Size of the table in bytes, minus one.
    pub limit: u16,
    /// Linear address of the table.
    pub base: u64,
}

impl IdtDescriptor {
    /// The descriptor of a full table at `base`.
    pub fn new(base: u64) -> (r: IdtDescriptor)
        ensures
            r.limit == IDT_ENTRIES * 16 - 1,
            r.base == base,
    {
        IdtDescriptor { limit: (IDT_ENTRIES * 16 - 1) as u16, base }
    }
}

/// The interrupt descriptor table: 256 entries.
pub struct Idt {
    entries: [IdtEntry; 256],
}

impl View for Idt {
    type V = Seq<IdtEntry>;

    closed spec fn view(&self) -> Seq<IdtEntry> {
        self.entries@
    }
}

impl Idt {
    /// A table of entries that are not present.
    pub fn new() -> (r: Idt)
        ensures
            r@.len() == IDT_ENTRIES,
            forall|i: int| 0 <= i < IDT_ENTRIES ==> #[trigger] r@[i] == empty_entry(),
    {
        let entries: [IdtEntry; 256] = [IdtEntry {
            offset_low: 0,
            selector: 0,
            ist: 0,
            type_attributes: 0,
            offset_middle: 0,
            offset_high: 0,
            reserved: 0,
        }; 256];
        Idt { entries }
    }

    /// Points `vector` at `handler` through `selector`.
    pub fn set_handler(&mut self, vector: u8, handler: u64, selector: u16, gate_type: GateType)
        ensures
            final(self)@ == old(self)@.update(
                vector as int,
                gate_entry(handler, selector, gate_type),
            ),
    {
        self.entries[vector as usize] = IdtEntry::new(handler, selector, gate_type);
        assert(self@ =~= old(self)@.update(vector as int, gate_entry(handler, selector, gate_type)));
    }

    /// The entry for `vector`.
    pub fn entry(&self, vector: u8) -> (r: IdtEntry)
        ensures
            r == self@[vector as int],
    {
        self.entries[vector as usize]
    }
}

/// Addresses of the handlers the kernel installs.
#[derive(Debug, Clone, Copy, PartialEq, Eq, Structural)]
pub struct HandlerAddresses {
    pub divide_by_zero: u64,
    pub debug: u64,
    pub breakpoint: u64,
    pub invalid_opcode: u64,
    pub double_fault: u64,
    pub general_protection_fault: u64,
    pub page_fault: u64,
    pub timer: u64,
    pub keyboard: u64,
    pub serial: u64,
    pub unhandled: u64,
}

/// The vectors that the kernel's table fills.
pub open spec fn installed(vector: int) -> bool {
    vector == 0 || vector == 1 || vector == 3 || vector == 6 || vector == 8 || vector == 13
        || vector == 14 || vector >= 32
}

/// The handler the kernel's table points `vector` at.
pub open spec fn handler_for(h: HandlerAddresses, vector: int) -> u64 {
    if vector == 0 {
        h.divide_by_zero
    } else if vector == 1 {
        h.debug
    } else if vector == 3 {
        h.breakpoint
    } else if vector == 6 {
        h.invalid_opcode
    } else if vector == 8 {
        h.double_fault
    } else if vector == 13 {
        h.general_protection_fault
    } else if vector == 14 {
        h.page_fault
    } else if vector == 32 {
        h.timer
    } else if vector == 33 {
        h.keyboard
    } else if vector == 36 {
        h.serial
    } else {
        h.unhandled
    }
}

/// The entry the kernel's table holds for `vector`: a trap gate for the
/// breakpoint vector, interrupt gates for the other installed ones.
pub open spec fn kernel_entry(h: HandlerAddresses, vector: int) -> IdtEntry {
    if installed(vector) {
        gate_entry(
            handler_for(h, vector),
            KERNEL_CODE_SELECTOR,
            if vector == 3 {
                GateType::TrapGate
            } else {
                GateType::InterruptGate
            },
        )
    } else {
        empty_entry()
    }
}

/// The kernel's table: its exception handlers on vectors 0, 1, 3, 6, 8, 13
/// and 14, the timer, keyboard and serial handlers on vectors 32, 33 and 36,
/// and the catch-all handler on the other vectors from 32 on.
pub fn init_idt(h: &HandlerAddresses) -> (r: Idt)
    ensures
        r@.len() == IDT_ENTRIES,
        forall|v: int| 0 <= v < IDT_ENTRIES ==> #[trigger] r@[v] == kernel_entry(*h, v),
{
    let s = KERNEL_CODE_SELECTOR;
    let mut idt = Idt::new();
    idt.set_handler(0, h.divide_by_zero, s, GateType::InterruptGate);
    idt.set_handler(1, h.debug, s, GateType::InterruptGate);
    idt.set_handler(3, h.breakpoint, s, GateType::TrapGate);
    idt.set_handler(6, h.invalid_opcode, s, GateType::InterruptGate);
    idt.set_handler(8, h.double_fault, s, GateType::InterruptGate);
    idt.set_handler(13, h.general_protection_fault, s, GateType::InterruptGate);
    idt.set_handler(14, h.page_fault, s, GateType::InterruptGate);
    idt.set_handler(32, h.timer, s, GateType::InterruptGate);
    idt.set_handler(33, h.keyboard, s, GateType::InterruptGate);
    idt.set_handler(36, h.serial, s, GateType::InterruptGate);
    let mut vector: u16 = 32;
    while vector <= 255
        invariant
            32 <= vector <= 256,
            s == KERNEL_CODE_SELECTOR,
            idt@.len() == IDT_ENTRIES,
            forall|v: int| 0 <= v < vector ==> #[trigger] idt@[v] == kernel_entry(*h, v),
            forall|v: int|
                vector <= v < IDT_ENTRIES ==> #[trigger] idt@[v] == if v == 32 || v == 33 || v
                    == 36 {
                    kernel_entry(*h, v)
                } else {
                    empty_entry()
                },
        decreases 256 - vector,
    {
        if vector != 32 && vector != 33 && vector != 36 {
            idt.set_handler(vector as u8, h.unhandled, s, GateType::InterruptGate);
        }
        assert(idt@[vector as int] == kernel_entry(*h, vector as int));
        vector = vector + 1;
    }
    idt
}

} // verus!
