//! Interrupt descriptor table entries.

use vstd::prelude::*;

verus! {

/// Number of entries of the interrupt descriptor table.
pub const IDT_ENTRIES: usize = 256;

/// The limit field of the table's descriptor: its size in bytes, less one.
pub const IDT_LIMIT: u16 = 2047;

/// Code segment selector of the kernel.
pub const KERNEL_CODE_SELECTOR: u16 = 0x08;

/// Type and attribute byte of a present 32-bit ring-0 interrupt descriptor.
pub const INTERRUPT_ATTRIBUTES: u8 = 0x8E;

/// Vectors of the handlers the kernel installs.
pub const BREAKPOINT_VECTOR: usize = 3;
pub const DOUBLE_FAULT_VECTOR: usize = 8;
pub const TIMER_VECTOR: usize = 32;
pub const KEYBOARD_VECTOR: usize = 33;

/// One entry of the interrupt descriptor table: the handler's address split
/// in two halves, the code segment selector and the entry's attributes.
#[derive(Clone, Copy, Debug, PartialEq, Eq)]
pub struct IdtEntry {
    offset_low: u16,
    selector: u16,
    reserved: u8,
    attributes: u8,
    offset_high: u16,
}

/// The fields of an entry: low half of the handler address, selector,
/// reserved byte, attributes, high half of the handler address.
pub type IdtEntryView = (u16, u16, u8, u8, u16);

/// The entry that sends an interrupt to `handler` in the kernel code
/// segment.
pub open spec fn handler_entry(handler: u32) -> IdtEntryView {
    ((handler & 0xFFFF) as u16, KERNEL_CODE_SELECTOR, 0u8, INTERRUPT_ATTRIBUTES, ((handler >> 16) & 0xFFFF) as u16)
}

/// The eight bytes of an entry in memory: the low half of the handler
/// address, the selector, the reserved byte, the attributes and the high
/// half of the handler address, each half little-endian.
pub open spec fn entry_bytes(v: IdtEntryView) -> Seq<u8> {
    seq![
        (v.0 & 0xFF) as u8,
        (v.0 >> 8) as u8,
        (v.1 & 0xFF) as u8,
        (v.1 >> 8) as u8,
        v.2,
        v.3,
        (v.4 & 0xFF) as u8,
        (v.4 >> 8) as u8,
    ]
}

impl View for IdtEntry {
    type V = IdtEntryView;

    closed spec fn view(&self) -> IdtEntryView {
        (self.offset_low, self.selector, self.reserved, self.attributes, self.offset_high)
    }
}

impl IdtEntry {
    /// An empty entry.
    pub fn new() -> (e: Self)
        ensures
            e@ == (0u16, 0u16, 0u8, 0u8, 0u16),
    {
        Self { offset_low: 0, selector: 0, reserved: 0, attributes: 0, offset_high: 0 }
    }

    /// Makes the entry send interrupts to `handler`.
    pub fn set_handler(&mut self, handler: u32)
        ensures
            final(self)@ == handler_entry(handler),
    {
        self.offset_low = (handler & 0xFFFF) as u16;
        self.offset_high = ((handler >> 16) & 0xFFFF) as u16;
        self.selector = KERNEL_CODE_SELECTOR;
        self.reserved = 0;
        self.attributes = INTERRUPT_ATTRIBUTES;
    }

    /// The handler address the entry holds.
    pub fn handler(&self) -> (h: u32)
        ensures
            h == (self@.4 as u32) * 0x10000 + (self@.0 as u32),
    {
        proof {
            let hi = self.offset_high;
            let lo = self.offset_low;
            assert(((hi as u32) << 16u32) | (lo as u32) == (hi as u32) * 0x10000 + (lo as u32)) by (bit_vector);
        }
        ((self.offset_high as u32) << 16u32) | (self.offset_low as u32)
    }

    /// The entry as the processor reads it: eight little-endian bytes.
    pub fn to_bytes(&self) -> (b: [u8; 8])
        ensures
            b@ == entry_bytes(self@),
    {
        let b = [
            (self.offset_low & 0xFF) as u8,
            (self.offset_low >> 8) as u8,
            (self.selector & 0xFF) as u8,
            (self.selector >> 8) as u8,
            self.reserved,
            self.attributes,
            (self.offset_high & 0xFF) as u8,
            (self.offset_high >> 8) as u8,
        ];
        assert(b@ =~= entry_bytes(self@));
        b
    }
}

/// Installs the kernel's handlers in the table: breakpoint, double fault,
/// timer and keyboard, at their vectors; the other entries are left as they
/// were.
pub fn install_handlers(idt: &mut [IdtEntry; 256], breakpoint: u32, double_fault: u32, timer: u32, keyboard: u32)
    ensures
        forall|v: int|
            0 <= v < IDT_ENTRIES ==> (#[trigger] final(idt)@[v])@ == if v == BREAKPOINT_VECTOR {
                handler_entry(breakpoint)
            } else if v == DOUBLE_FAULT_VECTOR {
                handler_entry(double_fault)
            } else if v == TIMER_VECTOR {
                handler_entry(timer)
            } else if v == KEYBOARD_VECTOR {
                handler_entry(keyboard)
            } else {
                old(idt)@[v]@
            },
{
    let mut e = idt[BREAKPOINT_VECTOR];
    e.set_handler(breakpoint);
    idt[BREAKPOINT_VECTOR] = e;
    let mut e = idt[DOUBLE_FAULT_VECTOR];
    e.set_handler(double_fault);
    idt[DOUBLE_FAULT_VECTOR] = e;
    let mut e = idt[TIMER_VECTOR];
    e.set_handler(timer);
    idt[TIMER_VECTOR] = e;
    let mut e = idt[KEYBOARD_VECTOR];
    e.set_handler(keyboard);
    idt[KEYBOARD_VECTOR] = e;
}

/// An entry set to `handler` hands back `handler`.
pub proof fn entry_holds_handler(handler: u32)
    ensures
        (handler_entry(handler).4 as u32) * 0x10000 + (handler_entry(handler).0 as u32) == handler,
{
    assert((((handler >> 16) & 0xFFFF) as u16 as u32) * 0x10000 + ((handler & 0xFFFF) as u16 as u32)
        == handler) by (bit_vector);
}

/// An entry set to a handler reads, in memory, as the handler address's
/// bytes 0 and 1, the kernel code selector 0x0008, a zero byte, the
/// present 32-bit interrupt gate attributes 0x8E, then the address's bytes
/// 2 and 3; the kernel's handlers sit at vectors 3 (breakpoint), 8 (double
/// fault), 32 (timer) and 33 (keyboard).
pub proof fn handler_entry_in_memory(handler: u32)
    ensures
        entry_bytes(handler_entry(handler)) == seq![
            (handler % 0x100) as u8,
            ((handler / 0x100) % 0x100) as u8,
            0x08u8,
            0x00u8,
            0x00u8,
            0x8Eu8,
            ((handler / 0x10000) % 0x100) as u8,
            (handler / 0x1000000) as u8,
        ],
        BREAKPOINT_VECTOR == 3 && DOUBLE_FAULT_VECTOR == 8 && TIMER_VECTOR == 32 && KEYBOARD_VECTOR == 33,
{
    let lo = (handler & 0xFFFF) as u16;
    let hi = ((handler >> 16) & 0xFFFF) as u16;
    assert({
        &&& (lo & 0xFF) as u8 == (handler % 0x100) as u8
        &&& (lo >> 8) as u8 == ((handler / 0x100) % 0x100) as u8
        &&& (hi & 0xFF) as u8 == ((handler / 0x10000) % 0x100) as u8
        &&& (hi >> 8) as u8 == (handler / 0x1000000) as u8
    }) by (bit_vector)
        requires
            lo == (handler & 0xFFFF) as u16,
            hi == ((handler >> 16) & 0xFFFF) as u16,
    ;
    assert((KERNEL_CODE_SELECTOR & 0xFF) as u8 == 0x08u8 && (KERNEL_CODE_SELECTOR >> 8) as u8 == 0u8) by (bit_vector);
    assert(entry_bytes(handler_entry(handler)) =~= seq![
        (handler % 0x100) as u8,
        ((handler / 0x100) % 0x100) as u8,
        0x08u8,
        0x00u8,
        0x00u8,
        0x8Eu8,
        ((handler / 0x10000) % 0x100) as u8,
        (handler / 0x1000000) as u8,
    ]);
}

} // verus!
