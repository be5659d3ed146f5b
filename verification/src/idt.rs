use vstd::prelude::*;

verus! {

/// The number of gates in the interrupt descriptor table.
pub const IDT_ENTRIES: usize = 256;
/// The size in bytes of one gate descriptor.
pub const GATE_DESCRIPTOR_SIZE: u64 = 16;
/// The kernel code segment selector that every gate uses.
pub const KERNEL_CODE_SELECTOR: u16 = 0x28;
/// Present, ring 3 callable, 64-bit trap gate.
pub const GATE_FLAGS: u8 = 0xEE;

/// One 64-bit interrupt gate, field by field as the processor reads it.
#[derive(Clone, Copy, PartialEq, Eq, Structural, Debug)]
pub struct GateDescriptor {
    pub offset: u16,
    pub seg: u16,
    pub ist_and_reversed: u8,
    pub flags: u8,
    pub offset_mid: u16,
    pub offset_hi: u32,
    pub reversed: u32,
}

/// The empty gate.
pub open spec fn empty_gate() -> GateDescriptor {
    GateDescriptor { offset: 0, seg: 0, ist_and_reversed: 0, flags: 0, offset_mid: 0, offset_hi: 0, reversed: 0 }
}

/// The descriptor of the handler at `base`: its address cut into bits
/// 0..16, 16..32 and 32..64, with the kernel code selector and the trap
/// flags.
pub open spec fn gate_for(base: u64) -> GateDescriptor {
    GateDescriptor {
        offset: (base & 0xFFFF) as u16,
        offset_mid: ((base >> 16) & 0xFFFF) as u16,
        offset_hi: ((base >> 32) & 0xFFFFFFFF) as u32,
        seg: KERNEL_CODE_SELECTOR,
        ist_and_reversed: 0,
        reversed: 0,
        flags: GATE_FLAGS,
    }
}

/// The handler address that a gate's three offset fields spell.
pub open spec fn gate_target(g: GateDescriptor) -> u64 {
    (g.offset as u64) | ((g.offset_mid as u64) << 16) | ((g.offset_hi as u64) << 32)
}

impl GateDescriptor {
    /// The empty gate.
    pub fn new() -> (r: GateDescriptor)
        ensures
            r == empty_gate(),
    {
        GateDescriptor { offset: 0, seg: 0, ist_and_reversed: 0, flags: 0, offset_mid: 0, offset_hi: 0, reversed: 0 }
    }
}

/// The interrupt descriptor table: 256 gates.
pub struct IdtTable {
    gates: Vec<GateDescriptor>,
}

impl IdtTable {
    /// The gates, by vector.
    pub closed spec fn view(&self) -> Seq<GateDescriptor> {
        self.gates@
    }

    /// A table of 256 empty gates.
    pub fn new() -> (r: IdtTable)
        ensures
            r@ == Seq::new(IDT_ENTRIES as nat, |i: int| empty_gate()),
    {
        let mut gates: Vec<GateDescriptor> = Vec::new();
        let mut i: usize = 0;
        while i < IDT_ENTRIES
            invariant
                0 <= i <= IDT_ENTRIES,
                gates@ == Seq::new(i as nat, |j: int| empty_gate()),
            decreases IDT_ENTRIES - i,
        {
            gates.push(GateDescriptor::new());
            i = i + 1;
            assert(gates@ =~= Seq::new(i as nat, |j: int| empty_gate()));
        }
        IdtTable { gates }
    }

    /// Entry `num` of the table.
    pub fn gate(&self, num: u8) -> (r: GateDescriptor)
        requires
            self@.len() == IDT_ENTRIES,
        ensures
            r == self@[num as int],
    {
        self.gates[num as usize]
    }

    /// Points vector `num` at the handler at `function_ptr`.
    pub fn idt_set_gate(&mut self, num: u8, function_ptr: u64)
        requires
            old(self)@.len() == IDT_ENTRIES,
        ensures
            final(self)@ == old(self)@.update(num as int, gate_for(function_ptr)),
    {
        let base = function_ptr;
        let g = GateDescriptor {
            offset: (base & 0xFFFF) as u16,
            offset_mid: ((base >> 16) & 0xFFFF) as u16,
            offset_hi: ((base >> 32) & 0xFFFFFFFF) as u32,
            seg: KERNEL_CODE_SELECTOR,
            ist_and_reversed: 0,
            reversed: 0,
            flags: GATE_FLAGS,
        };
        self.gates.set(num as usize, g);
    }
}

/// What `lidt` loads: the table's size in bytes less one, and its address.
#[derive(Clone, Copy, PartialEq, Eq, Structural, Debug)]
pub struct IDTR {
    pub size: u16,
    pub offset: u64,
}

/// The registers that an interrupt stub saves, in stack order.
#[derive(Clone, Copy, Debug)]
pub struct Registers {
    pub int: usize,
    pub r15: usize,
    pub r14: usize,
    pub r13: usize,
    pub r12: usize,
    pub r11: usize,
    pub r10: usize,
    pub r9: usize,
    pub r8: usize,
    pub rbp: usize,
    pub rdi: usize,
    pub rsi: usize,
    pub rdx: usize,
    pub rcx: usize,
    pub rbx: usize,
    pub rax: usize,
    pub rip: usize,
    pub cs: usize,
    pub rflags: usize,
    pub rsp: usize,
    pub ss: usize,
}

/// The registers that an exception stub saves, with the error code.
#[derive(Clone, Copy, Debug)]
pub struct Registers_Exception {
    pub int: usize,
    pub r15: usize,
    pub r14: usize,
    pub r13: usize,
    pub r12: usize,
    pub r11: usize,
    pub r10: usize,
    pub r9: usize,
    pub r8: usize,
    pub rbp: usize,
    pub rdi: usize,
    pub rsi: usize,
    pub rdx: usize,
    pub rcx: usize,
    pub rbx: usize,
    pub rax: usize,
    pub error_code: usize,
    pub rip: usize,
    pub cs: usize,
    pub rflags: usize,
    pub rsp: usize,
    pub ss: usize,
}

/// The addresses of the kernel's interrupt entry stubs.
#[derive(Clone, Copy, Debug)]
pub struct Handlers {
    pub div_error: u64,
    pub invalid_opcode: u64,
    pub double_fault: u64,
    pub general_protection_fault: u64,
    pub page_fault: u64,
    pub schedule: u64,
}

/// The table after the kernel's handlers are installed: divide error (0),
/// invalid opcode (6), double fault (8), general protection (13), page
/// fault (14) and the scheduler tick (34).
pub open spec fn installed(t: Seq<GateDescriptor>, h: Handlers) -> Seq<GateDescriptor> {
    t.update(0x00, gate_for(h.div_error))
        .update(0x06, gate_for(h.invalid_opcode))
        .update(0x08, gate_for(h.double_fault))
        .update(0x0D, gate_for(h.general_protection_fault))
        .update(0x0E, gate_for(h.page_fault))
        .update(34, gate_for(h.schedule))
}

/// Installs the kernel's interrupt handlers.
pub struct InterruptManager {}

impl InterruptManager {
    /// Installs the kernel's handlers in `idt` and gives the descriptor that
    /// `lidt` loads for the table at `table_addr`.
    pub fn start_idt(idt: &mut IdtTable, handlers: Handlers, table_addr: u64) -> (r: IDTR)
        requires
            old(idt)@.len() == IDT_ENTRIES,
        ensures
            final(idt)@ == installed(old(idt)@, handlers),
            r == (IDTR { size: (GATE_DESCRIPTOR_SIZE * 256 - 1) as u16, offset: table_addr }),
    {
        idt.idt_set_gate(0x00, handlers.div_error);
        idt.idt_set_gate(0x06, handlers.invalid_opcode);
        idt.idt_set_gate(0x08, handlers.double_fault);
        idt.idt_set_gate(0x0D, handlers.general_protection_fault);
        idt.idt_set_gate(0x0E, handlers.page_fault);
        idt.idt_set_gate(34, handlers.schedule);
        IDTR { offset: table_addr, size: ((GATE_DESCRIPTOR_SIZE * 256) - 1) as u16 }
    }
}

/// A gate points back at the handler it was made for.
pub proof fn law_gate_target(base: u64)
    ensures
        gate_target(gate_for(base)) == base,
{
    let g = gate_for(base);
    let lo = g.offset;
    let mid = g.offset_mid;
    let hi = g.offset_hi;
    assert(((lo as u64) | ((mid as u64) << 16) | ((hi as u64) << 32)) == base) by (bit_vector)
        requires
            lo == (base & 0xFFFF) as u16,
            mid == ((base >> 16) & 0xFFFF) as u16,
            hi == ((base >> 32) & 0xFFFFFFFF) as u32,
    ;
}

/// A gate made for any handler switches to no interrupt stack (its
/// interrupt stack table index, the low three bits of `ist_and_reversed`,
/// is 0, as are the reserved bits), runs the handler in the kernel code
/// segment, and is present.
pub proof fn law_gate_uses_current_stack(base: u64)
    ensures
        gate_for(base).ist_and_reversed & 7 == 0,
        gate_for(base).ist_and_reversed == 0,
        gate_for(base).reversed == 0,
        gate_for(base).seg == KERNEL_CODE_SELECTOR,
        (gate_for(base).flags >> 7u8) & 1 == 1,
{
    let g = gate_for(base);
    let ist = g.ist_and_reversed;
    let fl = g.flags;
    assert(ist & 7 == 0) by (bit_vector)
        requires
            ist == 0u8,
    ;
    assert((fl >> 7u8) & 1 == 1) by (bit_vector)
        requires
            fl == 0xEEu8,
    ;
}

} // verus!
