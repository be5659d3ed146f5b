use vstd::prelude::*;

verus! {

/// What `lgdt` loads: a size and the table's address.
#[derive(Clone, Copy, PartialEq, Eq, Structural, Debug)]
pub struct GDTR {
    pub size: u16,
    pub offset: u64,
}

impl GDTR {
    /// The descriptor for a table at `table` of `size` bytes: the processor
    /// takes the size less one.
    pub fn new(table: u64, size: u16) -> (r: GDTR)
        requires
            size >= 1,
        ensures
            r == (GDTR { size: (size - 1) as u16, offset: table }),
    {
        GDTR { size: size - 1, offset: table }
    }
}

/// The kernel's global descriptor table: the null descriptor, 16-bit code
/// and data, 32-bit code and data, 64-bit kernel code and data, and 64-bit
/// user data and code.
pub open spec fn gdt_entries() -> Seq<u64> {
    seq![
        0x0u64,
        0x00009a000000ffffu64,
        0x000093000000ffffu64,
        0x00cf9a000000ffffu64,
        0x00cf93000000ffffu64,
        0x00af9b000000ffffu64,
        0x00af93000000ffffu64,
        0x00aff3000000ffffu64,
        0x00affb000000ffffu64,
    ]
}

/// Fills `gdt` with the kernel's descriptors and gives the pointer that is
/// flushed for it when it lives at `table_addr`: its size is the table's
/// whole size in bytes.
pub fn init_gdt(gdt: &mut [u64; 9], table_addr: u64) -> (r: GDTR)
    ensures
        final(gdt)@ == gdt_entries(),
        r == (GDTR { size: 72, offset: table_addr }),
{
    gdt[0] = 0x0;
    gdt[1] = 0x00009a000000ffff;
    gdt[2] = 0x000093000000ffff;
    gdt[3] = 0x00cf9a000000ffff;
    gdt[4] = 0x00cf93000000ffff;
    gdt[5] = 0x00af9b000000ffff;
    gdt[6] = 0x00af93000000ffff;
    gdt[7] = 0x00aff3000000ffff;
    gdt[8] = 0x00affb000000ffff;
    assert(gdt@ =~= gdt_entries());
    GDTR { size: 9 * 8, offset: table_addr }
}

/// The privilege level a segment descriptor grants (bits 45 and 46).
pub open spec fn descriptor_dpl(d: u64) -> u64 {
    (d >> 45u64) & 3
}

/// Whether a segment descriptor is present (bit 47).
pub open spec fn descriptor_present(d: u64) -> bool {
    (d >> 47u64) & 1 == 1
}

/// Whether a segment descriptor is a code segment (bit 43); a data
/// segment otherwise.
pub open spec fn descriptor_code(d: u64) -> bool {
    (d >> 43u64) & 1 == 1
}

/// Whether a code descriptor is a 64-bit one (bit 53).
pub open spec fn descriptor_long(d: u64) -> bool {
    (d >> 53u64) & 1 == 1
}

/// The kernel's table: every descriptor but the null one is present; the
/// 64-bit kernel code and data (entries 5 and 6) run at privilege 0, the
/// user data and code (entries 7 and 8) at privilege 3; entries 5 and 8
/// are 64-bit code, entries 6 and 7 data.
pub proof fn law_gdt_privileges()
    ensures
        gdt_entries()[0] == 0,
        forall|i: int| 1 <= i < 9 ==> descriptor_present(#[trigger] gdt_entries()[i]),
        descriptor_dpl(gdt_entries()[5]) == 0 && descriptor_code(gdt_entries()[5]) && descriptor_long(gdt_entries()[5]),
        descriptor_dpl(gdt_entries()[6]) == 0 && !descriptor_code(gdt_entries()[6]),
        descriptor_dpl(gdt_entries()[7]) == 3 && !descriptor_code(gdt_entries()[7]),
        descriptor_dpl(gdt_entries()[8]) == 3 && descriptor_code(gdt_entries()[8]) && descriptor_long(gdt_entries()[8]),
{
    let t = gdt_entries();
    let (e1, e2, e3, e4, e5, e6, e7, e8) = (t[1], t[2], t[3], t[4], t[5], t[6], t[7], t[8]);
    assert((e1 >> 47u64) & 1 == 1 && (e2 >> 47u64) & 1 == 1 && (e3 >> 47u64) & 1 == 1 && (e4 >> 47u64) & 1 == 1)
        by (bit_vector)
        requires
            e1 == 0x00009a000000ffffu64,
            e2 == 0x000093000000ffffu64,
            e3 == 0x00cf9a000000ffffu64,
            e4 == 0x00cf93000000ffffu64,
    ;
    assert((e5 >> 47u64) & 1 == 1 && (e6 >> 47u64) & 1 == 1 && (e7 >> 47u64) & 1 == 1 && (e8 >> 47u64) & 1 == 1
        && (e5 >> 45u64) & 3 == 0 && (e6 >> 45u64) & 3 == 0 && (e7 >> 45u64) & 3 == 3 && (e8 >> 45u64) & 3 == 3
        && (e5 >> 43u64) & 1 == 1 && (e6 >> 43u64) & 1 == 0 && (e7 >> 43u64) & 1 == 0 && (e8 >> 43u64) & 1 == 1
        && (e5 >> 53u64) & 1 == 1 && (e8 >> 53u64) & 1 == 1) by (bit_vector)
        requires
            e5 == 0x00af9b000000ffffu64,
            e6 == 0x00af93000000ffffu64,
            e7 == 0x00aff3000000ffffu64,
            e8 == 0x00affb000000ffffu64,
    ;
    assert forall|i: int| 1 <= i < 9 implies descriptor_present(#[trigger] gdt_entries()[i]) by {
        if i == 1 {} else if i == 2 {} else if i == 3 {} else if i == 4 {} else if i == 5 {} else if i == 6 {} else if i == 7 {} else {}
    }
}

} // verus!
