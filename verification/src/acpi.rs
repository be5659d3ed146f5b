use vstd::prelude::*;

verus! {

/// Why the ACPI glue refuses a request.
#[derive(Clone, Copy, PartialEq, Eq, Structural, Debug)]
pub enum AcpiStatus {
    InvalidArgument,
    Unimplemented,
}

/// The width of one port or memory access.
#[derive(Clone, Copy, PartialEq, Eq, Structural, Debug)]
pub enum AccessWidth {
    Byte,
    Word,
    Dword,
    Qword,
}

/// The number of values an access of width `w` can carry.
pub open spec fn width_modulus(w: AccessWidth) -> int {
    match w {
        AccessWidth::Byte => 0x100,
        AccessWidth::Word => 0x10000,
        AccessWidth::Dword => 0x1_0000_0000,
        AccessWidth::Qword => 0x1_0000_0000_0000_0000,
    }
}

/// A port access of `byte_width` bytes: 1, 2 and 4 are ports of that
/// width, anything else (8 included) is refused.
pub open spec fn io_width_spec(byte_width: u8) -> Result<AccessWidth, AcpiStatus> {
    if byte_width == 1 {
        Ok(AccessWidth::Byte)
    } else if byte_width == 2 {
        Ok(AccessWidth::Word)
    } else if byte_width == 4 {
        Ok(AccessWidth::Dword)
    } else {
        Err(AcpiStatus::InvalidArgument)
    }
}

/// A memory access of `byte_width` bytes: 1, 2, 4 and 8 bytes, anything
/// else is refused.
pub open spec fn memory_width_spec(byte_width: u8) -> Result<AccessWidth, AcpiStatus> {
    if byte_width == 8 {
        Ok(AccessWidth::Qword)
    } else {
        io_width_spec(byte_width)
    }
}

/// The host glue that the ACPI interpreter calls for port and memory
/// accesses.
#[derive(Clone, Copy, Debug)]
pub struct acpi;

impl acpi {
    /// The width of a port access of `byte_width` bytes.
    pub fn io_width(byte_width: u8) -> (r: Result<AccessWidth, AcpiStatus>)
        ensures
            r == io_width_spec(byte_width),
    {
        match byte_width {
            1 => Ok(AccessWidth::Byte),
            2 => Ok(AccessWidth::Word),
            4 => Ok(AccessWidth::Dword),
            8 => Err(AcpiStatus::InvalidArgument),
            _ => Err(AcpiStatus::InvalidArgument),
        }
    }

    /// The width of a memory access of `byte_width` bytes.
    pub fn memory_width(byte_width: u8) -> (r: Result<AccessWidth, AcpiStatus>)
        ensures
            r == memory_width_spec(byte_width),
    {
        match byte_width {
            1 => Ok(AccessWidth::Byte),
            2 => Ok(AccessWidth::Word),
            4 => Ok(AccessWidth::Dword),
            8 => Ok(AccessWidth::Qword),
            _ => Err(AcpiStatus::InvalidArgument),
        }
    }

    /// The part of `val` that an access of width `w` writes: its low bytes.
    pub fn narrow(val: u64, w: AccessWidth) -> (r: u64)
        ensures
            r == (val as int) % width_modulus(w),
    {
        match w {
            AccessWidth::Byte => {
                let r = val as u8 as u64;
                assert(r == val % 0x100) by (bit_vector)
                    requires
                        r == val as u8 as u64,
                ;
                r
            },
            AccessWidth::Word => {
                let r = val as u16 as u64;
                assert(r == val % 0x10000) by (bit_vector)
                    requires
                        r == val as u16 as u64,
                ;
                r
            },
            AccessWidth::Dword => {
                let r = val as u32 as u64;
                assert(r == val % 0x1_0000_0000) by (bit_vector)
                    requires
                        r == val as u32 as u64,
                ;
                r
            },
            AccessWidth::Qword => val,
        }
    }

    /// The port that an access at `offset` into the range mapped as
    /// `handle` reaches.
    pub fn io_address(handle: u64, offset: usize) -> (r: u64)
        requires
            handle + offset <= u64::MAX,
        ensures
            r == handle + offset,
    {
        handle + offset as u64
    }

    /// The direct-map address of physical address `phys`.
    pub fn map(phys: u64, hhdm: u64) -> (r: u64)
        requires
            phys + hhdm <= u64::MAX,
        ensures
            r == phys + hhdm,
    {
        phys + hhdm
    }
}

/// Every width that a port access takes is one that a memory access takes
/// as well.
pub proof fn law_io_widths_are_memory_widths(byte_width: u8)
    ensures
        io_width_spec(byte_width) is Ok ==> memory_width_spec(byte_width) == io_width_spec(byte_width),
{
}

} // verus!
