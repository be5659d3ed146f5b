use vstd::prelude::*;

verus! {

/// The kernel's own error kinds.
#[derive(Clone, Copy, PartialEq, Eq, Structural, Debug)]
pub enum KTError {
    NotImplmented,
    OperationFailed,
    OutOfMemory,
}

} // verus!

verus! {

/// The 64-bit value of a model-specific register from the two halves that
/// `rdmsr` leaves in EDX and EAX.
pub fn msr_combine(high: u32, low: u32) -> (r: u64)
    ensures
        r == high as int * 0x1_0000_0000 + low as int,
{
    let r = ((high as u64) << 32) | (low as u64);
    assert(r == high as int * 0x1_0000_0000 + low as int) by (bit_vector)
        requires
            r == ((high as u64) << 32u64) | (low as u64),
    ;
    r
}

/// The halves that `wrmsr` takes in EDX and EAX, high first.
pub fn msr_split(value: u64) -> (r: (u32, u32))
    ensures
        r.0 == value / 0x1_0000_0000,
        r.1 == value % 0x1_0000_0000,
{
    let low = value as u32;
    let high = (value >> 32) as u32;
    assert(low == value % 0x1_0000_0000 && high == value / 0x1_0000_0000) by (bit_vector)
        requires
            low == value as u32,
            high == (value >> 32u64) as u32,
    ;
    (high, low)
}

/// Splitting a combined register value gives back its halves.
pub proof fn law_msr_split_combine(high: u32, low: u32)
    ensures
        (high as int * 0x1_0000_0000 + low as int) / 0x1_0000_0000 == high,
        (high as int * 0x1_0000_0000 + low as int) % 0x1_0000_0000 == low,
{
}

} // verus!
