use vstd::prelude::*;

verus! {

/// The model-specific register that holds the local APIC's physical base.
pub const IA32_APIC_BASE_MSR: u32 = 0x1b;

/// Local APIC register offsets.
pub const LAPIC_ID_REG: u64 = 0x20;
pub const LAPIC_EOI_REG: u64 = 0xb0;
pub const LAPIC_SPURIOUS_REG: u64 = 0xf0;
pub const LAPIC_TIMER_DIVIDE_REG: u64 = 0x3e0;
pub const LAPIC_LVT_TIMER_REG: u64 = 0x320;
pub const LAPIC_TIMER_INITIAL_REG: u64 = 0x380;
pub const LAPIC_TIMER_CURRENT_REG: u64 = 0x390;

/// Offset of the HPET main counter register.
pub const HPET_COUNTER_REG: u64 = 0x0f0;
/// Offset of the HPET general configuration register.
pub const HPET_CONFIG_REG: u64 = 0x10;

/// The direct-map address of the local APIC: the page-aligned base in bits
/// 12..32 of the APIC base register, plus the direct-map offset.
pub open spec fn lapic_base_spec(apic_base_msr: u64, hhdm: u64) -> int {
    (apic_base_msr & 0xfffff000) + hhdm
}

/// A processor and the direct-map address of its local APIC (0 until known).
#[derive(Clone, Copy, Debug)]
pub struct CPU {
    pub lapic_addr: u64,
    pub lapic_id: u32,
}

/// What `construct_cpu` gives for a processor: the bootstrap processor
/// (id 0) knows its local APIC address, the others do not yet.
pub open spec fn constructed(id: u32, apic_base_msr: u64, hhdm: u64) -> CPU {
    CPU { lapic_id: id, lapic_addr: if id == 0 { lapic_base_spec(apic_base_msr, hhdm) as u64 } else { 0 } }
}

/// Nanoseconds per HPET tick from the general capabilities register, when
/// its bit 13 is set: the tick period in femtoseconds (bits 32..64) over
/// one million.
pub open spec fn hpet_period_spec(capabilities: u64) -> Option<u64> {
    if capabilities & 0x2000 != 0 {
        Some((((capabilities >> 32) & 0xFFFFFFFF) / 1000000) as u64)
    } else {
        None
    }
}

/// The register writes that start the local APIC and its timer
/// calibration, in order: spurious vector 33 enabled, divide by 4, a
/// masked one-shot timer on vector 34, and the largest initial count.
pub open spec fn lapic_start_writes() -> Seq<(u64, u32)> {
    seq![
        (LAPIC_SPURIOUS_REG, 0x100u32 | 33u32),
        (LAPIC_TIMER_DIVIDE_REG, 1u32),
        (LAPIC_LVT_TIMER_REG, 34u32 | 0x10000u32),
        (LAPIC_TIMER_INITIAL_REG, 0xffffffffu32),
    ]
}

/// The register writes that finish the calibration once the timer has run
/// for 10 ms and reads `current`: the ticks elapsed become the initial
/// count, and the timer turns periodic and unmasked on vector 34.
pub open spec fn lapic_timer_writes_spec(current: u32) -> Seq<(u64, u32)> {
    seq![
        (LAPIC_TIMER_INITIAL_REG, (0xffffffffu32 - current) as u32),
        (LAPIC_LVT_TIMER_REG, 34u32 | 0x20000u32),
    ]
}

impl CPU {
    /// The direct-map address of the local APIC from the APIC base register.
    pub fn get_lapic_addr(apic_base_msr: u64, hhdm: u64) -> (r: u64)
        requires
            lapic_base_spec(apic_base_msr, hhdm) <= u64::MAX,
        ensures
            r == lapic_base_spec(apic_base_msr, hhdm),
    {
        (apic_base_msr & 0xfffff000) + hhdm
    }

    /// The processor with local APIC id `id`; the bootstrap processor (id 0)
    /// also records its local APIC address.
    pub fn construct_cpu(id: u32, apic_base_msr: u64, hhdm: u64) -> (r: CPU)
        requires
            id == 0 ==> lapic_base_spec(apic_base_msr, hhdm) <= u64::MAX,
        ensures
            r == constructed(id, apic_base_msr, hhdm),
    {
        let mut ee: u64 = 0;
        if id == 0 {
            ee = CPU::get_lapic_addr(apic_base_msr, hhdm);
        }
        CPU { lapic_id: id, lapic_addr: ee }
    }

    /// The address of local APIC register `reg` of this processor.
    pub fn lapic_register(&self, reg: u64) -> (r: u64)
        requires
            self.lapic_addr + reg <= u64::MAX,
        ensures
            r == self.lapic_addr + reg,
    {
        self.lapic_addr + reg
    }

    /// The address of the end-of-interrupt register of the local APIC at
    /// `lapic_addr`.
    pub fn eoi_register(lapic_addr: u64) -> (r: u64)
        requires
            lapic_addr + LAPIC_EOI_REG <= u64::MAX,
        ensures
            r == lapic_addr + LAPIC_EOI_REG,
    {
        lapic_addr + LAPIC_EOI_REG
    }

    /// The address of the id register of the local APIC at `lapic_addr`.
    pub fn id_register(lapic_addr: u64) -> (r: u64)
        requires
            lapic_addr + LAPIC_ID_REG <= u64::MAX,
        ensures
            r == lapic_addr + LAPIC_ID_REG,
    {
        lapic_addr + LAPIC_ID_REG
    }

    /// Nanoseconds per HPET tick, or `None` when the capabilities register
    /// does not have bit 13 set (the timer is then left alone).
    pub fn hpet_period(capabilities: u64) -> (r: Option<u64>)
        ensures
            r == hpet_period_spec(capabilities),
    {
        assert(1u64 << 13u64 == 0x2000) by (bit_vector);
        if capabilities & (1 << 13) != 0 {
            let it = (capabilities >> 32) & 0xFFFFFFFF;
            Some(it / 1000000)
        } else {
            None
        }
    }

    /// Whether a sleep of `ms` milliseconds that started at counter value
    /// `start` is over at counter value `now`, with `ns_per_tick`
    /// nanoseconds per tick.
    pub fn sleep_done(start: u64, now: u64, ns_per_tick: u64, ms: u64) -> (r: bool)
        requires
            start <= now,
            (now - start) * ns_per_tick <= u64::MAX,
            ms * 1000000 <= u64::MAX,
        ensures
            r == ((now - start) * ns_per_tick >= ms * 1000000),
    {
        let elapsed = now - start;
        assert(elapsed * ns_per_tick <= u64::MAX);
        let waited = elapsed * ns_per_tick;
        !(waited < ms * 1000000)
    }

    /// The register writes that start the local APIC and its timer
    /// calibration.
    pub fn lapic_start() -> (r: Vec<(u64, u32)>)
        ensures
            r@ == lapic_start_writes(),
    {
        assert(34u32 | (1u32 << 16u32) == 34u32 | 0x10000u32) by (bit_vector);
        let mut v: Vec<(u64, u32)> = Vec::new();
        v.push((LAPIC_SPURIOUS_REG, 0x100 | 33));
        v.push((LAPIC_TIMER_DIVIDE_REG, 1));
        v.push((LAPIC_LVT_TIMER_REG, 34 | (1 << 16)));
        v.push((LAPIC_TIMER_INITIAL_REG, 0xffffffff));
        assert(v@ =~= lapic_start_writes());
        v
    }

    /// The register writes that finish the timer calibration after the
    /// current-count register read `current` at the end of the 10 ms wait.
    pub fn lapic_timer_writes(current: u32) -> (r: Vec<(u64, u32)>)
        ensures
            r@ == lapic_timer_writes_spec(current),
    {
        let lapic_ticks_per_10ms = 0xffffffff - current;
        assert(34u32 | (0u32 << 16u32) | (1u32 << 17u32) == 34u32 | 0x20000u32) by (bit_vector);
        let mut v: Vec<(u64, u32)> = Vec::new();
        v.push((LAPIC_TIMER_INITIAL_REG, lapic_ticks_per_10ms));
        v.push((LAPIC_LVT_TIMER_REG, 34 | (0 << 16) | (1 << 17)));
        assert(v@ =~= lapic_timer_writes_spec(current));
        v
    }

    /// Records the local APIC address of every processor in `cpus` whose id
    /// is `id`, and gives the index of the last of them.
    pub fn attach_lapic(cpus: &mut Vec<CPU>, id: u32, apic_base_msr: u64, hhdm: u64) -> (r: Option<usize>)
        requires
            (exists|i: int| 0 <= i < old(cpus)@.len() && (#[trigger] old(cpus)@[i]).lapic_id == id) ==> lapic_base_spec(
                apic_base_msr,
                hhdm,
            ) <= u64::MAX,
        ensures
            final(cpus)@.len() == old(cpus)@.len(),
            forall|i: int| 0 <= i < old(cpus)@.len() ==> (#[trigger] final(cpus)@[i]) == if old(cpus)@[i].lapic_id == id {
                CPU { lapic_id: id, lapic_addr: lapic_base_spec(apic_base_msr, hhdm) as u64 }
            } else {
                old(cpus)@[i]
            },
            match r {
                Some(k) => k < old(cpus)@.len() && old(cpus)@[k as int].lapic_id == id && forall|j: int|
                    k < j < old(cpus)@.len() ==> (#[trigger] old(cpus)@[j]).lapic_id != id,
                None => forall|j: int| 0 <= j < old(cpus)@.len() ==> (#[trigger] old(cpus)@[j]).lapic_id != id,
            },
    {
        let mut q: Option<usize> = None;
        let mut i: usize = 0;
        while i < cpus.len()
            invariant
                0 <= i <= cpus@.len(),
                cpus@.len() == old(cpus)@.len(),
                (exists|i: int| 0 <= i < old(cpus)@.len() && (#[trigger] old(cpus)@[i]).lapic_id == id)
                    ==> lapic_base_spec(apic_base_msr, hhdm) <= u64::MAX,
                forall|j: int| 0 <= j < i ==> (#[trigger] cpus@[j]) == if old(cpus)@[j].lapic_id == id {
                    CPU { lapic_id: id, lapic_addr: lapic_base_spec(apic_base_msr, hhdm) as u64 }
                } else {
                    old(cpus)@[j]
                },
                forall|j: int| i <= j < cpus@.len() ==> (#[trigger] cpus@[j]) == old(cpus)@[j],
                match q {
                    Some(k) => k < i && old(cpus)@[k as int].lapic_id == id && forall|j: int|
                        k < j < i ==> (#[trigger] old(cpus)@[j]).lapic_id != id,
                    None => forall|j: int| 0 <= j < i ==> (#[trigger] old(cpus)@[j]).lapic_id != id,
                },
            decreases cpus@.len() - i,
        {
            if cpus[i].lapic_id == id {
                assert(old(cpus)@[i as int].lapic_id == id);
                let shit = CPU::get_lapic_addr(apic_base_msr, hhdm);
                cpus[i].lapic_addr = shit;
                q = Some(i);
            }
            i = i + 1;
        }
        q
    }
}

/// The processors with the given local APIC ids, in order, each made by
/// `construct_cpu`.
pub fn init_smp(lapic_ids: &Vec<u32>, apic_base_msr: u64, hhdm: u64) -> (r: Vec<CPU>)
    requires
        lapic_ids@.contains(0) ==> lapic_base_spec(apic_base_msr, hhdm) <= u64::MAX,
    ensures
        r@.len() == lapic_ids@.len(),
        forall|i: int| 0 <= i < r@.len() ==> #[trigger] r@[i] == constructed(lapic_ids@[i], apic_base_msr, hhdm),
{
    let mut cpus: Vec<CPU> = Vec::new();
    let mut i: usize = 0;
    while i < lapic_ids.len()
        invariant
            0 <= i <= lapic_ids@.len(),
            cpus@.len() == i,
            lapic_ids@.contains(0) ==> lapic_base_spec(apic_base_msr, hhdm) <= u64::MAX,
            forall|j: int| 0 <= j < i ==> #[trigger] cpus@[j] == constructed(lapic_ids@[j], apic_base_msr, hhdm),
        decreases lapic_ids@.len() - i,
    {
        assert(lapic_ids@[i as int] == 0 ==> lapic_ids@.contains(0));
        let w = CPU::construct_cpu(lapic_ids[i], apic_base_msr, hhdm);
        cpus.push(w);
        i = i + 1;
    }
    cpus
}

/// The count that the timer calibration stores and the count it read add
/// up to the full initial count.
pub proof fn law_calibration_counts(current: u32)
    ensures
        lapic_timer_writes_spec(current)[0].1 + current == 0xffffffffu32,
{
}

} // verus!
