use vstd::prelude::*;
use crate::drivers::overrides::{OverrideTable, override_table_contents};

verus! {

/// Where the interrupt controller entries of the MADT start.
pub const MADT_ENTRIES_OFFSET: usize = 44;
/// MADT entry type of an I/O APIC.
pub const MADT_ENTRY_TYPE_IOAPIC: u8 = 1;
/// MADT entry type of an interrupt source override.
pub const MADT_ENTRY_TYPE_INTERRUPT_SOURCE_OVERRIDE: u8 = 2;
/// The flags of an IRQ without an override.
pub const DEFAULT_IRQ_FLAGS: u16 = 5;

/// An I/O APIC entry of the MADT.
#[derive(Clone, Copy, PartialEq, Eq, Structural, Debug)]
pub struct MadtIoapic {
    pub id: u8,
    pub address: u32,
    pub gsi_base: u32,
}

/// An interrupt source override entry of the MADT.
#[derive(Clone, Copy, PartialEq, Eq, Structural, Debug)]
pub struct MadtIrqSourceOverride {
    pub bus: u8,
    pub source: u8,
    pub gsi: u32,
    pub flags: u16,
}

/// The entries of the MADT that the interrupt routing uses, in table order.
pub struct MadtEntries {
    pub ioapics: Vec<MadtIoapic>,
    pub overrides: Vec<MadtIrqSourceOverride>,
}

/// The little-endian 16-bit value at `p`.
pub open spec fn le16(t: Seq<u8>, p: int) -> u16 {
    (t[p] + 256 * t[p + 1]) as u16
}

/// The little-endian 32-bit value at `p`.
pub open spec fn le32(t: Seq<u8>, p: int) -> u32 {
    (t[p] + 256 * t[p + 1] + 65536 * t[p + 2] + 16777216 * t[p + 3]) as u32
}

/// The I/O APIC entry at `p`.
pub open spec fn ioapic_entry_at(t: Seq<u8>, p: int) -> MadtIoapic {
    MadtIoapic { id: t[p + 2], address: le32(t, p + 4), gsi_base: le32(t, p + 8) }
}

/// The interrupt source override entry at `p`.
pub open spec fn override_entry_at(t: Seq<u8>, p: int) -> MadtIrqSourceOverride {
    MadtIrqSourceOverride { bus: t[p + 2], source: t[p + 3], gsi: le32(t, p + 4), flags: le16(t, p + 8) }
}

/// The walk over the MADT's entries from entry offset `off`, with the
/// entries found before it: an entry's header sits at 44 plus `off`
/// rounded down to an even number, its second byte is its length, and the
/// walk ends once `off` reaches the table length less 44.  `None` when an
/// entry reaches past the table or has length 0.
pub open spec fn madt_walk(
    t: Seq<u8>,
    total: int,
    off: int,
    ios: Seq<MadtIoapic>,
    ovs: Seq<MadtIrqSourceOverride>,
) -> Option<(Seq<MadtIoapic>, Seq<MadtIrqSourceOverride>)>
    decreases (if off < total { total - off } else { 0 }),
{
    if off < 0 || total > t.len() {
        None
    } else if off >= total - 44 {
        Some((ios, ovs))
    } else {
        let p = 44 + (off / 2) * 2;
        if p + 2 > total {
            None
        } else {
            let ty = t[p];
            let len = t[p + 1];
            if len == 0 {
                None
            } else if ty == 1 {
                if p + 12 > total {
                    None
                } else {
                    madt_walk(t, total, off + len, ios.push(ioapic_entry_at(t, p)), ovs)
                }
            } else if ty == 2 {
                if p + 10 > total {
                    None
                } else {
                    madt_walk(t, total, off + len, ios, ovs.push(override_entry_at(t, p)))
                }
            } else {
                madt_walk(t, total, off + len, ios, ovs)
            }
        }
    }
}

/// The I/O APICs and interrupt source overrides of a MADT, when the table
/// is well formed: its length field (bytes 4..8) is at least 44 and at
/// most the bytes given, and every entry fits in it with a nonzero length.
pub open spec fn madt_parse(t: Seq<u8>) -> Option<(Seq<MadtIoapic>, Seq<MadtIrqSourceOverride>)> {
    if t.len() < 8 {
        None
    } else {
        let total = le32(t, 4) as int;
        if total < 44 || total > t.len() {
            None
        } else {
            madt_walk(t, total, 0, Seq::empty(), Seq::empty())
        }
    }
}

fn read_u16_le(t: &[u8], p: usize) -> (r: u16)
    requires
        p + 2 <= t@.len(),
    ensures
        r == le16(t@, p as int),
{
    (t[p] as u16) + (t[p + 1] as u16) * 256
}

fn read_u32_le(t: &[u8], p: usize) -> (r: u32)
    requires
        p + 4 <= t@.len(),
    ensures
        r == le32(t@, p as int),
{
    (t[p] as u32) + (t[p + 1] as u32) * 256 + (t[p + 2] as u32) * 65536 + (t[p + 3] as u32) * 16777216
}

/// Reads the I/O APICs and interrupt source overrides out of the MADT in
/// `table`; `None` when the table is not well formed.
pub fn parse_madt(table: &[u8]) -> (r: Option<MadtEntries>)
    ensures
        match madt_parse(table@) {
            Some((ios, ovs)) => r matches Some(e) && e.ioapics@ == ios && e.overrides@ == ovs,
            None => r is None,
        },
{
    if table.len() < 8 {
        return None;
    }
    let total = read_u32_le(table, 4) as usize;
    if total < MADT_ENTRIES_OFFSET || total > table.len() {
        return None;
    }
    let length_of_entries = total - MADT_ENTRIES_OFFSET;
    let mut ioapics: Vec<MadtIoapic> = Vec::new();
    let mut overrides: Vec<MadtIrqSourceOverride> = Vec::new();
    let mut offset: usize = 0;
    while offset < length_of_entries
        invariant
            total == le32(table@, 4) as int,
            44 <= total <= table@.len(),
            length_of_entries == total - 44,
            madt_parse(table@) == madt_walk(table@, total as int, offset as int, ioapics@, overrides@),
        decreases total - offset,
    {
        let p = MADT_ENTRIES_OFFSET + (offset / 2) * 2;
        if total - p < 2 {
            return None;
        }
        let ty = table[p];
        let len = table[p + 1];
        if len == 0 {
            return None;
        }
        if ty == MADT_ENTRY_TYPE_IOAPIC {
            if total - p < 12 {
                return None;
            }
            let e = MadtIoapic {
                id: table[p + 2],
                address: read_u32_le(table, p + 4),
                gsi_base: read_u32_le(table, p + 8),
            };
            ioapics.push(e);
        } else if ty == MADT_ENTRY_TYPE_INTERRUPT_SOURCE_OVERRIDE {
            if total - p < 10 {
                return None;
            }
            let e = MadtIrqSourceOverride {
                bus: table[p + 2],
                source: table[p + 3],
                gsi: read_u32_le(table, p + 4),
                flags: read_u16_le(table, p + 8),
            };
            overrides.push(e);
        }
        let ghost next = offset + len;
        assert(madt_parse(table@) == madt_walk(table@, total as int, next, ioapics@, overrides@));
        if len as usize >= length_of_entries - offset {
            offset = length_of_entries;
            assert(madt_walk(table@, total as int, next, ioapics@, overrides@) == Some((ioapics@, overrides@)));
        } else {
            offset = offset + len as usize;
        }
    }
    Some(MadtEntries { ioapics, overrides })
}

/// An I/O APIC: the first and the highest global system interrupt it
/// handles, its id and its physical address.
pub struct ioapic {
    handles: (usize, usize),
    id: u8,
    addr: u32,
}

/// The plain content of an I/O APIC.
#[derive(Clone, Copy, PartialEq, Eq, Structural, Debug)]
pub struct IoApicView {
    pub gsi_base: usize,
    pub max_gsi: usize,
    pub id: u8,
    pub addr: u32,
}

/// The highest redirection entry from the I/O APIC version register.
pub open spec fn max_gsi_spec(version: u32) -> u32 {
    (version >> 16) & 0xff
}

impl ioapic {
    #[verifier::type_invariant]
    spec fn inv(&self) -> bool {
        self.handles.1 <= self.handles.0 + 0xff
    }

    pub closed spec fn view(&self) -> IoApicView {
        IoApicView { gsi_base: self.handles.0, max_gsi: self.handles.1, id: self.id, addr: self.addr }
    }

    /// A fresh I/O APIC whose highest entry is not known yet (0).
    pub fn new(gsi_base: usize, id: u8, addr: u32) -> (r: ioapic)
        ensures
            r@ == (IoApicView { gsi_base, max_gsi: 0, id, addr }),
    {
        ioapic { handles: (gsi_base, 0), id: id, addr: addr }
    }

    /// The highest redirection entry, bits 16..24 of the version register.
    pub fn get_maxgsi(version: u32) -> (r: u32)
        ensures
            r == max_gsi_spec(version),
            r <= 0xff,
    {
        let r = (version >> 16) & 0xff;
        assert(r <= 0xff) by (bit_vector)
            requires
                r == (version >> 16u32) & 0xffu32,
        ;
        r
    }

    /// Records the highest interrupt handled: the first one plus the
    /// highest redirection entry read from the version register.
    pub fn set_max_gsi(&mut self, version: u32)
        requires
            old(self)@.gsi_base + 0xff <= usize::MAX,
        ensures
            final(self)@ == (IoApicView {
                max_gsi: (old(self)@.gsi_base + max_gsi_spec(version)) as usize,
                ..old(self)@
            }),
    {
        let m = ioapic::get_maxgsi(version) as usize;
        self.handles.1 = self.handles.0 + m;
    }

    /// The direct-map address of the register select window.
    pub fn regsel_addr(&self, hhdm: u64) -> (r: u64)
        requires
            self@.addr + hhdm <= u64::MAX,
        ensures
            r == self@.addr + hhdm,
    {
        self.addr as u64 + hhdm
    }

    /// The direct-map address of the register data window.
    pub fn iowin_addr(&self, hhdm: u64) -> (r: u64)
        requires
            self@.addr + 0x10 + hhdm <= u64::MAX,
        ensures
            r == self@.addr + 0x10 + hhdm,
    {
        self.addr as u64 + 0x10 + hhdm
    }
}

/// One write to an I/O APIC register: select `reg` at the I/O APIC at
/// `addr`, then write `value`.
#[derive(Clone, Copy, PartialEq, Eq, Structural, Debug)]
pub struct IoApicWrite {
    pub addr: u32,
    pub reg: u8,
    pub value: u32,
}

/// The interrupt and flags that IRQ `irq` is wired to: its override when
/// it has one, else the same number with the default flags.
pub open spec fn route_target(ov: Map<usize, (u32, u16)>, irq: u8) -> (u32, u16) {
    if ov.contains_key(irq as usize) {
        ov[irq as usize]
    } else {
        (irq as u32, DEFAULT_IRQ_FLAGS)
    }
}

/// The redirection entry that sends an interrupt to vector `vec` on the
/// processor with local APIC id `lapic_id`.
pub open spec fn redirection_entry(lapic_id: u32, flags: u16, vec: u8) -> u64 {
    ((lapic_id as u64) << 56) | ((flags as u64) << 13) | (vec as u64)
}

/// The writes that program `entry` for interrupt `gsi` into every I/O APIC
/// of `apics` whose range holds it, in order: the low half into register
/// 0x10 + 2 * (gsi - base), the high half into the next.
pub open spec fn route_writes(apics: Seq<IoApicView>, gsi: u32, entry: u64) -> Seq<IoApicWrite>
    decreases apics.len(),
{
    if apics.len() == 0 {
        Seq::empty()
    } else {
        let rest = route_writes(apics.drop_last(), gsi, entry);
        let a = apics.last();
        if a.gsi_base <= gsi && gsi <= a.max_gsi {
            let d = gsi - a.gsi_base;
            rest + seq![
                IoApicWrite { addr: a.addr, reg: (0x10 + d * 2) as u8, value: entry as u32 },
                IoApicWrite { addr: a.addr, reg: (0x10 + d * 2 + 1) as u8, value: (entry >> 32) as u32 },
            ]
        } else {
            rest
        }
    }
}

/// The interrupt source overrides of a MADT by source IRQ; a later entry
/// for the same IRQ replaces an earlier one.
pub open spec fn override_map(ovs: Seq<MadtIrqSourceOverride>) -> Map<usize, (u32, u16)>
    decreases ovs.len(),
{
    if ovs.len() == 0 {
        Map::empty()
    } else {
        override_map(ovs.drop_last()).insert(ovs.last().source as usize, (ovs.last().gsi, ovs.last().flags))
    }
}

/// The I/O APIC made for a MADT entry whose version register reads
/// `version`.
pub open spec fn ioapic_from(e: MadtIoapic, version: u32) -> IoApicView {
    IoApicView {
        gsi_base: e.gsi_base as usize,
        max_gsi: (e.gsi_base + max_gsi_spec(version)) as usize,
        id: e.id,
        addr: e.address,
    }
}

/// The system's I/O APICs and interrupt source overrides.
pub struct SystemAPIC {
    apics: Vec<ioapic>,
    sourceoveride: OverrideTable,
}

impl SystemAPIC {
    pub closed spec fn apics(&self) -> Seq<IoApicView> {
        self.apics@.map_values(|a: ioapic| a@)
    }

    pub closed spec fn overrides(&self) -> Map<usize, (u32, u16)> {
        override_table_contents(self.sourceoveride)
    }

    /// No I/O APICs and no overrides.
    pub fn new() -> (r: SystemAPIC)
        ensures
            r.apics() == Seq::<IoApicView>::empty(),
            r.overrides() == Map::<usize, (u32, u16)>::empty(),
    {
        let r = SystemAPIC { apics: Vec::new(), sourceoveride: OverrideTable::new() };
        assert(r.apics() =~= Seq::<IoApicView>::empty());
        r
    }

    /// Records an interrupt source override under its source IRQ.
    pub fn add_override(&mut self, o: MadtIrqSourceOverride)
        ensures
            final(self).apics() == old(self).apics(),
            final(self).overrides() == old(self).overrides().insert(o.source as usize, (o.gsi, o.flags)),
    {
        self.sourceoveride.insert(o.source as usize, (o.gsi, o.flags));
    }

    /// Adds an I/O APIC at the end.
    pub fn add_ioapic(&mut self, a: ioapic)
        ensures
            final(self).apics() == old(self).apics().push(a@),
            final(self).overrides() == old(self).overrides(),
    {
        self.apics.push(a);
        assert(self.apics() =~= old(self).apics().push(a@));
    }

    /// The register writes that send IRQ `irq` to vector `vec` on the
    /// processor with local APIC id `lapic_id`.
    pub fn route_irq(&self, irq: u8, lapic_id: u32, vec: u8) -> (r: Vec<IoApicWrite>)
        ensures
            ({
                let (gsi, flags) = route_target(self.overrides(), irq);
                r@ == route_writes(self.apics(), gsi, redirection_entry(lapic_id, flags, vec))
            }),
    {
        let mut real_gsi = irq as u32;
        let mut flags: u16 = 1 << 2 | 1;
        assert(1u16 << 2u16 | 1u16 == 5u16) by (bit_vector);
        if self.sourceoveride.contains_key(irq as usize) {
            let o = self.sourceoveride.get(irq as usize);
            match o {
                Some(pair) => {
                    flags = pair.1;
                    real_gsi = pair.0;
                },
                None => {},
            }
        }
        let okay: u64 = ((lapic_id as u64) << 56) | ((flags as u64) << 13) | (vec as u64);
        let ghost entry = redirection_entry(lapic_id, flags, vec);
        let mut out: Vec<IoApicWrite> = Vec::new();
        let mut i: usize = 0;
        while i < self.apics.len()
            invariant
                0 <= i <= self.apics@.len(),
                okay == entry,
                out@ == route_writes(self.apics().take(i as int), real_gsi, entry),
            decreases self.apics@.len() - i,
        {
            let a = &self.apics[i];
            proof {
                use_type_invariant(a);
                assert(self.apics().take(i as int + 1).drop_last() =~= self.apics().take(i as int));
            }
            if a.handles.0 <= real_gsi as usize && real_gsi as usize <= a.handles.1 {
                let d = real_gsi - a.handles.0 as u32;
                out.push(IoApicWrite { addr: a.addr, reg: (0x10 + d * 0x02) as u8, value: okay as u32 });
                out.push(IoApicWrite { addr: a.addr, reg: (0x10 + d * 0x02 + 1) as u8, value: (okay >> 32) as u32 });
            }
            i = i + 1;
            proof {
                assert(self.apics().take(i as int).last() == self.apics@[i - 1]@);
            }
        }
        assert(self.apics().take(self.apics@.len() as int) =~= self.apics());
        out
    }
}

/// The interrupt routing state for a MADT's entries, given what each I/O
/// APIC's version register read (`versions`, in the order of the I/O APIC
/// entries).
pub fn apic_init(entries: &MadtEntries, versions: &Vec<u32>) -> (r: SystemAPIC)
    requires
        versions@.len() == entries.ioapics@.len(),
        forall|i: int| 0 <= i < entries.ioapics@.len() ==> entries.ioapics@[i].gsi_base + 0xff <= usize::MAX,
    ensures
        r.apics() == Seq::new(entries.ioapics@.len(), |i: int| ioapic_from(entries.ioapics@[i], versions@[i])),
        r.overrides() == override_map(entries.overrides@),
{
    let mut s = SystemAPIC::new();
    let mut i: usize = 0;
    while i < entries.overrides.len()
        invariant
            0 <= i <= entries.overrides@.len(),
            s.apics() == Seq::<IoApicView>::empty(),
            s.overrides() == override_map(entries.overrides@.take(i as int)),
        decreases entries.overrides@.len() - i,
    {
        let o = entries.overrides[i];
        s.add_override(o);
        i = i + 1;
        assert(entries.overrides@.take(i as int).drop_last() =~= entries.overrides@.take(i - 1));
    }
    assert(entries.overrides@.take(entries.overrides@.len() as int) =~= entries.overrides@);
    let mut j: usize = 0;
    while j < entries.ioapics.len()
        invariant
            0 <= j <= entries.ioapics@.len(),
            versions@.len() == entries.ioapics@.len(),
            forall|i: int| 0 <= i < entries.ioapics@.len() ==> entries.ioapics@[i].gsi_base + 0xff <= usize::MAX,
            s.overrides() == override_map(entries.overrides@),
            s.apics() == Seq::new(j as nat, |k: int| ioapic_from(entries.ioapics@[k], versions@[k])),
        decreases entries.ioapics@.len() - j,
    {
        let e = entries.ioapics[j];
        let mut qq = ioapic::new(e.gsi_base as usize, e.id, e.address);
        qq.set_max_gsi(versions[j]);
        s.add_ioapic(qq);
        j = j + 1;
        assert(s.apics() =~= Seq::new(j as nat, |k: int| ioapic_from(entries.ioapics@[k], versions@[k])));
    }
    s
}

/// A redirection entry carries the vector in its low byte and the low byte
/// of the destination's local APIC id in its top byte.
pub proof fn law_redirection_entry_fields(lapic_id: u32, flags: u16, vec: u8)
    ensures
        redirection_entry(lapic_id, flags, vec) & 0xff == vec as u64,
        redirection_entry(lapic_id, flags, vec) >> 56 == (lapic_id & 0xff) as u64,
{
    let e = redirection_entry(lapic_id, flags, vec);
    assert(e & 0xff == vec as u64 && e >> 56 == (lapic_id & 0xff) as u64) by (bit_vector)
        requires
            e == ((lapic_id as u64) << 56u64) | ((flags as u64) << 13u64) | (vec as u64),
    ;
}

} // verus!
