use nyauxkt::acpi::{acpi, AccessWidth, AcpiStatus};
use nyauxkt::cpu::{init_smp, CPU, LAPIC_LVT_TIMER_REG, LAPIC_TIMER_INITIAL_REG};
use nyauxkt::drivers::apic::{apic_init, ioapic, parse_madt, IoApicWrite, MadtIoapic, MadtIrqSourceOverride, SystemAPIC};
use nyauxkt::idt::{GateDescriptor, Handlers, IdtTable, InterruptManager};
use nyauxkt::mem::gdt::{init_gdt, GDTR};

const HHDM: u64 = 0xffff_8000_0000_0000;

#[test]
fn bootstrap_cpu_knows_its_lapic() {
    let c = CPU::construct_cpu(0, 0xfee0_0900, HHDM);
    assert_eq!(c.lapic_id, 0);
    assert_eq!(c.lapic_addr, HHDM + 0xfee0_0000);
    let d = CPU::construct_cpu(3, 0xfee0_0900, HHDM);
    assert_eq!(d.lapic_id, 3);
    assert_eq!(d.lapic_addr, 0);
    assert_eq!(CPU::get_lapic_addr(0x1_fee0_0fff, 0), 0xfee0_0000);
}

#[test]
fn lapic_register_addresses() {
    let c = CPU { lapic_addr: 0x1000, lapic_id: 0 };
    assert_eq!(c.lapic_register(0x320), 0x1320);
    assert_eq!(CPU::eoi_register(0x1000), 0x10b0);
    assert_eq!(CPU::id_register(0x1000), 0x1020);
}

#[test]
fn hpet_period_needs_capability_bit() {
    let cap = (10_000_000u64 << 32) | (1 << 13);
    assert_eq!(CPU::hpet_period(cap), Some(10));
    assert_eq!(CPU::hpet_period(10_000_000u64 << 32), None);
    assert_eq!(CPU::hpet_period(1 << 13), Some(0));
}

#[test]
fn sleep_ends_after_enough_ticks() {
    assert!(!CPU::sleep_done(100, 150, 10, 1));
    assert!(CPU::sleep_done(100, 100_100, 10, 1));
    assert!(CPU::sleep_done(5, 5, 10, 0));
}

#[test]
fn lapic_calibration_writes() {
    let start = CPU::lapic_start();
    assert_eq!(start, vec![(0xf0, 0x121), (0x3e0, 1), (0x320, 34 | 0x10000), (0x380, 0xffffffff)]);
    let fin = CPU::lapic_timer_writes(0xffff_0000);
    assert_eq!(fin, vec![(LAPIC_TIMER_INITIAL_REG, 0xffff), (LAPIC_LVT_TIMER_REG, 34 | 0x20000)]);
    for current in [0u32, 1, 0x1234_5678, 0xffff_ffff] {
        assert_eq!(CPU::lapic_timer_writes(current)[0].1 as u64 + current as u64, 0xffff_ffff);
    }
}

#[test]
fn smp_cpus_and_lapic_attach() {
    let mut cpus = init_smp(&vec![0, 1, 2], 0xfee0_0000, HHDM);
    assert_eq!(cpus.len(), 3);
    assert_eq!(cpus[0].lapic_addr, HHDM + 0xfee0_0000);
    assert_eq!(cpus[1].lapic_addr, 0);
    assert_eq!(CPU::attach_lapic(&mut cpus, 2, 0xfee0_0000, HHDM), Some(2));
    assert_eq!(cpus[2].lapic_addr, HHDM + 0xfee0_0000);
    assert_eq!(cpus[1].lapic_addr, 0);
    assert_eq!(CPU::attach_lapic(&mut cpus, 7, 0xfee0_0000, HHDM), None);
}

#[test]
fn gate_encoding_splits_the_address() {
    let mut idt = IdtTable::new();
    assert_eq!(idt.gate(5), GateDescriptor::new());
    idt.idt_set_gate(14, 0xffff_ffff_8012_3456);
    let g = idt.gate(14);
    assert_eq!(g.offset, 0x3456);
    assert_eq!(g.offset_mid, 0x8012);
    assert_eq!(g.offset_hi, 0xffff_ffff);
    assert_eq!(g.seg, 0x28);
    assert_eq!(g.flags, 0xEE);
    let back = (g.offset as u64) | ((g.offset_mid as u64) << 16) | ((g.offset_hi as u64) << 32);
    assert_eq!(back, 0xffff_ffff_8012_3456);
}

#[test]
fn start_idt_installs_handlers() {
    let mut idt = IdtTable::new();
    let h = Handlers {
        div_error: 0x1000,
        invalid_opcode: 0x2000,
        double_fault: 0x3000,
        general_protection_fault: 0x4000,
        page_fault: 0x5000,
        schedule: 0x6000,
    };
    let r = InterruptManager::start_idt(&mut idt, h, 0xdead_0000);
    assert_eq!(r.size, 4095);
    assert_eq!(r.offset, 0xdead_0000);
    assert_eq!(idt.gate(0).offset, 0x1000);
    assert_eq!(idt.gate(6).offset, 0x2000);
    assert_eq!(idt.gate(8).offset, 0x3000);
    assert_eq!(idt.gate(13).offset, 0x4000);
    assert_eq!(idt.gate(14).offset, 0x5000);
    assert_eq!(idt.gate(34).offset, 0x6000);
    assert_eq!(idt.gate(1), GateDescriptor::new());
}

#[test]
fn gdt_descriptor_sizes() {
    let g = GDTR::new(0x5000, 72);
    assert_eq!(g.size, 71);
    assert_eq!(g.offset, 0x5000);
    let mut table = [7u64; 9];
    let p = init_gdt(&mut table, 0x6000);
    assert_eq!(p.size, 72);
    assert_eq!(p.offset, 0x6000);
    assert_eq!(table[0], 0);
    assert_eq!(table[5], 0x00af9b000000ffff);
    assert_eq!(table[8], 0x00affb000000ffff);
}

fn madt(entries: &[Vec<u8>]) -> Vec<u8> {
    let mut t = vec![0u8; 44];
    for e in entries {
        t.extend_from_slice(e);
    }
    let len = t.len() as u32;
    t[4..8].copy_from_slice(&len.to_le_bytes());
    t
}

fn ioapic_entry(id: u8, addr: u32, gsi_base: u32) -> Vec<u8> {
    let mut e = vec![1u8, 12, id, 0];
    e.extend_from_slice(&addr.to_le_bytes());
    e.extend_from_slice(&gsi_base.to_le_bytes());
    e
}

fn override_entry(source: u8, gsi: u32, flags: u16) -> Vec<u8> {
    let mut e = vec![2u8, 10, 0, source];
    e.extend_from_slice(&gsi.to_le_bytes());
    e.extend_from_slice(&flags.to_le_bytes());
    e
}

#[test]
fn madt_entries_are_read() {
    let lapic = vec![0u8, 8, 0, 0, 1, 0, 0, 0];
    let t = madt(&[lapic, ioapic_entry(4, 0xfec0_0000, 0), override_entry(0, 2, 0), override_entry(9, 9, 0xd)]);
    let e = parse_madt(&t).unwrap();
    assert_eq!(e.ioapics, vec![MadtIoapic { id: 4, address: 0xfec0_0000, gsi_base: 0 }]);
    assert_eq!(
        e.overrides,
        vec![
            MadtIrqSourceOverride { bus: 0, source: 0, gsi: 2, flags: 0 },
            MadtIrqSourceOverride { bus: 0, source: 9, gsi: 9, flags: 0xd },
        ]
    );
}

#[test]
fn malformed_madt_is_refused() {
    assert!(parse_madt(&[0u8; 4]).is_none());
    let mut short = madt(&[]);
    short[4] = 40;
    assert!(parse_madt(&short).is_none());
    let zero_len = madt(&[vec![5u8, 0, 0, 0]]);
    assert!(parse_madt(&zero_len).is_none());
    let mut truncated = madt(&[ioapic_entry(1, 2, 3)]);
    truncated[4] -= 2;
    assert!(parse_madt(&truncated).is_none());
    let empty = parse_madt(&madt(&[])).unwrap();
    assert!(empty.ioapics.is_empty() && empty.overrides.is_empty());
}

#[test]
fn ioapic_max_redirection_entry() {
    assert_eq!(ioapic::get_maxgsi(0x0017_0020), 0x17);
    assert_eq!(ioapic::get_maxgsi(0xffff_ffff), 0xff);
    let mut a = ioapic::new(0, 1, 0xfec0_0000);
    a.set_max_gsi(0x0017_0020);
    assert_eq!(a.regsel_addr(HHDM), HHDM + 0xfec0_0000);
    assert_eq!(a.iowin_addr(HHDM), HHDM + 0xfec0_0010);
}

#[test]
fn irq_routing_without_and_with_override() {
    let t = madt(&[ioapic_entry(4, 0xfec0_0000, 0), override_entry(0, 2, 0x000d)]);
    let e = parse_madt(&t).unwrap();
    let s = apic_init(&e, &vec![0x0017_0020]);
    let w = s.route_irq(1, 3, 47);
    let entry: u64 = (3u64 << 56) | (5u64 << 13) | 47;
    assert_eq!(
        w,
        vec![
            IoApicWrite { addr: 0xfec0_0000, reg: 0x12, value: entry as u32 },
            IoApicWrite { addr: 0xfec0_0000, reg: 0x13, value: (entry >> 32) as u32 },
        ]
    );
    assert_eq!(w[0].value & 0xff, 47);
    assert_eq!(w[1].value >> 24, 3);
    let w0 = s.route_irq(0, 0, 32);
    let entry0: u64 = (0xdu64 << 13) | 32;
    assert_eq!(w0[0], IoApicWrite { addr: 0xfec0_0000, reg: 0x14, value: entry0 as u32 });
    assert!(s.route_irq(200, 0, 32).is_empty());
}

#[test]
fn second_ioapic_handles_interrupts_from_its_base() {
    let t = madt(&[
        ioapic_entry(1, 0xfec0_0000, 0),
        ioapic_entry(2, 0xfec0_1000, 24),
        override_entry(9, 30, 0),
    ]);
    let e = parse_madt(&t).unwrap();
    let s = apic_init(&e, &vec![0x0017_0020, 0x0017_0020]);
    let w = s.route_irq(9, 0, 40);
    assert_eq!(w.len(), 2);
    assert_eq!(w[0], IoApicWrite { addr: 0xfec0_1000, reg: 0x1c, value: 40 });
    assert_eq!(w[1], IoApicWrite { addr: 0xfec0_1000, reg: 0x1d, value: 0 });
    let w1 = s.route_irq(1, 0, 33);
    assert_eq!(w1.len(), 2);
    assert_eq!(w1[0].addr, 0xfec0_0000);
    assert_eq!(w1[0].reg, 0x12);
    let top = s.route_irq(47, 0, 34);
    assert_eq!(top[0], IoApicWrite { addr: 0xfec0_1000, reg: 0x10 + 23 * 2, value: (5 << 13) | 34 });
    assert!(s.route_irq(48, 0, 35).is_empty());
}

#[test]
fn irq_routing_empty_system() {
    let s = SystemAPIC::new();
    assert!(s.route_irq(1, 0, 33).is_empty());
}

#[test]
fn acpi_access_widths() {
    assert_eq!(acpi::io_width(1), Ok(AccessWidth::Byte));
    assert_eq!(acpi::io_width(4), Ok(AccessWidth::Dword));
    assert_eq!(acpi::io_width(8), Err(AcpiStatus::InvalidArgument));
    assert_eq!(acpi::io_width(3), Err(AcpiStatus::InvalidArgument));
    assert_eq!(acpi::memory_width(8), Ok(AccessWidth::Qword));
    assert_eq!(acpi::memory_width(2), Ok(AccessWidth::Word));
    assert_eq!(acpi::memory_width(16), Err(AcpiStatus::InvalidArgument));
    assert_eq!(acpi::narrow(0x1234_5678_9abc_def0, AccessWidth::Byte), 0xf0);
    assert_eq!(acpi::narrow(0x1234_5678_9abc_def0, AccessWidth::Word), 0xdef0);
    assert_eq!(acpi::narrow(0x1234_5678_9abc_def0, AccessWidth::Dword), 0x9abc_def0);
    assert_eq!(acpi::narrow(0x1234_5678_9abc_def0, AccessWidth::Qword), 0x1234_5678_9abc_def0);
    for b in 0..=255u8 {
        if acpi::io_width(b).is_ok() {
            assert_eq!(acpi::memory_width(b), acpi::io_width(b));
        }
    }
    assert_eq!(acpi::io_address(0x40, 3), 0x43);
    assert_eq!(acpi::map(0x1000, HHDM), HHDM + 0x1000);
}
