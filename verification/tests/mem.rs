use nyauxkt::mem::bump::Bump;
use nyauxkt::mem::phys::{align_down, align_up, memory_map_sane, MemoryKind, MemoryMapEntry, PhysicalAllocator};
use nyauxkt::mem::slab::{kmalloc_manager, next_power_of_two};
use nyauxkt::mem::virt::{PageMap, KTPRESENT, KTWRITEALLOWED};
use nyauxkt::mem::{boot_args_check, MemoryManager, LARGE_ALLOC};
use nyauxkt::utils::{msr_combine, msr_split, KTError};

const HHDM: u64 = 0xffff_8000_0000_0000;
const KERNEL_VIRT: u64 = 0xffff_ffff_8000_0000;

fn usable(base: u64, length: u64) -> MemoryMapEntry {
    MemoryMapEntry { base, length, kind: MemoryKind::Usable }
}

fn pmm_with_pages(pages: u64) -> PhysicalAllocator {
    PhysicalAllocator::new(&vec![usable(0x10_0000, pages * 4096)], HHDM)
}

#[test]
fn align_up_and_down() {
    assert_eq!(align_up(0, 4096), 0);
    assert_eq!(align_up(1, 4096), 4096);
    assert_eq!(align_up(4096, 4096), 4096);
    assert_eq!(align_up(4097, 4096), 8192);
    assert_eq!(align_up(13, 8), 16);
    assert_eq!(align_down(4097, 4096), 4096);
    assert_eq!(align_down(4095, 4096), 0);
    assert_eq!(align_down(8192, 4096), 8192);
}

#[test]
fn next_power_of_two_values() {
    assert_eq!(next_power_of_two(0), 1);
    assert_eq!(next_power_of_two(1), 1);
    assert_eq!(next_power_of_two(17), 32);
    assert_eq!(next_power_of_two(1024), 1024);
    assert_eq!(next_power_of_two(1025), 2048);
}

#[test]
fn msr_halves_round_trip() {
    let v = msr_combine(0x1234_5678, 0x9abc_def0);
    assert_eq!(v, 0x1234_5678_9abc_def0);
    assert_eq!(msr_split(v), (0x1234_5678, 0x9abc_def0));
}

#[test]
fn pmm_hands_out_pages_from_the_top() {
    let mut pmm = pmm_with_pages(4);
    assert_eq!(pmm.free_count(), 4);
    assert_eq!(pmm.hhdm_offset(), HHDM);
    assert_eq!(pmm.allocate(), Ok(0x10_0000 + 3 * 4096));
    assert_eq!(pmm.allocate(), Ok(0x10_0000 + 2 * 4096));
    assert_eq!(pmm.free_count(), 2);
}

#[test]
fn pmm_dealloc_undoes_allocate() {
    let mut pmm = pmm_with_pages(3);
    let f = pmm.allocate().unwrap();
    assert_eq!(pmm.dealloc(f + HHDM), Ok(()));
    assert_eq!(pmm.free_count(), 3);
    assert_eq!(pmm.allocate(), Ok(f));
}

#[test]
fn pmm_keeps_its_last_page() {
    let mut pmm = pmm_with_pages(1);
    assert_eq!(pmm.allocate(), Err(KTError::OutOfMemory));
    assert_eq!(pmm.free_count(), 1);
}

#[test]
fn pmm_skips_reserved_regions() {
    let entries = vec![
        usable(0x10_0000, 0x1800),
        MemoryMapEntry { base: 0x20_0000, length: 0x10_0000, kind: MemoryKind::Reserved },
        usable(0x30_0000, 0x1000),
    ];
    let mut pmm = PhysicalAllocator::new(&entries, HHDM);
    assert_eq!(pmm.free_count(), 3);
    assert_eq!(pmm.allocate(), Ok(0x30_0000));
    assert_eq!(pmm.allocate(), Ok(0x10_1000));
}

#[test]
fn slab_hands_out_objects_in_order() {
    let mut pmm = pmm_with_pages(16);
    let mut k = kmalloc_manager::init(&mut pmm);
    assert_eq!(pmm.free_count(), 9);
    let page16 = HHDM + 0x10_0000 + 15 * 4096;
    let a = k.allocate(10, &mut pmm).unwrap();
    assert_eq!(a, page16 + 48);
    let b = k.allocate(16, &mut pmm).unwrap();
    assert_eq!(b, page16 + 48 + 16);
    let page1024 = HHDM + 0x10_0000 + 9 * 4096;
    let c = k.allocate(600, &mut pmm).unwrap();
    assert_eq!(c, page1024 + 1024);
    assert_eq!(k.allocate(2000, &mut pmm), None);
}

#[test]
fn slab_free_then_allocate_returns_it() {
    let mut pmm = pmm_with_pages(16);
    let mut k = kmalloc_manager::init(&mut pmm);
    let a = k.allocate(64, &mut pmm).unwrap();
    let _b = k.allocate(64, &mut pmm).unwrap();
    k.free(a);
    assert_eq!(k.allocate(64, &mut pmm), Some(a));
    k.free(0);
}

#[test]
fn slab_grows_when_full() {
    let mut pmm = pmm_with_pages(16);
    let mut k = kmalloc_manager::init(&mut pmm);
    let first = k.allocate(1024, &mut pmm).unwrap();
    for _ in 0..2 {
        k.allocate(1024, &mut pmm).unwrap();
    }
    assert!(k.needs_page(1024));
    let fourth = k.allocate(1024, &mut pmm).unwrap();
    assert_eq!(fourth, HHDM + 0x10_0000 + 8 * 4096 + 1024);
    assert_ne!(first & !0xfff, fourth & !0xfff);
    assert!(!k.needs_page(1024));
    assert!(!k.needs_page(5000));
}

fn boot_pagemap(pmm: &mut PhysicalAllocator) -> PageMap {
    let entries = vec![usable(0x10_0000, 0x40_0000)];
    PageMap::new_inital(&entries, 0x20_0000, KERNEL_VIRT, 0x2000, pmm).unwrap()
}

#[test]
fn new_inital_maps_kernel_and_direct_map() {
    let mut pmm = pmm_with_pages(1024);
    let pm = boot_pagemap(&mut pmm);
    assert_eq!(pm.virt_to_phys(KERNEL_VIRT), Ok(0x20_0000));
    assert_eq!(pm.virt_to_phys(KERNEL_VIRT + 0x1000), Ok(0x20_1000));
    assert_eq!(pm.virt_to_phys(KERNEL_VIRT + 0x2000), Ok(0x20_2000));
    assert_eq!(pm.virt_to_phys(HHDM + 0x10_0000), Ok(0x10_0000));
    assert_eq!(pm.virt_to_phys(HHDM + 0x4f_f000), Ok(0x4f_f000));
    assert_eq!(pm.virt_to_phys(HHDM + 0x50_0000), Err("nope"));
    assert_eq!(pm.virt_to_phys(0x1000), Err("Nope"));
}

#[test]
fn new_inital_runs_out_of_memory() {
    let mut pmm = pmm_with_pages(3);
    let entries = vec![usable(0x10_0000, 0x40_0000)];
    let r = PageMap::new_inital(&entries, 0x20_0000, KERNEL_VIRT, 0x2000, &mut pmm);
    assert!(matches!(r, Err(KTError::OutOfMemory)));
}

#[test]
fn map_then_translate_then_unmap() {
    let mut pmm = pmm_with_pages(1024);
    let mut pm = boot_pagemap(&mut pmm);
    let va = 0x0000_4000_0000_0000u64;
    assert_eq!(pm.virt_to_phys(va), Err("Nope"));
    assert_eq!(pm.map(va, 0x7_7000, KTPRESENT | KTWRITEALLOWED, &mut pmm), Ok(()));
    assert_eq!(pm.virt_to_phys(va), Ok(0x7_7000));
    assert_eq!(pm.virt_to_phys(va + 0x1000), Err("nope"));
    assert_eq!(pm.unmap(va, 0), Ok(()));
    assert_eq!(pm.virt_to_phys(va), Err("nope"));
}

#[test]
fn get_phys_from_entry_masks_flags() {
    assert_eq!(PageMap::get_phys_from_entry(0x8000_0000_1234_5003), 0x1234_5000);
}

#[test]
fn region_alloc_and_dealloc() {
    let mut pmm = pmm_with_pages(1024);
    let mut pm = boot_pagemap(&mut pmm);
    let before = pmm.free_count();
    let base = pm.vmm_region_alloc(0x2000, KTPRESENT | KTWRITEALLOWED, &mut pmm).unwrap();
    assert_eq!(base, HHDM + 1024);
    assert!(pm.virt_to_phys(base).is_ok());
    assert!(pm.virt_to_phys(base + 0x1000).is_ok());
    assert!(pmm.free_count() <= before - 3);
    pm.vmm_region_dealloc(base, &mut pmm);
    assert_eq!(pm.virt_to_phys(base), Err("nope"));
}

#[test]
fn bump_hands_out_aligned_pieces() {
    let mut b = Bump { ptr: 0x1000 };
    assert_eq!(b.allocate(5), 0x1000);
    assert_eq!(b.ptr, 0x1008);
    assert_eq!(b.allocate(16), 0x1008);
    assert_eq!(b.ptr, 0x1018);
    assert_eq!(b.allocate(0), 0x1018);
    assert_eq!(b.ptr, 0x1018);
}

#[test]
fn bump_new_without_room_is_none() {
    let mut pmm = pmm_with_pages(1024);
    let mut pm = boot_pagemap(&mut pmm);
    assert!(Bump::new(&mut pm, &mut pmm).is_none());
}

fn manager(pages: u64) -> MemoryManager {
    let mut pmm = pmm_with_pages(pages);
    let pagemap = boot_pagemap(&mut pmm);
    let kmalloc = kmalloc_manager::init(&mut pmm);
    MemoryManager { kmalloc, pagemap, pmm }
}

#[test]
fn manager_routes_small_and_large_requests() {
    let mut mm = manager(1024);
    let small = mm.allocate(40).unwrap();
    assert_eq!(small.zero_bytes, 40);
    assert_eq!(small.addr & 0xfff, 64);
    let large = mm.allocate(8192).unwrap();
    assert_eq!(large.zero_bytes, 0);
    assert!(large.clear_page_heads);
    assert_eq!(large.addr, HHDM + 1024);
    assert!(mm.pagemap.virt_to_phys(large.addr).is_ok());
    mm.dealloc(large.addr, 8192);
    assert_eq!(mm.pagemap.virt_to_phys(large.addr), Err("nope"));
    mm.dealloc(small.addr, 40);
    let again = mm.allocate(40).unwrap();
    assert_eq!(again.addr, small.addr);
}

#[test]
fn manager_zeroed_and_realloc_routes() {
    let mut mm = manager(1024);
    let z = mm.alloc_zeroed(100).unwrap();
    assert_eq!(z.zero_bytes, 100);
    assert!(!z.clear_page_heads);
    let big = mm.alloc_zeroed(LARGE_ALLOC + 1).unwrap();
    assert_eq!(big.zero_bytes, LARGE_ALLOC + 1);
    assert!(big.clear_page_heads);
    let moved = mm.realloc_target(100, 200).unwrap();
    assert_eq!(moved.addr & 0xfff, 256);
    assert_eq!(moved.zero_bytes, 0);
    let moved_big = mm.realloc_target(LARGE_ALLOC + 1, 10000).unwrap();
    assert!(moved_big.clear_page_heads);
    assert!(mm.pagemap.virt_to_phys(moved_big.addr).is_ok());
}

#[test]
fn heap_from_memory_map() {
    let entries = vec![usable(0x10_0000, 0x40_0000)];
    let mut mm = MemoryManager::new(&entries, HHDM, 0x20_0000, KERNEL_VIRT, 0x2000).unwrap();
    assert_eq!(mm.pagemap.virt_to_phys(KERNEL_VIRT), Ok(0x20_0000));
    assert_eq!(mm.pagemap.virt_to_phys(HHDM + 0x10_0000), Ok(0x10_0000));
    let a = mm.allocate(16).unwrap();
    assert_eq!(a.addr, HHDM + 0x10_0000 + 1023 * 4096 + 48);
}

#[test]
fn heap_refuses_bad_maps() {
    let overlapping = vec![usable(0x10_0000, 0x2000), usable(0x10_1000, 0x1000)];
    assert!(!memory_map_sane(&overlapping));
    assert!(matches!(
        MemoryManager::new(&overlapping, HHDM, 0x20_0000, KERNEL_VIRT, 0x2000),
        Err(KTError::OperationFailed)
    ));
    let zero_page = vec![usable(0, 0x1000)];
    assert!(!memory_map_sane(&zero_page));
    let unaligned = vec![usable(0x10_0800, 0x1000)];
    assert!(!memory_map_sane(&unaligned));
    let descending = vec![usable(0x20_0000, 0x1000), usable(0x10_0000, 0x1000)];
    assert!(!memory_map_sane(&descending));
    let fine = vec![
        usable(0x1000, 0x1000),
        MemoryMapEntry { base: 0x1000, length: 0x10_0000, kind: MemoryKind::Reserved },
        usable(0x2000, 0x3000),
    ];
    assert!(memory_map_sane(&fine));
    assert!(boot_args_check(&fine, HHDM, 0x20_0000, KERNEL_VIRT, 0x2000));
    assert!(!boot_args_check(&fine, HHDM, 0x20_0000, u64::MAX - 0x1000, 0x2000));
    assert!(!boot_args_check(&fine, HHDM + 0x800, 0x20_0000, KERNEL_VIRT, 0x2000));
}

#[test]
fn heap_runs_out_of_pages() {
    let entries = vec![usable(0x10_0000, 8 * 4096)];
    assert!(matches!(
        MemoryManager::new(&entries, HHDM, 0x20_0000, KERNEL_VIRT, 0x2000),
        Err(KTError::OutOfMemory)
    ));
    let tiny = vec![usable(0x10_0000, 4 * 4096)];
    assert!(matches!(MemoryManager::new(&tiny, HHDM, 0x20_0000, KERNEL_VIRT, 0x2000), Err(KTError::OutOfMemory)));
}

#[test]
fn release_checks() {
    let mut mm = manager(1024);
    let small = mm.allocate(40).unwrap();
    assert!(mm.can_release(small.addr, 40));
    assert!(mm.can_release(0, 40));
    assert!(mm.can_release(HHDM + 0x30_0000, 40));
    mm.dealloc(HHDM + 0x30_0000, 40);
    let next = mm.allocate(40).unwrap();
    assert_eq!(next.addr, small.addr + 64);
    assert!(mm.kmalloc.owns_page(small.addr));
    assert!(!mm.kmalloc.owns_page(0x1234_5000));
    let large = mm.allocate(8192).unwrap();
    assert!(mm.can_release(large.addr, 8192));
    assert!(mm.pagemap.can_dealloc(large.addr));
    assert!(mm.pagemap.can_dealloc(0x5555_0000));
    assert!(!mm.pagemap.can_dealloc(HHDM));
}

#[test]
fn freed_slot_comes_back_once() {
    let mut pmm = pmm_with_pages(16);
    let mut k = kmalloc_manager::init(&mut pmm);
    let a = k.allocate(32, &mut pmm).unwrap();
    let b = k.allocate(32, &mut pmm).unwrap();
    k.free(a);
    let c = k.allocate(32, &mut pmm).unwrap();
    let d = k.allocate(32, &mut pmm).unwrap();
    assert_eq!(c, a);
    assert_ne!(d, a);
    assert_ne!(d, b);
    assert_eq!(d, b + 32);
}

#[test]
fn align_down_of_align_up_is_identity() {
    for x in [0usize, 1, 7, 4095, 4096, 4097, 123_456] {
        for a in [1usize, 8, 512, 4096] {
            let up = align_up(x, a);
            assert_eq!(align_down(up, a), up);
        }
    }
}

#[test]
fn align_down_and_up_bracket_an_address() {
    for x in [0usize, 1, 7, 4095, 4096, 4097, 123_456] {
        for a in [1usize, 8, 512, 4096] {
            let down = align_down(x, a);
            let up = align_up(x, a);
            assert!(down <= x && x <= up);
            assert_eq!(up - down, if x % a == 0 { 0 } else { a });
        }
    }
}

#[test]
fn region_pages_get_their_own_frames_in_order() {
    let mut pmm = pmm_with_pages(1024);
    let mut pm = boot_pagemap(&mut pmm);
    let top = 0x10_0000 + (pmm.free_count() as u64 - 1) * 4096;
    let base = pm.vmm_region_alloc(0x3000, KTPRESENT | KTWRITEALLOWED, &mut pmm).unwrap();
    let f0 = pm.virt_to_phys(base).unwrap();
    let f1 = pm.virt_to_phys(base + 0x1000).unwrap();
    let f2 = pm.virt_to_phys(base + 0x2000).unwrap();
    assert!(top > f0 && f0 > f1 && f1 > f2);
    assert!(f2 >= 0x10_0000);
    assert!(pm.tables().iter().all(|(t, _)| *t != f0 && *t != f1 && *t != f2));
}

#[test]
fn later_direct_map_page_wins_over_kernel_page() {
    let mut pmm = pmm_with_pages(1024);
    let entries = vec![usable(0x10_0000, 0x40_0000)];
    let pm = PageMap::new_inital(&entries, 0x20_0000, HHDM + 0x10_0000, 0x1000, &mut pmm).unwrap();
    assert_eq!(pm.virt_to_phys(HHDM + 0x10_0000), Ok(0x10_0000));
    assert_eq!(pm.virt_to_phys(HHDM + 0x10_1000), Ok(0x10_1000));
    assert!(pm.virt_to_phys(HHDM + 0x60_0000).is_err());
}

#[test]
fn exported_tables_hold_the_root() {
    let mut pmm = pmm_with_pages(1024);
    let pm = boot_pagemap(&mut pmm);
    let tables = pm.tables();
    let root = tables.iter().find(|(f, _)| *f == pm.root_table()).unwrap();
    assert_eq!(root.1.len(), 512);
    assert!(root.1.iter().any(|e| e & 1 == 1));
    assert!(tables.iter().all(|(_, es)| es.len() == 512));
}

#[test]
fn align_up_reaches_the_last_multiple() {
    assert_eq!(align_up(usize::MAX - 4095, 4096), usize::MAX - 4095);
    assert_eq!(align_up(usize::MAX - 8190, 4096), usize::MAX - 4095);
}

#[test]
fn mid_sized_block_goes_back_to_its_region() {
    let mut mm = manager(1024);
    let before = mm.pmm.free_count();
    let b = mm.allocate(2000).unwrap();
    assert!(b.clear_page_heads);
    assert!(mm.pagemap.virt_to_phys(b.addr).is_ok());
    assert!(mm.can_release(b.addr, 2000));
    mm.dealloc(b.addr, 2000);
    assert_eq!(mm.pagemap.virt_to_phys(b.addr), Err("nope"));
    assert!(mm.pmm.free_count() >= before - 3);
    let z = mm.alloc_zeroed(3000).unwrap();
    assert_eq!(z.zero_bytes, 3000);
    assert!(z.clear_page_heads);
}

#[test]
fn slab_objects_are_aligned_to_their_class() {
    let mut pmm = pmm_with_pages(16);
    let mut k = kmalloc_manager::init(&mut pmm);
    for (size, class) in [(1usize, 16u64), (17, 32), (40, 64), (100, 128), (200, 256), (300, 512), (1000, 1024)] {
        for _ in 0..3 {
            let p = k.allocate(size, &mut pmm).unwrap();
            assert_eq!(p % class, 0);
            assert!(p & 0xfff >= 40);
        }
    }
}

#[test]
fn slab_ignores_frees_it_cannot_take() {
    let mut pmm = pmm_with_pages(16);
    let mut k = kmalloc_manager::init(&mut pmm);
    let a = k.allocate(64, &mut pmm).unwrap();
    let b = k.allocate(64, &mut pmm).unwrap();
    k.free(a + 8);
    k.free(a);
    k.free(a);
    assert_eq!(k.allocate(64, &mut pmm), Some(a));
    assert_eq!(k.allocate(64, &mut pmm), Some(b + 64));
}

#[test]
fn kernel_leaf_entries_are_present_and_writable_only() {
    let mut pmm = pmm_with_pages(1024);
    let pm = boot_pagemap(&mut pmm);
    let tables = pm.tables();
    for pa in [0x20_0000u64, 0x20_1000, 0x20_2000, 0x10_0000, 0x4f_f000] {
        assert!(tables.iter().any(|(_, es)| es.contains(&(pa | KTPRESENT | KTWRITEALLOWED))));
    }
}
