pub mod bump;
pub mod gdt;
pub mod phys;
pub mod slab;
pub mod virt;

use vstd::prelude::*;
use crate::mem::phys::{PhysicalAllocator, MemoryKind, MemoryMapEntry, page_count, region_fits, map_sane, memory_map_sane};
use crate::utils::KTError;
use crate::mem::slab::{kmalloc_manager, class_of, next_pow2, pow2_at_least, class_sizes, first_with_free, search_post, free_post, alloc_post, page_takeable, lemma_pow2_at_least_ge, lemma_first_with_free};
use crate::mem::virt::{PageMap, KTPRESENT, KTWRITEALLOWED, TABLE_ADDR_MASK, scan_ok, region_alloc_post, region_dealloc_post, hhdm_mapped, hhdm_page_total, frames_usable};

verus! {

/// Requests above this many bytes, which no slab class holds, are served
/// by whole-page regions, and released to them.
pub const LARGE_ALLOC: usize = 1024;
/// How many bytes at the start of each fresh page of a region are cleared.
pub const PAGE_HEAD_BYTES: usize = 512;

/// The size class that a request for `size` bytes falls in (7 when none).
pub open spec fn slab_class(size: usize) -> int {
    class_of(next_pow2(size as nat))
}

/// A request falls in a slab class exactly when it is at most
/// `LARGE_ALLOC` bytes.
proof fn lemma_slab_class_iff(size: usize)
    ensures
        (slab_class(size) < 7) == (size <= LARGE_ALLOC),
{
    if size <= 1024 {
        reveal_with_fuel(pow2_at_least, 12);
        assert(next_pow2(size as nat) <= 1024);
    } else {
        lemma_pow2_at_least_ge(size as nat, 1);
    }
}

proof fn lemma_slab_class_small(size: usize)
    requires
        slab_class(size) < 7,
    ensures
        size <= 1024,
{
    lemma_pow2_at_least_ge(size as nat, 1);
}

/// The flags of the kernel's heap pages: present and writable.
pub open spec fn heap_flags() -> u64 {
    KTPRESENT | KTWRITEALLOWED
}

/// An allocation: its address, how many bytes at it are to be cleared,
/// and whether it is a fresh page region, whose pages each have their
/// first `PAGE_HEAD_BYTES` bytes cleared.
#[derive(Clone, Copy, PartialEq, Eq, Structural, Debug)]
pub struct Allocation {
    pub addr: u64,
    pub zero_bytes: usize,
    pub clear_page_heads: bool,
}

/// What building the kernel heap asks of the memory map, the direct-map
/// offset and the kernel image: a sane map whose regions fit in the
/// address space once the offset is added, a direct map whose page count
/// fits in a `usize`, and a kernel image whose pages fit at both of its
/// bases.
pub open spec fn boot_args_ok(
    entries: Seq<MemoryMapEntry>,
    hhdm: u64,
    kernel_phys_base: u64,
    kernel_virt_base: u64,
    kernel_size: u64,
) -> bool {
    &&& map_sane(entries)
    &&& hhdm & 0xfffu64 == 0
    &&& forall|i: int| 0 <= i < entries.len() ==> region_fits(#[trigger] entries[i], hhdm)
    &&& forall|i: int| 0 <= i < entries.len() ==> #[trigger] entries[i].length + 4096 <= usize::MAX
    &&& forall|i: int| 0 <= i < entries.len() && hhdm_mapped(#[trigger] entries[i].kind) ==> hhdm
        + entries[i].base + page_count(entries[i].length as nat) * 4096 <= u64::MAX
    &&& hhdm_page_total(entries) <= usize::MAX
    &&& kernel_virt_base + (kernel_size / 4096) * 4096 <= u64::MAX
    &&& kernel_phys_base + (kernel_size / 4096) * 4096 <= u64::MAX
}

fn is_hhdm_mapped(k: MemoryKind) -> (r: bool)
    ensures
        r == hhdm_mapped(k),
{
    k == MemoryKind::AcpiNvs || k == MemoryKind::AcpiReclaimable || k == MemoryKind::Usable
        || k == MemoryKind::BootloaderReclaimable || k == MemoryKind::Framebuffer || k == MemoryKind::KernelAndModules
}

/// Whether the inputs of the heap's construction are as `boot_args_ok`
/// asks.
pub fn boot_args_check(
    entries: &Vec<MemoryMapEntry>,
    hhdm: u64,
    kernel_phys_base: u64,
    kernel_virt_base: u64,
    kernel_size: u64,
) -> (r: bool)
    ensures
        r == boot_args_ok(entries@, hhdm, kernel_phys_base, kernel_virt_base, kernel_size),
{
    if !memory_map_sane(entries) || hhdm & 0xfff != 0 {
        return false;
    }
    let ks = (kernel_size / 4096) as u128 * 4096;
    if kernel_virt_base as u128 + ks > u64::MAX as u128 || kernel_phys_base as u128 + ks > u64::MAX as u128 {
        return false;
    }
    let mut total: u128 = 0;
    let mut i: usize = 0;
    while i < entries.len()
        invariant
            0 <= i <= entries@.len(),
            total == hhdm_page_total(entries@.take(i as int)),
            total <= i * 0x10_0000_0000_0000,
            forall|k: int| 0 <= k < i ==> region_fits(#[trigger] entries@[k], hhdm),
            forall|k: int| 0 <= k < i ==> #[trigger] entries@[k].length + 4096 <= usize::MAX,
            forall|k: int| 0 <= k < i && hhdm_mapped(#[trigger] entries@[k].kind) ==> hhdm
                + entries@[k].base + page_count(entries@[k].length as nat) * 4096 <= u64::MAX,
        decreases entries@.len() - i,
    {
        let e = entries[i];
        assert(entries@.take(i as int + 1).drop_last() == entries@.take(i as int));
        let pages: u128 = (e.length as u128 + 4095) / 4096;
        assert(pages == page_count(e.length as nat));
        let end: u128 = e.base as u128 + pages * 4096;
        if e.length as u128 + 4096 > usize::MAX as u128 {
            return false;
        }
        if e.kind == MemoryKind::Usable && end + hhdm as u128 > u64::MAX as u128 {
            return false;
        }
        if is_hhdm_mapped(e.kind) {
            if hhdm as u128 + end > u64::MAX as u128 {
                return false;
            }
            total = total + pages;
        }
        i = i + 1;
    }
    assert(entries@.take(entries@.len() as int) == entries@);
    total <= usize::MAX as u128
}

/// The kernel heap: slabs for small objects, whole-page regions of the
/// address space for the rest, and the frames both take.
pub struct MemoryManager {
    pub kmalloc: kmalloc_manager,
    pub pagemap: PageMap,
    pub pmm: PhysicalAllocator,
}

impl MemoryManager {
    /// Builds the kernel heap from the bootloader's memory map: the free
    /// list of every usable page, the slab classes on pages from its top,
    /// and then the kernel's address space (see `PageMap::new_inital`).
    /// `OperationFailed` when the inputs are not as `boot_args_ok` asks;
    /// `OutOfMemory` when the free pages run out on the way.
    pub fn new(
        entries: &Vec<MemoryMapEntry>,
        hhdm: u64,
        kernel_phys_base: u64,
        kernel_virt_base: u64,
        kernel_size: u64,
    ) -> (r: Result<MemoryManager, KTError>)
        ensures
            match r {
                Ok(m) => {
                    &&& boot_args_ok(entries@, hhdm, kernel_phys_base, kernel_virt_base, kernel_size)
                    &&& m.wf()
                    &&& m.pagemap.frames_fresh(&m.pmm)
                    &&& m.pmm.hhdm() == hhdm
                    &&& m.pagemap.regions().len() == 2
                    &&& m.pagemap.regions()[0].base == hhdm
                    &&& m.pagemap.regions()[0].length == hhdm_page_total(entries@)
                    &&& m.pagemap.regions()[1].base == kernel_virt_base
                    &&& m.pagemap.regions()[1].length == kernel_size
                },
                Err(e) => {
                    ||| e == KTError::OperationFailed && !boot_args_ok(entries@, hhdm, kernel_phys_base, kernel_virt_base, kernel_size)
                    ||| e == KTError::OutOfMemory && boot_args_ok(entries@, hhdm, kernel_phys_base, kernel_virt_base, kernel_size)
                },
            },
    {
        if !boot_args_check(entries, hhdm, kernel_phys_base, kernel_virt_base, kernel_size) {
            return Err(KTError::OperationFailed);
        }
        let mut pmm = PhysicalAllocator::new(entries, hhdm);
        if pmm.free_count() < 8 {
            return Err(KTError::OutOfMemory);
        }
        let ghost n0 = pmm.nodes();
        proof {
            pmm.lemma_nodes_ok();
            assert forall|i: int| n0.len() - 7 <= i < n0.len() implies #[trigger] n0[i] & 0xfffu64 == 0 by {
                let n = n0[i];
                let f = (n - hhdm) as u64;
                assert(crate::mem::phys::node_ok(n, hhdm));
                assert(crate::mem::virt::frame_ok(f));
                assert(n == hhdm + f);
                assert(n & 0xfffu64 == 0) by (bit_vector)
                    requires
                        hhdm & 0xfffu64 == 0,
                        f & !0x000F_FFFF_FFFF_F000u64 == 0,
                        n == hhdm + f,
                ;
            }
        }
        let kmalloc = kmalloc_manager::init(&mut pmm);
        proof {
            let n1 = pmm.nodes();
            assert(n1.no_duplicates()) by {
                assert forall|a: int, b: int| 0 <= a < n1.len() && 0 <= b < n1.len() && a != b implies n1[a] != n1[b] by {
                    assert(n1[a] == n0[a] && n1[b] == n0[b]);
                }
            }
            assert forall|i: int| 0 <= i < n1.len() implies {
                let f = (#[trigger] n1[i] - pmm.hhdm()) as u64;
                &&& f != 0
                &&& crate::mem::virt::frame_ok(f)
            } by {
                assert(n1[i] == n0[i]);
            }
            assert(frames_usable(&pmm));
        }
        let pagemap = match PageMap::new_inital(entries, kernel_phys_base, kernel_virt_base, kernel_size, &mut pmm) {
            Ok(q) => q,
            Err(e) => {
                return Err(e);
            },
        };
        Ok(MemoryManager { kmalloc, pagemap, pmm })
    }

    pub open spec fn wf(&self) -> bool {
        &&& self.kmalloc.wf()
        &&& self.pagemap.wf()
        &&& self.pmm.wf()
        &&& self.pmm.hhdm() == self.pagemap.hhdm()
    }

    /// A slab allocation for `size` bytes takes a fresh page: every slab
    /// of its class is full.
    pub open spec fn slab_full(&self, size: usize) -> bool {
        let c = slab_class(size);
        c < 7 && first_with_free(self.kmalloc.array@[c].slabs@) == self.kmalloc.array@[c].slabs@.len()
    }

    /// What a page region for `size` bytes needs: free frames that are no
    /// table of the address space, and sizes that fit.
    pub open spec fn pages_ready(&self, size: usize) -> bool {
        &&& self.pagemap.frames_fresh(&self.pmm)
        &&& size + 4096 <= usize::MAX
        &&& page_count(size as nat) * 4096 + 4096 <= u64::MAX
    }

    /// Room for a page region for `size` bytes: a gap in the address space
    /// and enough free frames.
    pub open spec fn pages_room(&self, size: usize) -> bool {
        &&& scan_ok(self.pagemap.regions(), 1, (page_count(size as nat) * 4096 + 4096) as int)
        &&& self.pmm.nodes().len() >= 4 * page_count(size as nat) + 2
    }

    /// A slab object of the class of `size` was handed out at `r`: one that
    /// no slab held before, aligned to the class's size, held now by a slab
    /// of the class on the page of `r`; every object held before still is;
    /// the address space is unchanged.
    pub open spec fn slab_post(&self, new: &Self, size: usize, r: u64) -> bool {
        let c = slab_class(size);
        &&& new.pagemap == self.pagemap
        &&& new.kmalloc.array@.len() == 7
        &&& forall|j: int| 0 <= j < 7 && j != c ==> #[trigger] new.kmalloc.array@[j] == self.kmalloc.array@[j]
        &&& search_post(self.kmalloc.array@[c].slabs@, new.kmalloc.array@[c].slabs@, class_sizes()[c], self.pmm, new.pmm, Some(r))
        &&& exists|s: int| #[trigger] new.kmalloc.holds(c, s, r)
        &&& (r as int) % (class_sizes()[c] as int) == 0
        &&& forall|c2: int, s2: int| !#[trigger] self.kmalloc.holds(c2, s2, r)
        &&& forall|c2: int, s2: int, q: u64| #[trigger] self.kmalloc.holds(c2, s2, q) ==> new.kmalloc.holds(c2, s2, q)
    }

    /// No slab object for `size` can be had: every slab of its class is
    /// full and the head page of the free list cannot carry a new slab
    /// (there is no page to spare, it is not page aligned, or a slab is on
    /// it already).
    pub open spec fn slab_exhausted(&self, size: usize) -> bool {
        &&& self.slab_full(size)
        &&& !self.pmm.can_alloc() || !page_takeable(self.kmalloc, self.pmm)
    }

    /// A present, writable region for `size` bytes was reserved at `r`; the
    /// slabs are unchanged.
    pub open spec fn pages_post(&self, new: &Self, size: usize, r: u64) -> bool {
        &&& new.kmalloc == self.kmalloc
        &&& region_alloc_post(self.pagemap, new.pagemap, self.pmm, size as u64, heap_flags(), Some(r))
    }

    fn slab_allocate(&mut self, size: usize) -> (r: Option<u64>)
        requires
            old(self).wf(),
            slab_class(size) < 7,
        ensures
            final(self).wf(),
            old(self).pagemap.frames_fresh(&old(self).pmm) ==> final(self).pagemap.frames_fresh(&final(self).pmm),
            match r {
                Some(p) => old(self).slab_post(&*final(self), size, p),
                None => old(self).slab_exhausted(size) && *final(self) == *old(self),
            },
    {
        proof {
            lemma_slab_class_small(size);
        }
        if self.kmalloc.needs_page(size) && self.pmm.free_count() < 2 {
            return None;
        }
        let ghost s0 = *self;
        let q = self.kmalloc.allocate(size, &mut self.pmm);
        proof {
            let c = slab_class(size);
            lemma_first_with_free(s0.kmalloc.array@[c].slabs@);
            if first_with_free(s0.kmalloc.array@[c].slabs@) == s0.kmalloc.array@[c].slabs@.len()
                && page_takeable(s0.kmalloc, s0.pmm) && s0.pagemap.frames_fresh(&s0.pmm) {
                s0.pagemap.lemma_fresh_drop_last(&s0.pmm, &self.pmm);
            }
        }
        q
    }

    fn page_allocate(&mut self, size: usize) -> (r: Option<u64>)
        requires
            old(self).wf(),
            old(self).pages_ready(size),
        ensures
            final(self).wf(),
            final(self).pagemap.frames_fresh(&final(self).pmm),
            final(self).kmalloc == old(self).kmalloc,
            r matches Some(p) ==> old(self).pages_post(&*final(self), size, p),
            old(self).pages_room(size) ==> r is Some,
    {
        let flags = KTPRESENT | KTWRITEALLOWED;
        assert(flags & TABLE_ADDR_MASK == 0) by (bit_vector)
            requires
                flags == 1u64 | 2u64,
        ;
        self.pagemap.vmm_region_alloc(size as u64, flags, &mut self.pmm)
    }

    /// Memory for `size` bytes: an object of the first size class that
    /// holds it, cleared over `size` bytes, or, when no class does, a
    /// fresh region of whole pages.  `None` when the frames or the address
    /// space run out.
    pub fn allocate(&mut self, size: usize) -> (r: Option<Allocation>)
        requires
            old(self).wf(),
            2 * (size as int) <= usize::MAX + 1,
            slab_class(size) >= 7 ==> old(self).pages_ready(size),
        ensures
            final(self).wf(),
            old(self).pagemap.frames_fresh(&old(self).pmm) ==> final(self).pagemap.frames_fresh(&final(self).pmm),
            slab_class(size) < 7 ==> match r {
                Some(a) => old(self).slab_post(&*final(self), size, a.addr) && a.zero_bytes == size
                    && !a.clear_page_heads,
                None => old(self).slab_exhausted(size) && *final(self) == *old(self),
            },
            slab_class(size) >= 7 ==> (r matches Some(a) ==> old(self).pages_post(&*final(self), size, a.addr)
                && a.zero_bytes == 0 && a.clear_page_heads) && (old(self).pages_room(size) ==> r is Some),
    {
        proof {
            lemma_slab_class_iff(size);
        }
        if size > LARGE_ALLOC {
            match self.page_allocate(size) {
                Some(p) => Some(Allocation { addr: p, zero_bytes: 0, clear_page_heads: true }),
                None => None,
            }
        } else {
            match self.slab_allocate(size) {
                Some(p) => Some(Allocation { addr: p, zero_bytes: size, clear_page_heads: false }),
                None => None,
            }
        }
    }

    /// Memory for `size` bytes that starts cleared over exactly `size`
    /// bytes: a fresh region of whole pages above `LARGE_ALLOC` bytes, else
    /// an object of the first size class that holds it.  `None` when the
    /// frames or the address space run out.
    pub fn alloc_zeroed(&mut self, size: usize) -> (r: Option<Allocation>)
        requires
            old(self).wf(),
            size > LARGE_ALLOC ==> old(self).pages_ready(size),
        ensures
            final(self).wf(),
            old(self).pagemap.frames_fresh(&old(self).pmm) ==> final(self).pagemap.frames_fresh(&final(self).pmm),
            size > LARGE_ALLOC ==> (r matches Some(a) ==> old(self).pages_post(&*final(self), size, a.addr)
                && a.zero_bytes == size && a.clear_page_heads) && (old(self).pages_room(size) ==> r is Some),
            size <= LARGE_ALLOC ==> match r {
                Some(a) => old(self).slab_post(&*final(self), size, a.addr) && a.zero_bytes == size
                    && !a.clear_page_heads,
                None => old(self).slab_exhausted(size) && *final(self) == *old(self),
            },
    {
        proof {
            lemma_slab_class_iff(size);
        }
        if size > LARGE_ALLOC {
            match self.page_allocate(size) {
                Some(p) => Some(Allocation { addr: p, zero_bytes: size, clear_page_heads: true }),
                None => None,
            }
        } else {
            match self.slab_allocate(size) {
                Some(p) => Some(Allocation { addr: p, zero_bytes: size, clear_page_heads: false }),
                None => None,
            }
        }
    }

    /// Where a resized block goes, before its contents are copied over and
    /// the old block released with `dealloc`: the block that a request for
    /// `new_size` bytes gets, so that `dealloc` with the new size releases
    /// it where it came from: a fresh region of whole pages above
    /// `LARGE_ALLOC` bytes, else an object of the first size class that
    /// holds it.  `None` when the frames or the address space run out.
    pub fn realloc_target(&mut self, old_size: usize, new_size: usize) -> (r: Option<Allocation>)
        requires
            old(self).wf(),
            new_size > LARGE_ALLOC ==> old(self).pages_ready(new_size),
        ensures
            final(self).wf(),
            old(self).pagemap.frames_fresh(&old(self).pmm) ==> final(self).pagemap.frames_fresh(&final(self).pmm),
            new_size > LARGE_ALLOC ==> (r matches Some(a) ==> old(self).pages_post(&*final(self), new_size, a.addr)
                && a.zero_bytes == 0 && a.clear_page_heads) && (old(self).pages_room(new_size) ==> r is Some),
            new_size <= LARGE_ALLOC ==> match r {
                Some(a) => old(self).slab_post(&*final(self), new_size, a.addr) && a.zero_bytes == 0
                    && !a.clear_page_heads,
                None => old(self).slab_exhausted(new_size) && *final(self) == *old(self),
            },
    {
        proof {
            lemma_slab_class_iff(new_size);
        }
        if new_size > LARGE_ALLOC {
            match self.page_allocate(new_size) {
                Some(p) => Some(Allocation { addr: p, zero_bytes: 0, clear_page_heads: true }),
                None => None,
            }
        } else {
            match self.slab_allocate(new_size) {
                Some(p) => Some(Allocation { addr: p, zero_bytes: 0, clear_page_heads: false }),
                None => None,
            }
        }
    }

    /// Whether releasing the block at `ptr` of `size` bytes is as `dealloc`
    /// asks.
    pub fn can_release(&self, ptr: u64, size: usize) -> (r: bool)
        requires
            self.wf(),
        ensures
            r == (size > LARGE_ALLOC ==> self.pagemap.dealloc_ok(ptr) && self.pmm.nodes().len() > 0),
    {
        if size > LARGE_ALLOC {
            self.pagemap.can_dealloc(ptr) && self.pmm.free_count() > 0
        } else {
            true
        }
    }

    /// Releases the block at `ptr` of `size` bytes where a request of that
    /// size got it: the region based there when `size` is above
    /// `LARGE_ALLOC`, else the slab object.
    pub fn dealloc(&mut self, ptr: u64, size: usize)
        requires
            old(self).wf(),
            size > LARGE_ALLOC ==> old(self).pagemap.dealloc_ok(ptr) && old(self).pmm.nodes().len() > 0,
        ensures
            final(self).wf(),
            size > LARGE_ALLOC ==> final(self).kmalloc == old(self).kmalloc && region_dealloc_post(
                old(self).pagemap,
                final(self).pagemap,
                old(self).pmm,
                final(self).pmm,
                ptr,
            ),
            size <= LARGE_ALLOC ==> final(self).pagemap == old(self).pagemap && final(self).pmm == old(self).pmm
                && free_post(old(self).kmalloc, final(self).kmalloc, ptr),
    {
        if size > LARGE_ALLOC {
            self.pagemap.vmm_region_dealloc(ptr, &mut self.pmm);
        } else {
            self.kmalloc.free(ptr);
        }
    }
}

} // verus!
