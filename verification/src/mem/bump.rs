use vstd::prelude::*;
use crate::mem::phys::{PhysicalAllocator, page_count, align_up, is_pow2};
use crate::mem::virt::{PageMap, KTPRESENT, KTWRITEALLOWED, TABLE_ADDR_MASK, scan_ok, region_alloc_post};

verus! {

/// The size of the region a bump allocator hands out from.
pub const BUMP_REGION_SIZE: u64 = 50000000;

/// A bump allocator: hands out consecutive 8-byte-aligned pieces of one
/// virtual region, never taking any back.
pub struct Bump {
    pub ptr: u64,
}

impl Bump {
    /// A bump allocator at the start of a fresh 50 000 000-byte region of
    /// `pagemap`, mapped present and writable; `None` when no gap of the
    /// address space or not enough free pages are left for the region.
    pub fn new(pagemap: &mut PageMap, pmm: &mut PhysicalAllocator) -> (r: Option<Bump>)
        requires
            old(pagemap).wf(),
            old(pmm).wf(),
            old(pagemap).frames_fresh(&*old(pmm)),
        ensures
            final(pagemap).wf(),
            final(pmm).wf(),
            final(pagemap).frames_fresh(&*final(pmm)),
            r matches Some(b) ==> region_alloc_post(
                *old(pagemap),
                *final(pagemap),
                *old(pmm),
                BUMP_REGION_SIZE,
                KTPRESENT | KTWRITEALLOWED,
                Some(b.ptr),
            ),
            scan_ok(old(pagemap).regions(), 1, (page_count(BUMP_REGION_SIZE as nat) * 4096 + 4096) as int)
                && old(pmm).nodes().len() >= 4 * page_count(BUMP_REGION_SIZE as nat) + 2 ==> r is Some,
    {
        let flags = KTPRESENT | KTWRITEALLOWED;
        assert(flags & TABLE_ADDR_MASK == 0) by (bit_vector)
            requires
                flags == 1u64 | 2u64,
        ;
        let q = pagemap.vmm_region_alloc(BUMP_REGION_SIZE, flags, pmm);
        match q {
            Some(p) => Some(Bump { ptr: p }),
            None => None,
        }
    }

    /// Hands out the current position and moves it on by `size` rounded up
    /// to a multiple of 8.
    pub fn allocate(&mut self, size: usize) -> (r: u64)
        requires
            size + 8 <= usize::MAX,
            old(self).ptr + ((size + 7) / 8) * 8 <= u64::MAX,
        ensures
            r == old(self).ptr,
            final(self).ptr == old(self).ptr + ((size + 7) / 8) * 8,
            final(self).ptr % 8 == old(self).ptr % 8,
    {
        let old_ptr = self.ptr;
        assert(is_pow2(8)) by (bit_vector);
        let step = align_up(size, 8);
        assert(step == ((size + 7) / 8) * 8);
        self.ptr = self.ptr + step as u64;
        old_ptr
    }
}

} // verus!
