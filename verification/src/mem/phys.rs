use vstd::prelude::*;
use crate::utils::KTError;

verus! {

/// True when `a` is a power of two.
pub open spec fn is_pow2(a: usize) -> bool {
    a > 0 && a & ((a - 1) as usize) == 0
}

/// For a power of two `y`, the low-bits mask `y - 1` computes `x % y`.
pub proof fn lemma_low_mask_is_mod(x: usize, y: usize)
    requires
        is_pow2(y),
    ensures
        x & ((y - 1) as usize) == x % y,
    decreases y,
{
    if y == 1 {
        assert(x & 0usize == 0usize) by (bit_vector);
    } else {
        let h = y / 2;
        assert(h > 0 && h & ((h - 1) as usize) == 0 && y == 2 * h
            && x & ((y - 1) as usize) == 2 * ((x / 2) & ((h - 1) as usize)) + x % 2) by (bit_vector)
            requires
                y > 1,
                y & ((y - 1) as usize) == 0,
                h == y / 2,
        ;
        lemma_low_mask_is_mod(x / 2, h);
        vstd::arithmetic::div_mod::lemma_mod_breakdown(x as int, 2, h as int);
    }
}

/// Rounding `x` down with the mask of a power of two `y` lands on a
/// multiple of `y` at most `y - 1` below `x`.
pub proof fn lemma_mask_rounds_down(x: usize, y: usize)
    requires
        is_pow2(y),
    ensures
        (x & !((y - 1) as usize)) % y == 0,
        (x & !((y - 1) as usize)) <= x,
        x - (x & !((y - 1) as usize)) < y,
{
    let m = (y - 1) as usize;
    assert(x & !m == x - (x & m)) by (bit_vector);
    lemma_low_mask_is_mod(x, y);
    let r = (x & !m) as int;
    assert(r == (x as int / y as int) * y) by {
        vstd::arithmetic::div_mod::lemma_fundamental_div_mod(x as int, y as int);
    }
    vstd::arithmetic::div_mod::lemma_mod_multiples_basic(x as int / y as int, y as int);
}

/// Rounds `addr` up with the mask of `align`: `(addr + align - 1) & !(align - 1)`.
/// For a power-of-two `align` this is the least multiple of `align` that is
/// not below `addr`.
pub fn align_up(addr: usize, align: usize) -> (r: usize)
    requires
        align >= 1,
        addr + align - 1 <= usize::MAX,
    ensures
        r == ((addr + align - 1) as usize) & !((align - 1) as usize),
        is_pow2(align) ==> r % align == 0 && addr <= r && r < addr + align,
{
    proof {
        if is_pow2(align) {
            lemma_mask_rounds_down((addr + align - 1) as usize, align);
        }
    }
    (addr + (align - 1)) & !(align - 1)
}

/// Rounds `addr` down with the mask of `align`: `addr & !(align - 1)`.
/// For a power-of-two `align` this is the greatest multiple of `align` that
/// is not above `addr`.
pub fn align_down(addr: usize, align: usize) -> (r: usize)
    requires
        align >= 1,
    ensures
        r == addr & !((align - 1) as usize),
        is_pow2(align) ==> r % align == 0 && r <= addr && addr < r + align,
{
    proof {
        if is_pow2(align) {
            lemma_mask_rounds_down(addr, align);
        }
    }
    addr & !(align - 1)
}

/// Rounding down leaves a multiple of a power of two as it is; in
/// particular rounding down what `align_up` gave changes nothing.
pub proof fn law_align_down_keeps_aligned(x: usize, align: usize)
    requires
        is_pow2(align),
        x % align == 0,
    ensures
        x & !((align - 1) as usize) == x,
{
    let m = (align - 1) as usize;
    lemma_low_mask_is_mod(x, align);
    assert(x & !m == x - (x & m)) by (bit_vector);
}

/// Rounding `addr` down and up to a power of two brackets it, and the two
/// results coincide when `addr` is a multiple of it and are one `align`
/// apart otherwise.
pub proof fn law_align_down_up(addr: usize, align: usize)
    requires
        is_pow2(align),
        addr + align - 1 <= usize::MAX,
    ensures
        ({
            let up = ((addr + align - 1) as usize) & !((align - 1) as usize);
            let down = addr & !((align - 1) as usize);
            &&& down <= addr <= up
            &&& up - down == if addr % align == 0 { 0 } else { align as int }
        }),
{
    let up = ((addr + align - 1) as usize) & !((align - 1) as usize);
    let down = addr & !((align - 1) as usize);
    lemma_mask_rounds_down((addr + align - 1) as usize, align);
    lemma_mask_rounds_down(addr, align);
    let a = down as int / align as int;
    let b = up as int / align as int;
    vstd::arithmetic::div_mod::lemma_fundamental_div_mod(down as int, align as int);
    vstd::arithmetic::div_mod::lemma_fundamental_div_mod(up as int, align as int);
    vstd::arithmetic::div_mod::lemma_fundamental_div_mod(addr as int, align as int);
    let q = addr as int / align as int;
    let m = addr as int % align as int;
    assert(up - down == if m == 0 { 0 } else { align as int }) by (nonlinear_arith)
        requires
            align > 0,
            down == align * a,
            up == align * b,
            addr == align * q + m,
            0 <= m < align,
            down <= addr,
            addr - down < align,
            addr <= up,
            up - addr < align,
    {
        assert(a <= q && q <= a) by (nonlinear_arith)
            requires
                align > 0,
                align * a <= align * q + m,
                align * q + m - align * a < align,
                0 <= m < align,
        ;
        if m == 0 {
            assert(b == q) by (nonlinear_arith)
                requires
                    align > 0,
                    align * q <= align * b,
                    align * b - align * q < align,
            ;
        } else {
            assert(b == q + 1) by (nonlinear_arith)
                requires
                    align > 0,
                    align * q + m <= align * b,
                    align * b - (align * q + m) < align,
                    0 < m < align,
            ;
        }
    }
}

/// The size of a page frame.
pub const PAGE_SIZE: u64 = 4096;

/// What the bootloader says a memory-map region holds.
#[derive(Clone, Copy, PartialEq, Eq, Structural, Debug)]
pub enum MemoryKind {
    Usable,
    Reserved,
    AcpiReclaimable,
    AcpiNvs,
    BadMemory,
    BootloaderReclaimable,
    KernelAndModules,
    Framebuffer,
}

/// One region of the bootloader's memory map.
#[derive(Clone, Copy, Debug)]
pub struct MemoryMapEntry {
    pub base: u64,
    pub length: u64,
    pub kind: MemoryKind,
}

/// The number of pages that cover `length` bytes (the length rounded up to
/// a whole page, in pages).
pub open spec fn page_count(length: nat) -> nat {
    (length + 4095) / 4096
}

/// The free-list nodes that one memory-map region contributes: for a usable
/// region, the direct-map address of each of its pages, lowest first.
pub open spec fn region_nodes(e: MemoryMapEntry, hhdm: u64) -> Seq<u64> {
    if e.kind == MemoryKind::Usable {
        Seq::new(page_count(e.length as nat), |i: int| (e.base + i * 4096 + hhdm) as u64)
    } else {
        Seq::empty()
    }
}

/// The free-list nodes of a whole memory map, region after region.
pub open spec fn map_nodes(entries: Seq<MemoryMapEntry>, hhdm: u64) -> Seq<u64>
    decreases entries.len(),
{
    if entries.len() == 0 {
        Seq::empty()
    } else {
        map_nodes(entries.drop_last(), hhdm) + region_nodes(entries.last(), hhdm)
    }
}

/// A usable region that starts on a page boundary above the first page and
/// whose pages end below the 52-bit physical limit.
pub open spec fn region_sane(e: MemoryMapEntry) -> bool {
    e.kind == MemoryKind::Usable ==> {
        &&& e.base % 4096 == 0
        &&& e.base >= 4096
        &&& e.base + page_count(e.length as nat) * 4096 <= 0x10_0000_0000_0000
    }
}

/// A memory map whose usable regions are sane and come in ascending
/// address order without overlapping pages.
pub open spec fn map_sane(entries: Seq<MemoryMapEntry>) -> bool {
    &&& forall|i: int| 0 <= i < entries.len() ==> region_sane(#[trigger] entries[i])
    &&& forall|i: int, j: int|
        0 <= i < j < entries.len() && (#[trigger] entries[i]).kind == MemoryKind::Usable
            && (#[trigger] entries[j]).kind == MemoryKind::Usable ==> entries[i].base + page_count(
            entries[i].length as nat,
        ) * 4096 <= entries[j].base
}

proof fn lemma_map_nodes_below(entries: Seq<MemoryMapEntry>, hhdm: u64, lim: int)
    requires
        forall|i: int| 0 <= i < entries.len() && (#[trigger] entries[i]).kind == MemoryKind::Usable
            ==> entries[i].base + page_count(entries[i].length as nat) * 4096 <= lim,
        forall|i: int| 0 <= i < entries.len() ==> region_fits(#[trigger] entries[i], hhdm),
    ensures
        forall|a: int| 0 <= a < map_nodes(entries, hhdm).len() ==> #[trigger] map_nodes(entries, hhdm)[a] + 4096 <= lim + hhdm,
    decreases entries.len(),
{
    if entries.len() > 0 {
        let init = entries.drop_last();
        assert forall|i: int| 0 <= i < init.len() && (#[trigger] init[i]).kind == MemoryKind::Usable
            implies init[i].base + page_count(init[i].length as nat) * 4096 <= lim by {
            assert(init[i] == entries[i]);
        }
        assert forall|i: int| 0 <= i < init.len() implies region_fits(#[trigger] init[i], hhdm) by {
            assert(init[i] == entries[i]);
        }
        lemma_map_nodes_below(init, hhdm, lim);
        let last = entries.last();
        assert(region_fits(entries[entries.len() - 1], hhdm));
        let m = map_nodes(entries, hhdm);
        let k = map_nodes(init, hhdm);
        assert forall|a: int| 0 <= a < m.len() implies #[trigger] m[a] + 4096 <= lim + hhdm by {
            if a < k.len() {
                assert(m[a] == k[a]);
            } else {
                assert(last.kind == MemoryKind::Usable);
                assert(entries[entries.len() - 1].kind == MemoryKind::Usable);
                let i = a - k.len();
                assert(m[a] == region_nodes(last, hhdm)[i]);
                assert(i < page_count(last.length as nat));
                assert(i * 4096 + 4096 <= page_count(last.length as nat) * 4096) by (nonlinear_arith)
                    requires
                        i < page_count(last.length as nat),
                ;
            }
        }
    }
}

proof fn lemma_page_frame_ok(f: u64)
    requires
        f % 4096 == 0,
        f < 0x10_0000_0000_0000,
    ensures
        f & !0x000F_FFFF_FFFF_F000u64 == 0,
{
    assert(f & !0x000F_FFFF_FFFF_F000u64 == 0) by (bit_vector)
        requires
            f % 4096 == 0,
            f < 0x10_0000_0000_0000,
    ;
}

/// The free-list nodes of a sane memory map strictly increase, and each
/// stands for a nonzero page-aligned frame below the 52-bit limit.
pub proof fn lemma_sane_map_nodes(entries: Seq<MemoryMapEntry>, hhdm: u64)
    requires
        map_sane(entries),
        forall|i: int| 0 <= i < entries.len() ==> region_fits(#[trigger] entries[i], hhdm),
    ensures
        forall|a: int, b: int| 0 <= a < b < map_nodes(entries, hhdm).len()
            ==> map_nodes(entries, hhdm)[a] < map_nodes(entries, hhdm)[b],
        forall|a: int| 0 <= a < map_nodes(entries, hhdm).len() ==> {
            let f = (#[trigger] map_nodes(entries, hhdm)[a] - hhdm) as u64;
            &&& map_nodes(entries, hhdm)[a] >= hhdm
            &&& f != 0
            &&& f & !0x000F_FFFF_FFFF_F000u64 == 0
        },
    decreases entries.len(),
{
    if entries.len() > 0 {
        let init = entries.drop_last();
        let last = entries.last();
        assert(map_sane(init)) by {
            assert forall|i: int| 0 <= i < init.len() implies region_sane(#[trigger] init[i]) by {
                assert(init[i] == entries[i]);
            }
            assert forall|i: int, j: int|
                0 <= i < j < init.len() && (#[trigger] init[i]).kind == MemoryKind::Usable
                    && (#[trigger] init[j]).kind == MemoryKind::Usable implies init[i].base + page_count(
                    init[i].length as nat,
                ) * 4096 <= init[j].base by {
                assert(init[i] == entries[i]);
                assert(init[j] == entries[j]);
            }
        }
        assert forall|i: int| 0 <= i < init.len() implies region_fits(#[trigger] init[i], hhdm) by {
            assert(init[i] == entries[i]);
        }
        lemma_sane_map_nodes(init, hhdm);
        let m = map_nodes(entries, hhdm);
        let k = map_nodes(init, hhdm);
        let r = region_nodes(last, hhdm);
        assert(m == k + r);
        assert(region_sane(entries[entries.len() - 1]));
        assert(region_fits(entries[entries.len() - 1], hhdm));
        if last.kind == MemoryKind::Usable {
            assert forall|i: int| 0 <= i < init.len() && (#[trigger] init[i]).kind == MemoryKind::Usable
                implies init[i].base + page_count(init[i].length as nat) * 4096 <= last.base by {
                assert(init[i] == entries[i]);
                assert(entries[entries.len() - 1] == last);
            }
            lemma_map_nodes_below(init, hhdm, last.base as int);
        }
        assert forall|a: int, b: int| 0 <= a < b < m.len() implies m[a] < m[b] by {
            if b < k.len() {
                assert(m[a] == k[a] && m[b] == k[b]);
            } else if a < k.len() {
                assert(m[a] == k[a]);
                assert(m[a] + 4096 <= last.base + hhdm);
                assert(m[b] == r[b - k.len()]);
            } else {
                assert(m[a] == r[a - k.len()]);
                assert(m[b] == r[b - k.len()]);
            }
        }
        assert forall|a: int| 0 <= a < m.len() implies {
            let f = (#[trigger] m[a] - hhdm) as u64;
            &&& m[a] >= hhdm
            &&& f != 0
            &&& f & !0x000F_FFFF_FFFF_F000u64 == 0
        } by {
            if a < k.len() {
                assert(m[a] == k[a]);
            } else {
                let i = a - k.len();
                assert(m[a] == r[i]);
                assert(last.kind == MemoryKind::Usable);
                let f = (last.base + i * 4096) as u64;
                assert(i * 4096 + 4096 <= page_count(last.length as nat) * 4096) by (nonlinear_arith)
                    requires
                        i < page_count(last.length as nat),
                ;
                assert((last.base + i * 4096) % 4096 == 0) by (nonlinear_arith)
                    requires
                        last.base % 4096 == 0,
                        i >= 0,
                ;
                assert((m[a] - hhdm) as u64 == f);
                lemma_page_frame_ok(f);
            }
        }
    }
}

/// Whether a memory map is sane (see `map_sane`).
pub fn memory_map_sane(entries: &Vec<MemoryMapEntry>) -> (r: bool)
    ensures
        r == map_sane(entries@),
{
    let mut i: usize = 0;
    while i < entries.len()
        invariant
            0 <= i <= entries@.len(),
            forall|k: int| 0 <= k < i ==> region_sane(#[trigger] entries@[k]),
            forall|a: int, b: int|
                0 <= a < b < entries@.len() && a < i && (#[trigger] entries@[a]).kind == MemoryKind::Usable
                    && (#[trigger] entries@[b]).kind == MemoryKind::Usable ==> entries@[a].base + page_count(
                    entries@[a].length as nat,
                ) * 4096 <= entries@[b].base,
        decreases entries@.len() - i,
    {
        let e = entries[i];
        if e.kind == MemoryKind::Usable {
            if e.base % 4096 != 0 || e.base < 4096 || e.base > 0x10_0000_0000_0000 || e.length > 0x10_0000_0000_0000 {
                return false;
            }
            let end = e.base + (e.length + 4095) / 4096 * 4096;
            if end > 0x10_0000_0000_0000 {
                return false;
            }
            let mut j: usize = i + 1;
            while j < entries.len()
                invariant
                    i < j <= entries@.len(),
                    e == entries@[i as int],
                    e.kind == MemoryKind::Usable,
                    end == e.base + page_count(e.length as nat) * 4096,
                    forall|b: int| i < b < j && (#[trigger] entries@[b]).kind == MemoryKind::Usable ==> end <= entries@[b].base,
                decreases entries@.len() - j,
            {
                if entries[j].kind == MemoryKind::Usable && end > entries[j].base {
                    return false;
                }
                j = j + 1;
            }
        }
        i = i + 1;
    }
    true
}

/// A region whose pages all fit below the top of the address space once the
/// direct-map offset is added.
pub open spec fn region_fits(e: MemoryMapEntry, hhdm: u64) -> bool {
    e.kind == MemoryKind::Usable ==> e.base + page_count(e.length as nat) * 4096 + hhdm
        <= u64::MAX
}

/// A node of the free list: a direct-map address at or above the offset
/// with a whole page above it.
pub open spec fn node_ok(n: u64, hhdm: u64) -> bool {
    hhdm <= n && n + 4096 <= u64::MAX
}

/// The physical page allocator: a free list of page frames, each named by
/// its address in the higher-half direct map.  The last node of `nodes()`
/// is the head of the list, the one before it the head's successor.
pub struct PhysicalAllocator {
    free: Vec<u64>,
    hhdm_offset: u64,
}

impl PhysicalAllocator {
    /// The free list, the head last.
    pub closed spec fn nodes(&self) -> Seq<u64> {
        self.free@
    }

    /// The offset of the higher-half direct map.
    pub closed spec fn hhdm(&self) -> u64 {
        self.hhdm_offset
    }

    pub closed spec fn wf(&self) -> bool {
        forall|i: int| 0 <= i < self.free@.len() ==> node_ok(#[trigger] self.free@[i], self.hhdm_offset)
    }

    /// The offset of the higher-half direct map.
    pub fn hhdm_offset(&self) -> (r: u64)
        ensures
            r == self.hhdm(),
    {
        self.hhdm_offset
    }

    /// The number of pages on the free list.
    pub fn free_count(&self) -> (r: usize)
        ensures
            r == self.nodes().len(),
    {
        self.free.len()
    }

    /// The direct-map address of the page at the head of the list.
    pub fn head(&self) -> (r: u64)
        requires
            self.nodes().len() > 0,
        ensures
            r == self.nodes().last(),
    {
        self.free[self.free.len() - 1]
    }

    /// Every node of a well-formed free list is a direct-map address with a
    /// whole page above it.
    pub proof fn lemma_nodes_ok(&self)
        requires
            self.wf(),
        ensures
            forall|i: int| 0 <= i < self.nodes().len() ==> node_ok(#[trigger] self.nodes()[i], self.hhdm()),
            self.nodes().len() <= usize::MAX,
    {
        assert(self.free@.len() == self.free.len());
    }

    /// True when `allocate` hands out a page: the list has a head with a
    /// successor.
    pub open spec fn can_alloc(&self) -> bool {
        self.nodes().len() >= 2
    }

    /// The frame that the next `allocate` hands out, as a physical address.
    pub open spec fn next_frame(&self) -> u64 {
        (self.nodes().last() - self.hhdm()) as u64
    }

    /// Builds the free list from the memory map: every page of every usable
    /// region, in map order, so that the last page of the last usable region
    /// is the head.
    pub fn new(entries: &Vec<MemoryMapEntry>, hhdm_offset: u64) -> (res: Self)
        requires
            forall|i: int| 0 <= i < entries@.len() ==> region_fits(#[trigger] entries@[i], hhdm_offset),
            forall|i: int| 0 <= i < entries@.len() ==> #[trigger] entries@[i].length + 4096 <= usize::MAX,
        ensures
            res.wf(),
            res.hhdm() == hhdm_offset,
            res.nodes() == map_nodes(entries@, hhdm_offset),
            map_sane(entries@) ==> crate::mem::virt::frames_usable(&res),
    {
        let mut free: Vec<u64> = Vec::new();
        let mut i: usize = 0;
        while i < entries.len()
            invariant
                0 <= i <= entries@.len(),
                free@ == map_nodes(entries@.take(i as int), hhdm_offset),
                forall|k: int| 0 <= k < free@.len() ==> node_ok(#[trigger] free@[k], hhdm_offset),
                forall|k: int| 0 <= k < entries@.len() ==> region_fits(#[trigger] entries@[k], hhdm_offset),
                forall|k: int| 0 <= k < entries@.len() ==> #[trigger] entries@[k].length + 4096 <= usize::MAX,
            decreases entries@.len() - i,
        {
            let e = entries[i];
            assert(entries@.take(i as int + 1).drop_last() == entries@.take(i as int));
            assert(region_fits(entries@[i as int], hhdm_offset));
            if e.kind == MemoryKind::Usable {
                assert(4096usize & 4095usize == 0) by (bit_vector);
                let rounded = align_up(e.length as usize, 4096);
                let page_amount = rounded / 4096;
                assert(page_amount == page_count(e.length as nat));
                let ghost before = free@;
                let mut p: usize = 0;
                while p < page_amount
                    invariant
                        0 <= p <= page_amount,
                        page_amount == page_count(e.length as nat),
                        e.kind == MemoryKind::Usable,
                        e.base + page_amount * 4096 + hhdm_offset <= u64::MAX,
                        free@ == before + region_nodes(e, hhdm_offset).take(p as int),
                        forall|k: int| 0 <= k < free@.len() ==> node_ok(#[trigger] free@[k], hhdm_offset),
                    decreases page_amount - p,
                {
                    let node = e.base + (p as u64 * 4096) + hhdm_offset;
                    free.push(node);
                    p = p + 1;
                    assert(region_nodes(e, hhdm_offset).take(p as int)
                        == region_nodes(e, hhdm_offset).take(p - 1).push(node));
                }
                assert(region_nodes(e, hhdm_offset).take(p as int) == region_nodes(e, hhdm_offset));
            } else {
                assert(region_nodes(e, hhdm_offset) == Seq::<u64>::empty());
                assert(free@ == free@ + region_nodes(e, hhdm_offset));
            }
            i = i + 1;
        }
        assert(entries@.take(entries@.len() as int) == entries@);
        let res = PhysicalAllocator { free, hhdm_offset };
        proof {
            if map_sane(entries@) {
                lemma_sane_map_nodes(entries@, hhdm_offset);
                let n = res.nodes();
                assert(n.no_duplicates()) by {
                    assert forall|a: int, b: int| 0 <= a < n.len() && 0 <= b < n.len() && a != b implies n[a] != n[b] by {
                        if a < b {
                            assert(n[a] < n[b]);
                        } else {
                            assert(n[b] < n[a]);
                        }
                    }
                }
            }
        }
        res
    }

    /// Hands out the head of the free list as a physical address, as long
    /// as the head has a successor; the last node of the list is never
    /// handed out.
    pub fn allocate(&mut self) -> (r: Result<u64, KTError>)
        requires
            old(self).wf(),
            old(self).nodes().len() > 0,
        ensures
            final(self).wf(),
            final(self).hhdm() == old(self).hhdm(),
            old(self).can_alloc() ==> r == Ok::<u64, KTError>(old(self).next_frame())
                && final(self).nodes() == old(self).nodes().drop_last(),
            !old(self).can_alloc() ==> r == Err::<u64, KTError>(KTError::OutOfMemory)
                && final(self).nodes() == old(self).nodes(),
    {
        if self.free.len() >= 2 {
            let w = self.free.pop().unwrap();
            assert(node_ok(old(self).free@[old(self).free@.len() - 1], self.hhdm_offset));
            Ok(w - self.hhdm_offset)
        } else {
            Err(KTError::OutOfMemory)
        }
    }

    /// Puts the page at direct-map address `addr` back at the head of the
    /// free list.
    pub fn dealloc(&mut self, addr: u64) -> (r: Result<(), KTError>)
        requires
            old(self).wf(),
            old(self).nodes().len() > 0,
            node_ok(addr, old(self).hhdm()),
        ensures
            final(self).wf(),
            final(self).hhdm() == old(self).hhdm(),
            final(self).nodes() == old(self).nodes().push(addr),
            r == Ok::<(), KTError>(()),
    {
        self.free.push(addr);
        Ok(())
    }
}

/// Handing the frame that `allocate` gave back with `dealloc`, at its
/// direct-map address, restores the free list.
pub proof fn law_dealloc_undoes_allocate(p: PhysicalAllocator)
    requires
        p.wf(),
        p.can_alloc(),
    ensures
        p.nodes().drop_last().push((p.next_frame() + p.hhdm()) as u64) == p.nodes(),
        node_ok((p.next_frame() + p.hhdm()) as u64, p.hhdm()),
{
    p.lemma_nodes_ok();
    assert(node_ok(p.nodes()[p.nodes().len() - 1], p.hhdm()));
    assert(p.nodes().drop_last().push((p.next_frame() + p.hhdm()) as u64) =~= p.nodes());
}

} // verus!
