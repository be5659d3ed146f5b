use vstd::prelude::*;
use crate::mem::phys::{PhysicalAllocator, MemoryKind, MemoryMapEntry, page_count, align_up};
use crate::utils::KTError;

verus! {

/// The entry maps something (a table or a page).
pub const KTPRESENT: u64 = 1;
/// Writes are allowed through the entry.
pub const KTWRITEALLOWED: u64 = 2;
/// User mode may use the entry.
pub const KTUSERMODE: u64 = 4;
/// Write-through caching.
pub const KTWRITETHROUGH: u64 = 8;
/// Caching disabled.
pub const KTCACHEDISABLE: u64 = 16;
/// Instruction fetches are not allowed through the entry.
pub const KTEXECUTABLEDISABLE: u64 = 0x8000_0000_0000_0000;

/// The bits of a directory entry that hold the next table's address.
pub const TABLE_ADDR_MASK: u64 = 0x000F_FFFF_FFFF_F000;
/// The bits of a page entry that hold the page's physical address.
pub const PHYS_ADDR_MASK: u64 = 0x0007_FFFF_FFFF_F000;

/// A page entry made of a page-aligned frame below the 51-bit limit and
/// flags without address bits names that frame: what `map` writes is what
/// `virt_to_phys` reads back.
pub proof fn law_entry_names_its_frame(to_phys: u64, flags: u64)
    requires
        to_phys & !PHYS_ADDR_MASK == 0,
        flags & PHYS_ADDR_MASK == 0,
    ensures
        get_phys_spec(to_phys | flags) == to_phys,
{
    assert((to_phys | flags) & 0x0007_FFFF_FFFF_F000u64 == to_phys) by (bit_vector)
        requires
            to_phys & !0x0007_FFFF_FFFF_F000u64 == 0,
            flags & 0x0007_FFFF_FFFF_F000u64 == 0,
    ;
}

/// The index into the top-level table (bits 39..47 of the address).
pub open spec fn l4_index(va: u64) -> u64 {
    (va >> 39u64) & 0x1ffu64
}

/// The index into the third-level table (bits 30..38).
pub open spec fn l3_index(va: u64) -> u64 {
    (va >> 30u64) & 0x1ffu64
}

/// The index into the second-level table (bits 21..29).
pub open spec fn l2_index(va: u64) -> u64 {
    (va >> 21u64) & 0x1ffu64
}

/// The index into the last-level table (bits 12..20).
pub open spec fn l1_index(va: u64) -> u64 {
    (va >> 12u64) & 0x1ffu64
}

pub proof fn lemma_indices_in_range(va: u64)
    ensures
        l4_index(va) < 512,
        l3_index(va) < 512,
        l2_index(va) < 512,
        l1_index(va) < 512,
{
    assert(((va >> 39u64) & 0x1ffu64) < 512 && ((va >> 30u64) & 0x1ffu64) < 512 && ((va >> 21u64)
        & 0x1ffu64) < 512 && ((va >> 12u64) & 0x1ffu64) < 512) by (bit_vector);
}

/// The entry has its present bit set.
pub open spec fn present(e: u64) -> bool {
    e & KTPRESENT != 0
}

/// The table a directory entry names.
pub open spec fn table_of(e: u64) -> u64 {
    e & TABLE_ADDR_MASK
}

/// The physical address a page entry names.
pub open spec fn get_phys_spec(pte: u64) -> u64 {
    pte & PHYS_ADDR_MASK
}

/// A frame address that a directory entry can name exactly: page aligned
/// and below the 52-bit physical limit.
pub open spec fn frame_ok(f: u64) -> bool {
    f & !TABLE_ADDR_MASK == 0
}

/// Following entry `i` of table `t`: the table it names when present, 0
/// otherwise.
pub open spec fn next_table(mem: Map<u64, Seq<u64>>, t: u64, i: u64) -> u64 {
    let e = mem[t][i as int];
    if e & KTPRESENT == 0 {
        0
    } else {
        table_of(e)
    }
}

/// The last-level table that the walk from `root` reaches for `va`, or 0
/// when a table on the way is absent.
pub open spec fn leaf_table(mem: Map<u64, Seq<u64>>, root: u64, va: u64) -> u64 {
    let t3 = next_table(mem, root, l4_index(va));
    if t3 == 0 {
        0
    } else {
        let t2 = next_table(mem, t3, l3_index(va));
        if t2 == 0 {
            0
        } else {
            next_table(mem, t2, l2_index(va))
        }
    }
}

/// What the four-level walk from `root` gives for `va`: the physical
/// address in the last-level entry, or `None` when a table on the way is
/// absent or the last entry is zero.
pub open spec fn translate(mem: Map<u64, Seq<u64>>, root: u64, va: u64) -> Option<u64> {
    let t1 = leaf_table(mem, root, va);
    if t1 == 0 {
        None
    } else {
        let e = mem[t1][l1_index(va) as int];
        if e != 0 {
            Some(get_phys_spec(e))
        } else {
            None
        }
    }
}

/// The last-level entry that the walk from `root` reaches for `va`, or 0
/// when a table on the way is absent.
pub open spec fn leaf_entry(mem: Map<u64, Seq<u64>>, root: u64, va: u64) -> u64 {
    let t1 = leaf_table(mem, root, va);
    if t1 == 0 {
        0
    } else {
        mem[t1][l1_index(va) as int]
    }
}

/// How many tables a mapping of `va` has to create: one for each absent
/// table on the walk.
pub open spec fn allocs_needed(mem: Map<u64, Seq<u64>>, root: u64, va: u64) -> nat {
    let e0 = mem[root][l4_index(va) as int];
    if !present(e0) {
        3
    } else {
        let e1 = mem[table_of(e0)][l3_index(va) as int];
        if !present(e1) {
            2
        } else if !present(mem[table_of(e1)][l2_index(va) as int]) {
            1
        } else {
            0
        }
    }
}

/// A directory entry made of a frame and flags that hold no address bits
/// names the frame, and is present when the flags are.
pub proof fn lemma_entry_of_frame(f: u64, flags: u64)
    requires
        frame_ok(f),
        flags & TABLE_ADDR_MASK == 0,
    ensures
        table_of(f | flags) == f,
        present(f | flags) == present(flags),
        (f | flags) != 0 <==> (f != 0 || flags != 0),
{
    assert(((f | flags) & 0x000F_FFFF_FFFF_F000u64) == f && (((f | flags) & 1u64 != 0) == (flags & 1u64
        != 0)) && (((f | flags) != 0) == (f != 0 || flags != 0))) by (bit_vector)
        requires
            f & !0x000F_FFFF_FFFF_F000u64 == 0,
            flags & 0x000F_FFFF_FFFF_F000u64 == 0,
    ;
}

/// The table a directory entry names.
pub fn table_of_exec(e: u64) -> (r: u64)
    ensures
        r == table_of(e),
{
    e & TABLE_ADDR_MASK
}


/// One page table: the frame it lives in and its 512 entries.
pub struct PageTable {
    addr: u64,
    entries: Vec<u64>,
}

/// The tables of a list as a map from frame address to entries (the first
/// table of an address wins).
spec fn tables_mem(ts: Seq<PageTable>) -> Map<u64, Seq<u64>> {
    Map::new(
        |a: u64| exists|i: int| 0 <= i < ts.len() && (#[trigger] ts[i]).addr == a,
        |a: u64| ts[choose|i: int| 0 <= i < ts.len() && (#[trigger] ts[i]).addr == a].entries@,
    )
}

spec fn addrs_distinct(ts: Seq<PageTable>) -> bool {
    forall|i: int, j: int| 0 <= i < ts.len() && 0 <= j < ts.len() && i != j ==> (#[trigger] ts[i]).addr != (#[trigger] ts[j]).addr
}

proof fn lemma_tables_mem_index(ts: Seq<PageTable>, i: int)
    requires
        addrs_distinct(ts),
        0 <= i < ts.len(),
    ensures
        tables_mem(ts).contains_key(ts[i].addr),
        tables_mem(ts)[ts[i].addr] == ts[i].entries@,
{
    let a = ts[i].addr;
    assert(exists|k: int| 0 <= k < ts.len() && (#[trigger] ts[k]).addr == a);
    let k = choose|k: int| 0 <= k < ts.len() && (#[trigger] ts[k]).addr == a;
    assert(k == i);
}

proof fn lemma_tables_mem_update(ts: Seq<PageTable>, i: int, t: PageTable)
    requires
        addrs_distinct(ts),
        0 <= i < ts.len(),
        t.addr == ts[i].addr,
    ensures
        addrs_distinct(ts.update(i, t)),
        tables_mem(ts.update(i, t)) == tables_mem(ts).insert(t.addr, t.entries@),
{
    let ts2 = ts.update(i, t);
    assert forall|a: u64| #[trigger] tables_mem(ts2).contains_key(a) <==> tables_mem(ts).insert(t.addr, t.entries@).contains_key(a) by {
        if tables_mem(ts2).contains_key(a) {
            let k = choose|k: int| 0 <= k < ts2.len() && (#[trigger] ts2[k]).addr == a;
            if k != i {
                assert(ts[k].addr == a);
            }
        }
        if tables_mem(ts).contains_key(a) {
            let k = choose|k: int| 0 <= k < ts.len() && (#[trigger] ts[k]).addr == a;
            assert(ts2[k].addr == a);
        }
        if a == t.addr {
            assert(ts2[i].addr == a);
        }
    }
    assert forall|a: u64| #[trigger] tables_mem(ts2).contains_key(a) implies tables_mem(ts2)[a] == tables_mem(ts).insert(t.addr, t.entries@)[a] by {
        let k = choose|k: int| 0 <= k < ts2.len() && (#[trigger] ts2[k]).addr == a;
        lemma_tables_mem_index(ts2, k);
        if k != i {
            lemma_tables_mem_index(ts, k);
        }
    }
    assert(tables_mem(ts2) =~= tables_mem(ts).insert(t.addr, t.entries@));
}

proof fn lemma_tables_mem_push(ts: Seq<PageTable>, t: PageTable)
    requires
        addrs_distinct(ts),
        !tables_mem(ts).contains_key(t.addr),
    ensures
        addrs_distinct(ts.push(t)),
        tables_mem(ts.push(t)) == tables_mem(ts).insert(t.addr, t.entries@),
{
    let ts2 = ts.push(t);
    assert forall|i: int, j: int| 0 <= i < ts2.len() && 0 <= j < ts2.len() && i != j implies (#[trigger] ts2[i]).addr != (#[trigger] ts2[j]).addr by {
        if i == ts.len() {
            assert(ts[j].addr == ts2[j].addr);
            if ts[j].addr == t.addr {
                assert(tables_mem(ts).contains_key(t.addr));
            }
        } else if j == ts.len() {
            assert(ts[i].addr == ts2[i].addr);
            if ts[i].addr == t.addr {
                assert(tables_mem(ts).contains_key(t.addr));
            }
        }
    }
    assert forall|a: u64| #[trigger] tables_mem(ts2).contains_key(a) <==> tables_mem(ts).insert(t.addr, t.entries@).contains_key(a) by {
        if tables_mem(ts2).contains_key(a) {
            let k = choose|k: int| 0 <= k < ts2.len() && (#[trigger] ts2[k]).addr == a;
            if k < ts.len() {
                assert(ts[k].addr == a);
            }
        }
        if tables_mem(ts).contains_key(a) {
            let k = choose|k: int| 0 <= k < ts.len() && (#[trigger] ts[k]).addr == a;
            assert(ts2[k].addr == a);
        }
        if a == t.addr {
            assert(ts2[ts.len() as int].addr == a);
        }
    }
    assert forall|a: u64| #[trigger] tables_mem(ts2).contains_key(a) implies tables_mem(ts2)[a] == tables_mem(ts).insert(t.addr, t.entries@)[a] by {
        let k = choose|k: int| 0 <= k < ts2.len() && (#[trigger] ts2[k]).addr == a;
        lemma_tables_mem_index(ts2, k);
        if k < ts.len() {
            lemma_tables_mem_index(ts, k);
        }
    }
    assert(tables_mem(ts2) =~= tables_mem(ts).insert(t.addr, t.entries@));
}


/// No two present directory entries name the same table: the tables form
/// a tree below the root.
pub open spec fn unique_parents(mem: Map<u64, Seq<u64>>, levels: Map<u64, nat>) -> bool {
    forall|t1: u64, i1: int, t2: u64, i2: int|
        #![trigger mem[t1][i1], mem[t2][i2]]
        mem.contains_key(t1) && mem.contains_key(t2) && levels[t1] < 3 && levels[t2] < 3 && 0 <= i1 < 512
            && 0 <= i2 < 512 && present(mem[t1][i1]) && present(mem[t2][i2]) && table_of(mem[t1][i1])
            == table_of(mem[t2][i2]) ==> t1 == t2 && i1 == i2
}

/// The shape that every well-formed address space has: the root is a
/// top-level table, no table lives at frame 0, every table has 512
/// entries, present directory entries name tables one level down, and no
/// table has two parents.
pub open spec fn walk_ok(mem: Map<u64, Seq<u64>>, levels: Map<u64, nat>, root: u64) -> bool {
    &&& mem.contains_key(root)
    &&& levels[root] == 0
    &&& !mem.contains_key(0)
    &&& forall|t: u64| #[trigger] mem.contains_key(t) ==> mem[t].len() == 512 && levels[t] <= 3
    &&& forall|t: u64, i: int|
        #![trigger mem[t][i]]
        mem.contains_key(t) && levels[t] < 3 && 0 <= i < 512 && present(mem[t][i])
            ==> mem.contains_key(table_of(mem[t][i])) && levels[table_of(mem[t][i])] == levels[t] + 1
    &&& unique_parents(mem, levels)
}

/// Two addresses that fall in the same page: the four table indices agree.
pub open spec fn same_slot(va: u64, vb: u64) -> bool {
    &&& l4_index(va) == l4_index(vb)
    &&& l3_index(va) == l3_index(vb)
    &&& l2_index(va) == l2_index(vb)
    &&& l1_index(va) == l1_index(vb)
}

/// Two addresses a whole number of pages apart, fewer than 2^36 pages, never
/// fall in the same page slot.
pub proof fn lemma_distinct_pages_distinct_slots(va: u64, d: u64)
    requires
        1 <= d < 0x10_0000_0000u64,
        va + d * 4096 <= u64::MAX,
    ensures
        !same_slot(va, (va + d * 4096) as u64),
{
    let vb = (va + d * 4096) as u64;
    assert(!(((va >> 39u64) & 0x1ffu64) == ((vb >> 39u64) & 0x1ffu64) && ((va >> 30u64) & 0x1ffu64) == ((vb
        >> 30u64) & 0x1ffu64) && ((va >> 21u64) & 0x1ffu64) == ((vb >> 21u64) & 0x1ffu64) && ((va >> 12u64)
        & 0x1ffu64) == ((vb >> 12u64) & 0x1ffu64))) by (bit_vector)
        requires
            1 <= d < 0x10_0000_0000u64,
            va + d * 4096 <= 0xffff_ffff_ffff_ffffu64,
            vb == va + d * 4096,
    ;
}

/// Linking a fresh zeroed table into an absent directory entry leaves
/// every translation as it was.
pub proof fn lemma_fresh_link_keeps_translation(
    m: Map<u64, Seq<u64>>,
    levels: Map<u64, nat>,
    root: u64,
    table: u64,
    index: u64,
    r: u64,
    e: u64,
    m2: Map<u64, Seq<u64>>,
)
    requires
        walk_ok(m, levels, root),
        m.contains_key(table),
        levels[table] < 3,
        index < 512,
        !present(m[table][index as int]),
        !m.contains_key(r),
        r != 0,
        table_of(e) == r,
        m2 == m.insert(table, m[table].update(index as int, e)).insert(r, zero_table()),
    ensures
        forall|va: u64| #[trigger] translate(m2, root, va) == translate(m, root, va),
        forall|va: u64| #[trigger] leaf_entry(m2, root, va) == leaf_entry(m, root, va),
{
    assert(0u64 & 1u64 == 0) by (bit_vector);
    assert forall|va: u64|
        #![trigger translate(m2, root, va)]
        #![trigger leaf_entry(m2, root, va)]
        translate(m2, root, va) == translate(m, root, va) && leaf_entry(m2, root, va) == leaf_entry(m, root, va) by {
        lemma_indices_in_range(va);
        let a4 = l4_index(va);
        let a3 = l3_index(va);
        let a2 = l2_index(va);
        let a1 = l1_index(va);
        let n3 = next_table(m, root, a4);
        if root == table && a4 == index {
            assert(n3 == 0);
            let n3b = next_table(m2, root, a4);
            if n3b != 0 {
                assert(n3b == r);
                assert(m2[r][a3 as int] == 0);
            }
        } else {
            assert(m2[root][a4 as int] == m[root][a4 as int]);
            if n3 != 0 {
                let n2 = next_table(m, n3, a3);
                assert(m.contains_key(n3) && levels[n3] == 1);
                if n3 == table && a3 == index {
                    let n2b = next_table(m2, n3, a3);
                    if n2b != 0 {
                        assert(n2b == r);
                        assert(m2[r][a2 as int] == 0);
                    }
                } else {
                    assert(m2[n3][a3 as int] == m[n3][a3 as int]);
                    if n2 != 0 {
                        let n1 = next_table(m, n2, a2);
                        assert(m.contains_key(n2) && levels[n2] == 2);
                        if n2 == table && a2 == index {
                            let n1b = next_table(m2, n2, a2);
                            if n1b != 0 {
                                assert(n1b == r);
                                assert(m2[r][a1 as int] == 0);
                            }
                        } else {
                            assert(m2[n2][a2 as int] == m[n2][a2 as int]);
                            if n1 != 0 {
                                assert(m.contains_key(n1) && levels[n1] == 3);
                                assert(m2[n1] == m[n1]);
                            }
                        }
                    }
                }
            }
        }
    }
}

/// Two walks that reach the same last-level table took the same three
/// upper indices.
pub proof fn lemma_leaf_table_injective(m: Map<u64, Seq<u64>>, levels: Map<u64, nat>, root: u64, va: u64, vb: u64)
    requires
        walk_ok(m, levels, root),
        leaf_table(m, root, va) != 0,
        leaf_table(m, root, va) == leaf_table(m, root, vb),
    ensures
        l4_index(va) == l4_index(vb),
        l3_index(va) == l3_index(vb),
        l2_index(va) == l2_index(vb),
{
    lemma_indices_in_range(va);
    lemma_indices_in_range(vb);
    let p3 = next_table(m, root, l4_index(va));
    let q3 = next_table(m, root, l4_index(vb));
    let p2 = next_table(m, p3, l3_index(va));
    let q2 = next_table(m, q3, l3_index(vb));
    assert(m[p2][l2_index(va) as int] == m[p2][l2_index(va) as int]);
    assert(m[q2][l2_index(vb) as int] == m[q2][l2_index(vb) as int]);
    assert(p2 == q2 && l2_index(va) == l2_index(vb));
    assert(m[p3][l3_index(va) as int] == m[p3][l3_index(va) as int]);
    assert(m[q3][l3_index(vb) as int] == m[q3][l3_index(vb) as int]);
    assert(p3 == q3 && l3_index(va) == l3_index(vb));
    assert(m[root][l4_index(va) as int] == m[root][l4_index(va) as int]);
    assert(m[root][l4_index(vb) as int] == m[root][l4_index(vb) as int]);
}

/// Writing entry `l1_index(vb)` of the last-level table that the walk for
/// `vb` reaches changes no translation but those of `vb`'s page.
pub proof fn lemma_leaf_write_frame(
    m: Map<u64, Seq<u64>>,
    levels: Map<u64, nat>,
    root: u64,
    vb: u64,
    v: u64,
    m2: Map<u64, Seq<u64>>,
)
    requires
        walk_ok(m, levels, root),
        leaf_table(m, root, vb) != 0,
        m2 == m.insert(leaf_table(m, root, vb), m[leaf_table(m, root, vb)].update(l1_index(vb) as int, v)),
    ensures
        forall|va: u64| !same_slot(va, vb) ==> #[trigger] translate(m2, root, va) == translate(m, root, va),
        forall|va: u64| !same_slot(va, vb) ==> #[trigger] leaf_entry(m2, root, va) == leaf_entry(m, root, va),
        leaf_entry(m2, root, vb) == v,
{
    let t1 = leaf_table(m, root, vb);
    lemma_indices_in_range(vb);
    assert(m.contains_key(t1) && levels[t1] == 3) by {
        let q3 = next_table(m, root, l4_index(vb));
        let q2 = next_table(m, q3, l3_index(vb));
        assert(m.contains_key(q3) && levels[q3] == 1);
        assert(m.contains_key(q2) && levels[q2] == 2);
    }
    assert forall|va: u64|
        #![trigger translate(m2, root, va)]
        #![trigger leaf_entry(m2, root, va)]
        !same_slot(va, vb) implies translate(m2, root, va) == translate(m, root, va)
        && leaf_entry(m2, root, va) == leaf_entry(m, root, va) by {
        lemma_indices_in_range(va);
        let n3 = next_table(m, root, l4_index(va));
        assert(m2[root] == m[root]);
        if n3 != 0 {
            assert(m.contains_key(n3) && levels[n3] == 1);
            assert(m2[n3] == m[n3]);
            let n2 = next_table(m, n3, l3_index(va));
            if n2 != 0 {
                assert(m.contains_key(n2) && levels[n2] == 2);
                assert(m2[n2] == m[n2]);
                let n1 = next_table(m, n2, l2_index(va));
                assert(leaf_table(m2, root, va) == leaf_table(m, root, va));
                if n1 != 0 && n1 == t1 {
                    lemma_leaf_table_injective(m, levels, root, va, vb);
                    assert(l1_index(va) != l1_index(vb));
                }
            }
        }
    }
}

/// The free list of `pmm` holds distinct page-aligned frames below the
/// 52-bit limit, none of them zero.
pub open spec fn frames_usable(pmm: &PhysicalAllocator) -> bool {
    &&& pmm.nodes().no_duplicates()
    &&& forall|i: int| 0 <= i < pmm.nodes().len() ==> {
        let f = (#[trigger] pmm.nodes()[i] - pmm.hhdm()) as u64;
        &&& f != 0
        &&& frame_ok(f)
    }
}

/// The memory-map regions that the direct map covers.
pub open spec fn hhdm_mapped(k: MemoryKind) -> bool {
    ||| k == MemoryKind::AcpiNvs
    ||| k == MemoryKind::AcpiReclaimable
    ||| k == MemoryKind::Usable
    ||| k == MemoryKind::BootloaderReclaimable
    ||| k == MemoryKind::Framebuffer
    ||| k == MemoryKind::KernelAndModules
}

/// Whether the search for a gap of `need` bytes, looking at the pair of
/// neighbouring regions `i - 1` and `i` and then further, finds one before
/// the list ends, with every region it passes ending before the next one
/// starts.
pub open spec fn scan_ok(regs: Seq<VMMRegion>, i: int, need: int) -> bool
    decreases regs.len() - i,
{
    if 1 <= i < regs.len() {
        &&& regs[i - 1].base + regs[i - 1].length <= u64::MAX
        &&& regs[i].base >= regs[i - 1].base + regs[i - 1].length
        &&& (regs[i].base - (regs[i - 1].base + regs[i - 1].length) >= need || scan_ok(regs, i + 1, need))
    } else {
        false
    }
}

/// The index of the upper region of the first gap of at least `need` bytes,
/// from pair `i - 1`, `i` on.
pub open spec fn scan_index(regs: Seq<VMMRegion>, i: int, need: int) -> int
    decreases regs.len() - i,
{
    if 1 <= i < regs.len() {
        if regs[i].base - (regs[i - 1].base + regs[i - 1].length) >= need {
            i
        } else {
            scan_index(regs, i + 1, need)
        }
    } else {
        i
    }
}

/// The index of the first region based at `addr`, or the number of regions
/// when none is.
pub open spec fn first_base_index(regs: Seq<VMMRegion>, addr: u64) -> int
    decreases regs.len(),
{
    if regs.len() == 0 {
        0
    } else if regs[0].base == addr {
        0
    } else {
        1 + first_base_index(regs.drop_first(), addr)
    }
}

pub proof fn lemma_first_base_index(regs: Seq<VMMRegion>, addr: u64)
    ensures
        0 <= first_base_index(regs, addr) <= regs.len(),
        first_base_index(regs, addr) < regs.len() ==> regs[first_base_index(regs, addr)].base == addr,
        forall|j: int| 0 <= j < first_base_index(regs, addr) ==> (#[trigger] regs[j]).base != addr,
    decreases regs.len(),
{
    if regs.len() > 0 && regs[0].base != addr {
        lemma_first_base_index(regs.drop_first(), addr);
        assert forall|j: int| 0 <= j < first_base_index(regs, addr) implies (#[trigger] regs[j]).base != addr by {
            if j > 0 {
                assert(regs.drop_first()[j - 1] == regs[j]);
            }
        }
    }
}

/// A prefix of a prefix of `n0` is a prefix of `n0`.
pub proof fn lemma_prefix_of_prefix(n0: Seq<u64>, a: Seq<u64>, k: int)
    requires
        a.len() <= n0.len(),
        a == n0.take(a.len() as int),
        0 <= k <= a.len(),
    ensures
        a.take(k) == n0.take(k),
{
    assert(a.take(k) =~= n0.take(k));
}

/// A mapping never needs more than three new tables.
pub proof fn lemma_allocs_needed_at_most_3(mem: Map<u64, Seq<u64>>, root: u64, va: u64)
    ensures
        allocs_needed(mem, root, va) <= 3,
{
}

/// The direct-map page count of a prefix never exceeds that of the whole.
pub proof fn lemma_hhdm_total_monotone(entries: Seq<MemoryMapEntry>, k: int)
    requires
        0 <= k <= entries.len(),
    ensures
        hhdm_page_total(entries.take(k)) <= hhdm_page_total(entries),
    decreases entries.len() - k,
{
    if k < entries.len() {
        lemma_hhdm_total_monotone(entries, k + 1);
        assert(entries.take(k + 1).drop_last() == entries.take(k));
        assert(hhdm_page_total(entries.take(k + 1)) >= hhdm_page_total(entries.take(k)));
    } else {
        assert(entries.take(k) == entries);
    }
}

/// The number of pages the direct map covers for a memory map.
pub open spec fn hhdm_page_total(entries: Seq<MemoryMapEntry>) -> nat
    decreases entries.len(),
{
    if entries.len() == 0 {
        0
    } else {
        hhdm_page_total(entries.drop_last()) + if hhdm_mapped(entries.last().kind) {
            page_count(entries.last().length as nat)
        } else {
            0
        }
    }
}

/// What mapping the pages of `pairs` (virtual page, last-level entry), one
/// after the other, leaves for `va`: the entry of the last pair whose page
/// holds `va`, or nothing when none does.
pub open spec fn mapped_by(pairs: Seq<(u64, u64)>, va: u64) -> Option<u64>
    decreases pairs.len(),
{
    if pairs.len() == 0 {
        None
    } else if same_slot(va, pairs.last().0) {
        Some(pairs.last().1)
    } else {
        mapped_by(pairs.drop_last(), va)
    }
}

/// The entry of a mapping, or 0 for none.
pub open spec fn entry_or_zero(m: Option<u64>) -> u64 {
    match m {
        Some(e) => e,
        None => 0,
    }
}

/// The frame that the entry of a mapping names, or nothing for none.
pub open spec fn entry_frame(m: Option<u64>) -> Option<u64> {
    match m {
        Some(e) => Some(get_phys_spec(e)),
        None => None,
    }
}

/// The last-level entry that maps `pa` present and writable, and nothing
/// more.
pub open spec fn kernel_entry(pa: u64) -> u64 {
    pa | (KTPRESENT | KTWRITEALLOWED)
}

/// The first `n` pages of the kernel image: virtual page to entry.
pub open spec fn kernel_pages(kernel_virt_base: u64, kernel_phys_base: u64, n: nat) -> Seq<(u64, u64)> {
    Seq::new(n, |i: int| ((kernel_virt_base + i * 4096) as u64, kernel_entry((kernel_phys_base + i * 4096) as u64)))
}

/// The first `n` pages of memory-map region `e` in the direct map at
/// offset `hhdm`: virtual page to entry.
pub open spec fn region_pages(e: MemoryMapEntry, hhdm: u64, n: nat) -> Seq<(u64, u64)> {
    Seq::new(n, |p: int| ((hhdm + e.base + p * 4096) as u64, kernel_entry((e.base + p * 4096) as u64)))
}

/// Every page of the regions of `entries` that the direct map covers, in
/// order.
pub open spec fn direct_map_pages(entries: Seq<MemoryMapEntry>, hhdm: u64) -> Seq<(u64, u64)>
    decreases entries.len(),
{
    if entries.len() == 0 {
        Seq::empty()
    } else {
        let e = entries.last();
        direct_map_pages(entries.drop_last(), hhdm) + if hhdm_mapped(e.kind) {
            region_pages(e, hhdm, page_count(e.length as nat))
        } else {
            Seq::empty()
        }
    }
}

/// The pages the kernel's first address space maps, in the order mapped:
/// `kernel_size / 4096 + 1` pages of the kernel image, then the direct map
/// of the memory map.
pub open spec fn initial_pages(
    entries: Seq<MemoryMapEntry>,
    kernel_phys_base: u64,
    kernel_virt_base: u64,
    kernel_size: u64,
    hhdm: u64,
) -> Seq<(u64, u64)> {
    kernel_pages(kernel_virt_base, kernel_phys_base, (kernel_size / 4096 + 1) as nat) + direct_map_pages(entries, hhdm)
}

/// Of a sequence of mappings, the last one of a page wins: a page mapped
/// by the pair at `i` and by no later pair gets that pair's frame.
pub proof fn law_last_mapping_wins(pairs: Seq<(u64, u64)>, i: int, va: u64)
    requires
        0 <= i < pairs.len(),
        same_slot(va, pairs[i].0),
        forall|j: int| i < j < pairs.len() ==> !same_slot(va, #[trigger] pairs[j].0),
    ensures
        mapped_by(pairs, va) == Some(pairs[i].1),
    decreases pairs.len(),
{
    if i < pairs.len() - 1 {
        assert(!same_slot(va, pairs[pairs.len() - 1].0));
        law_last_mapping_wins(pairs.drop_last(), i, va);
    }
}

/// A page that no mapping of a sequence names stays unmapped.
pub proof fn law_unmapped_page(pairs: Seq<(u64, u64)>, va: u64)
    requires
        forall|j: int| 0 <= j < pairs.len() ==> !same_slot(va, #[trigger] pairs[j].0),
    ensures
        mapped_by(pairs, va) is None,
    decreases pairs.len(),
{
    if pairs.len() > 0 {
        assert(!same_slot(va, pairs[pairs.len() - 1].0));
        law_unmapped_page(pairs.drop_last(), va);
    }
}

/// Different pages of a reserved region are backed by different frames.
pub proof fn law_backing_frames_distinct(
    pm: PageMap,
    nodes: Seq<u64>,
    hhdm: u64,
    base: u64,
    flags: u64,
    idx: Seq<int>,
    n: nat,
    a: int,
    b: int,
)
    requires
        pages_backed(pm, nodes, hhdm, base, flags, idx, n),
        nodes.no_duplicates(),
        0 <= a < b < n,
    ensures
        nodes[idx[a]] != nodes[idx[b]],
{
    assert(idx[a] > idx[b]);
}

/// `f` is the frame of no page on the free list of `pmm`.
pub open spec fn off_free_list(pmm: PhysicalAllocator, f: u64) -> bool {
    forall|i: int| 0 <= i < pmm.nodes().len() ==> #[trigger] pmm.nodes()[i] - pmm.hhdm() != f
}

/// A frame off a free list stays off every shorter head of it.
pub proof fn lemma_off_free_list_prefix(p0: PhysicalAllocator, p1: PhysicalAllocator, f: u64, k: int)
    requires
        off_free_list(p0, f),
        p1.hhdm() == p0.hhdm(),
        0 <= k <= p0.nodes().len(),
        p1.nodes() == p0.nodes().take(k),
    ensures
        off_free_list(p1, f),
{
    assert forall|i: int| 0 <= i < p1.nodes().len() implies #[trigger] p1.nodes()[i] - p1.hhdm() != f by {
        assert(p1.nodes()[i] == p0.nodes()[i]);
    }
}

/// Two addresses in one page slot translate alike, through one entry.
pub proof fn lemma_same_slot_translate(mem: Map<u64, Seq<u64>>, root: u64, va: u64, vb: u64)
    requires
        same_slot(va, vb),
    ensures
        translate(mem, root, va) == translate(mem, root, vb),
        leaf_entry(mem, root, va) == leaf_entry(mem, root, vb),
{
}

/// One more mapping, of `from` with entry `e`, extends a sequence of
/// mappings that described every last-level entry and translation before.
pub proof fn lemma_map_step(pm0: PageMap, pm1: PageMap, pairs: Seq<(u64, u64)>, from: u64, e: u64)
    requires
        forall|va: u64| #[trigger] pm0.translate_va(va) == entry_frame(mapped_by(pairs, va)),
        forall|va: u64| #[trigger] pm0.entry_va(va) == entry_or_zero(mapped_by(pairs, va)),
        pm1.translate_va(from) == Some(get_phys_spec(e)),
        pm1.entry_va(from) == e,
        forall|va: u64| !same_slot(va, from) ==> #[trigger] pm1.translate_va(va) == pm0.translate_va(va),
        forall|va: u64| !same_slot(va, from) ==> #[trigger] pm1.entry_va(va) == pm0.entry_va(va),
    ensures
        forall|va: u64| #[trigger] pm1.translate_va(va) == entry_frame(mapped_by(pairs.push((from, e)), va)),
        forall|va: u64| #[trigger] pm1.entry_va(va) == entry_or_zero(mapped_by(pairs.push((from, e)), va)),
{
    assert(pairs.push((from, e)).drop_last() =~= pairs);
    assert forall|va: u64|
        #![trigger pm1.translate_va(va)]
        #![trigger pm1.entry_va(va)]
        pm1.translate_va(va) == entry_frame(mapped_by(pairs.push((from, e)), va))
            && pm1.entry_va(va) == entry_or_zero(mapped_by(pairs.push((from, e)), va)) by {
        if same_slot(va, from) {
            lemma_same_slot_translate(pm1.mem(), pm1.root(), va, from);
        } else {
            assert(pm0.translate_va(va) == entry_frame(mapped_by(pairs, va)));
            assert(pm0.entry_va(va) == entry_or_zero(mapped_by(pairs, va)));
        }
    }
}

/// A table of 512 empty entries.
pub open spec fn zero_table() -> Seq<u64> {
    Seq::new(512, |i: int| 0u64)
}

/// A region of kernel virtual address space: its base, its length, and
/// the direct-map address of the page that holds its list node.
pub struct VMMRegion {
    pub base: u64,
    pub length: u64,
    pub node: u64,
}

/// An address space: its page tables, rooted at a top-level table, and its
/// list of virtual regions.
pub struct PageMap {
    tables: Vec<PageTable>,
    levels: Ghost<Map<u64, nat>>,
    head: Vec<VMMRegion>,
    rootpagetable: u64,
    hhdm_offset: u64,
}

/// The `n` pages from `base` are backed, in `pm`, by frames of the free
/// list `nodes` (direct-map addresses at offset `hhdm`): page `j` translates
/// to the frame at index `idx[j]`, its last-level entry being that frame
/// with `flags` and nothing more; the indices fall
/// strictly as `j` rises (each page takes a frame nearer the head than the
/// page before), and none is the last index; and no frame is a page table
/// of `pm`.
pub open spec fn pages_backed(
    pm: PageMap,
    nodes: Seq<u64>,
    hhdm: u64,
    base: u64,
    flags: u64,
    idx: Seq<int>,
    n: nat,
) -> bool {
    &&& idx.len() == n
    &&& forall|j: int| 0 <= j < n ==> 0 <= #[trigger] idx[j] < nodes.len() - 1
    &&& forall|a: int, b: int| 0 <= a < b < n ==> #[trigger] idx[a] > #[trigger] idx[b]
    &&& forall|j: int|
        0 <= j < n ==> #[trigger] pm.translate_va((base + j * 4096) as u64) == Some(
            get_phys_spec(((nodes[idx[j]] - hhdm) as u64) | flags),
        )
    &&& forall|j: int| 0 <= j < n ==> !pm.mem().contains_key(((nodes[#[trigger] idx[j]] - hhdm) as u64))
    &&& forall|j: int|
        0 <= j < n ==> #[trigger] pm.entry_va((base + j * 4096) as u64) == ((nodes[idx[j]] - hhdm) as u64) | flags
}

/// What reserving `size` bytes with `flags` in `pm0` leaves in `pm1`: the
/// base of the new region is the end of the region before the first gap
/// with room for the rounded size and one more page; the region, whose
/// list node is the page at the head of `pmm0`, is listed there; and, for
/// a present mapping of fewer than 2^36 pages, each of its pages
/// translates, to a frame of its own taken from the free list of `pmm0`.
pub open spec fn region_alloc_post(
    pm0: PageMap,
    pm1: PageMap,
    pmm0: PhysicalAllocator,
    size: u64,
    flags: u64,
    r: Option<u64>,
) -> bool {
    let regs = pm0.regions();
    let k = scan_index(regs, 1, (page_count(size as nat) * 4096 + 4096) as int);
    let base = (regs[k - 1].base + regs[k - 1].length) as u64;
    &&& 1 <= k < regs.len()
    &&& r == Some(base)
    &&& pm1.regions() == regs.insert(
        k,
        (VMMRegion { base, length: (page_count(size as nat) * 4096) as u64, node: pmm0.nodes().last() }),
    )
    &&& present(flags) && page_count(size as nat) < 0x10_0000_0000 ==> forall|j: int|
        0 <= j < page_count(size as nat) ==> (#[trigger] pm1.translate_va((base + j * 4096) as u64)) is Some
    &&& present(flags) && page_count(size as nat) < 0x10_0000_0000 ==> exists|idx: Seq<int>|
        #[trigger] pages_backed(pm1, pmm0.nodes(), pmm0.hhdm(), base, flags, idx, page_count(size as nat))
}

/// What releasing the region based at `addr` in `pm0` leaves in `pm1` and
/// `pmm1`: when such a region is listed, it is unlisted unless it is the
/// last, its pages no longer translate, every other page translates as
/// before, and the free list gets each page's frame and then the node's
/// page; else nothing changes.
pub open spec fn region_dealloc_post(
    pm0: PageMap,
    pm1: PageMap,
    pmm0: PhysicalAllocator,
    pmm1: PhysicalAllocator,
    addr: u64,
) -> bool {
    let regs = pm0.regions();
    let k = first_base_index(regs, addr);
    let reg = regs[k];
    let num = reg.length / 4096;
    if k < regs.len() {
        &&& pm1.regions() == if k + 1 < regs.len() { regs.remove(k) } else { regs }
        &&& forall|i: int| 0 <= i < num ==> (#[trigger] pm1.translate_va((reg.base + i * 4096) as u64)) is None
        &&& forall|va: u64| (forall|i: int| 0 <= i < num ==> !same_slot(va, #[trigger] ((reg.base + i * 4096) as u64)))
            ==> #[trigger] pm1.translate_va(va) == pm0.translate_va(va)
        &&& pmm1.nodes() == pmm0.nodes() + Seq::new(
            num as nat,
            |i: int| (pm0.translate_va((reg.base + i * 4096) as u64).unwrap() + pm0.hhdm()) as u64,
        ) + seq![reg.node]
    } else {
        &&& pm1 == pm0
        &&& pmm1 == pmm0
    }
}

impl PageMap {
    /// The page tables: frame address to entries.
    pub closed spec fn mem(&self) -> Map<u64, Seq<u64>> {
        tables_mem(self.tables@)
    }

    /// The frame of the top-level table.
    pub closed spec fn root(&self) -> u64 {
        self.rootpagetable
    }

    /// The offset of the higher-half direct map.
    pub closed spec fn hhdm(&self) -> u64 {
        self.hhdm_offset
    }

    /// The depth of a table below the root (the root is at depth 0, the
    /// last-level tables at depth 3).
    pub closed spec fn level(&self, t: u64) -> nat {
        self.levels@[t]
    }

    /// The depth of every table.
    pub closed spec fn levels_map(&self) -> Map<u64, nat> {
        self.levels@
    }

    /// The virtual regions, in list order.
    pub closed spec fn regions(&self) -> Seq<VMMRegion> {
        self.head@
    }

    /// What the hardware walk gives for `va`.
    pub open spec fn translate_va(&self, va: u64) -> Option<u64> {
        translate(self.mem(), self.root(), va)
    }

    /// The last-level entry the hardware walk reaches for `va` (0 when a
    /// table on the way is absent).
    pub open spec fn entry_va(&self, va: u64) -> u64 {
        leaf_entry(self.mem(), self.root(), va)
    }

    pub closed spec fn wf(&self) -> bool {
        &&& addrs_distinct(self.tables@)
        &&& forall|i: int| 0 <= i < self.tables@.len() ==> (#[trigger] self.tables@[i]).entries@.len() == 512
            && self.tables@[i].addr != 0
        &&& self.levels@.dom() == self.mem().dom()
        &&& self.mem().contains_key(self.rootpagetable)
        &&& self.levels@[self.rootpagetable] == 0
        &&& forall|t: u64| #[trigger] self.mem().contains_key(t) ==> self.levels@[t] <= 3
        &&& forall|t: u64, i: int|
            #![trigger self.mem()[t][i]]
            self.mem().contains_key(t) && self.levels@[t] < 3 && 0 <= i < 512 && present(self.mem()[t][i])
                ==> self.mem().contains_key(table_of(self.mem()[t][i]))
                && self.levels@[table_of(self.mem()[t][i])] == self.levels@[t] + 1
        &&& unique_parents(self.mem(), self.levels@)
    }

    /// The free list of `pmm` holds distinct page-aligned frames below the
    /// 52-bit limit, none of them zero and none of them already a table of
    /// this address space.
    pub open spec fn frames_fresh(&self, pmm: &PhysicalAllocator) -> bool {
        &&& pmm.hhdm() == self.hhdm()
        &&& pmm.nodes().no_duplicates()
        &&& forall|i: int| 0 <= i < pmm.nodes().len() ==> {
            let f = (#[trigger] pmm.nodes()[i] - pmm.hhdm()) as u64;
            &&& f != 0
            &&& frame_ok(f)
            &&& !self.mem().contains_key(f)
        }
    }

    /// Builds the kernel's address space: a fresh root table from `pmm`,
    /// the kernel image mapped page by page (`kernel_size / 4096 + 1` pages
    /// from `kernel_phys_base` to `kernel_virt_base`), every page of the
    /// memory-map regions that the direct map covers mapped at its
    /// direct-map address, and the two initial regions.  (The caller loads
    /// the root into CR3.)
    pub fn new_inital(
        entries: &Vec<MemoryMapEntry>,
        kernel_phys_base: u64,
        kernel_virt_base: u64,
        kernel_size: u64,
        pmm: &mut PhysicalAllocator,
    ) -> (r: Result<PageMap, KTError>)
        requires
            old(pmm).wf(),
            frames_usable(&*old(pmm)),
            kernel_virt_base + (kernel_size / 4096) * 4096 <= u64::MAX,
            kernel_phys_base + (kernel_size / 4096) * 4096 <= u64::MAX,
            forall|i: int| 0 <= i < entries@.len() ==> #[trigger] entries@[i].length + 4096 <= usize::MAX,
            forall|i: int| 0 <= i < entries@.len() && hhdm_mapped(#[trigger] entries@[i].kind) ==> old(pmm).hhdm()
                + entries@[i].base + page_count(entries@[i].length as nat) * 4096 <= u64::MAX,
            hhdm_page_total(entries@) <= usize::MAX,
        ensures
            final(pmm).wf(),
            final(pmm).hhdm() == old(pmm).hhdm(),
            final(pmm).nodes() == old(pmm).nodes().take(final(pmm).nodes().len() as int),
            match r {
                Ok(q) => {
                    &&& q.wf()
                    &&& q.frames_fresh(&*final(pmm))
                    &&& q.hhdm() == old(pmm).hhdm()
                    &&& q.root() == old(pmm).next_frame()
                    &&& q.regions().len() == 2
                    &&& q.regions()[0].base == old(pmm).hhdm()
                    &&& q.regions()[0].length == hhdm_page_total(entries@)
                    &&& q.regions()[1].base == kernel_virt_base
                    &&& q.regions()[1].length == kernel_size
                    &&& forall|va: u64| #[trigger] q.entry_va(va) == entry_or_zero(mapped_by(
                        initial_pages(entries@, kernel_phys_base, kernel_virt_base, kernel_size, old(pmm).hhdm()),
                        va,
                    ))
                    &&& forall|va: u64| #[trigger] q.translate_va(va) == entry_frame(mapped_by(
                        initial_pages(entries@, kernel_phys_base, kernel_virt_base, kernel_size, old(pmm).hhdm()),
                        va,
                    ))
                },
                Err(e) => e == KTError::OutOfMemory,
            },
            old(pmm).nodes().len() >= 3 * (kernel_size / 4096 + 1 + hhdm_page_total(entries@)) + 4 ==> r is Ok,
    {
        let ghost n0 = pmm.nodes();
        let ghost enough = n0.len() >= 3 * (kernel_size / 4096 + 1 + hhdm_page_total(entries@)) + 4;
        let hhdm = pmm.hhdm_offset();
        if pmm.free_count() < 2 {
            assert(pmm.nodes() == n0.take(n0.len() as int));
            return Err(KTError::OutOfMemory);
        }
        proof {
            pmm.lemma_nodes_ok();
            assert(crate::mem::phys::node_ok(n0[n0.len() - 1], pmm.hhdm()));
        }
        let root = match pmm.allocate() {
            Ok(f) => f,
            Err(_) => {
                proof {
                    assert(false);
                }
                0
            },
        };
        let ghost f_top = (n0[n0.len() - 1] - hhdm) as u64;
        assert(root == f_top);
        let mut q = PageMap {
            tables: Vec::new(),
            levels: Ghost(Map::empty()),
            head: Vec::new(),
            rootpagetable: root,
            hhdm_offset: hhdm,
        };
        proof {
            assert(q.mem() =~= Map::empty());
            assert(q.mem().dom() =~= Set::empty());
            assert(q.levels@.dom() =~= q.mem().dom());
        }
        let ghost q0 = q;
        proof {
            assert(n0.no_duplicates());
            assert(f_top != 0);
        }
        q.add_table_root(root);
        proof {
            assert forall|i: int| 0 <= i < pmm.nodes().len() implies {
                let f = (#[trigger] pmm.nodes()[i] - pmm.hhdm()) as u64;
                &&& f != 0
                &&& frame_ok(f)
                &&& !q.mem().contains_key(f)
            } by {
                assert(pmm.nodes()[i] == n0[i]);
                assert(n0[i] != n0[n0.len() - 1]);
                let g = (n0[i] - hhdm) as u64;
                assert(g != 0 && frame_ok(g));
                assert(crate::mem::phys::node_ok(n0[i], hhdm));
            }
            assert(pmm.nodes().no_duplicates()) by {
                assert forall|a: int, b: int| 0 <= a < b < pmm.nodes().len() implies pmm.nodes()[a] != pmm.nodes()[b] by {
                    assert(pmm.nodes()[a] == n0[a]);
                    assert(pmm.nodes()[b] == n0[b]);
                }
            }
        }
        let size_pages = kernel_size / 4096;
        let flags = KTPRESENT | KTWRITEALLOWED;
        assert(flags & TABLE_ADDR_MASK == 0 && present(flags)) by (bit_vector)
            requires
                flags == 1u64 | 2u64,
        ;
        proof {
            assert forall|va: u64|
                #![trigger q.translate_va(va)]
                #![trigger q.entry_va(va)]
                q.translate_va(va) == entry_frame(mapped_by(kernel_pages(kernel_virt_base, kernel_phys_base, 0), va))
                    && q.entry_va(va) == entry_or_zero(mapped_by(kernel_pages(kernel_virt_base, kernel_phys_base, 0), va)) by {
                lemma_indices_in_range(va);
                assert(q.mem()[root][l4_index(va) as int] == 0);
                assert(0u64 & 1u64 == 0) by (bit_vector);
            }
        }
        let mut i: u64 = 0;
        while i <= size_pages
            invariant
                0 <= i <= size_pages + 1,
                size_pages == kernel_size / 4096,
                q.wf(),
                pmm.wf(),
                q.frames_fresh(&*pmm),
                q.hhdm() == hhdm,
                pmm.hhdm() == hhdm,
                q.root() == root,
                q.regions() == Seq::<VMMRegion>::empty(),
                flags & TABLE_ADDR_MASK == 0,
                flags == KTPRESENT | KTWRITEALLOWED,
                present(flags),
                forall|va: u64| #[trigger] q.translate_va(va) == entry_frame(mapped_by(kernel_pages(kernel_virt_base, kernel_phys_base, i as nat), va)),
                forall|va: u64| #[trigger] q.entry_va(va) == entry_or_zero(mapped_by(kernel_pages(kernel_virt_base, kernel_phys_base, i as nat), va)),
                kernel_virt_base + size_pages * 4096 <= u64::MAX,
                kernel_phys_base + size_pages * 4096 <= u64::MAX,
                pmm.nodes() == n0.take(pmm.nodes().len() as int),
                pmm.nodes().len() <= n0.len(),
                enough ==> pmm.nodes().len() >= 3 * (size_pages + 1 - i + hhdm_page_total(entries@)) + 3,
                enough == (n0.len() >= 3 * (kernel_size / 4096 + 1 + hhdm_page_total(entries@)) + 4),
                n0 == old(pmm).nodes(),
                hhdm == old(pmm).hhdm(),
            decreases size_pages + 1 - i,
        {
            proof {
                q.lemma_wf_facts();
                lemma_allocs_needed_at_most_3(q.mem(), q.root(), (kernel_virt_base + i * 4096) as u64);
            }
            let ghost before = pmm.nodes();
            let need = q.tables_needed(kernel_virt_base + i * 4096);
            if need > 0 && pmm.free_count() < need + 1 {
                return Err(KTError::OutOfMemory);
            }
            let ghost q_before = q;
            let from = kernel_virt_base + i * 4096;
            let to = kernel_phys_base + i * 4096;
            let _ = q.map(from, to, flags, pmm);
            proof {
                lemma_prefix_of_prefix(n0, before, before.len() - need);
                lemma_map_step(q_before, q, kernel_pages(kernel_virt_base, kernel_phys_base, i as nat), from, kernel_entry(to));
                assert(kernel_pages(kernel_virt_base, kernel_phys_base, i as nat).push((from, kernel_entry(to)))
                    =~= kernel_pages(kernel_virt_base, kernel_phys_base, i as nat + 1));
            }
            i = i + 1;
        }
        proof {
            pmm.lemma_nodes_ok();
            lemma_hhdm_total_monotone(entries@, 0);
        }
        let ghost kpages = kernel_pages(kernel_virt_base, kernel_phys_base, (kernel_size / 4096 + 1) as nat);
        assert(entries@.take(0) =~= Seq::<MemoryMapEntry>::empty());
        assert(kpages + direct_map_pages(entries@.take(0), hhdm) =~= kpages);
        let mut hhdm_pages: usize = 0;
        let mut k: usize = 0;
        while k < entries.len()
            invariant
                0 <= k <= entries@.len(),
                hhdm_pages == hhdm_page_total(entries@.take(k as int)),
                q.wf(),
                pmm.wf(),
                q.frames_fresh(&*pmm),
                q.hhdm() == hhdm,
                pmm.hhdm() == hhdm,
                q.root() == root,
                q.regions() == Seq::<VMMRegion>::empty(),
                flags & TABLE_ADDR_MASK == 0,
                flags == KTPRESENT | KTWRITEALLOWED,
                present(flags),
                kpages == kernel_pages(kernel_virt_base, kernel_phys_base, (kernel_size / 4096 + 1) as nat),
                forall|va: u64| #[trigger] q.translate_va(va) == entry_frame(mapped_by(kpages + direct_map_pages(entries@.take(k as int), hhdm), va)),
                forall|va: u64| #[trigger] q.entry_va(va) == entry_or_zero(mapped_by(kpages + direct_map_pages(entries@.take(k as int), hhdm), va)),
                forall|j: int| 0 <= j < entries@.len() ==> #[trigger] entries@[j].length + 4096 <= usize::MAX,
                forall|j: int| 0 <= j < entries@.len() && hhdm_mapped(#[trigger] entries@[j].kind) ==> hhdm
                    + entries@[j].base + page_count(entries@[j].length as nat) * 4096 <= u64::MAX,
                pmm.nodes() == n0.take(pmm.nodes().len() as int),
                pmm.nodes().len() <= n0.len(),
                enough ==> pmm.nodes().len() >= 3 * (hhdm_page_total(entries@) - hhdm_page_total(entries@.take(k as int))) + 3,
                enough == (n0.len() >= 3 * (kernel_size / 4096 + 1 + hhdm_page_total(entries@)) + 4),
                n0 == old(pmm).nodes(),
                hhdm == old(pmm).hhdm(),
                hhdm_page_total(entries@.take(k as int)) <= hhdm_page_total(entries@),
                hhdm_page_total(entries@) <= usize::MAX,
            decreases entries@.len() - k,
        {
            let e = entries[k];
            assert(entries@.take(k as int + 1).drop_last() == entries@.take(k as int));
            proof {
                lemma_hhdm_total_monotone(entries@, k as int + 1);
            }
            if e.kind == MemoryKind::AcpiNvs || e.kind == MemoryKind::AcpiReclaimable || e.kind == MemoryKind::Usable
                || e.kind == MemoryKind::BootloaderReclaimable || e.kind == MemoryKind::Framebuffer
                || e.kind == MemoryKind::KernelAndModules {
                assert(4096usize & 4095usize == 0) by (bit_vector);
                let page_amount = align_up(e.length as usize, 4096) / 4096;
                assert(page_amount == page_count(e.length as nat));
                let ghost done = kpages + direct_map_pages(entries@.take(k as int), hhdm);
                assert(done + region_pages(e, hhdm, 0) =~= done);
                let mut p: usize = 0;
                while p < page_amount
                    invariant
                        0 <= p <= page_amount,
                        page_amount == page_count(e.length as nat),
                        hhdm + e.base + page_amount * 4096 <= u64::MAX,
                        q.wf(),
                        pmm.wf(),
                        q.frames_fresh(&*pmm),
                        q.hhdm() == hhdm,
                        pmm.hhdm() == hhdm,
                        q.root() == root,
                        q.regions() == Seq::<VMMRegion>::empty(),
                        flags & TABLE_ADDR_MASK == 0,
                        flags == KTPRESENT | KTWRITEALLOWED,
                        present(flags),
                        forall|va: u64| #[trigger] q.translate_va(va) == entry_frame(mapped_by(done + region_pages(e, hhdm, p as nat), va)),
                        forall|va: u64| #[trigger] q.entry_va(va) == entry_or_zero(mapped_by(done + region_pages(e, hhdm, p as nat), va)),
                        pmm.nodes() == n0.take(pmm.nodes().len() as int),
                        pmm.nodes().len() <= n0.len(),
                        enough ==> pmm.nodes().len() >= 3 * (hhdm_page_total(entries@) - hhdm_page_total(
                            entries@.take(k as int),
                        ) - p) + 3,
                        enough == (n0.len() >= 3 * (kernel_size / 4096 + 1 + hhdm_page_total(entries@)) + 4),
                        n0 == old(pmm).nodes(),
                        hhdm == old(pmm).hhdm(),
                        hhdm_page_total(entries@.take(k as int)) + page_amount <= hhdm_page_total(entries@),
                    decreases page_amount - p,
                {
                    proof {
                        q.lemma_wf_facts();
                        lemma_allocs_needed_at_most_3(q.mem(), q.root(), (hhdm + e.base + p * 4096) as u64);
                    }
                    let ghost before = pmm.nodes();
                    let need = q.tables_needed(hhdm + e.base + (p as u64 * 4096));
                    if need > 0 && pmm.free_count() < need + 1 {
                        return Err(KTError::OutOfMemory);
                    }
                    let ghost q_before = q;
                    let from = hhdm + e.base + (p as u64 * 4096);
                    let to = e.base + (p as u64 * 4096);
                    let _ = q.map(from, to, flags, pmm);
                    proof {
                        lemma_prefix_of_prefix(n0, before, before.len() - need);
                        let done_p = done + region_pages(e, hhdm, p as nat);
                        lemma_map_step(q_before, q, done_p, from, kernel_entry(to));
                        assert(done_p.push((from, kernel_entry(to))) =~= done + region_pages(e, hhdm, p as nat + 1));
                    }
                    p = p + 1;
                }
                hhdm_pages = hhdm_pages + page_amount;
                proof {
                    assert(entries@.take(k as int + 1).last() == e);
                    assert(direct_map_pages(entries@.take(k as int + 1), hhdm) == direct_map_pages(entries@.take(k as int), hhdm)
                        + region_pages(e, hhdm, page_count(e.length as nat)));
                    assert(done + region_pages(e, hhdm, page_count(e.length as nat)) =~= kpages + direct_map_pages(
                        entries@.take(k as int + 1),
                        hhdm,
                    ));
                }
            } else {
                proof {
                    assert(entries@.take(k as int + 1).last() == e);
                    assert(direct_map_pages(entries@.take(k as int + 1), hhdm) =~= direct_map_pages(entries@.take(k as int), hhdm));
                }
            }
            k = k + 1;
        }
        assert(entries@.take(entries@.len() as int) == entries@);
        let ghost before = pmm.nodes();
        if pmm.free_count() < 3 {
            return Err(KTError::OutOfMemory);
        }
        let ghost q_pre = q;
        q.region_setup(hhdm_pages, kernel_virt_base, kernel_size, pmm);
        proof {
            lemma_prefix_of_prefix(n0, before, before.len() - 2);
            assert forall|va: u64| #[trigger] q.entry_va(va) == q_pre.entry_va(va) by {
                assert(q.mem() == q_pre.mem());
            }
        }
        Ok(q)
    }

    fn add_table_root(&mut self, addr: u64)
        requires
            old(self).tables@.len() == 0,
            old(self).levels@ == Map::<u64, nat>::empty(),
            old(self).rootpagetable == addr,
            addr != 0,
        ensures
            final(self).mem() == Map::<u64, Seq<u64>>::empty().insert(addr, zero_table()),
            final(self).wf(),
            final(self).head == old(self).head,
            final(self).rootpagetable == old(self).rootpagetable,
            final(self).hhdm_offset == old(self).hhdm_offset,
    {
        let mut entries: Vec<u64> = Vec::new();
        let mut i: usize = 0;
        while i < 512
            invariant
                0 <= i <= 512,
                entries@ == Seq::new(i as nat, |j: int| 0u64),
            decreases 512 - i,
        {
            entries.push(0);
            i = i + 1;
        }
        assert(entries@ == zero_table());
        let ghost ts = self.tables@;
        assert(tables_mem(ts) =~= Map::empty());
        self.tables.push(PageTable { addr, entries });
        proof {
            lemma_tables_mem_push(ts, self.tables@.last());
            assert(self.tables@ == ts.push(self.tables@.last()));
            self.levels = Ghost(Map::<u64, nat>::empty().insert(addr, 0));
            assert(self.mem() =~= Map::<u64, Seq<u64>>::empty().insert(addr, zero_table()));
            assert(self.levels@.dom() =~= self.mem().dom());
            assert(0u64 & 1u64 == 0) by (bit_vector);
            assert forall|t: u64, i: int|
                #![trigger self.mem()[t][i]]
                self.mem().contains_key(t) && self.levels@[t] < 3 && 0 <= i < 512 && present(self.mem()[t][i])
                    implies self.mem().contains_key(table_of(self.mem()[t][i]))
                    && self.levels@[table_of(self.mem()[t][i])] == self.levels@[t] + 1 by {
                assert(t == addr);
                assert(self.mem()[t][i] == 0);
            }
        }
    }

    /// Popping the head of a fresh free list leaves it fresh.
    pub proof fn lemma_fresh_drop_last(&self, pmm0: &PhysicalAllocator, pmm1: &PhysicalAllocator)
        requires
            self.frames_fresh(pmm0),
            pmm0.nodes().len() > 0,
            pmm1.hhdm() == pmm0.hhdm(),
            pmm1.nodes() == pmm0.nodes().drop_last(),
        ensures
            self.frames_fresh(pmm1),
    {
        assert forall|i: int| 0 <= i < pmm1.nodes().len() implies {
            let f = (#[trigger] pmm1.nodes()[i] - pmm1.hhdm()) as u64;
            &&& f != 0
            &&& frame_ok(f)
            &&& !self.mem().contains_key(f)
        } by {
            assert(pmm1.nodes()[i] == pmm0.nodes()[i]);
        }
        assert forall|a: int, b: int| 0 <= a < b < pmm1.nodes().len() implies pmm1.nodes()[a] != pmm1.nodes()[b] by {
            assert(pmm1.nodes()[a] == pmm0.nodes()[a]);
            assert(pmm1.nodes()[b] == pmm0.nodes()[b]);
        }
    }

    /// Reserves `size` bytes (rounded up to whole pages) of virtual address
    /// space in the first gap between two neighbouring regions that has room
    /// for them and one more page, at the end of the lower region; backs
    /// every page with a frame from `pmm`, mapped with `flags`; and returns
    /// the base.  The new region's list node takes a page from `pmm` first.
    pub fn vmm_region_alloc(&mut self, size: u64, flags: u64, pmm: &mut PhysicalAllocator) -> (r: Option<u64>)
        requires
            old(self).wf(),
            old(pmm).wf(),
            old(self).frames_fresh(&*old(pmm)),
            flags & TABLE_ADDR_MASK == 0,
            size + 4096 <= usize::MAX,
            page_count(size as nat) * 4096 + 4096 <= u64::MAX,
        ensures
            final(self).wf(),
            final(pmm).wf(),
            final(self).frames_fresh(&*final(pmm)),
            final(self).root() == old(self).root(),
            final(self).hhdm() == old(self).hhdm(),
            final(pmm).hhdm() == old(pmm).hhdm(),
            final(pmm).nodes() == old(pmm).nodes().take(final(pmm).nodes().len() as int),
            r is Some ==> region_alloc_post(*old(self), *final(self), *old(pmm), size, flags, r),
            !scan_ok(old(self).regions(), 1, (page_count(size as nat) * 4096 + 4096) as int) ==> r is None
                && *final(self) == *old(self) && *final(pmm) == *old(pmm),
            scan_ok(old(self).regions(), 1, (page_count(size as nat) * 4096 + 4096) as int)
                && old(pmm).nodes().len() >= 4 * page_count(size as nat) + 2 ==> r is Some,
    {
        assert(4096usize & 4095usize == 0) by (bit_vector);
        let rounded_usize = align_up(size as usize, 4096);
        let rounded = rounded_usize as u64;
        assert(rounded == page_count(size as nat) * 4096);
        let need = rounded + 0x1000;
        let ghost regs = self.head@;
        let ghost enough = old(pmm).nodes().len() >= 4 * page_count(size as nat) + 2;
        let mut i: usize = 1;
        while i < self.head.len()
            invariant
                self.head@ == regs,
                scan_ok(regs, i as int, need as int) == scan_ok(regs, 1, need as int),
                scan_index(regs, i as int, need as int) == scan_index(regs, 1, need as int),
                enough == (old(pmm).nodes().len() >= 4 * page_count(size as nat) + 2),
                *self == *old(self),
                *pmm == *old(pmm),
                1 <= i,
                old(self).wf(),
                old(pmm).wf(),
                old(self).frames_fresh(&*old(pmm)),
                flags & TABLE_ADDR_MASK == 0,
                rounded == page_count(size as nat) * 4096,
                rounded_usize == rounded,
                need == rounded + 4096,
                regs == old(self).regions(),
            decreases regs.len() - i,
        {
            if self.head[i - 1].length > u64::MAX - self.head[i - 1].base {
                return None;
            }
            let prev_end = self.head[i - 1].base + self.head[i - 1].length;
            if self.head[i].base < prev_end {
                return None;
            }
            if self.head[i].base - prev_end >= need {
                let ghost n0 = pmm.nodes();
                let ghost self0 = *self;
                assert(scan_ok(regs, 1, need as int));
                assert(scan_index(regs, 1, need as int) == i);
                if pmm.free_count() < 2 {
                    return None;
                }
                proof {
                    pmm.lemma_nodes_ok();
                    assert(crate::mem::phys::node_ok(n0[n0.len() - 1], pmm.hhdm()));
                }
                let nf = match pmm.allocate() {
                    Ok(f) => f,
                    Err(_) => {
                        proof {
                            assert(false);
                        }
                        0
                    },
                };
                proof {
                    self0.lemma_fresh_drop_last(old(pmm), pmm);
                }
                let node = nf + self.hhdm_offset;
                let new_guy = VMMRegion { base: prev_end, length: rounded, node };
                self.head.insert(i, new_guy);
                let amou = rounded_usize / 4096;
                let ghost mut idx: Seq<int> = Seq::empty();
                let mut j: usize = 0;
                while j < amou
                    invariant
                        0 <= j <= amou,
                        amou == page_count(size as nat),
                        prev_end + amou * 4096 <= u64::MAX,
                        self.wf(),
                        pmm.wf(),
                        self.frames_fresh(&*pmm),
                        self.root() == old(self).root(),
                        self.hhdm() == old(self).hhdm(),
                        pmm.hhdm() == old(pmm).hhdm(),
                        self.head@ == regs.insert(i as int, new_guy),
                        flags & TABLE_ADDR_MASK == 0,
                        enough ==> pmm.nodes().len() >= 4 * (amou - j) + 1,
                        enough == (n0.len() >= 4 * page_count(size as nat) + 2),
                        n0 == old(pmm).nodes(),
                        scan_ok(old(self).regions(), 1, (page_count(size as nat) * 4096 + 4096) as int),
                        pmm.nodes() == n0.take(pmm.nodes().len() as int),
                        pmm.nodes().len() <= n0.len(),
                        present(flags) && amou < 0x10_0000_0000 ==> forall|jj: int|
                            0 <= jj < j ==> (#[trigger] self.translate_va((prev_end + jj * 4096) as u64)) is Some,
                        pmm.nodes().len() < n0.len(),
                        idx.len() == j,
                        forall|jj: int| 0 <= jj < j ==> #[trigger] idx[jj] >= pmm.nodes().len(),
                        forall|jj: int| 0 <= jj < j ==> 0 <= #[trigger] idx[jj] < n0.len(),
                        forall|jj: int| 0 <= jj < j ==> off_free_list(*pmm, ((n0[#[trigger] idx[jj]] - old(pmm).hhdm()) as u64)),
                        forall|jj: int| 0 <= jj < j ==> !self.mem().contains_key(((n0[#[trigger] idx[jj]] - old(pmm).hhdm()) as u64)),
                        present(flags) && amou < 0x10_0000_0000 ==> pages_backed(*self, n0, old(pmm).hhdm(), prev_end, flags, idx, j as nat),
                    decreases amou - j,
                {
                    let ghost before = pmm.nodes();
                    let ghost pmm_b = *pmm;
                    let ghost self_b = *self;
                    if pmm.free_count() < 2 {
                        return None;
                    }
                    proof {
                        pmm.lemma_nodes_ok();
                        assert(crate::mem::phys::node_ok(before[before.len() - 1], pmm.hhdm()));
                    }
                    let e = match pmm.allocate() {
                        Ok(f) => f,
                        Err(_) => {
                            proof {
                                assert(false);
                            }
                            0
                        },
                    };
                    proof {
                        self.lemma_fresh_drop_last(&pmm_b, pmm);
                        lemma_prefix_of_prefix(n0, before, before.len() - 1);
                        self.lemma_wf_facts();
                        lemma_allocs_needed_at_most_3(self.mem(), self.root(), (prev_end + j * 4096) as u64);
                    }
                    let ghost before2 = pmm.nodes();
                    let need2 = self.tables_needed(prev_end + (j as u64) * 0x1000);
                    if need2 > 0 && pmm.free_count() < need2 + 1 {
                        return None;
                    }
                    let ghost self_m = *self;
                    let ghost taken = before.len() - 1;
                    assert(e == (n0[taken] - old(pmm).hhdm()) as u64);
                    let ghost pmm_m = *pmm;
                    proof {
                        assert(pmm_m.nodes() =~= pmm_b.nodes().take(pmm_m.nodes().len() as int));
                        assert(before[taken] == n0[taken]);
                        assert(!self.mem().contains_key(e));
                        assert forall|i: int| 0 <= i < pmm_m.nodes().len() implies #[trigger] pmm_m.nodes()[i] - pmm_m.hhdm() != e by {
                            assert(pmm_m.nodes()[i] == before[i]);
                            assert(before[i] != before[taken]);
                        }
                        assert forall|jj: int| 0 <= jj < j implies off_free_list(pmm_m, ((n0[#[trigger] idx[jj]] - old(pmm).hhdm()) as u64)) by {
                            lemma_off_free_list_prefix(pmm_b, pmm_m, ((n0[idx[jj]] - old(pmm).hhdm()) as u64), pmm_m.nodes().len() as int);
                        }
                    }
                    let _ = self.map(prev_end + (j as u64) * 0x1000, e, flags, pmm);
                    proof {
                        lemma_prefix_of_prefix(n0, before2, before2.len() - need2);
                        let idx1 = idx.push(taken);
                        assert(pmm.nodes() =~= pmm_m.nodes().take(pmm.nodes().len() as int));
                        assert forall|jj: int| 0 <= jj < j + 1 implies off_free_list(*pmm, ((n0[#[trigger] idx1[jj]] - old(pmm).hhdm()) as u64))
                            && !self.mem().contains_key(((n0[idx1[jj]] - old(pmm).hhdm()) as u64)) by {
                            let f = ((n0[idx1[jj]] - old(pmm).hhdm()) as u64);
                            assert(off_free_list(pmm_m, f));
                            lemma_off_free_list_prefix(pmm_m, *pmm, f, pmm.nodes().len() as int);
                        }
                        if present(flags) && amou < 0x10_0000_0000 {
                            assert forall|jj: int| 0 <= jj < j + 1 implies (#[trigger] self.translate_va((prev_end + jj * 4096) as u64))
                                == Some(get_phys_spec(((n0[idx1[jj]] - old(pmm).hhdm()) as u64) | flags)) by {
                                if jj < j {
                                    lemma_distinct_pages_distinct_slots((prev_end + jj * 4096) as u64, (j - jj) as u64);
                                    assert((prev_end + jj * 4096) + (j - jj) * 4096 == prev_end + j * 4096);
                                    assert(self_m.translate_va((prev_end + jj * 4096) as u64) == self_b.translate_va((prev_end + jj * 4096) as u64));
                                }
                            }
                            assert forall|jj: int| 0 <= jj < j + 1 implies (#[trigger] self.entry_va((prev_end + jj * 4096) as u64))
                                == ((n0[idx1[jj]] - old(pmm).hhdm()) as u64) | flags by {
                                if jj < j {
                                    lemma_distinct_pages_distinct_slots((prev_end + jj * 4096) as u64, (j - jj) as u64);
                                    assert((prev_end + jj * 4096) + (j - jj) * 4096 == prev_end + j * 4096);
                                    assert(self_m.entry_va((prev_end + jj * 4096) as u64) == self_b.entry_va((prev_end + jj * 4096) as u64));
                                }
                            }
                            assert forall|a: int, b: int| 0 <= a < b < j + 1 implies #[trigger] idx1[a] > #[trigger] idx1[b] by {
                                if b < j {
                                    assert(idx[a] > idx[b]);
                                }
                            }
                            assert forall|jj: int| 0 <= jj < j + 1 implies (#[trigger] self.translate_va((prev_end + jj * 4096) as u64)) is Some by {
                                assert(self.translate_va((prev_end + jj * 4096) as u64)
                                    == Some(get_phys_spec(((n0[idx1[jj]] - old(pmm).hhdm()) as u64) | flags)));
                            }
                        }
                        idx = idx1;
                    }
                    j = j + 1;
                }
                return Some(prev_end);
            }
            i = i + 1;
        }
        proof {
            assert(!scan_ok(regs, i as int, need as int));
        }
        None
    }

    /// What releasing the region based at `addr` needs, when there is one:
    /// a region before it if one follows it, fewer than 2^36 pages that
    /// all fit below the top of the address space and are all mapped to
    /// frames with a direct-map address, and a node page with a
    /// direct-map address.
    pub open spec fn dealloc_ok(&self, addr: u64) -> bool {
        let regs = self.regions();
        let k = first_base_index(regs, addr);
        let reg = regs[k];
        let num = reg.length / 4096;
        k < regs.len() ==> {
            &&& k + 1 < regs.len() ==> k >= 1
            &&& num < 0x10_0000_0000
            &&& reg.base + num * 4096 <= u64::MAX
            &&& crate::mem::phys::node_ok(reg.node, self.hhdm())
            &&& forall|i: int| 0 <= i < num ==> {
                let t = #[trigger] self.translate_va((reg.base + i * 4096) as u64);
                &&& t is Some
                &&& t.unwrap() + self.hhdm() + 4096 <= u64::MAX
            }
        }
    }

    /// Whether releasing the region based at `addr` is as `dealloc_ok` asks.
    pub fn can_dealloc(&self, addr: u64) -> (r: bool)
        requires
            self.wf(),
        ensures
            r == self.dealloc_ok(addr),
    {
        let ghost regs = self.head@;
        proof {
            lemma_first_base_index(regs, addr);
        }
        let mut k: usize = 0;
        while k < self.head.len()
            invariant
                0 <= k <= regs.len(),
                self.head@ == regs,
                regs == self.regions(),
                self.wf(),
                forall|j: int| 0 <= j < k ==> (#[trigger] regs[j]).base != addr,
                0 <= first_base_index(regs, addr) <= regs.len(),
                first_base_index(regs, addr) < regs.len() ==> regs[first_base_index(regs, addr)].base == addr,
                forall|j: int| 0 <= j < first_base_index(regs, addr) ==> (#[trigger] regs[j]).base != addr,
            decreases regs.len() - k,
        {
            if self.head[k].base == addr {
                assert(first_base_index(regs, addr) == k);
                let reg = &self.head[k];
                if k + 1 < self.head.len() && k < 1 {
                    return false;
                }
                let num = reg.length / 4096;
                if num >= 0x10_0000_0000 || reg.base as u128 + num as u128 * 4096 > u64::MAX as u128 {
                    return false;
                }
                if reg.node < self.hhdm_offset || reg.node > u64::MAX - 4096 {
                    return false;
                }
                let mut i: u64 = 0;
                while i < num
                    invariant
                        0 <= i <= num,
                        num == reg.length / 4096,
                        *reg == self.regions()[first_base_index(self.regions(), addr)],
                        first_base_index(self.regions(), addr) < self.regions().len(),
                        num < 0x10_0000_0000,
                        reg.base + num * 4096 <= u64::MAX,
                        self.wf(),
                        forall|j: int| 0 <= j < i ==> {
                            let t = #[trigger] self.translate_va((reg.base + j * 4096) as u64);
                            &&& t is Some
                            &&& t.unwrap() + self.hhdm() + 4096 <= u64::MAX
                        },
                    decreases num - i,
                {
                    let va = reg.base + i * 0x1000;
                    assert(va == (reg.base + i * 4096) as u64);
                    match self.virt_to_phys(va) {
                        Ok(p) => {
                            if p as u128 + self.hhdm_offset as u128 + 4096 > u64::MAX as u128 {
                                return false;
                            }
                        },
                        Err(_) => {
                            return false;
                        },
                    }
                    i = i + 1;
                }
                return true;
            }
            k = k + 1;
        }
        true
    }

    /// Releases the region based at `addr` (the first such in the list):
    /// unlinks it when another region follows it (a last region stays
    /// listed), unmaps each of its pages, hands each page's frame back to
    /// `pmm` and then the page of its list node.  Nothing happens when no
    /// region starts at `addr`.
    pub fn vmm_region_dealloc(&mut self, addr: u64, pmm: &mut PhysicalAllocator)
        requires
            old(self).wf(),
            old(pmm).wf(),
            old(pmm).hhdm() == old(self).hhdm(),
            old(pmm).nodes().len() > 0,
            old(self).dealloc_ok(addr),
        ensures
            final(self).wf(),
            final(pmm).wf(),
            final(self).root() == old(self).root(),
            final(self).hhdm() == old(self).hhdm(),
            final(pmm).hhdm() == old(pmm).hhdm(),
            region_dealloc_post(*old(self), *final(self), *old(pmm), *final(pmm), addr),
    {
        let ghost regs = self.head@;
        let ghost s0 = *self;
        proof {
            lemma_first_base_index(regs, addr);
        }
        let mut k: usize = 0;
        while k < self.head.len()
            invariant
                0 <= k <= regs.len(),
                self.head@ == regs,
                *self == s0,
                *pmm == *old(pmm),
                s0 == *old(self),
                s0.wf(),
                pmm.wf(),
                pmm.hhdm() == s0.hhdm(),
                pmm.nodes().len() > 0,
                s0.dealloc_ok(addr),
                regs == s0.regions(),
                forall|j: int| 0 <= j < k ==> (#[trigger] regs[j]).base != addr,
                0 <= first_base_index(regs, addr) <= regs.len(),
                first_base_index(regs, addr) < regs.len() ==> regs[first_base_index(regs, addr)].base == addr,
                forall|j: int| 0 <= j < first_base_index(regs, addr) ==> (#[trigger] regs[j]).base != addr,
            decreases regs.len() - k,
        {
            if self.head[k].base == addr {
                assert(first_base_index(regs, addr) == k);
                let reg_base = self.head[k].base;
                let reg_len = self.head[k].length;
                let reg_node = self.head[k].node;
                if k + 1 < self.head.len() {
                    self.head.remove(k);
                }
                let ghost s1 = *self;
                let ghost n0 = pmm.nodes();
                let num_of_pages = reg_len / 4096;
                let ghost frames = Seq::new(
                    num_of_pages as nat,
                    |i: int| (s0.translate_va((reg_base + i * 4096) as u64).unwrap() + s0.hhdm()) as u64,
                );
                let mut i: u64 = 0;
                while i < num_of_pages
                    invariant
                        0 <= i <= num_of_pages,
                        num_of_pages == reg_len / 4096,
                        num_of_pages < 0x10_0000_0000,
                        reg_base + num_of_pages * 4096 <= u64::MAX,
                        self.wf(),
                        pmm.wf(),
                        self.root() == s0.root(),
                        self.hhdm() == s0.hhdm(),
                        pmm.hhdm() == s0.hhdm(),
                        self.head@ == s1.head@,
                        pmm.nodes() == n0 + frames.take(i as int),
                        n0.len() > 0,
                        frames.len() == num_of_pages,
                        frames == Seq::new(
                            num_of_pages as nat,
                            |i: int| (s0.translate_va((reg_base + i * 4096) as u64).unwrap() + s0.hhdm()) as u64,
                        ),
                        forall|j: int| 0 <= j < num_of_pages ==> {
                            let t = #[trigger] s0.translate_va((reg_base + j * 4096) as u64);
                            &&& t is Some
                            &&& t.unwrap() + s0.hhdm() + 4096 <= u64::MAX
                        },
                        forall|j: int| 0 <= j < i ==> (#[trigger] self.translate_va((reg_base + j * 4096) as u64)) is None,
                        forall|j: int| i <= j < num_of_pages ==> #[trigger] self.translate_va((reg_base + j * 4096) as u64)
                            == s0.translate_va((reg_base + j * 4096) as u64),
                        forall|va: u64| (forall|j: int| 0 <= j < num_of_pages ==> !same_slot(va, #[trigger] ((reg_base + j * 4096) as u64)))
                            ==> #[trigger] self.translate_va(va) == s0.translate_va(va),
                    decreases num_of_pages - i,
                {
                    let va = reg_base + i * 0x1000;
                    assert(va == (reg_base + i * 4096) as u64);
                    assert(self.translate_va(va) == s0.translate_va(va));
                    assert(s0.translate_va(va) is Some && s0.translate_va(va).unwrap() + s0.hhdm() + 4096 <= u64::MAX);
                    let phys = match self.virt_to_phys(va) {
                        Ok(p) => p,
                        Err(_) => {
                            proof {
                                assert(s0.translate_va((reg_base + i * 4096) as u64) is Some);
                                assert(false);
                            }
                            0
                        },
                    };
                    let ghost sb = *self;
                    let _ = self.unmap(va, 0);
                    proof {
                        assert forall|j: int| 0 <= j < num_of_pages && j != i implies !same_slot(
                            #[trigger] ((reg_base + j * 4096) as u64), va) by {
                            if j < i {
                                lemma_distinct_pages_distinct_slots((reg_base + j * 4096) as u64, (i - j) as u64);
                                assert((reg_base + j * 4096) + (i - j) * 4096 == reg_base + i * 4096);
                            } else {
                                lemma_distinct_pages_distinct_slots(va, (j - i) as u64);
                                assert((reg_base + i * 4096) + (j - i) * 4096 == reg_base + j * 4096);
                            }
                        }
                        assert forall|j: int| 0 <= j < i + 1 implies (#[trigger] self.translate_va((reg_base + j * 4096) as u64)) is None by {
                            if j < i {
                                assert(sb.translate_va((reg_base + j * 4096) as u64) is None);
                            }
                        }
                        assert forall|j: int| i + 1 <= j < num_of_pages implies #[trigger] self.translate_va((reg_base + j * 4096) as u64)
                            == s0.translate_va((reg_base + j * 4096) as u64) by {
                            assert(sb.translate_va((reg_base + j * 4096) as u64) == s0.translate_va((reg_base + j * 4096) as u64));
                        }
                        assert forall|v: u64| (forall|j: int| 0 <= j < num_of_pages ==> !same_slot(v, #[trigger] ((reg_base + j * 4096) as u64)))
                            implies #[trigger] self.translate_va(v) == s0.translate_va(v) by {
                            assert(!same_slot(v, ((reg_base + i * 4096) as u64)));
                        }
                        assert(frames[i as int] == phys + s0.hhdm());
                        pmm.lemma_nodes_ok();
                    }
                    let _ = pmm.dealloc(phys + self.hhdm_offset);
                    proof {
                        assert(pmm.nodes() =~= n0 + frames.take(i + 1));
                    }
                    i = i + 1;
                }
                let _ = pmm.dealloc(reg_node);
                proof {
                    assert(frames.take(num_of_pages as int) =~= frames);
                    assert(pmm.nodes() =~= n0 + frames + seq![reg_node]);
                    assert(self.regions() == if k + 1 < regs.len() { regs.remove(k as int) } else { regs });
                    assert forall|j: int| 0 <= j < num_of_pages implies (#[trigger] self.translate_va((reg_base + j * 4096) as u64)) is None by {}
                }
                return;
            }
            k = k + 1;
        }
    }

    /// Sets up the two initial regions, each with a list node on a page
    /// taken from `pmm` (the kernel region's first): the direct map, at the
    /// direct-map base with length `pages_in_hhdm`, then the kernel image
    /// at `kernel_virt_base` with length `kernel_size`.
    pub fn region_setup(&mut self, pages_in_hhdm: usize, kernel_virt_base: u64, kernel_size: u64, pmm: &mut PhysicalAllocator)
        requires
            old(self).wf(),
            old(pmm).wf(),
            old(pmm).hhdm() == old(self).hhdm(),
            old(pmm).nodes().len() >= 3,
        ensures
            final(self).wf(),
            final(pmm).wf(),
            final(self).mem() == old(self).mem(),
            final(self).root() == old(self).root(),
            final(self).hhdm() == old(self).hhdm(),
            forall|va: u64| #[trigger] final(self).translate_va(va) == old(self).translate_va(va),
            old(self).frames_fresh(&*old(pmm)) ==> final(self).frames_fresh(&*final(pmm)),
            final(pmm).hhdm() == old(pmm).hhdm(),
            final(pmm).nodes() == old(pmm).nodes().take(old(pmm).nodes().len() - 2),
            final(self).regions().len() == 2,
            final(self).regions()[0].base == old(self).hhdm(),
            final(self).regions()[0].length == pages_in_hhdm as u64,
            final(self).regions()[0].node == old(pmm).nodes()[old(pmm).nodes().len() - 2],
            final(self).regions()[1].base == kernel_virt_base,
            final(self).regions()[1].length == kernel_size,
            final(self).regions()[1].node == old(pmm).nodes()[old(pmm).nodes().len() - 1],
    {
        let ghost n0 = pmm.nodes();
        proof {
            pmm.lemma_nodes_ok();
            assert(crate::mem::phys::node_ok(n0[n0.len() - 1], pmm.hhdm()));
            assert(crate::mem::phys::node_ok(n0[n0.len() - 2], pmm.hhdm()));
        }
        let kf = match pmm.allocate() {
            Ok(f) => f,
            Err(_) => {
                proof {
                    assert(false);
                }
                0
            },
        };
        let k = kf + self.hhdm_offset;
        let hf = match pmm.allocate() {
            Ok(f) => f,
            Err(_) => {
                proof {
                    assert(false);
                }
                0
            },
        };
        let h = hf + self.hhdm_offset;
        let mut head: Vec<VMMRegion> = Vec::new();
        head.push(VMMRegion { base: self.hhdm_offset, length: pages_in_hhdm as u64, node: h });
        head.push(VMMRegion { base: kernel_virt_base, length: kernel_size, node: k });
        self.head = head;
        proof {
            assert(pmm.nodes() == n0.take(n0.len() - 2));
            assert forall|i: int| 0 <= i < pmm.nodes().len() implies pmm.nodes()[i] == n0[i] by {}
        }
    }

    pub proof fn lemma_wf_facts(&self)
        requires
            self.wf(),
        ensures
            self.mem().contains_key(self.root()),
            self.level(self.root()) == 0,
            !self.mem().contains_key(0),
            forall|t: u64| #[trigger] self.mem().contains_key(t) ==> self.mem()[t].len() == 512 && self.level(t) <= 3,
            forall|t: u64, i: int|
                #![trigger self.mem()[t][i]]
                self.mem().contains_key(t) && self.level(t) < 3 && 0 <= i < 512 && present(self.mem()[t][i])
                    ==> self.mem().contains_key(table_of(self.mem()[t][i]))
                    && self.level(table_of(self.mem()[t][i])) == self.level(t) + 1,
            unique_parents(self.mem(), self.levels_map()),
            walk_ok(self.mem(), self.levels_map(), self.root()),
    {
        assert forall|t: u64| #[trigger] self.mem().contains_key(t) implies self.mem()[t].len() == 512 && self.level(t) <= 3 by {
            let k = choose|k: int| 0 <= k < self.tables@.len() && (#[trigger] self.tables@[k]).addr == t;
            lemma_tables_mem_index(self.tables@, k);
        }
        if self.mem().contains_key(0) {
            let k = choose|k: int| 0 <= k < self.tables@.len() && (#[trigger] self.tables@[k]).addr == 0;
            assert(self.tables@[k].addr != 0);
        }
    }

    /// The flags a call hands to `get_next_table`, 0 when none.
    pub open spec fn flags_of(flags: Option<u64>) -> u64 {
        match flags {
            Some(q) => q,
            None => 0,
        }
    }

    /// Entry `index` of `table`, followed: the table it names when it is
    /// present; when it is not, either 0 (`allocate` false) or a fresh
    /// zeroed table taken from `pmm`, which the entry is then set to name,
    /// with `flags` added.
    pub fn get_next_table(
        &mut self,
        table: u64,
        index: u64,
        allocate: bool,
        flags: Option<u64>,
        pmm: &mut PhysicalAllocator,
    ) -> (r: u64)
        requires
            old(self).wf(),
            old(pmm).wf(),
            old(self).mem().contains_key(table),
            old(self).level(table) < 3,
            index < 512,
            allocate && !present(old(self).mem()[table][index as int]) ==> old(self).frames_fresh(&*old(pmm)),
            allocate && !present(old(self).mem()[table][index as int]) ==> Self::flags_of(flags) & TABLE_ADDR_MASK == 0,
            allocate && !present(old(self).mem()[table][index as int]) ==> old(pmm).can_alloc(),
        ensures
            final(self).wf(),
            final(pmm).wf(),
            final(self).root() == old(self).root(),
            final(self).hhdm() == old(self).hhdm(),
            final(self).regions() == old(self).regions(),
            forall|t: u64| #[trigger] old(self).mem().contains_key(t) ==> final(self).level(t) == old(self).level(t),
            forall|va: u64| #[trigger] final(self).translate_va(va) == old(self).translate_va(va),
            forall|va: u64| #[trigger] final(self).entry_va(va) == old(self).entry_va(va),
            !allocate ==> r == next_table(old(self).mem(), table, index) && final(self).mem() == old(self).mem()
                && *final(pmm) == *old(pmm),
            allocate ==> {
                let e = old(self).mem()[table][index as int];
                &&& present(e) ==> r == table_of(e) && final(self).mem() == old(self).mem() && *final(pmm) == *old(pmm)
                &&& !present(e) ==> {
                    &&& r == old(pmm).next_frame()
                    &&& final(self).mem() == old(self).mem().insert(
                        table,
                        old(self).mem()[table].update(index as int, r | Self::flags_of(flags)),
                    ).insert(r, zero_table())
                    &&& final(pmm).hhdm() == old(pmm).hhdm()
                    &&& final(pmm).nodes() == old(pmm).nodes().drop_last()
                }
                &&& final(self).mem().contains_key(r)
                &&& table_of(final(self).mem()[table][index as int]) == r
                &&& (present(e) || present(Self::flags_of(flags))) ==> present(final(self).mem()[table][index as int])
                &&& final(self).level(r) == old(self).level(table) + 1
                &&& r != 0
                &&& old(self).frames_fresh(&*old(pmm)) ==> final(self).frames_fresh(&*final(pmm))
            },
            forall|f: u64| !old(self).mem().contains_key(f) && off_free_list(*old(pmm), f) ==> !#[trigger] final(self).mem().contains_key(f),
    {
        proof {
            self.lemma_wf_facts();
        }
        let e = self.read_entry(table, index);
        if e & KTPRESENT == 0 {
            if allocate {
                let ghost old_self = *self;
                let ghost n = pmm.nodes();
                assert(n.len() >= 2);
                let ghost top = n[n.len() - 1];
                assert(top == n.last());
                let ghost old_pmm = *pmm;
                proof {
                    pmm.lemma_nodes_ok();
                }
                let new_table = match pmm.allocate() {
                    Ok(f) => f,
                    Err(_) => {
                        proof {
                            assert(false);
                        }
                        0
                    },
                };
                assert(new_table == (top - pmm.hhdm()) as u64);
                let fl: u64 = match flags {
                    Some(q) => q,
                    None => 0,
                };
                let entry = new_table | fl;
                proof {
                    lemma_entry_of_frame(new_table, fl);
                }
                let ghost lvl = self.levels@[table] + 1;
                self.add_table(new_table, Ghost(lvl));
                let ghost mid = *self;
                self.write_entry(table, index, entry);
                proof {
                    mid.lemma_wf_facts();
                    assert(self.mem() == old_self.mem().insert(table, old_self.mem()[table].update(index as int, entry)).insert(new_table, zero_table())) by {
                        assert(self.mem() =~= old_self.mem().insert(table, old_self.mem()[table].update(index as int, entry)).insert(new_table, zero_table()));
                    }
                    assert(self.levels@.dom() =~= self.mem().dom());
                    assert forall|t: u64, i: int|
                        #![trigger self.mem()[t][i]]
                        self.mem().contains_key(t) && self.levels@[t] < 3 && 0 <= i < 512 && present(self.mem()[t][i])
                            implies self.mem().contains_key(table_of(self.mem()[t][i]))
                            && self.levels@[table_of(self.mem()[t][i])] == self.levels@[t] + 1 by {
                        if t == table && i == index {
                        } else {
                            assert(self.mem()[t][i] == mid.mem()[t][i]);
                        }
                    }
                    assert(self.wf());
                    old_self.lemma_wf_facts();
                    let f0 = (old_pmm.nodes()[n.len() - 1] - old_pmm.hhdm()) as u64;
                    assert(f0 != 0 && frame_ok(f0) && !old_self.mem().contains_key(f0));
                    lemma_fresh_link_keeps_translation(old_self.mem(), old_self.levels@, old_self.rootpagetable,
                        table, index, new_table, entry, self.mem());
                    assert forall|i: int| 0 <= i < pmm.nodes().len() implies {
                        let f = (#[trigger] pmm.nodes()[i] - pmm.hhdm()) as u64;
                        &&& f != 0
                        &&& frame_ok(f)
                        &&& !self.mem().contains_key(f)
                    } by {
                        assert(pmm.nodes()[i] == n[i]);
                        assert(n[i] != n[n.len() - 1]);
                        assert(old_pmm.nodes()[i] == n[i]);
                        let f0 = (old_pmm.nodes()[i] - old_pmm.hhdm()) as u64;
                        assert(f0 != 0 && frame_ok(f0) && !old_self.mem().contains_key(f0));
                        assert(crate::mem::phys::node_ok(old_pmm.nodes()[i], old_pmm.hhdm()));
                        assert(crate::mem::phys::node_ok(old_pmm.nodes()[n.len() - 1], old_pmm.hhdm()));
                    }
                    assert(pmm.nodes().no_duplicates()) by {
                        assert forall|a: int, b: int| 0 <= a < b < pmm.nodes().len() implies pmm.nodes()[a] != pmm.nodes()[b] by {
                            assert(pmm.nodes()[a] == n[a]);
                            assert(pmm.nodes()[b] == n[b]);
                        }
                    }
                }
                return table_of_exec(entry);
            } else {
                return 0;
            }
        } else {
            return table_of_exec(e);
        }
    }

    /// Maps the page at `from_virt` to `to_phys` with `flags`, creating the
    /// missing tables of the walk from pages of `pmm`; the created
    /// directory entries carry `flags` too.  The last-level entry becomes
    /// `to_phys | flags`.
    pub fn map(&mut self, from_virt: u64, to_phys: u64, flags: u64, pmm: &mut PhysicalAllocator) -> (r: Result<(), &'static str>)
        requires
            old(self).wf(),
            old(pmm).wf(),
            old(self).frames_fresh(&*old(pmm)),
            flags & TABLE_ADDR_MASK == 0,
            allocs_needed(old(self).mem(), old(self).root(), from_virt) == 0
                || old(pmm).nodes().len() >= allocs_needed(old(self).mem(), old(self).root(), from_virt) + 1,
        ensures
            r is Ok,
            final(self).wf(),
            final(pmm).wf(),
            final(self).frames_fresh(&*final(pmm)),
            final(self).root() == old(self).root(),
            final(self).hhdm() == old(self).hhdm(),
            final(self).regions() == old(self).regions(),
            final(pmm).hhdm() == old(pmm).hhdm(),
            final(pmm).nodes() == old(pmm).nodes().take(
                old(pmm).nodes().len() - allocs_needed(old(self).mem(), old(self).root(), from_virt),
            ),
            present(flags) ==> final(self).translate_va(from_virt) == Some(get_phys_spec(to_phys | flags)),
            present(flags) ==> forall|va: u64| !same_slot(va, from_virt) ==> #[trigger] final(self).translate_va(va)
                == old(self).translate_va(va),
            present(flags) || allocs_needed(old(self).mem(), old(self).root(), from_virt) == 0
                ==> final(self).entry_va(from_virt) == to_phys | flags,
            present(flags) ==> forall|va: u64| !same_slot(va, from_virt) ==> #[trigger] final(self).entry_va(va)
                == old(self).entry_va(va),
            forall|f: u64| !old(self).mem().contains_key(f) && off_free_list(*old(pmm), f) ==> !#[trigger] final(self).mem().contains_key(f),
    {
        proof {
            lemma_indices_in_range(from_virt);
            self.lemma_wf_facts();
            assert(0u64 & 1u64 == 0) by (bit_vector);
        }
        let ghost m0 = self.mem();
        let ghost n0 = pmm.nodes();
        let ghost need = allocs_needed(m0, self.root(), from_virt);
        let lvl4table_index = (from_virt >> 39) & 0x1FF;
        let lvl3table_index = (from_virt >> 30) & 0x1FF;
        let lvl2table_index = (from_virt >> 21) & 0x1FF;
        let lvl1table_index = (from_virt >> 12) & 0x1FF;
        let root = self.rootpagetable;
        let ghost s0 = *self;
        let ghost p0 = *pmm;

        let cur3 = self.get_next_table(root, lvl4table_index, true, Some(flags), pmm);
        let ghost p1 = *pmm;
        let ghost s1 = *self;
        let ghost m1 = self.mem();
        proof {
            self.lemma_wf_facts();
            if !present(m0[root][lvl4table_index as int]) {
                assert(m1[cur3] == zero_table());
                assert(pmm.nodes() == n0.take(n0.len() - 1));
            } else {
                assert(pmm.nodes() == n0);
            }
        }
        let cur2 = self.get_next_table(cur3, lvl3table_index, true, Some(flags), pmm);
        let ghost p2 = *pmm;
        let ghost s2 = *self;
        let ghost m2 = self.mem();
        proof {
            self.lemma_wf_facts();
            if !present(m0[root][lvl4table_index as int]) || !present(m1[cur3][lvl3table_index as int]) {
                assert(m2[cur2] == zero_table());
            }
            if !present(m0[root][lvl4table_index as int]) {
                assert(pmm.nodes() == n0.take(n0.len() - 2));
            } else if !present(m1[cur3][lvl3table_index as int]) {
                assert(pmm.nodes() == n0.take(n0.len() - 1));
            } else {
                assert(pmm.nodes() == n0);
            }
        }
        let cur1 = self.get_next_table(cur2, lvl2table_index, true, Some(flags), pmm);
        let ghost m3 = self.mem();
        proof {
            self.lemma_wf_facts();
            assert(pmm.nodes() == n0.take(n0.len() - need));
        }
        let entry = to_phys | flags;
        let ghost s3 = *self;
        self.write_entry(cur1, lvl1table_index, entry);
        proof {
            assert(p1.nodes() =~= p0.nodes().take(p1.nodes().len() as int));
            assert(p2.nodes() =~= p1.nodes().take(p2.nodes().len() as int));
            assert forall|f: u64| !m0.contains_key(f) && off_free_list(p0, f) implies !#[trigger] self.mem().contains_key(f) by {
                lemma_off_free_list_prefix(p0, p1, f, p1.nodes().len() as int);
                lemma_off_free_list_prefix(p1, p2, f, p2.nodes().len() as int);
            }
            assert(self.levels@.dom() =~= self.mem().dom());
            assert forall|t: u64, i: int|
                #![trigger self.mem()[t][i]]
                self.mem().contains_key(t) && self.levels@[t] < 3 && 0 <= i < 512 && present(self.mem()[t][i])
                    implies self.mem().contains_key(table_of(self.mem()[t][i]))
                    && self.levels@[table_of(self.mem()[t][i])] == self.levels@[t] + 1 by {
                assert(t != cur1);
                assert(self.mem()[t] == s3.mem()[t]);
            }
            assert(self.wf());
            if present(flags) {
                assert(cur3 != cur2 && cur3 != cur1 && cur2 != cur1);
                assert(root != cur3 && root != cur2 && root != cur1);
                assert(self.mem()[root] == m0[root].update(lvl4table_index as int, m1[root][lvl4table_index as int])
                    || self.mem()[root] == m1[root]);
                assert(self.mem()[root] == m1[root]);
                assert(next_table(self.mem(), root, lvl4table_index) == cur3);
                assert(self.mem()[cur3] == m2[cur3]);
                assert(next_table(self.mem(), cur3, lvl3table_index) == cur2);
                assert(self.mem()[cur2] == m3[cur2]);
                assert(next_table(self.mem(), cur2, lvl2table_index) == cur1);
                assert(entry & 1 != 0) by (bit_vector)
                    requires
                        flags & 1 != 0,
                        entry == to_phys | flags,
                ;
                assert(self.mem()[cur1][lvl1table_index as int] == entry);
                s3.lemma_wf_facts();
                assert(leaf_table(m3, root, from_virt) == cur1);
                lemma_leaf_write_frame(m3, s3.levels@, root, from_virt, entry, self.mem());
                assert forall|va: u64| !same_slot(va, from_virt) implies #[trigger] self.translate_va(va) == s0.translate_va(va) by {
                    assert(s3.translate_va(va) == s2.translate_va(va));
                    assert(s2.translate_va(va) == s1.translate_va(va));
                    assert(s1.translate_va(va) == s0.translate_va(va));
                    assert(translate(self.mem(), root, va) == translate(m3, root, va));
                }
                assert forall|va: u64| !same_slot(va, from_virt) implies #[trigger] self.entry_va(va) == s0.entry_va(va) by {
                    assert(s3.entry_va(va) == s2.entry_va(va));
                    assert(s2.entry_va(va) == s1.entry_va(va));
                    assert(s1.entry_va(va) == s0.entry_va(va));
                    assert(leaf_entry(self.mem(), root, va) == leaf_entry(m3, root, va));
                }
            }
        }
        Ok(())
    }

    /// Clears the last-level entry of the walk for `from_virt`, when the
    /// walk reaches one; nothing changes otherwise.  (The caller flushes
    /// the stale TLB entry.)
    pub fn unmap(&mut self, from_virt: u64, flags: u64) -> (r: Result<(), &'static str>)
        requires
            old(self).wf(),
        ensures
            r is Ok,
            final(self).wf(),
            final(self).root() == old(self).root(),
            final(self).hhdm() == old(self).hhdm(),
            final(self).regions() == old(self).regions(),
            forall|t: u64| #[trigger] old(self).mem().contains_key(t) ==> final(self).level(t) == old(self).level(t),
            ({
                let t1 = leaf_table(old(self).mem(), old(self).root(), from_virt);
                &&& t1 == 0 ==> final(self).mem() == old(self).mem()
                &&& t1 != 0 ==> final(self).mem() == old(self).mem().insert(
                    t1,
                    old(self).mem()[t1].update(l1_index(from_virt) as int, 0),
                )
            }),
            final(self).translate_va(from_virt) is None,
            forall|va: u64| !same_slot(va, from_virt) ==> #[trigger] final(self).translate_va(va)
                == old(self).translate_va(va),
    {
        proof {
            lemma_indices_in_range(from_virt);
            self.lemma_wf_facts();
        }
        let lvl4table_index = (from_virt >> 39) & 0x1FF;
        let lvl3table_index = (from_virt >> 30) & 0x1FF;
        let lvl2table_index = (from_virt >> 21) & 0x1FF;
        let lvl1table_index = (from_virt >> 12) & 0x1FF;
        let cur3 = self.follow(self.rootpagetable, lvl4table_index);
        if cur3 == 0 {
            return Ok(());
        }
        let cur2 = self.follow(cur3, lvl3table_index);
        if cur2 == 0 {
            return Ok(());
        }
        let cur1 = self.follow(cur2, lvl2table_index);
        if cur1 == 0 {
            return Ok(());
        }
        let ghost s0 = *self;
        self.write_entry(cur1, lvl1table_index, 0);
        proof {
            assert(self.levels@.dom() =~= self.mem().dom());
            assert forall|t: u64, i: int|
                #![trigger self.mem()[t][i]]
                self.mem().contains_key(t) && self.levels@[t] < 3 && 0 <= i < 512 && present(self.mem()[t][i])
                    implies self.mem().contains_key(table_of(self.mem()[t][i]))
                    && self.levels@[table_of(self.mem()[t][i])] == self.levels@[t] + 1 by {
                assert(t != cur1);
                assert(self.mem()[t] == s0.mem()[t]);
            }
            assert(self.wf());
            assert(cur3 != cur1 && cur2 != cur1 && self.rootpagetable != cur1);
            assert(self.mem()[self.rootpagetable] == s0.mem()[self.rootpagetable]);
            assert(self.mem()[cur3] == s0.mem()[cur3]);
            assert(self.mem()[cur2] == s0.mem()[cur2]);
            assert(leaf_table(self.mem(), self.rootpagetable, from_virt) == cur1);
            s0.lemma_wf_facts();
            lemma_leaf_write_frame(s0.mem(), s0.levels@, s0.rootpagetable, from_virt, 0, self.mem());
        }
        Ok(())
    }

    /// Every page table with the frame it lives in, for writing out to the
    /// memory the processor walks: each listed table is a table of this
    /// address space with exactly its entries, and every table is listed.
    pub fn tables(&self) -> (r: Vec<(u64, Vec<u64>)>)
        requires
            self.wf(),
        ensures
            forall|i: int| 0 <= i < r@.len() ==> self.mem().contains_key(#[trigger] r@[i].0) && r@[i].1@ == self.mem()[r@[i].0],
            forall|t: u64| self.mem().contains_key(t) ==> exists|i: int| 0 <= i < r@.len() && #[trigger] r@[i].0 == t,
    {
        let mut r: Vec<(u64, Vec<u64>)> = Vec::new();
        let mut k: usize = 0;
        while k < self.tables.len()
            invariant
                self.wf(),
                0 <= k <= self.tables@.len(),
                r@.len() == k,
                forall|i: int| 0 <= i < k ==> (#[trigger] r@[i]).0 == self.tables@[i].addr && r@[i].1@ == self.tables@[i].entries@,
            decreases self.tables@.len() - k,
        {
            let t = &self.tables[k];
            let mut copy: Vec<u64> = Vec::new();
            let mut j: usize = 0;
            while j < t.entries.len()
                invariant
                    0 <= j <= t.entries@.len(),
                    copy@ == t.entries@.take(j as int),
                decreases t.entries@.len() - j,
            {
                copy.push(t.entries[j]);
                j = j + 1;
                assert(copy@ =~= t.entries@.take(j as int));
            }
            assert(copy@ =~= t.entries@);
            r.push((t.addr, copy));
            k = k + 1;
        }
        proof {
            assert forall|i: int| 0 <= i < r@.len() implies self.mem().contains_key(#[trigger] r@[i].0) && r@[i].1@ == self.mem()[r@[i].0] by {
                lemma_tables_mem_index(self.tables@, i);
            }
            assert forall|t: u64| self.mem().contains_key(t) implies exists|i: int| 0 <= i < r@.len() && #[trigger] r@[i].0 == t by {
                let i = choose|i: int| 0 <= i < self.tables@.len() && (#[trigger] self.tables@[i]).addr == t;
                assert(r@[i].0 == t);
            }
        }
        r
    }

    /// The physical address of the top-level table, which `cr3` takes.
    pub fn root_table(&self) -> (r: u64)
        ensures
            r == self.root(),
    {
        self.rootpagetable
    }

    /// The address part of a page-table entry.
    pub fn get_phys_from_entry(pte: u64) -> (r: u64)
        ensures
            r == get_phys_spec(pte),
    {
        pte & PHYS_ADDR_MASK
    }

    /// The physical address that `from_virt` translates to; an error when
    /// the walk finds no top-level entry ("Nope") or no mapping further
    /// down ("nope").
    pub fn virt_to_phys(&self, from_virt: u64) -> (r: Result<u64, &'static str>)
        requires
            self.wf(),
        ensures
            self.translate_va(from_virt) matches Some(p) ==> r == Ok::<u64, &'static str>(p),
            self.translate_va(from_virt) is None ==> r is Err,
            next_table(self.mem(), self.root(), l4_index(from_virt)) == 0 ==> r == Err::<u64, &'static str>("Nope"),
            next_table(self.mem(), self.root(), l4_index(from_virt)) != 0 && self.translate_va(from_virt) is None
                ==> r == Err::<u64, &'static str>("nope"),
    {
        proof {
            lemma_indices_in_range(from_virt);
            self.lemma_wf_facts();
        }
        let lvl4table_index = (from_virt >> 39) & 0x1FF;
        let lvl3table_index = (from_virt >> 30) & 0x1FF;
        let lvl2table_index = (from_virt >> 21) & 0x1FF;
        let lvl1table_index = (from_virt >> 12) & 0x1FF;
        let cur3 = self.follow(self.rootpagetable, lvl4table_index);
        if cur3 == 0 {
            return Err("Nope");
        }
        let cur2 = self.follow(cur3, lvl3table_index);
        if cur2 == 0 {
            return Err("nope");
        }
        let cur1 = self.follow(cur2, lvl2table_index);
        if cur1 == 0 {
            return Err("nope");
        }
        let e = self.read_entry(cur1, lvl1table_index);
        if e != 0 {
            Ok(PageMap::get_phys_from_entry(e))
        } else {
            Err("nope")
        }
    }

    /// How many tables a mapping of `va` has to create.
    fn tables_needed(&self, va: u64) -> (r: usize)
        requires
            self.wf(),
        ensures
            r == allocs_needed(self.mem(), self.root(), va),
    {
        proof {
            lemma_indices_in_range(va);
            self.lemma_wf_facts();
        }
        let cur3 = self.follow(self.rootpagetable, (va >> 39) & 0x1FF);
        if cur3 == 0 {
            return 3;
        }
        let cur2 = self.follow(cur3, (va >> 30) & 0x1FF);
        if cur2 == 0 {
            return 2;
        }
        let cur1 = self.follow(cur2, (va >> 21) & 0x1FF);
        if cur1 == 0 {
            return 1;
        }
        0
    }

    /// Entry `index` of `table`, followed without allocating.
    fn follow(&self, table: u64, index: u64) -> (r: u64)
        requires
            self.wf(),
            self.mem().contains_key(table),
            index < 512,
        ensures
            r == next_table(self.mem(), table, index),
    {
        let e = self.read_entry(table, index);
        if e & KTPRESENT == 0 {
            0
        } else {
            table_of_exec(e)
        }
    }

    fn find_table(&self, addr: u64) -> (k: usize)
        requires
            self.wf(),
            self.mem().contains_key(addr),
        ensures
            k < self.tables@.len(),
            self.tables@[k as int].addr == addr,
            self.mem()[addr] == self.tables@[k as int].entries@,
            self.tables@[k as int].entries@.len() == 512,
    {
        let mut k: usize = 0;
        while k < self.tables.len()
            invariant
                0 <= k <= self.tables@.len(),
                self.wf(),
                self.mem().contains_key(addr),
                forall|j: int| 0 <= j < k ==> (#[trigger] self.tables@[j]).addr != addr,
            decreases self.tables@.len() - k,
        {
            if self.tables[k].addr == addr {
                proof {
                    lemma_tables_mem_index(self.tables@, k as int);
                }
                return k;
            }
            k = k + 1;
        }
        proof {
            let j = choose|j: int| 0 <= j < self.tables@.len() && (#[trigger] self.tables@[j]).addr == addr;
            assert(self.tables@[j].addr != addr);
        }
        0
    }

    fn read_entry(&self, table: u64, index: u64) -> (r: u64)
        requires
            self.wf(),
            self.mem().contains_key(table),
            index < 512,
        ensures
            r == self.mem()[table][index as int],
    {
        let k = self.find_table(table);
        self.tables[k].entries[index as usize]
    }

    fn write_entry(&mut self, table: u64, index: u64, value: u64)
        requires
            old(self).wf(),
            old(self).mem().contains_key(table),
            index < 512,
        ensures
            final(self).mem() == old(self).mem().insert(table, old(self).mem()[table].update(index as int, value)),
            final(self).levels == old(self).levels,
            final(self).head == old(self).head,
            final(self).rootpagetable == old(self).rootpagetable,
            final(self).hhdm_offset == old(self).hhdm_offset,
            addrs_distinct(final(self).tables@),
            forall|i: int| 0 <= i < final(self).tables@.len() ==> (#[trigger] final(self).tables@[i]).entries@.len() == 512
                && final(self).tables@[i].addr != 0,
    {
        let k = self.find_table(table);
        let ghost ts = self.tables@;
        self.tables[k].entries.set(index as usize, value);
        proof {
            lemma_tables_mem_update(ts, k as int, self.tables@[k as int]);
            assert(self.tables@ == ts.update(k as int, self.tables@[k as int]));
            assert forall|i: int| 0 <= i < self.tables@.len() implies (#[trigger] self.tables@[i]).entries@.len() == 512
                && self.tables@[i].addr != 0 by {
                if i != k {
                    assert(self.tables@[i] == ts[i]);
                }
            }
        }
    }

    fn add_table(&mut self, addr: u64, Ghost(level): Ghost<nat>)
        requires
            old(self).wf(),
            addr != 0,
            !old(self).mem().contains_key(addr),
            level <= 3,
        ensures
            final(self).mem() == old(self).mem().insert(addr, zero_table()),
            final(self).levels@ == old(self).levels@.insert(addr, level),
            final(self).head == old(self).head,
            final(self).rootpagetable == old(self).rootpagetable,
            final(self).hhdm_offset == old(self).hhdm_offset,
            final(self).wf(),
    {
        let mut entries: Vec<u64> = Vec::new();
        let mut i: usize = 0;
        while i < 512
            invariant
                0 <= i <= 512,
                entries@ == Seq::new(i as nat, |j: int| 0u64),
            decreases 512 - i,
        {
            entries.push(0);
            i = i + 1;
        }
        assert(entries@ == zero_table());
        let ghost ts = self.tables@;
        let ghost old_self = *self;
        proof {
            old_self.lemma_wf_facts();
        }
        self.tables.push(PageTable { addr, entries });
        proof {
            lemma_tables_mem_push(ts, self.tables@.last());
            assert(self.tables@ == ts.push(self.tables@.last()));
            self.levels = Ghost(self.levels@.insert(addr, level));
            assert forall|i: int| 0 <= i < self.tables@.len() implies (#[trigger] self.tables@[i]).entries@.len() == 512
                && self.tables@[i].addr != 0 by {
                if i < ts.len() {
                    assert(self.tables@[i] == ts[i]);
                }
            }
            assert(self.levels@.dom() =~= self.mem().dom());
            assert forall|t: u64, i: int|
                #![trigger self.mem()[t][i]]
                self.mem().contains_key(t) && self.levels@[t] < 3 && 0 <= i < 512 && present(self.mem()[t][i])
                    implies self.mem().contains_key(table_of(self.mem()[t][i]))
                    && self.levels@[table_of(self.mem()[t][i])] == self.levels@[t] + 1 by {
                if t == addr {
                    assert(self.mem()[t][i] == 0);
                    assert(0u64 & 1u64 == 0) by (bit_vector);
                } else {
                    assert(old_self.mem()[t][i] == self.mem()[t][i]);
                    assert(table_of(self.mem()[t][i]) != addr);
                }
            }
            assert(0u64 & 1u64 == 0) by (bit_vector);
            assert forall|t1: u64, i1: int, t2: u64, i2: int|
                #![trigger self.mem()[t1][i1], self.mem()[t2][i2]]
                self.mem().contains_key(t1) && self.mem().contains_key(t2) && self.levels@[t1] < 3
                    && self.levels@[t2] < 3 && 0 <= i1 < 512 && 0 <= i2 < 512 && present(self.mem()[t1][i1])
                    && present(self.mem()[t2][i2]) && table_of(self.mem()[t1][i1]) == table_of(self.mem()[t2][i2])
                    implies t1 == t2 && i1 == i2 by {
                if t1 == addr {
                    assert(self.mem()[t1][i1] == 0);
                } else if t2 == addr {
                    assert(self.mem()[t2][i2] == 0);
                } else {
                    assert(old_self.mem()[t1][i1] == self.mem()[t1][i1]);
                    assert(old_self.mem()[t2][i2] == self.mem()[t2][i2]);
                }
            }
        }
    }
}

} // verus!
