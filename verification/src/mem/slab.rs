use vstd::prelude::*;
use crate::mem::phys::{PhysicalAllocator, node_ok};

verus! {

/// The bytes at the start of a slab page that its header takes.
pub const SLAB_HEADER_SIZE: u64 = 40;

/// Where the first object of a slab of `size`-byte objects starts: the
/// least multiple of `size` past the header, so that every object of a
/// page-aligned slab is aligned to its size when that divides the page.
pub open spec fn slab_offset(size: usize) -> int {
    (39int / (size as int) + 1) * size
}

/// The number of objects that a fresh slab of `size`-byte objects holds:
/// as many as fit between the first object's place and the page's end.
pub open spec fn slab_capacity(size: usize) -> nat {
    ((4096 - slab_offset(size)) / (size as int)) as nat
}

/// The objects of a fresh slab at `page`, in free-list order: the first at
/// `slab_offset(size)`, each next one `size` bytes further.
pub open spec fn fresh_objects(page: u64, size: usize) -> Seq<u64> {
    Seq::new(slab_capacity(size), |i: int| (page + slab_offset(size) + i * size) as u64)
}

/// One slab: a page whose header is followed by objects of one size; the
/// free list starts at index 0.
pub struct slab_header {
    pub page: u64,
    pub size: usize,
    pub freelist: Vec<u64>,
}

/// A size class: its object size and its slabs, in list order.
pub struct cache {
    pub slabs: Vec<slab_header>,
    pub size: usize,
}

/// The index of the first slab with a free object, or the number of slabs
/// when none has one.
pub open spec fn first_with_free(slabs: Seq<slab_header>) -> int
    decreases slabs.len(),
{
    if slabs.len() == 0 {
        0
    } else if slabs[0].freelist@.len() > 0 {
        0
    } else {
        1 + first_with_free(slabs.drop_first())
    }
}

/// What a search of `old` for a free object leaves: the head of the first
/// slab with a free object is handed out; when no slab has one, a fresh
/// slab is made on the page at the head of `pmm0`, appended, and its first
/// object handed out.
pub open spec fn search_post(
    old: Seq<slab_header>,
    new: Seq<slab_header>,
    size: usize,
    pmm0: PhysicalAllocator,
    pmm1: PhysicalAllocator,
    r: Option<u64>,
) -> bool {
    let k = first_with_free(old);
    if k < old.len() {
        &&& r == Some(old[k].freelist@[0])
        &&& new.len() == old.len()
        &&& forall|j: int| 0 <= j < old.len() && j != k ==> #[trigger] new[j] == old[j]
        &&& new[k].page == old[k].page
        &&& new[k].size == old[k].size
        &&& new[k].freelist@ == old[k].freelist@.drop_first()
        &&& pmm1 == pmm0
    } else {
        let page = pmm0.nodes().last();
        &&& r == Some(fresh_objects(page, size)[0])
        &&& new.len() == old.len() + 1
        &&& forall|j: int| 0 <= j < old.len() ==> #[trigger] new[j] == old[j]
        &&& new[old.len() as int].page == page
        &&& new[old.len() as int].size == size
        &&& new[old.len() as int].freelist@ == fresh_objects(page, size).drop_first()
        &&& pmm1.wf()
        &&& pmm1.hhdm() == pmm0.hhdm()
        &&& pmm1.nodes() == pmm0.nodes().drop_last()
    }
}

pub proof fn lemma_first_with_free(slabs: Seq<slab_header>)
    ensures
        0 <= first_with_free(slabs) <= slabs.len(),
        first_with_free(slabs) < slabs.len() ==> slabs[first_with_free(slabs)].freelist@.len() > 0,
        forall|j: int| 0 <= j < first_with_free(slabs) ==> #[trigger] slabs[j].freelist@.len() == 0,
    decreases slabs.len(),
{
    if slabs.len() > 0 && slabs[0].freelist@.len() == 0 {
        lemma_first_with_free(slabs.drop_first());
        assert forall|j: int| 0 <= j < first_with_free(slabs) implies #[trigger] slabs[j].freelist@.len() == 0 by {
            if j > 0 {
                assert(slabs.drop_first()[j - 1] == slabs[j]);
            }
        }
    }
}

/// A slab whose free list names distinct object slots of its own page.
pub open spec fn slab_sound(s: slab_header) -> bool {
    &&& s.page + 4096 <= u64::MAX
    &&& s.freelist@.no_duplicates()
    &&& forall|j: int| 0 <= j < s.freelist@.len() ==> fresh_objects(s.page, s.size).contains(#[trigger] s.freelist@[j])
}

/// The first object of a slab lies past the header and less than one
/// object further; a slab holds at least one object.
pub proof fn lemma_slab_offset(size: usize)
    requires
        16 <= size <= 1024,
    ensures
        40 <= slab_offset(size) < 40 + size,
        slab_offset(size) % (size as int) == 0,
        1 <= slab_capacity(size),
        slab_offset(size) + slab_capacity(size) * size <= 4096,
{
    let d = size as int;
    let q = 39int / d;
    vstd::arithmetic::div_mod::lemma_fundamental_div_mod(39, d);
    let o = slab_offset(size);
    assert(o == q * d + d) by (nonlinear_arith)
        requires
            o == (q + 1) * d,
    ;
    assert(39int % d < d && 39int % d >= 0) by {
        vstd::arithmetic::div_mod::lemma_mod_bound(39, d);
    }
    assert(o % d == 0) by {
        vstd::arithmetic::div_mod::lemma_mod_multiples_basic(q + 1, d);
        assert((q + 1) * d == d * (q + 1)) by (nonlinear_arith);
    }
    let n = (4096 - o) / d;
    vstd::arithmetic::div_mod::lemma_fundamental_div_mod(4096 - o, d);
    vstd::arithmetic::div_mod::lemma_mod_bound(4096 - o, d);
    assert(n >= 1) by (nonlinear_arith)
        requires
            4096 - o == d * n + (4096 - o) % d,
            0 <= (4096 - o) % d < d,
            o < 40 + d,
            d <= 1024,
            d > 0,
    ;
    assert(o + n * d <= 4096) by (nonlinear_arith)
        requires
            4096 - o == d * n + (4096 - o) % d,
            0 <= (4096 - o) % d,
    ;
}

/// The slots of a fresh slab are distinct, ascending, and lie after the
/// header within the page.
pub proof fn lemma_fresh_objects(page: u64, size: usize)
    requires
        16 <= size <= 1024,
        page + 4096 <= u64::MAX,
    ensures
        fresh_objects(page, size).no_duplicates(),
        fresh_objects(page, size).len() >= 1,
        forall|i: int| 0 <= i < fresh_objects(page, size).len() ==> {
            &&& #[trigger] fresh_objects(page, size)[i] == page + slab_offset(size) + i * size
            &&& page + 40 <= fresh_objects(page, size)[i]
            &&& fresh_objects(page, size)[i] + size <= page + 4096
        },
{
    lemma_slab_offset(size);
    let f = fresh_objects(page, size);
    let n = slab_capacity(size);
    let o = slab_offset(size);
    assert forall|i: int| 0 <= i < n implies #[trigger] f[i] == page + o + i * size && page + 40 <= f[i]
        && f[i] + size <= page + 4096 by {
        assert((i + 1) * size <= n * size && i * size >= 0 && (i + 1) * size == i * size + size) by (nonlinear_arith)
            requires
                0 <= i < n,
                size > 0,
        ;
    }
    assert forall|i: int, j: int| 0 <= i < j < n implies f[i] != f[j] by {
        assert(i * size < j * size) by (nonlinear_arith)
            requires
                i < j,
                size > 0,
        ;
    }
}

/// An object slot of a page-aligned slab of a class is aligned to the
/// class's size.
pub proof fn lemma_slot_aligned(page: u64, size: usize, i: int)
    requires
        page & 0xfffu64 == 0,
        page + 4096 <= u64::MAX,
        class_sizes().contains(size),
        0 <= i < fresh_objects(page, size).len(),
    ensures
        (fresh_objects(page, size)[i] as int) % (size as int) == 0,
{
    let k = choose|k: int| 0 <= k < 7 && class_sizes()[k] == size;
    assert(16 <= size <= 1024);
    lemma_fresh_objects(page, size);
    lemma_slab_offset(size);
    assert(page % 4096 == 0) by (bit_vector)
        requires
            page & 0xfffu64 == 0,
    ;
    let d = size as int;
    assert(4096int % d == 0) by {
        assert(class_sizes()[k] == size);
        if k == 0 {
            assert(d == 16);
        } else if k == 1 {
            assert(d == 32);
        } else if k == 2 {
            assert(d == 64);
        } else if k == 3 {
            assert(d == 128);
        } else if k == 4 {
            assert(d == 256);
        } else if k == 5 {
            assert(d == 512);
        } else {
            assert(d == 1024);
        }
    }
    let o = slab_offset(size);
    let x = page as int + o + i * d;
    assert(x % d == 0) by (nonlinear_arith)
        requires
            page as int % 4096 == 0,
            4096int % d == 0,
            o % d == 0,
            d > 0,
            i >= 0,
            x == page as int + o + i * d,
    {
        let a = page as int / 4096;
        let b = 4096int / d;
        let e = o / d;
        assert(page as int == 4096 * a);
        assert(4096int == d * b);
        assert(o == d * e);
        assert(x == d * (a * b + e + i));
    }
}

/// A slab whose free list is all of its fresh objects, or all but the
/// first, is sound.
pub proof fn lemma_fresh_slab_sound(s: slab_header)
    requires
        16 <= s.size <= 1024,
        s.page + 4096 <= u64::MAX,
        s.freelist@ == fresh_objects(s.page, s.size) || s.freelist@ == fresh_objects(s.page, s.size).drop_first(),
    ensures
        slab_sound(s),
{
    lemma_fresh_objects(s.page, s.size);
    let f = fresh_objects(s.page, s.size);
    if s.freelist@ == f.drop_first() {
        assert forall|j: int| 0 <= j < s.freelist@.len() implies f.contains(#[trigger] s.freelist@[j]) by {
            assert(s.freelist@[j] == f[j + 1]);
        }
        assert forall|a: int, b: int| 0 <= a < s.freelist@.len() && 0 <= b < s.freelist@.len() && a != b
            implies s.freelist@[a] != s.freelist@[b] by {
            assert(s.freelist@[a] == f[a + 1] && s.freelist@[b] == f[b + 1]);
        }
    } else {
        assert forall|j: int| 0 <= j < s.freelist@.len() implies f.contains(#[trigger] s.freelist@[j]) by {}
    }
}

impl slab_header {
    /// Makes a slab of `size`-byte objects on a page taken from `pmm`; all
    /// of its objects are free.
    pub fn init(size: usize, pmm: &mut PhysicalAllocator) -> (r: slab_header)
        requires
            16 <= size <= 1024,
            old(pmm).wf(),
            old(pmm).can_alloc(),
        ensures
            r.page == old(pmm).nodes().last(),
            r.size == size,
            r.freelist@ == fresh_objects(r.page, size),
            final(pmm).wf(),
            final(pmm).hhdm() == old(pmm).hhdm(),
            final(pmm).nodes() == old(pmm).nodes().drop_last(),
    {
        proof {
            pmm.lemma_nodes_ok();
            lemma_slab_offset(size);
        }
        let ghost top = pmm.nodes().last();
        assert(node_ok(pmm.nodes()[pmm.nodes().len() - 1], pmm.hhdm()));
        let frame = match pmm.allocate() {
            Ok(f) => f,
            Err(_) => {
                proof {
                    assert(false);
                }
                0
            },
        };
        let page = frame + pmm.hhdm_offset();
        assert(page == top);
        let first: usize = (39 / size + 1) * size;
        assert(first == slab_offset(size));
        let obj_amount: usize = (4096 - first) / size;
        let start = page + first as u64;
        let mut freelist: Vec<u64> = Vec::new();
        let mut i: usize = 0;
        assert(obj_amount == slab_capacity(size));
        while i < obj_amount
            invariant
                0 <= i <= obj_amount,
                obj_amount == slab_capacity(size),
                first + obj_amount * size <= 4096,
                16 <= size <= 1024,
                start == page + slab_offset(size),
                first == slab_offset(size),
                page + 4096 <= u64::MAX,
                freelist@ == fresh_objects(page, size).take(i as int),
            decreases obj_amount - i,
        {
            assert(i * size <= obj_amount * size) by (nonlinear_arith)
                requires
                    i <= obj_amount,
            ;
            let obj = start + (i as u64 * size as u64);
            freelist.push(obj);
            i = i + 1;
            assert(freelist@ == fresh_objects(page, size).take(i as int));
        }
        assert(freelist@ == fresh_objects(page, size));
        slab_header { page, size, freelist }
    }
}


/// An object handed out by a search is a slot of the slab that it came
/// from, lies after that slab's header and within its page, and is no
/// longer on that slab's free list; every slab stays sound.
pub proof fn law_allocated_object_fits(
    old: Seq<slab_header>,
    new: Seq<slab_header>,
    size: usize,
    pmm0: PhysicalAllocator,
    pmm1: PhysicalAllocator,
    r: Option<u64>,
)
    requires
        search_post(old, new, size, pmm0, pmm1, r),
        16 <= size <= 1024,
        pmm0.wf(),
        first_with_free(old) == old.len() ==> pmm0.can_alloc(),
        forall|j: int| 0 <= j < old.len() ==> slab_sound(#[trigger] old[j]) && old[j].size == size,
    ensures
        ({
            let k = if first_with_free(old) < old.len() { first_with_free(old) } else { old.len() as int };
            let p = r.unwrap();
            &&& r.is_some()
            &&& 0 <= k < new.len()
            &&& fresh_objects(new[k].page, size).contains(p)
            &&& new[k].page + 40 <= p
            &&& p + size <= new[k].page + 4096
            &&& !new[k].freelist@.contains(p)
        }),
        forall|j: int| 0 <= j < new.len() ==> slab_sound(#[trigger] new[j]) && new[j].size == size,
{
    lemma_first_with_free(old);
    let k0 = first_with_free(old);
    if k0 < old.len() {
        let f = old[k0].freelist@;
        let p = f[0];
        assert(fresh_objects(old[k0].page, size).contains(f[0]));
        lemma_fresh_objects(old[k0].page, size);
        assert forall|j: int| 0 <= j < new[k0].freelist@.len() implies new[k0].freelist@[j] != p by {
            assert(new[k0].freelist@[j] == f[j + 1]);
        }
        assert forall|j: int| 0 <= j < new.len() implies slab_sound(#[trigger] new[j]) && new[j].size == size by {
            if j == k0 {
                assert forall|a: int| 0 <= a < new[j].freelist@.len() implies fresh_objects(new[j].page, new[j].size).contains(#[trigger] new[j].freelist@[a]) by {
                    assert(new[j].freelist@[a] == f[a + 1]);
                }
                assert forall|a: int, b: int| 0 <= a < b < new[j].freelist@.len() implies new[j].freelist@[a] != new[j].freelist@[b] by {
                    assert(new[j].freelist@[a] == f[a + 1]);
                    assert(new[j].freelist@[b] == f[b + 1]);
                }
            }
        }
    } else {
        pmm0.lemma_nodes_ok();
        let page = pmm0.nodes().last();
        assert(node_ok(pmm0.nodes()[pmm0.nodes().len() - 1], pmm0.hhdm()));
        lemma_fresh_objects(page, size);
        let f = fresh_objects(page, size);
        assert(f.contains(f[0]));
        let n = old.len() as int;
        assert forall|j: int| 0 <= j < new[n].freelist@.len() implies new[n].freelist@[j] != f[0] by {
            assert(new[n].freelist@[j] == f[j + 1]);
        }
        assert forall|j: int| 0 <= j < new.len() implies slab_sound(#[trigger] new[j]) && new[j].size == size by {
            if j == n {
                assert forall|a: int| 0 <= a < new[j].freelist@.len() implies fresh_objects(new[j].page, new[j].size).contains(#[trigger] new[j].freelist@[a]) by {
                    assert(new[j].freelist@[a] == f[a + 1]);
                }
                assert forall|a: int, b: int| 0 <= a < b < new[j].freelist@.len() implies new[j].freelist@[a] != new[j].freelist@[b] by {
                    assert(new[j].freelist@[a] == f[a + 1]);
                    assert(new[j].freelist@[b] == f[b + 1]);
                }
            }
        }
    }
}

/// The slots of a fresh slab never overlap: each ends before the next one
/// starts.
pub proof fn law_slab_objects_disjoint(page: u64, size: usize, i: int, j: int)
    requires
        16 <= size <= 1024,
        page + 4096 <= u64::MAX,
        0 <= i < j < fresh_objects(page, size).len(),
    ensures
        fresh_objects(page, size)[i] + size <= fresh_objects(page, size)[j],
{
    lemma_fresh_objects(page, size);
    assert(i * size + size <= j * size) by (nonlinear_arith)
        requires
            0 <= i < j,
            size > 0,
    ;
}

/// Putting back on a sound slab's free list a slot of that slab that is not
/// free already keeps the slab sound.
pub proof fn law_free_keeps_slab_sound(s0: slab_header, s1: slab_header, p: u64)
    requires
        slab_sound(s0),
        fresh_objects(s0.page, s0.size).contains(p),
        !s0.freelist@.contains(p),
        s1.page == s0.page,
        s1.size == s0.size,
        s1.freelist@ == s0.freelist@.insert(0, p),
    ensures
        slab_sound(s1),
{
    let f0 = s0.freelist@;
    let f1 = s1.freelist@;
    assert forall|j: int| 0 <= j < f1.len() implies fresh_objects(s1.page, s1.size).contains(#[trigger] f1[j]) by {
        if j > 0 {
            assert(f1[j] == f0[j - 1]);
        }
    }
    assert forall|a: int, b: int| 0 <= a < f1.len() && 0 <= b < f1.len() && a != b implies f1[a] != f1[b] by {
        if a > 0 && b > 0 {
            assert(f1[a] == f0[a - 1] && f1[b] == f0[b - 1]);
        } else if a == 0 {
            assert(f1[b] == f0[b - 1]);
        } else {
            assert(f1[a] == f0[a - 1]);
        }
    }
}

/// Freeing an object and then searching its class hands the same object
/// back and restores every free list, as long as no slab listed before the
/// object's slab has a free object.
pub proof fn law_free_then_allocate_returns_it(
    before: Seq<slab_header>,
    freed: Seq<slab_header>,
    after: Seq<slab_header>,
    s: int,
    p: u64,
    size: usize,
    pmm0: PhysicalAllocator,
    pmm1: PhysicalAllocator,
    r: Option<u64>,
)
    requires
        0 <= s < before.len(),
        freed.len() == before.len(),
        forall|j: int| 0 <= j < before.len() && j != s ==> #[trigger] freed[j] == before[j],
        freed[s].page == before[s].page,
        freed[s].size == before[s].size,
        freed[s].freelist@ == before[s].freelist@.insert(0, p),
        forall|j: int| 0 <= j < s ==> #[trigger] before[j].freelist@.len() == 0,
        search_post(freed, after, size, pmm0, pmm1, r),
    ensures
        r == Some(p),
        pmm1 == pmm0,
        after.len() == before.len(),
        forall|j: int| 0 <= j < before.len() ==> (#[trigger] after[j]).page == before[j].page
            && after[j].size == before[j].size && after[j].freelist@ == before[j].freelist@,
{
    lemma_first_with_free(freed);
    assert(freed[s].freelist@.len() > 0);
    assert(first_with_free(freed) == s);
    let b = before[s].freelist@;
    assert forall|j: int| 0 <= j < b.len() implies b.insert(0, p).drop_first()[j] == b[j] by {
        assert(b.insert(0, p)[j + 1] == b[j]);
    }
    assert(b.insert(0, p).drop_first() =~= b);
}

impl cache {
    /// A size class of `size`-byte objects with one fresh slab.
    pub fn init(size: usize, pmm: &mut PhysicalAllocator) -> (r: cache)
        requires
            16 <= size <= 1024,
            old(pmm).wf(),
            old(pmm).can_alloc(),
        ensures
            r.size == size,
            r.slabs@.len() == 1,
            r.slabs@[0].page == old(pmm).nodes().last(),
            r.slabs@[0].size == size,
            r.slabs@[0].freelist@ == fresh_objects(r.slabs@[0].page, size),
            final(pmm).wf(),
            final(pmm).hhdm() == old(pmm).hhdm(),
            final(pmm).nodes() == old(pmm).nodes().drop_last(),
    {
        let new = slab_header::init(size, pmm);
        let mut slabs: Vec<slab_header> = Vec::new();
        slabs.push(new);
        cache { size, slabs }
    }

    /// Hands out a free object of this class: the head of the first slab
    /// that has one, or else the first object of a fresh slab appended to
    /// the class.
    pub fn slab_allocsearch(&mut self, pmm: &mut PhysicalAllocator) -> (r: Option<u64>)
        requires
            old(self).slabs@.len() >= 1,
            16 <= old(self).size <= 1024,
            old(pmm).wf(),
            first_with_free(old(self).slabs@) == old(self).slabs@.len() ==> old(pmm).can_alloc(),
        ensures
            final(self).size == old(self).size,
            final(pmm).wf(),
            search_post(old(self).slabs@, final(self).slabs@, old(self).size, *old(pmm), *final(pmm), r),
    {
        proof {
            lemma_first_with_free(self.slabs@);
        }
        let mut i: usize = 0;
        while i < self.slabs.len()
            invariant
                0 <= i <= self.slabs@.len(),
                self.slabs@ == old(self).slabs@,
                self.size == old(self).size,
                *pmm == *old(pmm),
                pmm.wf(),
                forall|j: int| 0 <= j < i ==> #[trigger] self.slabs@[j].freelist@.len() == 0,
                0 <= first_with_free(self.slabs@) <= self.slabs@.len(),
                first_with_free(self.slabs@) < self.slabs@.len() ==> self.slabs@[first_with_free(self.slabs@)].freelist@.len() > 0,
                forall|j: int| 0 <= j < first_with_free(self.slabs@) ==> #[trigger] self.slabs@[j].freelist@.len() == 0,
            decreases self.slabs@.len() - i,
        {
            if self.slabs[i].freelist.len() > 0 {
                assert(first_with_free(old(self).slabs@) == i);
                let p = self.slabs[i].freelist.remove(0);
                return Some(p);
            }
            i = i + 1;
        }
        let mut new = slab_header::init(self.size, pmm);
        proof {
            lemma_slab_offset(self.size);
        }
        let p = new.freelist.remove(0);
        self.slabs.push(new);
        Some(p)
    }
}

/// The object sizes of the seven size classes, smallest first.
pub open spec fn class_sizes() -> Seq<usize> {
    seq![16usize, 32, 64, 128, 256, 512, 1024]
}

/// The class that serves a request rounded up to `a` bytes: the first class
/// whose objects are at least that large, or 7 when none is.
pub open spec fn class_of(a: nat) -> int {
    if a <= 16 {
        0
    } else if a <= 32 {
        1
    } else if a <= 64 {
        2
    } else if a <= 128 {
        3
    } else if a <= 256 {
        4
    } else if a <= 512 {
        5
    } else if a <= 1024 {
        6
    } else {
        7
    }
}

/// The least power of two that is at least `p` times a power of two and
/// at least `n`.
pub open spec fn pow2_at_least(n: nat, p: nat) -> nat
    decreases (if p <= n { n - p } else { 0 }),
    when p >= 1
{
    if p >= n {
        p
    } else {
        pow2_at_least(n, 2 * p)
    }
}

/// The least power of two that is at least `n` (1 for 0).
pub open spec fn next_pow2(n: nat) -> nat {
    pow2_at_least(n, 1)
}

/// The least power of two at least `n` is at least `n`.
pub proof fn lemma_pow2_at_least_ge(n: nat, p: nat)
    requires
        p >= 1,
    ensures
        pow2_at_least(n, p) >= n,
    decreases (if p <= n { n - p } else { 0 }),
{
    if p < n {
        lemma_pow2_at_least_ge(n, 2 * p);
    }
}

/// The least power of two that is at least `n`, for an `n` whose next power
/// of two fits in a `usize`.
pub fn next_power_of_two(n: usize) -> (r: usize)
    requires
        2 * (n as int) <= usize::MAX + 1,
    ensures
        r == next_pow2(n as nat),
        r >= n,
        r >= 1,
{
    let mut p: usize = 1;
    while p < n
        invariant
            1 <= p,
            2 * (n as int) <= usize::MAX + 1,
            pow2_at_least(n as nat, p as nat) == next_pow2(n as nat),
            p < 2 * (n as int) || p == 1,
        decreases (if p <= n { n - p } else { 0 }),
    {
        p = p * 2;
    }
    p
}

/// The slab allocator: seven size classes of 16 to 1024 bytes.
pub struct kmalloc_manager {
    pub array: Vec<cache>,
}

/// True when the slab at index `s` of class `c` is the first one, in class
/// and then list order, that lives on page `h`.
pub open spec fn first_on_page(array: Seq<cache>, h: u64, c: int, s: int) -> bool {
    &&& 0 <= c < array.len()
    &&& 0 <= s < array[c].slabs@.len()
    &&& array[c].slabs@[s].page == h
    &&& forall|c2: int, s2: int|
        0 <= c2 < c && 0 <= s2 < array[c2].slabs@.len() ==> #[trigger] array[c2].slabs@[s2].page != h
    &&& forall|s2: int| 0 <= s2 < s ==> #[trigger] array[c].slabs@[s2].page != h
}

/// Freeing `addr` puts it back on slab `s` of class `c`: the address is
/// not null, the slab is the first on its page, the address is an object
/// slot of that slab and is not on its free list already.
pub open spec fn releasable(k0: kmalloc_manager, addr: u64, c: int, s: int) -> bool {
    &&& addr != 0
    &&& first_on_page(k0.array@, addr & !0xfffu64, c, s)
    &&& fresh_objects(k0.array@[c].slabs@[s].page, k0.array@[c].slabs@[s].size).contains(addr)
    &&& !k0.array@[c].slabs@[s].freelist@.contains(addr)
}

/// What freeing `addr` leaves: an address that some slab can take back goes
/// to the head of that slab's free list and nothing else changes; any
/// other address (null, on a page that holds no slab, off the object grid,
/// or free already) changes nothing.
pub open spec fn free_post(k0: kmalloc_manager, k1: kmalloc_manager, addr: u64) -> bool {
    &&& (forall|c: int, s: int| !#[trigger] releasable(k0, addr, c, s)) ==> k1 == k0
    &&& forall|c: int, s: int| #[trigger] releasable(k0, addr, c, s) ==> {
        &&& k1.array@.len() == k0.array@.len()
        &&& forall|j: int| 0 <= j < 7 && j != c ==> #[trigger] k1.array@[j] == k0.array@[j]
        &&& k1.array@[c].size == k0.array@[c].size
        &&& k1.array@[c].slabs@.len() == k0.array@[c].slabs@.len()
        &&& forall|j: int| 0 <= j < k0.array@[c].slabs@.len() && j != s ==> #[trigger] k1.array@[c].slabs@[j] == k0.array@[c].slabs@[j]
        &&& k1.array@[c].slabs@[s].page == k0.array@[c].slabs@[s].page
        &&& k1.array@[c].slabs@[s].size == k0.array@[c].slabs@[s].size
        &&& k1.array@[c].slabs@[s].freelist@ == k0.array@[c].slabs@[s].freelist@.insert(0, addr)
    }
}

/// The page at the head of `pmm` can carry a new slab: it is page aligned
/// and no slab of `k` is on it already.
pub open spec fn page_takeable(k: kmalloc_manager, pmm: PhysicalAllocator) -> bool {
    &&& pmm.nodes().last() & 0xfffu64 == 0
    &&& !k.owns(pmm.nodes().last())
}

/// What handing out an object for `size` bytes from `k0` and `pmm0` leaves:
/// for a request that a class holds, the search of that class
/// (`search_post`) and nothing else changed, except that when the class is
/// full and the head page of `pmm0` cannot carry a slab, nothing changes
/// and nothing is handed out; for a larger request, nothing.
pub open spec fn alloc_post(
    k0: kmalloc_manager,
    k1: kmalloc_manager,
    pmm0: PhysicalAllocator,
    pmm1: PhysicalAllocator,
    size: usize,
    r: Option<u64>,
) -> bool {
    let c = class_of(next_pow2(size as nat));
    if c < 7 && !(first_with_free(k0.array@[c].slabs@) == k0.array@[c].slabs@.len() && !page_takeable(k0, pmm0)) {
        &&& k1.array@.len() == 7
        &&& forall|j: int| 0 <= j < 7 && j != c ==> #[trigger] k1.array@[j] == k0.array@[j]
        &&& search_post(k0.array@[c].slabs@, k1.array@[c].slabs@, class_sizes()[c], pmm0, pmm1, r)
    } else {
        &&& r.is_none()
        &&& k1 == k0
        &&& pmm1 == pmm0
    }
}

impl kmalloc_manager {
    /// Object `p` is a slot of slab `s` of class `c`, which lies on the
    /// page of `p`, and is not free.
    pub open spec fn holds(&self, c: int, s: int, p: u64) -> bool {
        &&& 0 <= c < 7
        &&& 0 <= s < self.array@[c].slabs@.len()
        &&& self.array@[c].slabs@[s].page == p & !0xfffu64
        &&& fresh_objects(self.array@[c].slabs@[s].page, self.array@[c].slabs@[s].size).contains(p)
        &&& !self.array@[c].slabs@[s].freelist@.contains(p)
    }

    /// Seven classes of the class sizes, each with at least one slab of its
    /// size; every slab on a page-aligned page of its own, its free list
    /// naming distinct object slots of that page.
    pub open spec fn wf(&self) -> bool {
        &&& self.array@.len() == 7
        &&& forall|c: int| 0 <= c < 7 ==> {
            &&& #[trigger] self.array@[c].size == class_sizes()[c]
            &&& self.array@[c].slabs@.len() >= 1
            &&& forall|s: int| 0 <= s < self.array@[c].slabs@.len() ==> #[trigger] self.array@[c].slabs@[s].size == self.array@[c].size
        }
        &&& forall|c: int, s: int| 0 <= c < 7 && 0 <= s < self.array@[c].slabs@.len() ==> {
            &&& slab_sound(#[trigger] self.array@[c].slabs@[s])
            &&& self.array@[c].slabs@[s].page & 0xfffu64 == 0
        }
        &&& forall|c1: int, s1: int, c2: int, s2: int|
            0 <= c1 < 7 && 0 <= s1 < self.array@[c1].slabs@.len() && 0 <= c2 < 7 && 0 <= s2 < self.array@[c2].slabs@.len()
                && (c1 != c2 || s1 != s2) ==> #[trigger] self.array@[c1].slabs@[s1].page != #[trigger] self.array@[c2].slabs@[s2].page
    }

    /// True when some slab lives on the page of `addr`.
    pub open spec fn owns(&self, addr: u64) -> bool {
        exists|c: int, s: int| 0 <= c < self.array@.len() && 0 <= s < self.array@[c].slabs@.len()
            && #[trigger] self.array@[c].slabs@[s].page == addr & !0xfffu64
    }

    /// The seven size classes, each with one fresh slab on a page taken from
    /// `pmm`: class `i` on the `i`-th page from the head.
    pub fn init(pmm: &mut PhysicalAllocator) -> (r: kmalloc_manager)
        requires
            old(pmm).wf(),
            old(pmm).nodes().len() >= 8,
            old(pmm).nodes().no_duplicates(),
            forall|i: int| old(pmm).nodes().len() - 7 <= i < old(pmm).nodes().len() ==> #[trigger] old(pmm).nodes()[i] & 0xfffu64 == 0,
        ensures
            r.wf(),
            forall|c: int| 0 <= c < 7 ==> {
                &&& (#[trigger] r.array@[c]).slabs@.len() == 1
                &&& r.array@[c].slabs@[0].page == old(pmm).nodes()[old(pmm).nodes().len() - 1 - c]
                &&& r.array@[c].slabs@[0].freelist@ == fresh_objects(r.array@[c].slabs@[0].page, class_sizes()[c])
            },
            final(pmm).wf(),
            final(pmm).hhdm() == old(pmm).hhdm(),
            final(pmm).nodes() == old(pmm).nodes().take(old(pmm).nodes().len() - 7),
    {
        let ghost n0 = pmm.nodes();
        let ghost len = n0.len();
        let cache1 = cache::init(16, pmm);
        assert(pmm.nodes() == n0.take(len - 1));
        let cache2 = cache::init(32, pmm);
        assert(pmm.nodes() == n0.take(len - 2));
        let cache3 = cache::init(64, pmm);
        assert(pmm.nodes() == n0.take(len - 3));
        let cache4 = cache::init(128, pmm);
        assert(pmm.nodes() == n0.take(len - 4));
        let cache5 = cache::init(256, pmm);
        assert(pmm.nodes() == n0.take(len - 5));
        let cache6 = cache::init(512, pmm);
        assert(pmm.nodes() == n0.take(len - 6));
        let cache7 = cache::init(1024, pmm);
        assert(pmm.nodes() == n0.take(len - 7));
        let mut array: Vec<cache> = Vec::new();
        array.push(cache1);
        array.push(cache2);
        array.push(cache3);
        array.push(cache4);
        array.push(cache5);
        array.push(cache6);
        array.push(cache7);
        let r = kmalloc_manager { array };
        assert(r.array@[0].slabs@[0].page == n0[len - 1]);
        assert(r.array@[1].slabs@[0].page == n0[len - 2]);
        assert(r.array@[2].slabs@[0].page == n0[len - 3]);
        assert(r.array@[3].slabs@[0].page == n0[len - 4]);
        assert(r.array@[4].slabs@[0].page == n0[len - 5]);
        assert(r.array@[5].slabs@[0].page == n0[len - 6]);
        assert(r.array@[6].slabs@[0].page == n0[len - 7]);
        proof {
            old(pmm).lemma_nodes_ok();
            assert forall|c: int, s: int| 0 <= c < 7 && 0 <= s < r.array@[c].slabs@.len() implies {
                &&& slab_sound(#[trigger] r.array@[c].slabs@[s])
                &&& r.array@[c].slabs@[s].page & 0xfffu64 == 0
            } by {
                assert(s == 0);
                assert(r.array@[c].slabs@[0].page == n0[len - 1 - c]);
                assert(node_ok(n0[len - 1 - c], old(pmm).hhdm()));
                lemma_fresh_slab_sound(r.array@[c].slabs@[0]);
            }
            assert forall|c1: int, s1: int, c2: int, s2: int|
                0 <= c1 < 7 && 0 <= s1 < r.array@[c1].slabs@.len() && 0 <= c2 < 7 && 0 <= s2 < r.array@[c2].slabs@.len()
                    && (c1 != c2 || s1 != s2) implies #[trigger] r.array@[c1].slabs@[s1].page != #[trigger] r.array@[c2].slabs@[s2].page by {
                assert(s1 == 0 && s2 == 0);
                assert(r.array@[c1].slabs@[0].page == n0[len - 1 - c1]);
                assert(r.array@[c2].slabs@[0].page == n0[len - 1 - c2]);
            }
        }
        r
    }

    /// Hands out an object for `size` bytes from the first class whose
    /// objects are at least the next power of two of `size`; `None` when
    /// the request is larger than the largest class.
    #[verifier::spinoff_prover]
    #[verifier::rlimit(50)]
    pub fn allocate(&mut self, size: usize, pmm: &mut PhysicalAllocator) -> (r: Option<u64>)
        requires
            old(self).wf(),
            old(pmm).wf(),
            2 * (size as int) <= usize::MAX + 1,
            class_of(next_pow2(size as nat)) < 7 && first_with_free(
                old(self).array@[class_of(next_pow2(size as nat))].slabs@,
            ) == old(self).array@[class_of(next_pow2(size as nat))].slabs@.len() ==> old(pmm).can_alloc(),
        ensures
            final(self).wf(),
            final(pmm).wf(),
            alloc_post(*old(self), *final(self), *old(pmm), *final(pmm), size, r),
            r matches Some(p) ==> {
                let c = class_of(next_pow2(size as nat));
                &&& exists|s: int| #[trigger] final(self).holds(c, s, p)
                &&& (p as int) % (class_sizes()[c] as int) == 0
                &&& forall|c2: int, s2: int| !#[trigger] old(self).holds(c2, s2, p)
            },
            forall|c2: int, s2: int, q: u64| #[trigger] old(self).holds(c2, s2, q) ==> final(self).holds(c2, s2, q),
    {
        let a = next_power_of_two(size);
        let ghost c = class_of(a as nat);
        if self.needs_page(size) {
            let head = pmm.head();
            if head & 0xfff != 0 || self.owns_page(head) {
                return None;
            }
        }
        let mut i: usize = 0;
        while i < self.array.len()
            invariant
                0 <= i <= 7,
                self.wf(),
                *self == *old(self),
                *pmm == *old(pmm),
                pmm.wf(),
                2 * (size as int) <= usize::MAX + 1,
                c < 7 && first_with_free(self.array@[c].slabs@) == self.array@[c].slabs@.len() ==> pmm.can_alloc()
                    && page_takeable(*self, *pmm),
                a == next_pow2(size as nat),
                c == class_of(a as nat),
                forall|j: int| 0 <= j < i ==> (#[trigger] class_sizes()[j]) < a,
            decreases 7 - i,
        {
            if self.array[i].size >= a {
                assert(c == i);
                let r = self.array[i].slab_allocsearch(pmm);
                proof {
                    self.lemma_after_search(old(self), old(pmm), pmm, c, r);
                }
                return r;
            }
            i = i + 1;
        }
        None
    }

    /// After a search of class `c` that found or made an object, the
    /// manager is well formed again and holds the object, aligned to its
    /// size.
    proof fn lemma_after_search(&self, k0: &kmalloc_manager, pmm0: &PhysicalAllocator, pmm1: &PhysicalAllocator, c: int, r: Option<u64>)
        requires
            k0.wf(),
            pmm0.wf(),
            0 <= c < 7,
            self.array@.len() == 7,
            forall|j: int| 0 <= j < 7 && j != c ==> #[trigger] self.array@[j] == k0.array@[j],
            self.array@[c].size == k0.array@[c].size,
            search_post(k0.array@[c].slabs@, self.array@[c].slabs@, k0.array@[c].size, *pmm0, *pmm1, r),
            first_with_free(k0.array@[c].slabs@) == k0.array@[c].slabs@.len() ==> pmm0.can_alloc() && page_takeable(*k0, *pmm0),
        ensures
            self.wf(),
            r matches Some(p) ==> (exists|s: int| #[trigger] self.holds(c, s, p)) && (p as int) % (class_sizes()[c] as int) == 0
                && forall|c2: int, s2: int| !#[trigger] k0.holds(c2, s2, p),
            forall|c2: int, s2: int, q: u64| #[trigger] k0.holds(c2, s2, q) ==> self.holds(c2, s2, q),
    {
        let olds = k0.array@[c].slabs@;
        let news = self.array@[c].slabs@;
        let size = k0.array@[c].size;
        assert(size == class_sizes()[c]);
        assert(16 <= size <= 1024);
        assert forall|j: int| 0 <= j < olds.len() implies slab_sound(#[trigger] olds[j]) && olds[j].size == size by {
            assert(slab_sound(k0.array@[c].slabs@[j]));
        }
        law_allocated_object_fits(olds, news, size, *pmm0, *pmm1, r);
        lemma_first_with_free(olds);
        let k = if first_with_free(olds) < olds.len() { first_with_free(olds) } else { olds.len() as int };
        pmm0.lemma_nodes_ok();
        if k == olds.len() {
            assert(node_ok(pmm0.nodes()[pmm0.nodes().len() - 1], pmm0.hhdm()));
        }
        assert forall|s: int| 0 <= s < news.len() implies #[trigger] news[s].page & 0xfffu64 == 0 && news[s].page + 4096 <= u64::MAX by {
            if s < olds.len() {
                assert(news[s].page == olds[s].page);
                assert(k0.array@[c].slabs@[s].page & 0xfffu64 == 0);
            }
        }
        assert forall|c2: int| 0 <= c2 < 7 implies {
            &&& #[trigger] self.array@[c2].size == class_sizes()[c2]
            &&& self.array@[c2].slabs@.len() >= 1
            &&& forall|s: int| 0 <= s < self.array@[c2].slabs@.len() ==> #[trigger] self.array@[c2].slabs@[s].size == self.array@[c2].size
        } by {
            if c2 != c {
                assert(self.array@[c2] == k0.array@[c2]);
            }
        }
        assert forall|c2: int, s: int| 0 <= c2 < 7 && 0 <= s < self.array@[c2].slabs@.len() implies {
            &&& slab_sound(#[trigger] self.array@[c2].slabs@[s])
            &&& self.array@[c2].slabs@[s].page & 0xfffu64 == 0
        } by {
            if c2 != c {
                assert(self.array@[c2] == k0.array@[c2]);
                assert(slab_sound(k0.array@[c2].slabs@[s]));
            } else {
                assert(news[s].page & 0xfffu64 == 0);
            }
        }
        assert forall|c1: int, s1: int, c2: int, s2: int|
            0 <= c1 < 7 && 0 <= s1 < self.array@[c1].slabs@.len() && 0 <= c2 < 7 && 0 <= s2 < self.array@[c2].slabs@.len()
                && (c1 != c2 || s1 != s2) implies #[trigger] self.array@[c1].slabs@[s1].page != #[trigger] self.array@[c2].slabs@[s2].page by {
            let new1 = c1 == c && s1 == olds.len();
            let new2 = c2 == c && s2 == olds.len();
            if !new1 {
                if c1 != c {
                    assert(self.array@[c1] == k0.array@[c1]);
                } else {
                    assert(news[s1].page == olds[s1].page);
                }
            }
            if !new2 {
                if c2 != c {
                    assert(self.array@[c2] == k0.array@[c2]);
                } else {
                    assert(news[s2].page == olds[s2].page);
                }
            }
            if new1 || new2 {
                let h = pmm0.nodes().last();
                assert(h & 0xfffu64 == 0);
                assert(h & !0xfffu64 == h) by (bit_vector)
                    requires
                        h & 0xfffu64 == 0,
                ;
                assert(!k0.owns(h));
                if new1 && !new2 {
                    assert(k0.array@[c2].slabs@[s2].page != h);
                }
                if new2 && !new1 {
                    assert(k0.array@[c1].slabs@[s1].page != h);
                }
            }
        }
        if let Some(p) = r {
            let page = news[k].page;
            lemma_fresh_objects(page, size);
            let f = fresh_objects(page, size);
            let i = choose|i: int| 0 <= i < f.len() && f[i] == p;
            assert(page & 0xfffu64 == 0);
            assert(page <= p && p < page + 4096);
            assert(p & !0xfffu64 == page) by (bit_vector)
                requires
                    page & 0xfffu64 == 0,
                    page <= p,
                    p < page + 4096,
            ;
            assert(self.holds(c, k, p));
            lemma_slot_aligned(page, size, i);
            assert forall|c2: int, s2: int| !#[trigger] k0.holds(c2, s2, p) by {
                if k0.holds(c2, s2, p) {
                    if k < olds.len() {
                        assert(olds[k].freelist@[0] == p);
                        assert(olds[k].freelist@.contains(p));
                        if c2 == c && s2 == k {
                        } else {
                            assert(k0.array@[c2].slabs@[s2].page != k0.array@[c].slabs@[k].page);
                        }
                    } else {
                        let h = pmm0.nodes().last();
                        assert(page == h);
                        assert(h & !0xfffu64 == h) by (bit_vector)
                            requires
                                h & 0xfffu64 == 0,
                        ;
                        assert(k0.array@[c2].slabs@[s2].page == h & !0xfffu64);
                        assert(k0.owns(h));
                    }
                }
            }
        }
        assert forall|c2: int, s2: int, q: u64| #[trigger] k0.holds(c2, s2, q) implies self.holds(c2, s2, q) by {
            if c2 != c {
                assert(self.array@[c2] == k0.array@[c2]);
            } else if s2 != k {
                assert(news[s2] == olds[s2]);
            } else {
                assert(news[s2].page == olds[s2].page);
                if news[s2].freelist@.contains(q) {
                    let j = choose|j: int| 0 <= j < news[s2].freelist@.len() && news[s2].freelist@[j] == q;
                    assert(olds[s2].freelist@[j + 1] == q);
                }
            }
        }
    }

    /// Whether some slab lives on the page of `addr`.
    pub fn owns_page(&self, addr: u64) -> (r: bool)
        requires
            self.wf(),
        ensures
            r == self.owns(addr),
    {
        let h = addr & !0xfff;
        let mut c: usize = 0;
        while c < self.array.len()
            invariant
                0 <= c <= 7,
                self.wf(),
                h == addr & !0xfffu64,
                forall|c2: int, s2: int|
                    0 <= c2 < c && 0 <= s2 < self.array@[c2].slabs@.len() ==> #[trigger] self.array@[c2].slabs@[s2].page != h,
            decreases 7 - c,
        {
            let mut s: usize = 0;
            while s < self.array[c].slabs.len()
                invariant
                    0 <= c < 7,
                    0 <= s <= self.array@[c as int].slabs@.len(),
                    self.wf(),
                    h == addr & !0xfffu64,
                    forall|s2: int| 0 <= s2 < s ==> #[trigger] self.array@[c as int].slabs@[s2].page != h,
                decreases self.array@[c as int].slabs@.len() - s,
            {
                if self.array[c].slabs[s].page == h {
                    return true;
                }
                s = s + 1;
            }
            c = c + 1;
        }
        false
    }

    /// Whether a request for `size` bytes falls in a class whose slabs are
    /// all full, so that serving it takes a fresh page.
    pub fn needs_page(&self, size: usize) -> (r: bool)
        requires
            self.wf(),
            2 * (size as int) <= usize::MAX + 1,
        ensures
            r == ({
                let c = class_of(next_pow2(size as nat));
                c < 7 && first_with_free(self.array@[c].slabs@) == self.array@[c].slabs@.len()
            }),
    {
        let a = next_power_of_two(size);
        let ghost c = class_of(a as nat);
        let mut i: usize = 0;
        while i < self.array.len()
            invariant
                0 <= i <= 7,
                self.wf(),
                a == next_pow2(size as nat),
                c == class_of(a as nat),
                forall|j: int| 0 <= j < i ==> (#[trigger] class_sizes()[j]) < a,
            decreases 7 - i,
        {
            if self.array[i].size >= a {
                assert(c == i);
                proof {
                    lemma_first_with_free(self.array@[c].slabs@);
                }
                let mut s: usize = 0;
                while s < self.array[i].slabs.len()
                    invariant
                        0 <= s <= self.array@[c].slabs@.len(),
                        c == i,
                        c == class_of(next_pow2(size as nat)),
                        0 <= c < 7,
                        self.wf(),
                        forall|j: int| 0 <= j < s ==> (#[trigger] self.array@[c].slabs@[j]).freelist@.len() == 0,
                        0 <= first_with_free(self.array@[c].slabs@) <= self.array@[c].slabs@.len(),
                        first_with_free(self.array@[c].slabs@) < self.array@[c].slabs@.len()
                            ==> self.array@[c].slabs@[first_with_free(self.array@[c].slabs@)].freelist@.len() > 0,
                        forall|j: int| 0 <= j < first_with_free(self.array@[c].slabs@)
                            ==> #[trigger] self.array@[c].slabs@[j].freelist@.len() == 0,
                    decreases self.array@[c].slabs@.len() - s,
                {
                    if self.array[i].slabs[s].freelist.len() > 0 {
                        assert(first_with_free(self.array@[c].slabs@) <= s);
                        return false;
                    }
                    s = s + 1;
                }
                return true;
            }
            i = i + 1;
        }
        assert(class_sizes()[6] < a);
        false
    }

    /// Whether `addr` is an object slot of slab `s` of class `c` that is not
    /// on its free list.
    fn slot_free_able(&self, c: usize, s: usize, addr: u64) -> (r: bool)
        requires
            self.wf(),
            c < 7,
            s < self.array@[c as int].slabs@.len(),
        ensures
            r == (fresh_objects(self.array@[c as int].slabs@[s as int].page, self.array@[c as int].slabs@[s as int].size).contains(addr)
                && !self.array@[c as int].slabs@[s as int].freelist@.contains(addr)),
    {
        let sl = &self.array[c].slabs[s];
        let page = sl.page;
        let size = sl.size;
        let ghost f = fresh_objects(page, size);
        proof {
            assert(slab_sound(self.array@[c as int].slabs@[s as int]));
            assert(size == self.array@[c as int].size);
            assert(size == class_sizes()[c as int]);
            assert(16 <= size <= 1024);
            lemma_slab_offset(size);
            lemma_fresh_objects(page, size);
        }
        let first: usize = (39 / size + 1) * size;
        assert(first == slab_offset(size));
        let cap: usize = (4096 - first) / size;
        assert(cap == f.len());
        if addr < page + first as u64 {
            proof {
                assert forall|i: int| 0 <= i < f.len() implies f[i] != addr by {}
            }
            return false;
        }
        let off = addr - page - first as u64;
        if off % (size as u64) != 0 || off / (size as u64) >= cap as u64 {
            proof {
                assert forall|i: int| 0 <= i < f.len() implies f[i] != addr by {
                    if f[i] == addr {
                        assert(off == i * size);
                        assert(off % (size as u64) == 0 && off / (size as u64) == i) by (nonlinear_arith)
                            requires
                                off == i * size,
                                size > 0,
                                i >= 0,
                        ;
                    }
                }
            }
            return false;
        }
        proof {
            let i = (off / (size as u64)) as int;
            assert(off == i * size) by (nonlinear_arith)
                requires
                    off % (size as u64) == 0,
                    i == off / (size as u64),
                    size > 0,
            ;
            assert(f[i] == addr);
        }
        let mut j: usize = 0;
        while j < sl.freelist.len()
            invariant
                0 <= j <= sl.freelist@.len(),
                forall|k: int| 0 <= k < j ==> sl.freelist@[k] != addr,
                *sl == self.array@[c as int].slabs@[s as int],
                f == fresh_objects(self.array@[c as int].slabs@[s as int].page, self.array@[c as int].slabs@[s as int].size),
                f.contains(addr),
            decreases sl.freelist@.len() - j,
        {
            if sl.freelist[j] == addr {
                assert(sl.freelist@[j as int] == addr);
                return false;
            }
            j = j + 1;
        }
        true
    }

    /// Puts the object at `addr` back at the head of the free list of the
    /// slab on its page (the address with its low twelve bits cleared);
    /// a null address is ignored.
    pub fn free(&mut self, addr: u64)
        requires
            old(self).wf(),
        ensures
            final(self).wf(),
            free_post(*old(self), *final(self), addr),
            forall|c: int, s: int, q: u64| #[trigger] old(self).holds(c, s, q) && q != addr ==> final(self).holds(c, s, q),
    {
        if addr == 0 {
            return;
        }
        let h = addr & !0xfff;
        let mut c: usize = 0;
        while c < self.array.len()
            invariant
                0 <= c <= 7,
                self.wf(),
                *self == *old(self),
                addr != 0,
                h == addr & !0xfffu64,
                forall|c2: int, s2: int|
                    0 <= c2 < c && 0 <= s2 < self.array@[c2].slabs@.len() ==> #[trigger] self.array@[c2].slabs@[s2].page != h,
            decreases 7 - c,
        {
            let mut s: usize = 0;
            while s < self.array[c].slabs.len()
                invariant
                    0 <= c < 7,
                    0 <= s <= self.array@[c as int].slabs@.len(),
                    self.wf(),
                    *self == *old(self),
                    addr != 0,
                    h == addr & !0xfffu64,
                    forall|c2: int, s2: int|
                        0 <= c2 < c && 0 <= s2 < self.array@[c2].slabs@.len() ==> #[trigger] self.array@[c2].slabs@[s2].page != h,
                    forall|s2: int| 0 <= s2 < s ==> #[trigger] self.array@[c as int].slabs@[s2].page != h,
                decreases self.array@[c as int].slabs@.len() - s,
            {
                if self.array[c].slabs[s].page == h {
                    assert(first_on_page(old(self).array@, h, c as int, s as int));
                    assert forall|c1: int, s1: int| first_on_page(old(self).array@, h, c1, s1) implies c1 == c && s1 == s by {
                        if c1 < c {
                            assert(old(self).array@[c1].slabs@[s1].page != h);
                        } else if c < c1 {
                            assert(old(self).array@[c as int].slabs@[s as int].page != h);
                        } else if s1 < s {
                            assert(old(self).array@[c as int].slabs@[s1].page != h);
                        } else if s < s1 {
                            assert(old(self).array@[c as int].slabs@[s as int].page != h);
                        }
                    }
                    if self.slot_free_able(c, s, addr) {
                        let ghost s0 = self.array@[c as int].slabs@[s as int];
                        self.array[c].slabs[s].freelist.insert(0, addr);
                        proof {
                            let s1 = self.array@[c as int].slabs@[s as int];
                            law_free_keeps_slab_sound(s0, s1, addr);
                            assert(releasable(*old(self), addr, c as int, s as int));
                            assert forall|c2: int, t: int| 0 <= c2 < 7 && 0 <= t < self.array@[c2].slabs@.len() implies {
                                &&& slab_sound(#[trigger] self.array@[c2].slabs@[t])
                                &&& self.array@[c2].slabs@[t].page & 0xfffu64 == 0
                            } by {
                                if c2 != c || t != s {
                                    assert(self.array@[c2].slabs@[t] == old(self).array@[c2].slabs@[t]);
                                }
                            }
                            assert forall|c1: int, t1: int, c2: int, t2: int|
                                0 <= c1 < 7 && 0 <= t1 < self.array@[c1].slabs@.len() && 0 <= c2 < 7 && 0 <= t2 < self.array@[c2].slabs@.len()
                                    && (c1 != c2 || t1 != t2) implies #[trigger] self.array@[c1].slabs@[t1].page != #[trigger] self.array@[c2].slabs@[t2].page by {
                                assert(self.array@[c1].slabs@[t1].page == old(self).array@[c1].slabs@[t1].page);
                                assert(self.array@[c2].slabs@[t2].page == old(self).array@[c2].slabs@[t2].page);
                            }
                            assert forall|c2: int, t: int, q: u64| #[trigger] old(self).holds(c2, t, q) && q != addr implies self.holds(c2, t, q) by {
                                if c2 != c || t != s {
                                    assert(self.array@[c2].slabs@[t] == old(self).array@[c2].slabs@[t]);
                                } else if self.array@[c2].slabs@[t].freelist@.contains(q) {
                                    let j = choose|j: int| 0 <= j < s1.freelist@.len() && s1.freelist@[j] == q;
                                    assert(j > 0);
                                    assert(s0.freelist@[j - 1] == q);
                                }
                            }
                        }
                    } else {
                        proof {
                            assert forall|c1: int, s1: int| !#[trigger] releasable(*old(self), addr, c1, s1) by {}
                        }
                    }
                    return;
                }
                s = s + 1;
            }
            c = c + 1;
        }
        assert(!old(self).owns(addr));
    }
}

/// Two different objects that a well-formed manager holds never overlap.
pub proof fn law_held_objects_disjoint(k: kmalloc_manager, c1: int, s1: int, p1: u64, c2: int, s2: int, p2: u64)
    requires
        k.wf(),
        k.holds(c1, s1, p1),
        k.holds(c2, s2, p2),
        p1 != p2,
    ensures
        p1 + class_sizes()[c1] <= p2 || p2 + class_sizes()[c2] <= p1,
{
    let a = k.array@[c1].slabs@[s1];
    let b = k.array@[c2].slabs@[s2];
    assert(slab_sound(a) && slab_sound(b));
    assert(k.array@[c1].size == class_sizes()[c1] && k.array@[c2].size == class_sizes()[c2]);
    assert(a.size == k.array@[c1].size && b.size == k.array@[c2].size);
    assert(16 <= a.size <= 1024 && 16 <= b.size <= 1024);
    lemma_fresh_objects(a.page, a.size);
    lemma_fresh_objects(b.page, b.size);
    let fa = fresh_objects(a.page, a.size);
    let fb = fresh_objects(b.page, b.size);
    let i = choose|i: int| 0 <= i < fa.len() && fa[i] == p1;
    let j = choose|j: int| 0 <= j < fb.len() && fb[j] == p2;
    if c1 == c2 && s1 == s2 {
        if i < j {
            law_slab_objects_disjoint(a.page, a.size, i, j);
        } else {
            assert(i != j);
            law_slab_objects_disjoint(a.page, a.size, j, i);
        }
    } else {
        let pa = a.page;
        let pb = b.page;
        assert(pa != pb);
        assert(pa + 4096 <= pb || pb + 4096 <= pa) by (bit_vector)
            requires
                pa & 0xfffu64 == 0,
                pb & 0xfffu64 == 0,
                pa != pb,
                pa + 4096 <= 0xffff_ffff_ffff_ffffu64,
                pb + 4096 <= 0xffff_ffff_ffff_ffffu64,
        ;
    }
}

/// Live objects never overlap: an object `p1` handed out earlier and not
/// freed since (held by `k1` and still by `k2`) and the object `p2` that an
/// allocation from `k1` hands out (held by no slab of `k1`, held by `k2`)
/// lie wholly apart.
pub proof fn law_live_objects_disjoint(
    k1: kmalloc_manager,
    k2: kmalloc_manager,
    c1: int,
    s1: int,
    p1: u64,
    c2: int,
    s2: int,
    p2: u64,
)
    requires
        k2.wf(),
        k1.holds(c1, s1, p1),
        forall|c: int, s: int, q: u64| #[trigger] k1.holds(c, s, q) ==> k2.holds(c, s, q),
        forall|c: int, s: int| !#[trigger] k1.holds(c, s, p2),
        k2.holds(c2, s2, p2),
    ensures
        p1 + class_sizes()[c1] <= p2 || p2 + class_sizes()[c2] <= p1,
{
    assert(k2.holds(c1, s1, p1));
    assert(p1 != p2);
    law_held_objects_disjoint(k2, c1, s1, p1, c2, s2, p2);
}

/// Freeing an object that a well-formed manager holds puts it back at the
/// head of its own slab's free list, and changes nothing else.
pub proof fn law_free_returns_object(k0: kmalloc_manager, k1: kmalloc_manager, c: int, s: int, p: u64)
    requires
        k0.wf(),
        k0.holds(c, s, p),
        free_post(k0, k1, p),
    ensures
        k1.array@.len() == 7,
        forall|j: int| 0 <= j < 7 && j != c ==> #[trigger] k1.array@[j] == k0.array@[j],
        k1.array@[c].size == k0.array@[c].size,
        k1.array@[c].slabs@.len() == k0.array@[c].slabs@.len(),
        forall|j: int| 0 <= j < k0.array@[c].slabs@.len() && j != s ==> #[trigger] k1.array@[c].slabs@[j] == k0.array@[c].slabs@[j],
        k1.array@[c].slabs@[s].page == k0.array@[c].slabs@[s].page,
        k1.array@[c].slabs@[s].size == k0.array@[c].slabs@[s].size,
        k1.array@[c].slabs@[s].freelist@ == k0.array@[c].slabs@[s].freelist@.insert(0, p),
{
    let sl = k0.array@[c].slabs@[s];
    assert(slab_sound(sl));
    assert(k0.array@[c].size == class_sizes()[c]);
    assert(sl.size == k0.array@[c].size);
    assert(16 <= sl.size <= 1024);
    lemma_fresh_objects(sl.page, sl.size);
    let f = fresh_objects(sl.page, sl.size);
    let i = choose|i: int| 0 <= i < f.len() && f[i] == p;
    assert(p != 0);
    let h = p & !0xfffu64;
    assert(sl.page == h);
    assert forall|c2: int, s2: int| 0 <= c2 < c && 0 <= s2 < k0.array@[c2].slabs@.len() implies #[trigger] k0.array@[c2].slabs@[s2].page != h by {}
    assert forall|s2: int| 0 <= s2 < s implies #[trigger] k0.array@[c].slabs@[s2].page != h by {}
    assert(first_on_page(k0.array@, h, c, s));
    assert(releasable(k0, p, c, s));
}

/// An object freed from a well-formed manager is the one that the next
/// allocation of its class hands out, and that allocation leaves the
/// class's slabs as they were before the free, provided no slab listed
/// before the object's slab has a free object.
pub proof fn law_freed_object_handed_out_next(
    k0: kmalloc_manager,
    k1: kmalloc_manager,
    k2: kmalloc_manager,
    pmm1: PhysicalAllocator,
    pmm2: PhysicalAllocator,
    c: int,
    s: int,
    p: u64,
    size: usize,
    r: Option<u64>,
)
    requires
        k0.wf(),
        k0.holds(c, s, p),
        free_post(k0, k1, p),
        class_of(next_pow2(size as nat)) == c,
        forall|j: int| 0 <= j < s ==> #[trigger] k0.array@[c].slabs@[j].freelist@.len() == 0,
        alloc_post(k1, k2, pmm1, pmm2, size, r),
    ensures
        r == Some(p),
        k2.array@[c].slabs@.len() == k0.array@[c].slabs@.len(),
        forall|j: int| 0 <= j < k0.array@[c].slabs@.len() ==> (#[trigger] k2.array@[c].slabs@[j]).page == k0.array@[c].slabs@[j].page
            && k2.array@[c].slabs@[j].size == k0.array@[c].slabs@[j].size
            && k2.array@[c].slabs@[j].freelist@ == k0.array@[c].slabs@[j].freelist@,
{
    law_free_returns_object(k0, k1, c, s, p);
    let before = k0.array@[c].slabs@;
    let freed = k1.array@[c].slabs@;
    assert(freed[s].freelist@.len() > 0);
    lemma_first_with_free(freed);
    assert forall|j: int| 0 <= j < s implies #[trigger] freed[j].freelist@.len() == 0 by {
        assert(freed[j] == before[j]);
    }
    assert(first_with_free(freed) <= s) by {
        if first_with_free(freed) > s {
            assert(freed[s].freelist@.len() == 0);
        }
    }
    assert(first_with_free(freed) < freed.len());
    law_free_then_allocate_returns_it(before, freed, k2.array@[c].slabs@, s, p, class_sizes()[c], pmm1, pmm2, r);
}

} // verus!
