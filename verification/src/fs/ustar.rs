use vstd::prelude::*;
use vstd::utf8::{valid_utf8, decode_utf8};
use vstd::slice::slice_subrange;
use vstd::string::StringSliceAdditionalSpecFns;
use crate::mem::phys::{align_up, is_pow2};
use crate::fs::vfs::{vfs, VNode, NodeView, NodeKind, lookup_spec, create_spec, mkdir_spec, path_components, get_list, empty_tmp_dir, is_dir};
use crate::fs::tmpfs::tmpfsdir;

verus! {

/// The digit that a character stands for in an octal numeral: the low byte
/// of its code, less the code of '0'.
pub open spec fn digit_of(c: char) -> int {
    ((c as u32) % 256) as int - 48
}

/// The value of a numeral read in base 8, first character most significant.
pub open spec fn octal_value(s: Seq<char>) -> int
    decreases s.len(),
{
    if s.len() == 0 {
        0
    } else {
        octal_value(s.drop_last()) * 8 + digit_of(s.last())
    }
}

/// A numeral whose characters all stand for non-negative digits.
pub open spec fn digits_ok(s: Seq<char>) -> bool {
    forall|i: int| 0 <= i < s.len() ==> digit_of(#[trigger] s[i]) >= 0
}

/// The values of the prefixes of a numeral with non-negative digits never
/// decrease.
pub proof fn lemma_octal_prefix_monotone(s: Seq<char>, k: int, j: int)
    requires
        digits_ok(s),
        0 <= k <= j <= s.len(),
    ensures
        0 <= octal_value(s.take(k)) <= octal_value(s.take(j)),
    decreases j - k,
{
    if k == j {
        lemma_octal_nonneg(s.take(k));
    } else {
        lemma_octal_prefix_monotone(s, k, j - 1);
        assert(s.take(j).drop_last() == s.take(j - 1));
        assert(digit_of(s[j - 1]) >= 0);
    }
}

pub proof fn lemma_octal_nonneg(s: Seq<char>)
    requires
        digits_ok(s),
    ensures
        octal_value(s) >= 0,
    decreases s.len(),
{
    if s.len() > 0 {
        assert(digits_ok(s.drop_last())) by {
            assert forall|i: int| 0 <= i < s.drop_last().len() implies digit_of(#[trigger] s.drop_last()[i]) >= 0 by {
                assert(s.drop_last()[i] == s[i]);
            }
        }
        lemma_octal_nonneg(s.drop_last());
        assert(digit_of(s[s.len() - 1]) >= 0);
    }
}

/// Reads an octal numeral: each character's low byte less '0' is a digit.
pub fn oct2bin(s: &str) -> (n: u32)
    requires
        digits_ok(s@),
        octal_value(s@) <= u32::MAX,
    ensures
        n == octal_value(s@),
{
    let mut n: u32 = 0;
    for u in it: s.chars()
        invariant
            digits_ok(s@),
            octal_value(s@) <= u32::MAX,
            it.seq() == s@,
            n == octal_value(s@.take(it.index())),
    {
        let ghost k = it.index();
        assert(s@[k] == u);
        proof {
            lemma_octal_prefix_monotone(s@, k + 1, s@.len() as int);
            assert(s@.take(k + 1).drop_last() == s@.take(k));
            assert(s@.take(s@.len() as int) == s@);
        }
        n = n * 8;
        let byte = ((u as u32) % 256) as u8;
        let d = byte - 48u8;
        n = n + d as u32;
    }
    proof {
        assert(s@.take(s@.len() as int) == s@);
    }
    n
}


/// `core::str::from_utf8`: the string whose bytes are `b` when they are
/// valid UTF-8, `None` otherwise.
#[verifier::external_body]
fn str_from_utf8<'a>(b: &'a [u8]) -> (r: Option<&'a str>)
    ensures
        r is Some <==> valid_utf8(b@),
        r matches Some(s) ==> s.spec_bytes() == b@,
{
    match core::str::from_utf8(b) {
        Ok(s) => Some(s),
        Err(_) => None,
    }
}

/// The index of the first zero byte, or the length when there is none.
pub open spec fn first_zero(b: Seq<u8>) -> int
    decreases b.len(),
{
    if b.len() == 0 {
        0
    } else if b[0] == 0 {
        0
    } else {
        1 + first_zero(b.drop_first())
    }
}

pub proof fn lemma_first_zero(b: Seq<u8>)
    ensures
        0 <= first_zero(b) <= b.len(),
        first_zero(b) < b.len() ==> b[first_zero(b)] == 0,
        forall|j: int| 0 <= j < first_zero(b) ==> #[trigger] b[j] != 0,
    decreases b.len(),
{
    if b.len() > 0 && b[0] != 0 {
        lemma_first_zero(b.drop_first());
        assert forall|j: int| 0 <= j < first_zero(b) implies #[trigger] b[j] != 0 by {
            if j > 0 {
                assert(b.drop_first()[j - 1] == b[j]);
            }
        }
    }
}

/// The text of a header field of `len` bytes at `start`: the bytes before
/// its first zero byte, read as UTF-8; `None` when the field holds no zero
/// byte or the bytes are not UTF-8.
pub open spec fn field_text(tar: Seq<u8>, start: int, len: int) -> Option<Seq<char>> {
    let f = tar.subrange(start, start + len);
    let z = first_zero(f);
    if z < f.len() && valid_utf8(f.take(z)) {
        Some(decode_utf8(f.take(z)))
    } else {
        None
    }
}

/// Reads a zero-terminated text field of a header.
fn field_str<'a>(tar: &'a [u8], start: usize, len: usize) -> (r: Option<&'a str>)
    requires
        start + len <= tar@.len(),
    ensures
        r is Some <==> field_text(tar@, start as int, len as int) is Some,
        r matches Some(s) ==> s@ == field_text(tar@, start as int, len as int).unwrap(),
{
    let ghost f = tar@.subrange(start as int, start + len);
    proof {
        lemma_first_zero(f);
    }
    assert(tar@.len() == tar.len());
    let mut k: usize = 0;
    while k < len
        invariant
            0 <= k <= len,
            start + len <= tar@.len(),
            tar@.len() <= usize::MAX,
            f == tar@.subrange(start as int, start + len),
            forall|j: int| 0 <= j < k ==> #[trigger] f[j] != 0,
            0 <= first_zero(f) <= f.len(),
            first_zero(f) < f.len() ==> f[first_zero(f)] == 0,
            forall|j: int| 0 <= j < first_zero(f) ==> #[trigger] f[j] != 0,
        decreases len - k,
    {
        if tar[start + k] == 0 {
            assert(f[k as int] == 0);
            assert(first_zero(f) == k);
            let sub = slice_subrange(tar, start, start + k);
            assert(sub@ == f.take(k as int));
            let r = str_from_utf8(sub);
            proof {
                if let Some(s) = r {
                    vstd::utf8::encode_utf8_decode_utf8(s@);
                }
            }
            return r;
        }
        k = k + 1;
    }
    assert(first_zero(f) == len);
    None
}

/// The size field of the header at `off` holds an octal numeral that fits
/// in 32 bits.
pub open spec fn size_ok(tar: Seq<u8>, off: int) -> bool {
    &&& field_text(tar, off + 124, 12) is Some
    &&& digits_ok(field_text(tar, off + 124, 12).unwrap())
    &&& octal_value(field_text(tar, off + 124, 12).unwrap()) <= u32::MAX
}

/// The size of the entry whose header is at `off`.
pub open spec fn entry_size(tar: Seq<u8>, off: int) -> int {
    octal_value(field_text(tar, off + 124, 12).unwrap())
}

/// Where the header after the one at `off` starts: past the header's 512
/// bytes and the entry's data rounded up to 512 bytes.
pub open spec fn next_header(tar: Seq<u8>, off: int) -> int {
    off + 512 + (entry_size(tar, off) + 511) / 512 * 512
}

/// The node that walking down `comps` from `cur` reaches: each component
/// that names an entry of the current node is followed, the others are
/// skipped.
pub open spec fn descend(v: Seq<NodeView>, cur: usize, comps: Seq<Seq<char>>) -> usize
    decreases comps.len(),
{
    if comps.len() == 0 {
        cur
    } else {
        let next = match lookup_spec(v, cur as int, comps[0]) {
            Ok(i) => i,
            Err(_) => cur,
        };
        descend(v, next, comps.drop_first())
    }
}

/// Walking one more component after a walk: the walk of `comps` followed
/// by `x` ends at the child named `x` of where the walk of `comps` ended,
/// when it has one, and stays there otherwise.  So every component that
/// names an entry is followed and every other one is passed over, wherever
/// it stands in the path.
pub proof fn law_walk_extends(v: Seq<NodeView>, cur: usize, comps: Seq<Seq<char>>, x: Seq<char>)
    ensures
        descend(v, cur, comps.push(x)) == match lookup_spec(v, descend(v, cur, comps) as int, x) {
            Ok(i) => i,
            Err(_) => descend(v, cur, comps),
        },
    decreases comps.len(),
{
    if comps.len() == 0 {
        assert(comps.push(x).drop_first() =~= Seq::<Seq<char>>::empty());
        assert(comps.push(x)[0] == x);
        assert(descend(v, cur, comps) == cur);
        let nx = match lookup_spec(v, cur as int, x) {
            Ok(i) => i,
            Err(_) => cur,
        };
        assert(descend(v, nx, Seq::<Seq<char>>::empty()) == nx);
        assert(descend(v, cur, comps.push(x)) == descend(v, nx, comps.push(x).drop_first()));
    } else {
        let next = match lookup_spec(v, cur as int, comps[0]) {
            Ok(i) => i,
            Err(_) => cur,
        };
        assert(comps.push(x).drop_first() =~= comps.drop_first().push(x));
        assert(comps.push(x)[0] == comps[0]);
        assert(descend(v, cur, comps) == descend(v, next, comps.drop_first()));
        assert(descend(v, cur, comps.push(x)) == descend(v, next, comps.push(x).drop_first()));
        law_walk_extends(v, next, comps.drop_first(), x);
    }
}

/// A component that names no entry of the node the walk has reached is
/// passed over: the walk goes on from the same node with the components
/// after it.
pub proof fn law_walk_skips_missing(v: Seq<NodeView>, cur: usize, x: Seq<char>, rest: Seq<Seq<char>>)
    requires
        lookup_spec(v, cur as int, x) is Err,
    ensures
        descend(v, cur, seq![x] + rest) == descend(v, cur, rest),
{
    assert((seq![x] + rest).drop_first() =~= rest);
    assert((seq![x] + rest)[0] == x);
}

/// The file system that reading the archive from the header at `off` on
/// leaves, with the current directory: a regular file ('0') walks down its
/// path and is created, under the last component of its path, in the
/// directory reached (which becomes current); a directory ('5') likewise is
/// made there; links,
/// devices and pipes ('1' to '4', '6') are passed over; any other type
/// ends the reading, as does reaching the last 1024 bytes.
pub open spec fn ustar_from(tar: Seq<u8>, off: int, v: Seq<NodeView>, cur: usize) -> (Seq<NodeView>, usize)
    decreases (if off <= tar.len() { tar.len() - off } else { 0 }),
{
    if off < 0 || off + 1024 >= tar.len() {
        (v, cur)
    } else {
        let tf = tar[off + 156];
        if tf == 48 || tf == 53 {
            let name = field_text(tar, off, 100).unwrap();
            let c2 = descend(v, cur, path_components(name));
            let leaf = path_components(name).last();
            let v2 = if tf == 48 {
                create_spec(v, c2 as int, leaf).0
            } else {
                mkdir_spec(v, c2 as int, leaf).0
            };
            if next_header(tar, off) > off {
                ustar_from(tar, next_header(tar, off), v2, c2)
            } else {
                (v2, c2)
            }
        } else if 49 <= tf <= 52 || tf == 54 {
            if next_header(tar, off) > off {
                ustar_from(tar, next_header(tar, off), v, cur)
            } else {
                (v, cur)
            }
        } else {
            (v, cur)
        }
    }
}

/// The archive from the header at `off` on can be read without a failure:
/// every header read has a zero-terminated UTF-8 name with at least one
/// path component (for files and directories) and a valid size, every directory is made inside a
/// directory, and offsets and node counts stay within machine limits.
pub open spec fn ustar_ok(tar: Seq<u8>, off: int, v: Seq<NodeView>, cur: usize) -> bool
    decreases (if off <= tar.len() { tar.len() - off } else { 0 }),
{
    if off < 0 || off + 1024 >= tar.len() {
        true
    } else {
        let tf = tar[off + 156];
        let step_ok = size_ok(tar, off) && next_header(tar, off) <= usize::MAX && entry_size(tar, off) + 512 <= usize::MAX;
        if tf == 48 || tf == 53 {
            let name = field_text(tar, off, 100).unwrap();
            let c2 = descend(v, cur, path_components(name));
            let leaf = path_components(name).last();
            let v2 = if tf == 48 {
                create_spec(v, c2 as int, leaf).0
            } else {
                mkdir_spec(v, c2 as int, leaf).0
            };
            &&& field_text(tar, off, 100) is Some
            &&& path_components(name).len() > 0
            &&& v.len() < usize::MAX
            &&& tf == 53 ==> is_dir(v[c2 as int])
            &&& step_ok
            &&& if next_header(tar, off) > off { ustar_ok(tar, next_header(tar, off), v2, c2) } else { false }
        } else if 49 <= tf <= 52 || tf == 54 {
            &&& step_ok
            &&& if next_header(tar, off) > off { ustar_ok(tar, next_header(tar, off), v, cur) } else { false }
        } else {
            true
        }
    }
}

/// The file system that a fresh in-memory root and an archive give.
pub open spec fn ustar_result(tar: Seq<u8>) -> (Seq<NodeView>, usize) {
    ustar_from(tar, 0, seq![empty_tmp_dir()], 0)
}


/// Walks down `comps` from `cur`: each component that names an entry of the
/// current node is followed.
fn descend_exec(fs: &vfs, cur: usize, comps: &Vec<&str>) -> (r: usize)
    requires
        fs.wf(),
        cur < fs.view().len(),
    ensures
        r == descend(fs.view(), cur, comps@.map_values(|p: &str| p@)),
        r < fs.view().len(),
{
    let ghost cs = comps@.map_values(|p: &str| p@);
    assert(cs.skip(0) =~= cs);
    let mut c = cur;
    let mut i: usize = 0;
    while i < comps.len()
        invariant
            0 <= i <= comps@.len(),
            fs.wf(),
            c < fs.view().len(),
            cs == comps@.map_values(|p: &str| p@),
            descend(fs.view(), c, cs.skip(i as int)) == descend(fs.view(), cur, cs),
        decreases comps@.len() - i,
    {
        assert(cs.skip(i as int)[0] == comps@[i as int]@);
        assert(cs.skip(i as int).drop_first() =~= cs.skip(i as int + 1));
        match fs.lookup(c, comps[i]) {
            Ok(r) => {
                c = r;
            },
            Err(_) => {},
        }
        i = i + 1;
    }
    assert(cs.skip(i as int) =~= Seq::<Seq<char>>::empty());
    c
}

/// Reads an octal numeral when every character stands for a digit and the
/// value fits in 32 bits; `None` otherwise.
fn octal_checked(s: &str) -> (r: Option<u32>)
    ensures
        digits_ok(s@) && octal_value(s@) <= u32::MAX ==> r == Some(octal_value(s@) as u32),
        !(digits_ok(s@) && octal_value(s@) <= u32::MAX) ==> r is None,
        r matches Some(v) ==> v as int == octal_value(s@),
{
    let mut n: u64 = 0;
    for u in it: s.chars()
        invariant
            it.seq() == s@,
            digits_ok(s@.take(it.index())),
            n == octal_value(s@.take(it.index())),
            n <= u32::MAX,
    {
        let ghost k = it.index();
        assert(s@[k] == u);
        assert(s@.take(k + 1).drop_last() == s@.take(k));
        let byte = ((u as u32) % 256) as u8;
        if byte < 48 {
            proof {
                assert(digit_of(s@[k]) < 0);
            }
            return None;
        }
        let d = byte - 48u8;
        n = n * 8 + d as u64;
        assert(digits_ok(s@.take(k + 1))) by {
            assert forall|j: int| 0 <= j < k + 1 implies digit_of(#[trigger] s@.take(k + 1)[j]) >= 0 by {
                if j < k {
                    assert(s@.take(k + 1)[j] == s@.take(k)[j]);
                }
            }
        }
        if n > 0xffff_ffff {
            proof {
                if digits_ok(s@) {
                    lemma_octal_prefix_monotone(s@, k + 1, s@.len() as int);
                    assert(s@.take(s@.len() as int) == s@);
                }
            }
            return None;
        }
    }
    proof {
        assert(s@.take(s@.len() as int) == s@);
    }
    Some(n as u32)
}

/// Where the header after the one at `off` starts, when its size field
/// holds a valid numeral and the offsets fit in a `usize`; `None` otherwise.
fn checked_next_header(tar: &[u8], off: usize) -> (r: Option<usize>)
    requires
        off + 1024 < tar@.len(),
    ensures
        ({
            let ok = size_ok(tar@, off as int) && next_header(tar@, off as int) <= usize::MAX
                && entry_size(tar@, off as int) + 512 <= usize::MAX;
            match r {
                Some(n) => ok && n == next_header(tar@, off as int) && n >= off + 512,
                None => !ok,
            }
        }),
{
    assert(tar@.len() == tar.len());
    let size_text = match field_str(tar, off + 124, 12) {
        Some(t) => t,
        None => {
            assert(field_text(tar@, off + 124, 12) is None);
            assert(!size_ok(tar@, off as int));
            return None;
        },
    };
    let size = match octal_checked(size_text) {
        Some(v) => v,
        None => {
            assert(!size_ok(tar@, off as int));
            return None;
        },
    };
    assert(size_ok(tar@, off as int));
    assert(entry_size(tar@, off as int) == size);
    if size as usize > usize::MAX - 512 {
        return None;
    }
    assert(is_pow2(512)) by (bit_vector);
    let rounded = align_up(size as usize, 512);
    assert(rounded == (size + 511) / 512 * 512);
    assert(next_header(tar@, off as int) == off + 512 + rounded);
    if rounded > usize::MAX - 512 - off {
        return None;
    }
    Some(off + 512 + rounded)
}

/// Reads a USTAR archive into a fresh in-memory file system: every regular
/// file and directory of the archive is created (see `ustar_from`), and the
/// directory current at the end becomes the root.  (The contents of the
/// files are not copied.)  `None` when the archive cannot be read (see
/// `ustar_ok`).
pub fn ustarinit(tar: &[u8]) -> (r: Option<vfs>)
    ensures
        match r {
            Some(fs) => {
                &&& ustar_ok(tar@, 0, seq![empty_tmp_dir()], 0)
                &&& fs.wf()
                &&& fs.view() == ustar_result(tar@).0
                &&& fs.vnode == Some(ustar_result(tar@).1)
            },
            None => !ustar_ok(tar@, 0, seq![empty_tmp_dir()], 0),
        },
{
    let mut fs = vfs::default();
    let root = fs.add_node(VNode::TmpDir(tmpfsdir::default()));
    fs.vnode = Some(root);
    assert(fs.view() =~= seq![empty_tmp_dir()]);
    let mut cur = root;
    let mut off: usize = 0;
    assert(tar@.len() == tar.len());
    while off < tar.len() && tar.len() - off > 1024
        invariant
            fs.wf(),
            cur < fs.view().len(),
            tar@.len() == tar.len(),
            ustar_ok(tar@, off as int, fs.view(), cur) == ustar_ok(tar@, 0, seq![empty_tmp_dir()], 0),
            ustar_from(tar@, off as int, fs.view(), cur) == ustar_result(tar@),
        decreases (if off <= tar@.len() { tar@.len() - off } else { 0 }),
    {
        let tf = tar[off + 156];
        let ghost v0 = fs.view();
        let ghost off0 = off as int;
        if tf == 48 || tf == 53 {
            let name = match field_str(tar, off, 100) {
                Some(t) => t,
                None => {
                    return None;
                },
            };
            if fs.nodes.len() == usize::MAX {
                return None;
            }
            let comps = get_list(name);
            if comps.len() == 0 {
                return None;
            }
            let leaf = comps[comps.len() - 1];
            assert(leaf@ == path_components(name@).last());
            let c2 = descend_exec(&fs, cur, &comps);
            if tf == 53 {
                let k = fs.kind_of(c2);
                if k != NodeKind::TmpDir && k != NodeKind::DevDir {
                    return None;
                }
            }
            let next = match checked_next_header(tar, off) {
                Some(n) => n,
                None => {
                    return None;
                },
            };
            assert(c2 == descend(v0, cur, path_components(name@)));
            if tf == 48 {
                let _ = fs.create(c2, leaf);
            } else {
                let _ = fs.mkdir(c2, leaf);
            }
            proof {
                let v2 = if tf == 48 { create_spec(v0, c2 as int, leaf@).0 } else { mkdir_spec(v0, c2 as int, leaf@).0 };
                assert(fs.view() == v2);
                assert(ustar_ok(tar@, off0, v0, cur) == ustar_ok(tar@, next as int, v2, c2));
                assert(ustar_from(tar@, off0, v0, cur) == ustar_from(tar@, next as int, v2, c2));
            }
            cur = c2;
            off = next;
        } else if (49 <= tf && tf <= 52) || tf == 54 {
            let next = match checked_next_header(tar, off) {
                Some(n) => n,
                None => {
                    return None;
                },
            };
            proof {
                assert(ustar_ok(tar@, off0, v0, cur) == ustar_ok(tar@, next as int, v0, cur));
                assert(ustar_from(tar@, off0, v0, cur) == ustar_from(tar@, next as int, v0, cur));
            }
            off = next;
        } else {
            fs.vnode = Some(cur);
            return Some(fs);
        }
    }
    fs.vnode = Some(cur);
    Some(fs)
}

} // verus!
