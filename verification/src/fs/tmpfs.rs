use vstd::prelude::*;
use crate::fs::{UNIXERROR, VNODEFLAGS, vnodeattributetable};
use crate::fs::names::{NameTable, name_table_contents};

verus! {

/// A file of the in-memory file system: its bytes and its attributes.
pub struct tmpfsfile {
    pub data: Vec<u8>,
    pub attrib: vnodeattributetable,
}

/// A directory of the in-memory file system: its entries (name to node
/// index) and its attributes.
pub struct tmpfsdir {
    pub files: NameTable,
    pub attrib: vnodeattributetable,
}

/// The number of bytes a read reports: `count`, or the file length when the
/// range from `offset` runs past the end.
pub open spec fn read_size(len: nat, offset: nat, count: nat) -> nat {
    if offset + count > len {
        len
    } else {
        count
    }
}

/// The length of a file after a write of `buf_len` bytes at `offset`: it
/// grows to cover the write, and never shrinks.
pub open spec fn write_len(len: nat, offset: nat, buf_len: nat) -> nat {
    if offset + buf_len > len {
        offset + buf_len
    } else {
        len
    }
}

/// What a read needs not to fail midway: the end offset fits, and the range
/// it copies starts within the reported size and fits the buffer.
pub open spec fn read_ok(data: Seq<u8>, buf_len: nat, offset: nat, count: nat) -> bool {
    &&& buf_len > 0 ==> offset + count <= usize::MAX
    &&& buf_len > 0 && data.len() > 0 ==> {
        let size = read_size(data.len(), offset, count);
        offset <= size && size - offset <= buf_len
    }
}

/// What a read of `data` gives: `EINVAL` for an empty buffer, `EPERM` for an
/// empty file, and otherwise the reported size, with bytes `offset` up to
/// that size copied to the front of the buffer and the rest of it kept.
pub open spec fn read_post(data: Seq<u8>, b0: Seq<u8>, b1: Seq<u8>, offset: nat, count: nat, r: Result<usize, UNIXERROR>) -> bool {
    if b0.len() == 0 {
        r == Err::<usize, UNIXERROR>(UNIXERROR::EINVAL) && b1 == b0
    } else if data.len() == 0 {
        r == Err::<usize, UNIXERROR>(UNIXERROR::EPERM) && b1 == b0
    } else {
        let size = read_size(data.len(), offset, count);
        &&& r == Ok::<usize, UNIXERROR>(size as usize)
        &&& b1 == data.subrange(offset as int, size as int) + b0.subrange(size - offset, b0.len() as int)
    }
}

/// What a write needs not to fail midway: the end offset fits, the copied
/// range lies within the buffer, and the grown file is exactly as long as
/// that range.
pub open spec fn write_ok(len: nat, buf: Seq<u8>, offset: nat, count: nat) -> bool {
    buf.len() > 0 ==> {
        &&& offset + buf.len() <= usize::MAX
        &&& offset <= count <= buf.len()
        &&& write_len(len, offset, buf.len()) == count - offset
    }
}

/// What a write does: `EINVAL` for an empty buffer, nothing changed;
/// otherwise the file holds bytes `offset` up to `count` of the buffer, its
/// size attribute follows when it grew, and the result is `count`.
pub open spec fn write_post(
    d0: Seq<u8>,
    a0: vnodeattributetable,
    d1: Seq<u8>,
    a1: vnodeattributetable,
    buf: Seq<u8>,
    offset: nat,
    count: nat,
    r: Result<usize, UNIXERROR>,
) -> bool {
    if buf.len() == 0 {
        r == Err::<usize, UNIXERROR>(UNIXERROR::EINVAL) && d1 == d0 && a1 == a0
    } else {
        &&& r == Ok::<usize, UNIXERROR>(count as usize)
        &&& d1 == buf.subrange(offset as int, count as int)
        &&& a1.TYPE == a0.TYPE
        &&& a1.size == if offset + buf.len() > d0.len() {
            (offset + buf.len()) as usize
        } else {
            a0.size
        }
    }
}

impl tmpfsfile {
    /// An empty file.
    pub fn default() -> (r: tmpfsfile)
        ensures
            r.data@ == Seq::<u8>::empty(),
            r.attrib == (vnodeattributetable { size: 0, TYPE: VNODEFLAGS::FILE }),
    {
        tmpfsfile { data: Vec::new(), attrib: vnodeattributetable { size: 0, TYPE: VNODEFLAGS::FILE } }
    }

    /// Copies bytes `offset` up to the reported size into the front of
    /// `buf` and reports that size: `count`, or the file length when
    /// `offset + count` runs past the end.  An empty `buf` is `EINVAL`, an
    /// empty file `EPERM`.
    pub fn read(&self, buf: &mut [u8], offset: usize, count: usize) -> (r: Result<usize, UNIXERROR>)
        requires
            read_ok(self.data@, old(buf)@.len(), offset as nat, count as nat),
        ensures
            read_post(self.data@, old(buf)@, final(buf)@, offset as nat, count as nat, r),
    {
        let mut size = count;
        if buf.len() == 0 {
            return Err(UNIXERROR::EINVAL);
        }
        if offset + count > self.data.len() {
            size = self.data.len();
        }
        if self.data.len() == 0 {
            return Err(UNIXERROR::EPERM);
        }
        let ghost b0 = buf@;
        let mut i: usize = offset;
        while i < size
            invariant
                offset <= i <= size,
                size <= self.data@.len(),
                size - offset <= b0.len(),
                buf@.len() == b0.len(),
                forall|j: int| 0 <= j < i - offset ==> #[trigger] buf@[j] == self.data@[offset + j],
                forall|j: int| i - offset <= j < b0.len() ==> #[trigger] buf@[j] == b0[j],
            decreases size - i,
        {
            buf[i - offset] = self.data[i];
            i = i + 1;
        }
        assert(buf@ =~= self.data@.subrange(offset as int, size as int) + b0.subrange(size - offset, b0.len() as int));
        Ok(size)
    }

    /// Writes bytes `offset` up to `count` of `buf` over the whole file,
    /// after growing the file with zeros to cover `offset + buf.len()`
    /// bytes (its size attribute follows); reports `count`.  An empty `buf`
    /// is `EINVAL`.  The copy needs the grown file to be exactly
    /// `count - offset` bytes long.
    pub fn write(&mut self, buf: &[u8], offset: usize, count: usize) -> (r: Result<usize, UNIXERROR>)
        requires
            write_ok(old(self).data@.len(), buf@, offset as nat, count as nat),
        ensures
            write_post(old(self).data@, old(self).attrib, final(self).data@, final(self).attrib, buf@, offset as nat, count as nat, r),
    {
        let size = count;
        if buf.len() == 0 {
            return Err(UNIXERROR::EINVAL);
        }
        if offset + buf.len() > self.data.len() {
            self.data.resize(offset + buf.len(), 0);
            self.attrib.size = self.data.len();
        }
        if self.data.len() == 0 {
            return Err(UNIXERROR::EPERM);
        }
        let ghost a = self.attrib;
        let mut i: usize = offset;
        while i < size
            invariant
                offset <= i <= size,
                size <= buf@.len(),
                self.data@.len() == size - offset,
                forall|j: int| 0 <= j < i - offset ==> #[trigger] self.data@[j] == buf@[offset + j],
                self.attrib == a,
            decreases size - i,
        {
            self.data.set(i - offset, buf[i]);
            i = i + 1;
        }
        assert(self.data@ =~= buf@.subrange(offset as int, count as int));
        Ok(size)
    }
}

/// What a read gives back of a write: after a file has taken the whole of
/// `buf` at offset 0, a read of `k` bytes from offset 0 (into a buffer of at
/// least that many bytes) is allowed, reports the smaller of `k` and the
/// length of `buf`, and copies that many leading bytes of `buf`.
pub proof fn law_read_back_written(
    before: tmpfsfile,
    after: tmpfsfile,
    buf: Seq<u8>,
    k: usize,
    out_len: nat,
)
    requires
        buf.len() > 0,
        buf.len() <= usize::MAX,
        write_len(before.data@.len(), 0, buf.len()) == buf.len(),
        after.data@ == buf.subrange(0, buf.len() as int),
        out_len >= if k < buf.len() { k as nat } else { buf.len() },
        out_len > 0,
    ensures
        ({
            let size = read_size(after.data@.len(), 0, k as nat);
            &&& after.data@.len() > 0
            &&& 0 <= size && size - 0 <= out_len
            &&& size == if k < buf.len() { k as nat } else { buf.len() }
            &&& after.data@.subrange(0, size as int) == buf.subrange(0, size as int)
        }),
{
    let size = read_size(after.data@.len(), 0, k as nat);
    assert(after.data@.subrange(0, size as int) =~= buf.subrange(0, size as int));
}

impl tmpfsdir {
    /// An empty directory.
    pub fn default() -> (r: tmpfsdir)
        ensures
            name_table_contents(r.files) == Map::<Seq<char>, usize>::empty(),
            r.attrib == (vnodeattributetable { size: 0, TYPE: VNODEFLAGS::DIR }),
    {
        let r = tmpfsdir { files: NameTable::new(), attrib: vnodeattributetable { size: 0, TYPE: VNODEFLAGS::DIR } };
        assert(name_table_contents(r.files) =~= Map::<Seq<char>, usize>::empty());
        r
    }
}

} // verus!
