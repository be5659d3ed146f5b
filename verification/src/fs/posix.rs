use vstd::prelude::*;
use crate::fs::{UNIXERROR, VNODEFLAGS, WHENCE};
use crate::fs::vfs::{vfs, NodeKind, lookup_spec, path_components, get_list, is_dir};
use crate::fs::tmpfs::{read_ok, read_post, write_ok, write_post};

verus! {

/// An open stream on a node: the node and the current offset.
pub struct VNodeStream {
    pub offset: usize,
    pub vnode: usize,
}

/// A seek offset added to a position, as signed machine integers.
pub open spec fn seek_target(base: usize, offset: isize) -> usize {
    ((base as isize) + offset) as usize
}

/// Whether adding a seek offset to a position stays within the signed
/// machine range.
pub open spec fn seek_fits(base: usize, offset: isize) -> bool {
    isize::MIN <= (base as isize) + offset <= isize::MAX
}

impl VNodeStream {
    /// Moves the offset: from the current offset (`CURRENT`), from the end
    /// of the node (`END`); `SET` leaves the offset as it is.  Gives the new
    /// offset.
    pub fn seek(&mut self, fs: &vfs, offset: isize, wh: WHENCE) -> (r: Result<usize, UNIXERROR>)
        requires
            old(self).vnode < fs.view().len(),
            wh == WHENCE::CURRENT ==> seek_fits(old(self).offset, offset),
            wh == WHENCE::END ==> seek_fits(fs.view()[old(self).vnode as int].4.size, offset),
        ensures
            final(self).vnode == old(self).vnode,
            wh == WHENCE::CURRENT ==> final(self).offset == seek_target(old(self).offset, offset),
            wh == WHENCE::SET ==> final(self).offset == old(self).offset,
            wh == WHENCE::END ==> final(self).offset == seek_target(fs.view()[old(self).vnode as int].4.size, offset),
            r == Ok::<usize, UNIXERROR>(final(self).offset),
    {
        match wh {
            WHENCE::CURRENT => {
                self.offset = (self.offset as isize + offset) as usize;
            },
            WHENCE::SET => {
                self.offset = self.offset;
            },
            WHENCE::END => {
                let size = match fs.get_attrib(self.vnode) {
                    Ok(a) => a.size,
                    Err(_) => {
                        proof {
                            assert(false);
                        }
                        0
                    },
                };
                self.offset = (size as isize + offset) as usize;
            },
        }
        Ok(self.offset)
    }

    /// Reads the node at the current offset.
    pub fn read(&self, fs: &vfs, buf: &mut [u8], sizeofbut: usize) -> (r: Result<usize, UNIXERROR>)
        requires
            self.vnode < fs.view().len(),
            fs.view()[self.vnode as int].0 == NodeKind::TmpFile ==> read_ok(
                fs.view()[self.vnode as int].2,
                old(buf)@.len(),
                self.offset as nat,
                sizeofbut as nat,
            ),
        ensures
            is_dir(fs.view()[self.vnode as int]) ==> r == Err::<usize, UNIXERROR>(UNIXERROR::EISDIR)
                && final(buf)@ == old(buf)@,
            fs.view()[self.vnode as int].0 == NodeKind::TmpFile ==> read_post(
                fs.view()[self.vnode as int].2,
                old(buf)@,
                final(buf)@,
                self.offset as nat,
                sizeofbut as nat,
                r,
            ),
            fs.view()[self.vnode as int].0 == NodeKind::DevFile ==> (r, final(buf)@) == fs.dev_read_answer(
                self.vnode as int,
                old(buf)@,
                self.offset,
                sizeofbut,
            ),
    {
        fs.read(self.vnode, buf, self.offset, sizeofbut)
    }

    /// Writes the node at the current offset.
    pub fn write(&self, fs: &mut vfs, buf: &[u8], sizeofbut: usize) -> (r: Result<usize, UNIXERROR>)
        requires
            old(fs).wf(),
            self.vnode < old(fs).view().len(),
            old(fs).view()[self.vnode as int].0 == NodeKind::TmpFile ==> write_ok(
                old(fs).view()[self.vnode as int].2.len(),
                buf@,
                self.offset as nat,
                sizeofbut as nat,
            ),
        ensures
            final(fs).wf(),
            final(fs).vnode == old(fs).vnode,
            final(fs).view().len() == old(fs).view().len(),
            forall|j: int| 0 <= j < old(fs).view().len() && j != self.vnode ==> #[trigger] final(fs).view()[j] == old(fs).view()[j],
            is_dir(old(fs).view()[self.vnode as int]) ==> r == Err::<usize, UNIXERROR>(UNIXERROR::EISDIR)
                && final(fs).view() == old(fs).view(),
            old(fs).view()[self.vnode as int].0 == NodeKind::TmpFile ==> final(fs).view()[self.vnode as int].0 == NodeKind::TmpFile
                && write_post(
                old(fs).view()[self.vnode as int].2,
                old(fs).view()[self.vnode as int].4,
                final(fs).view()[self.vnode as int].2,
                final(fs).view()[self.vnode as int].4,
                buf@,
                self.offset as nat,
                sizeofbut as nat,
                r,
            ),
            old(fs).view()[self.vnode as int].0 == NodeKind::DevFile ==> r == old(fs).dev_write_answer(
                self.vnode as int,
                buf@,
                self.offset,
                sizeofbut,
            ) && final(fs).view() == old(fs).view(),
    {
        fs.write(self.vnode, buf, self.offset, sizeofbut)
    }
}

/// The node that a path names, walking down from `cur` one component at a
/// time; the first failed lookup is the result.
pub open spec fn resolve_from(v: Seq<crate::fs::vfs::NodeView>, cur: usize, comps: Seq<Seq<char>>) -> Result<usize, UNIXERROR>
    decreases comps.len(),
{
    if comps.len() == 0 {
        Ok(cur)
    } else {
        match lookup_spec(v, cur as int, comps[0]) {
            Ok(i) => resolve_from(v, i, comps.drop_first()),
            Err(e) => Err(e),
        }
    }
}

/// Resolves an absolute path from the root of `fs`: each component is
/// looked up in the node reached so far.
pub fn resolve_path_absolute(fs: &vfs, path: &str) -> (r: Result<usize, UNIXERROR>)
    requires
        fs.wf(),
        fs.vnode is Some,
    ensures
        r == resolve_from(fs.view(), fs.vnode.unwrap(), path_components(path@)),
        r matches Ok(i) ==> i < fs.view().len(),
{
    let comps = get_list(path);
    let ghost cs = comps@.map_values(|p: &str| p@);
    let mut cur = match fs.vnode {
        Some(r) => r,
        None => {
            proof {
                assert(false);
            }
            0
        },
    };
    assert(cs.skip(0) =~= cs);
    let mut i: usize = 0;
    while i < comps.len()
        invariant
            0 <= i <= comps@.len(),
            fs.wf(),
            cur < fs.view().len(),
            cs == comps@.map_values(|p: &str| p@),
            cs == path_components(path@),
            resolve_from(fs.view(), cur, cs.skip(i as int)) == resolve_from(fs.view(), fs.vnode.unwrap(), cs),
        decreases comps@.len() - i,
    {
        assert(cs.skip(i as int)[0] == comps@[i as int]@);
        assert(cs.skip(i as int).drop_first() =~= cs.skip(i as int + 1));
        match fs.lookup(cur, comps[i]) {
            Ok(n) => {
                cur = n;
            },
            Err(e) => {
                assert(cs.skip(i as int).len() > 0);
                assert(resolve_from(fs.view(), cur, cs.skip(i as int)) == Err::<usize, UNIXERROR>(e));
                return Err(e);
            },
        }
        i = i + 1;
    }
    assert(cs.skip(i as int) =~= Seq::<Seq<char>>::empty());
    Ok(cur)
}

/// An open file: the node, its kind, and the stream on it.
pub struct PosixFile {
    pub vnode: usize,
    pub flags: VNODEFLAGS,
    pub stream: VNodeStream,
}

impl PosixFile {
    /// Opens the node that the absolute `path` names, at offset 0.
    pub fn open(fs: &vfs, path: &str) -> (r: Result<PosixFile, UNIXERROR>)
        requires
            fs.wf(),
            fs.vnode is Some,
        ensures
            ({
                let res = resolve_from(fs.view(), fs.vnode.unwrap(), path_components(path@));
                match res {
                    Ok(i) => r matches Ok(f) && f.vnode == i && f.flags == fs.view()[i as int].4.TYPE
                        && f.stream.offset == 0 && f.stream.vnode == i,
                    Err(e) => r == Err::<PosixFile, UNIXERROR>(e),
                }
            }),
    {
        match resolve_path_absolute(fs, path) {
            Ok(h) => {
                let fla = match fs.get_attrib(h) {
                    Ok(a) => a.TYPE,
                    Err(_) => {
                        proof {
                            assert(false);
                        }
                        VNODEFLAGS::NONE
                    },
                };
                Ok(PosixFile { vnode: h, flags: fla, stream: VNodeStream { offset: 0, vnode: h } })
            },
            Err(e) => Err(e),
        }
    }

    /// Seeks the file's stream.
    pub fn seek(&mut self, fs: &vfs, offset: isize, wh: WHENCE) -> (r: Result<usize, UNIXERROR>)
        requires
            old(self).stream.vnode < fs.view().len(),
            wh == WHENCE::CURRENT ==> seek_fits(old(self).stream.offset, offset),
            wh == WHENCE::END ==> seek_fits(fs.view()[old(self).stream.vnode as int].4.size, offset),
        ensures
            final(self).vnode == old(self).vnode,
            final(self).flags == old(self).flags,
            final(self).stream.vnode == old(self).stream.vnode,
            wh == WHENCE::CURRENT ==> final(self).stream.offset == seek_target(old(self).stream.offset, offset),
            wh == WHENCE::SET ==> final(self).stream.offset == old(self).stream.offset,
            wh == WHENCE::END ==> final(self).stream.offset == seek_target(
                fs.view()[old(self).stream.vnode as int].4.size,
                offset,
            ),
            r == Ok::<usize, UNIXERROR>(final(self).stream.offset),
    {
        let res = self.stream.seek(fs, offset, wh);
        match res {
            Ok(o) => Ok(o),
            Err(e) => Err(e),
        }
    }

    /// Writes through the file's stream at its offset.
    pub fn write(&mut self, fs: &mut vfs, buf: &[u8], count: usize) -> (r: Result<usize, UNIXERROR>)
        requires
            old(fs).wf(),
            old(self).stream.vnode < old(fs).view().len(),
            old(fs).view()[old(self).stream.vnode as int].0 == NodeKind::TmpFile ==> write_ok(
                old(fs).view()[old(self).stream.vnode as int].2.len(),
                buf@,
                old(self).stream.offset as nat,
                count as nat,
            ),
        ensures
            *final(self) == *old(self),
            final(fs).wf(),
            final(fs).vnode == old(fs).vnode,
            final(fs).view().len() == old(fs).view().len(),
            forall|j: int| 0 <= j < old(fs).view().len() && j != old(self).stream.vnode ==> #[trigger] final(fs).view()[j]
                == old(fs).view()[j],
            is_dir(old(fs).view()[old(self).stream.vnode as int]) ==> r == Err::<usize, UNIXERROR>(UNIXERROR::EISDIR),
            old(fs).view()[old(self).stream.vnode as int].0 == NodeKind::TmpFile ==> write_post(
                old(fs).view()[old(self).stream.vnode as int].2,
                old(fs).view()[old(self).stream.vnode as int].4,
                final(fs).view()[old(self).stream.vnode as int].2,
                final(fs).view()[old(self).stream.vnode as int].4,
                buf@,
                old(self).stream.offset as nat,
                count as nat,
                r,
            ),
            old(fs).view()[old(self).stream.vnode as int].0 == NodeKind::DevFile ==> r == old(fs).dev_write_answer(
                old(self).stream.vnode as int,
                buf@,
                old(self).stream.offset,
                count,
            ) && final(fs).view() == old(fs).view(),
    {
        let res = self.stream.write(fs, buf, count);
        match res {
            Ok(n) => Ok(n),
            Err(e) => Err(e),
        }
    }
}

/// Through a stream, a device file answers as its device does; so on a
/// node that answers as the null device that `devfs_init` makes, a read
/// at any offset (`VNodeStream::read`) reads nothing and leaves the buffer
/// as it was, and a write (`VNodeStream::write`, `PosixFile::write`)
/// reports every byte taken.
pub proof fn law_null_device_through_streams(
    fs: vfs,
    null: int,
    offset: usize,
    read_count: usize,
    buf0: Seq<u8>,
    buf1: Seq<u8>,
    read_result: Result<usize, UNIXERROR>,
    written: Seq<u8>,
    write_count: usize,
    write_result: Result<usize, UNIXERROR>,
)
    requires
        0 <= null < fs.view().len(),
        fs.view()[null].0 == NodeKind::DevFile,
        forall|b: Seq<u8>, o: usize, c: usize| #[trigger] fs.dev_read_answer(null, b, o, c) == (Ok::<usize, UNIXERROR>(0), b),
        forall|b: Seq<u8>, o: usize, c: usize| #[trigger] fs.dev_write_answer(null, b, o, c) == Ok::<usize, UNIXERROR>(c),
        (read_result, buf1) == fs.dev_read_answer(null, buf0, offset, read_count),
        write_result == fs.dev_write_answer(null, written, offset, write_count),
    ensures
        read_result == Ok::<usize, UNIXERROR>(0),
        buf1 == buf0,
        write_result == Ok::<usize, UNIXERROR>(write_count),
{
    assert(fs.dev_read_answer(null, buf0, offset, read_count) == (Ok::<usize, UNIXERROR>(0), buf0));
    assert(fs.dev_write_answer(null, written, offset, write_count) == Ok::<usize, UNIXERROR>(write_count));
}

} // verus!
