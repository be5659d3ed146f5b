use vstd::prelude::*;
use crate::fs::{UNIXERROR, VNODEFLAGS, vnodeattributetable};
use crate::fs::names::{NameTable, name_table_contents};
use crate::fs::vfs::{vfs, VNode, NodeKind, NodeView, lookup_spec, add_child, empty_dev_dir};

verus! {

/// The operations of a device: what reading and writing it do.
pub trait devfsops {
    /// What a read of `count` bytes at `offset` answers, and what the
    /// buffer holds afterwards, for a buffer that held `buf`.
    spec fn read_answer(&self, buf: Seq<u8>, offset: usize, count: usize) -> (Result<usize, UNIXERROR>, Seq<u8>);

    /// What a write of `count` bytes of `buf` at `offset` answers.
    spec fn write_answer(&self, buf: Seq<u8>, offset: usize, count: usize) -> Result<usize, UNIXERROR>;

    fn read(&self, buf: &mut [u8], offset: usize, count: usize) -> (r: Result<usize, UNIXERROR>)
        ensures
            (r, final(buf)@) == self.read_answer(old(buf)@, offset, count),
    ;

    fn write(&mut self, buf: &[u8], offset: usize, count: usize) -> (r: Result<usize, UNIXERROR>)
        ensures
            r == old(self).write_answer(buf@, offset, count),
    ;
}

/// The null device: reads give nothing, writes take everything.
pub struct NullDriver;

impl devfsops for NullDriver {
    open spec fn read_answer(&self, buf: Seq<u8>, offset: usize, count: usize) -> (Result<usize, UNIXERROR>, Seq<u8>) {
        (Ok(0), buf)
    }

    open spec fn write_answer(&self, buf: Seq<u8>, offset: usize, count: usize) -> Result<usize, UNIXERROR> {
        Ok(count)
    }

    fn read(&self, buf: &mut [u8], offset: usize, count: usize) -> (r: Result<usize, UNIXERROR>) {
        Ok(0)
    }

    fn write(&mut self, buf: &[u8], offset: usize, count: usize) -> (r: Result<usize, UNIXERROR>) {
        Ok(count)
    }
}

/// A device file: the device's operations, when it has any, and its
/// attributes.
pub struct devfsfile {
    pub ops: Option<Box<dyn devfsops>>,
    pub attrib: vnodeattributetable,
}

/// The device directory: its entries (name to node index) and its
/// attributes.
pub struct devfsdir {
    pub files: NameTable,
    pub attrib: vnodeattributetable,
}

impl devfsfile {
    /// What a read answers and leaves in the buffer: the device's answer,
    /// or `ENOENT` with the buffer unchanged when there are no operations.
    pub open spec fn read_answer(&self, buf: Seq<u8>, offset: usize, count: usize) -> (Result<usize, UNIXERROR>, Seq<u8>) {
        match self.ops {
            Some(o) => o.read_answer(buf, offset, count),
            None => (Err(UNIXERROR::ENOENT), buf),
        }
    }

    /// What a write answers: the device's answer, or `ENOENT` when there
    /// are no operations.
    pub open spec fn write_answer(&self, buf: Seq<u8>, offset: usize, count: usize) -> Result<usize, UNIXERROR> {
        match self.ops {
            Some(o) => o.write_answer(buf, offset, count),
            None => Err(UNIXERROR::ENOENT),
        }
    }

    /// A device file with no operations.
    pub fn default() -> (r: devfsfile)
        ensures
            r.ops is None,
            r.attrib == (vnodeattributetable { size: 0, TYPE: VNODEFLAGS::FILE }),
    {
        devfsfile { ops: None, attrib: vnodeattributetable { size: 0, TYPE: VNODEFLAGS::FILE } }
    }

    /// Reads through the device's operations; `ENOENT` when it has none.
    pub fn read(&self, buf: &mut [u8], offset: usize, count: usize) -> (r: Result<usize, UNIXERROR>)
        ensures
            (r, final(buf)@) == self.read_answer(old(buf)@, offset, count),
    {
        match &self.ops {
            None => Err(UNIXERROR::ENOENT),
            Some(o) => o.read(buf, offset, count),
        }
    }

    /// Writes through the device's operations; `ENOENT` when it has none.
    pub fn write(&mut self, buf: &[u8], offset: usize, count: usize) -> (r: Result<usize, UNIXERROR>)
        ensures
            r == old(self).write_answer(buf@, offset, count),
            final(self).attrib == old(self).attrib,
            (final(self).ops is Some) == (old(self).ops is Some),
    {
        match &mut self.ops {
            None => Err(UNIXERROR::ENOENT),
            Some(o) => o.write(buf, offset, count),
        }
    }
}

impl devfsdir {
    /// An empty device directory.
    pub fn default() -> (r: devfsdir)
        ensures
            name_table_contents(r.files) == Map::<Seq<char>, usize>::empty(),
            r.attrib == (vnodeattributetable { size: 0, TYPE: VNODEFLAGS::DIR }),
    {
        let r = devfsdir { files: NameTable::new(), attrib: vnodeattributetable { size: 0, TYPE: VNODEFLAGS::DIR } };
        assert(name_table_contents(r.files) =~= Map::<Seq<char>, usize>::empty());
        r
    }
}


/// The file system after `devfs_init` has made sure the root holds a
/// device directory "dev" (adding an empty one when the root has no entry
/// of that name), before the null device is added.
pub open spec fn with_dev_dir(v: Seq<NodeView>, root: int) -> Seq<NodeView> {
    if lookup_spec(v, root, "dev"@) is Ok {
        v
    } else {
        add_child(v, root, "dev"@, empty_dev_dir())
    }
}

/// Makes sure the root of `fs` holds a device directory "dev" and creates
/// the null device "null" in it.
pub fn devfs_init(fs: &mut vfs)
    requires
        old(fs).wf(),
        old(fs).vnode is Some,
        old(fs).view().len() + 2 < usize::MAX,
        lookup_spec(old(fs).view(), old(fs).vnode.unwrap() as int, "dev"@) is Err ==> old(fs).view()[old(fs).vnode.unwrap() as int].0
            == NodeKind::TmpDir,
        ({
            let v1 = with_dev_dir(old(fs).view(), old(fs).vnode.unwrap() as int);
            let d = lookup_spec(v1, old(fs).vnode.unwrap() as int, "dev"@);
            d is Ok && v1[d.unwrap() as int].0 == NodeKind::DevDir
        }),
    ensures
        final(fs).wf(),
        final(fs).vnode == old(fs).vnode,
        ({
            let root = old(fs).vnode.unwrap() as int;
            let v1 = with_dev_dir(old(fs).view(), root);
            let d = lookup_spec(v1, root, "dev"@).unwrap() as int;
            final(fs).view() == add_child(
                v1,
                d,
                "null"@,
                (NodeKind::DevFile, Map::empty(), Seq::empty(), true, vnodeattributetable { size: 0, TYPE: VNODEFLAGS::FILE }),
            )
        }),
        ({
            let null = with_dev_dir(old(fs).view(), old(fs).vnode.unwrap() as int).len() as int;
            &&& forall|buf: Seq<u8>, offset: usize, count: usize|
                #[trigger] final(fs).dev_read_answer(null, buf, offset, count) == (Ok::<usize, UNIXERROR>(0), buf)
            &&& forall|buf: Seq<u8>, offset: usize, count: usize|
                #[trigger] final(fs).dev_write_answer(null, buf, offset, count) == Ok::<usize, UNIXERROR>(count)
        }),
{
    let s = match fs.vnode {
        Some(s) => s,
        None => {
            proof {
                assert(false);
            }
            0
        },
    };
    let ghost v0 = fs.view();
    if fs.lookup(s, "dev").is_err() {
        let idx = fs.add_node(VNode::DevDir(devfsdir::default()));
        fs.set_entry(s, "dev", idx);
        proof {
            assert(fs.view() =~= add_child(v0, s as int, "dev"@, empty_dev_dir()));
        }
    }
    let d = match fs.lookup(s, "dev") {
        Ok(d) => d,
        Err(_) => {
            proof {
                assert(false);
            }
            0
        },
    };
    let ghost len1 = fs.view().len();
    assert(fs.view() == with_dev_dir(v0, s as int));
    let _ = fs.dev_create_null(d, "null");
}

} // verus!
