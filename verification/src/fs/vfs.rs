use vstd::prelude::*;
use crate::fs::{UNIXERROR, VNODEFLAGS, vnodeattributetable};
use crate::fs::names::{NameTable, name_table_contents};
use crate::fs::tmpfs::{tmpfsdir, tmpfsfile, read_ok, read_post, write_ok, write_post};
use crate::fs::devfs::{devfsdir, devfsfile, devfsops, NullDriver};

verus! {

/// The kind of a node of the file system.
#[derive(Clone, Copy, PartialEq, Eq, Structural, Debug)]
pub enum NodeKind {
    TmpDir,
    TmpFile,
    DevDir,
    DevFile,
}

/// A node of the file system.
pub enum VNode {
    TmpDir(tmpfsdir),
    TmpFile(tmpfsfile),
    DevDir(devfsdir),
    DevFile(devfsfile),
}

/// The mathematical content of a node: its kind, its entries (directories),
/// its bytes (in-memory files), whether it has device operations (device
/// files), and its attributes.
pub type NodeView = (NodeKind, Map<Seq<char>, usize>, Seq<u8>, bool, vnodeattributetable);

pub open spec fn node_view(n: VNode) -> NodeView {
    match n {
        VNode::TmpDir(d) => (NodeKind::TmpDir, name_table_contents(d.files), Seq::empty(), false, d.attrib),
        VNode::TmpFile(f) => (NodeKind::TmpFile, Map::empty(), f.data@, false, f.attrib),
        VNode::DevDir(d) => (NodeKind::DevDir, name_table_contents(d.files), Seq::empty(), false, d.attrib),
        VNode::DevFile(f) => (NodeKind::DevFile, Map::empty(), Seq::empty(), f.ops is Some, f.attrib),
    }
}

/// A directory node.
pub open spec fn is_dir(v: NodeView) -> bool {
    v.0 == NodeKind::TmpDir || v.0 == NodeKind::DevDir
}

/// The content of a fresh empty in-memory directory.
pub open spec fn empty_tmp_dir() -> NodeView {
    (NodeKind::TmpDir, Map::empty(), Seq::empty(), false, vnodeattributetable { size: 0, TYPE: VNODEFLAGS::DIR })
}

/// The content of a fresh empty in-memory file.
pub open spec fn empty_tmp_file() -> NodeView {
    (NodeKind::TmpFile, Map::empty(), Seq::empty(), false, vnodeattributetable { size: 0, TYPE: VNODEFLAGS::FILE })
}

/// The content of a fresh empty device directory.
pub open spec fn empty_dev_dir() -> NodeView {
    (NodeKind::DevDir, Map::empty(), Seq::empty(), false, vnodeattributetable { size: 0, TYPE: VNODEFLAGS::DIR })
}

/// The content of a fresh device file without operations.
pub open spec fn empty_dev_file() -> NodeView {
    (NodeKind::DevFile, Map::empty(), Seq::empty(), false, vnodeattributetable { size: 0, TYPE: VNODEFLAGS::FILE })
}

/// Looking up `name` in node `n`: a directory gives the entry's node, or
/// `EISDIR` when there is none; a file gives `EISFILE`.
pub open spec fn lookup_spec(v: Seq<NodeView>, n: int, name: Seq<char>) -> Result<usize, UNIXERROR> {
    if is_dir(v[n]) {
        if v[n].1.contains_key(name) {
            Ok(v[n].1[name])
        } else {
            Err(UNIXERROR::EISDIR)
        }
    } else {
        Err(UNIXERROR::EISFILE)
    }
}

/// Adding a node `child` under `name` to directory `n`: the node is
/// appended and the entry set (replacing one of the same name).
pub open spec fn add_child(v: Seq<NodeView>, n: int, name: Seq<char>, child: NodeView) -> Seq<NodeView> {
    let d = v[n];
    v.update(n, (d.0, d.1.insert(name, v.len() as usize), d.2, d.3, d.4)).push(child)
}

/// Creating a file `name` in node `n`: an in-memory directory gets a fresh
/// empty file, the device directory a fresh device file; a file refuses
/// with `EISFILE`.
pub open spec fn create_spec(v: Seq<NodeView>, n: int, name: Seq<char>) -> (Seq<NodeView>, Result<usize, UNIXERROR>) {
    if v[n].0 == NodeKind::TmpDir {
        (add_child(v, n, name, empty_tmp_file()), Ok(v.len() as usize))
    } else if v[n].0 == NodeKind::DevDir {
        (add_child(v, n, name, empty_dev_file()), Ok(v.len() as usize))
    } else {
        (v, Err(UNIXERROR::EISFILE))
    }
}

/// Making a directory `name` in node `n`: an in-memory directory gets a
/// fresh empty in-memory directory, the device directory a fresh device
/// directory; a file refuses with `EISFILE`.
pub open spec fn mkdir_spec(v: Seq<NodeView>, n: int, name: Seq<char>) -> (Seq<NodeView>, Result<usize, UNIXERROR>) {
    if v[n].0 == NodeKind::TmpDir {
        (add_child(v, n, name, empty_tmp_dir()), Ok(v.len() as usize))
    } else if v[n].0 == NodeKind::DevDir {
        (add_child(v, n, name, empty_dev_dir()), Ok(v.len() as usize))
    } else {
        (v, Err(UNIXERROR::EISFILE))
    }
}

/// A node that was just created or made in a directory is what a lookup
/// of its name in that directory finds, and every other name of the
/// directory still finds what it found before.
pub proof fn law_lookup_finds_created(v: Seq<NodeView>, n: int, name: Seq<char>, other: Seq<char>)
    requires
        0 <= n < v.len(),
        is_dir(v[n]),
        v.len() < usize::MAX,
        other != name,
    ensures
        lookup_spec(create_spec(v, n, name).0, n, name) == create_spec(v, n, name).1,
        lookup_spec(mkdir_spec(v, n, name).0, n, name) == mkdir_spec(v, n, name).1,
        lookup_spec(create_spec(v, n, name).0, n, other) == lookup_spec(v, n, other),
        lookup_spec(mkdir_spec(v, n, name).0, n, other) == lookup_spec(v, n, other),
{
}

/// The pieces of `s` between its slashes, in order: as many pieces as there
/// are slashes, plus one (empty pieces included).
pub open spec fn split_slash(s: Seq<char>) -> Seq<Seq<char>>
    decreases s.len(),
{
    if s.len() == 0 {
        seq![Seq::<char>::empty()]
    } else {
        let rest = split_slash(s.drop_last());
        if s.last() == '/' {
            rest.push(Seq::empty())
        } else {
            rest.update(rest.len() - 1, rest.last().push(s.last()))
        }
    }
}

pub proof fn lemma_split_slash_nonempty(s: Seq<char>)
    ensures
        split_slash(s).len() >= 1,
    decreases s.len(),
{
    if s.len() > 0 {
        lemma_split_slash_nonempty(s.drop_last());
    }
}

/// The non-empty pieces of a sequence of pieces, in order.
pub open spec fn keep_nonempty(parts: Seq<Seq<char>>) -> Seq<Seq<char>>
    decreases parts.len(),
{
    if parts.len() == 0 {
        Seq::empty()
    } else {
        let rest = keep_nonempty(parts.drop_last());
        if parts.last().len() > 0 {
            rest.push(parts.last())
        } else {
            rest
        }
    }
}

/// The components of a path: its non-empty pieces between slashes.
pub open spec fn path_components(s: Seq<char>) -> Seq<Seq<char>> {
    keep_nonempty(split_slash(s))
}

proof fn lemma_split_slash_no_slash(s: Seq<char>)
    ensures
        forall|i: int, j: int| 0 <= i < split_slash(s).len() && 0 <= j < split_slash(s)[i].len()
            ==> #[trigger] split_slash(s)[i][j] != '/',
    decreases s.len(),
{
    if s.len() > 0 {
        lemma_split_slash_no_slash(s.drop_last());
        lemma_split_slash_nonempty(s.drop_last());
        let rest = split_slash(s.drop_last());
        if s.last() != '/' {
            assert forall|i: int, j: int| 0 <= i < split_slash(s).len() && 0 <= j < split_slash(s)[i].len()
                implies #[trigger] split_slash(s)[i][j] != '/' by {
                if i == rest.len() - 1 && j == rest.last().len() {
                } else if i == rest.len() - 1 {
                    assert(split_slash(s)[i][j] == rest[i][j]);
                } else {
                    assert(split_slash(s)[i] == rest[i]);
                }
            }
        } else {
            assert forall|i: int, j: int| 0 <= i < split_slash(s).len() && 0 <= j < split_slash(s)[i].len()
                implies #[trigger] split_slash(s)[i][j] != '/' by {
                assert(i < rest.len());
                assert(split_slash(s)[i] == rest[i]);
            }
        }
    }
}

proof fn lemma_keep_nonempty(parts: Seq<Seq<char>>)
    ensures
        forall|i: int| 0 <= i < keep_nonempty(parts).len() ==> (#[trigger] keep_nonempty(parts)[i]).len() > 0
            && parts.contains(keep_nonempty(parts)[i]),
    decreases parts.len(),
{
    if parts.len() > 0 {
        lemma_keep_nonempty(parts.drop_last());
        let rest = keep_nonempty(parts.drop_last());
        assert forall|i: int| 0 <= i < keep_nonempty(parts).len() implies (#[trigger] keep_nonempty(parts)[i]).len() > 0
            && parts.contains(keep_nonempty(parts)[i]) by {
            if i < rest.len() {
                assert(keep_nonempty(parts)[i] == rest[i]);
                let k = choose|k: int| 0 <= k < parts.drop_last().len() && parts.drop_last()[k] == rest[i];
                assert(parts[k] == rest[i]);
            } else {
                assert(keep_nonempty(parts)[i] == parts.last());
                assert(parts[parts.len() - 1] == parts.last());
            }
        }
    }
}

/// Every component of a path is a non-empty name without a slash.
pub proof fn law_path_components_are_names(s: Seq<char>)
    ensures
        forall|i: int| 0 <= i < path_components(s).len() ==> (#[trigger] path_components(s)[i]).len() > 0
            && !path_components(s)[i].contains('/'),
{
    lemma_split_slash_no_slash(s);
    lemma_keep_nonempty(split_slash(s));
    assert forall|i: int| 0 <= i < path_components(s).len() implies (#[trigger] path_components(s)[i]).len() > 0
        && !path_components(s)[i].contains('/') by {
        let c = path_components(s)[i];
        let k = choose|k: int| 0 <= k < split_slash(s).len() && split_slash(s)[k] == c;
        if c.contains('/') {
            let j = choose|j: int| 0 <= j < c.len() && c[j] == '/';
            assert(split_slash(s)[k][j] != '/');
        }
    }
}

/// The pieces of `s` between its slashes, in order.
fn split_on_slash<'a>(s: &'a str) -> (parts: Vec<&'a str>)
    ensures
        parts@.map_values(|p: &str| p@) == split_slash(s@),
{
    let n = s.unicode_len();
    let mut parts: Vec<&'a str> = Vec::new();
    let mut start: usize = 0;
    let mut i: usize = 0;
    assert(s@.subrange(0, 0) =~= Seq::<char>::empty());
    assert(split_slash(s@.subrange(0, 0)) =~= seq![s@.subrange(0, 0)]);
    assert(parts@.map_values(|p: &str| p@) =~= Seq::<Seq<char>>::empty());
    while i < n
        invariant
            n == s@.len(),
            start <= i <= n,
            split_slash(s@.subrange(0, i as int)) == parts@.map_values(|p: &str| p@).push(s@.subrange(start as int, i as int)),
        decreases n - i,
    {
        let c = s.get_char(i);
        let ghost pv = parts@.map_values(|p: &str| p@);
        let ghost prefix = s@.subrange(0, i as int + 1);
        assert(prefix.drop_last() =~= s@.subrange(0, i as int));
        assert(prefix.last() == c);
        if c == '/' {
            let piece = s.substring_char(start, i);
            parts.push(piece);
            assert(parts@.map_values(|p: &str| p@) =~= pv.push(s@.subrange(start as int, i as int)));
            start = i + 1;
            assert(s@.subrange(start as int, start as int) =~= Seq::<char>::empty());
        } else {
            assert(s@.subrange(start as int, i as int + 1) =~= s@.subrange(start as int, i as int).push(c));
            assert(pv.push(s@.subrange(start as int, i as int)).update(pv.len() as int, s@.subrange(start as int, i as int + 1))
                =~= pv.push(s@.subrange(start as int, i as int + 1)));
        }
        i = i + 1;
    }
    let last = s.substring_char(start, n);
    let ghost pv = parts@.map_values(|p: &str| p@);
    parts.push(last);
    assert(parts@.map_values(|p: &str| p@) =~= pv.push(s@.subrange(start as int, n as int)));
    assert(s@.subrange(0, n as int) =~= s@);
    parts
}

/// The components of a path: the pieces between its slashes, empty ones
/// left out.
pub fn get_list(path: &str) -> (r: Vec<&str>)
    ensures
        r@.map_values(|p: &str| p@) == path_components(path@),
{
    let q = split_on_slash(path);
    let ghost parts = q@.map_values(|p: &str| p@);
    let mut r: Vec<&str> = Vec::new();
    let mut i: usize = 0;
    while i < q.len()
        invariant
            0 <= i <= q@.len(),
            parts == q@.map_values(|p: &str| p@),
            r@.map_values(|p: &str| p@) == keep_nonempty(parts.take(i as int)),
        decreases q@.len() - i,
    {
        let p = q[i];
        assert(parts.take(i as int + 1).drop_last() =~= parts.take(i as int));
        assert(parts.take(i as int + 1).last() == p@);
        if !p.is_empty() {
            r.push(p);
            assert(r@.map_values(|p: &str| p@) =~= keep_nonempty(parts.take(i as int)).push(p@));
        }
        i = i + 1;
    }
    assert(parts.take(q@.len() as int) =~= parts);
    r
}

/// Operations of a mounted file system as a whole.
pub trait vfsops {}

/// A mounted file system: its operations, its nodes, which refer to each
/// other by index, and the index of its root node when it has one.
pub struct vfs {
    pub ops: Option<Box<dyn vfsops>>,
    pub vnode: Option<usize>,
    pub nodes: Vec<VNode>,
}

impl vfs {
    /// The content of every node, by index.
    pub open spec fn view(&self) -> Seq<NodeView> {
        self.nodes@.map_values(|n: VNode| node_view(n))
    }

    /// What reading device file `n` answers and leaves in the buffer: its
    /// device's answer for the same buffer, offset and count.
    pub open spec fn dev_read_answer(&self, n: int, buf: Seq<u8>, offset: usize, count: usize) -> (Result<usize, UNIXERROR>, Seq<u8>) {
        match self.nodes@[n] {
            VNode::DevFile(f) => f.read_answer(buf, offset, count),
            _ => (Err(UNIXERROR::ENOENT), buf),
        }
    }

    /// What writing device file `n` answers: its device's answer for the
    /// same buffer, offset and count.
    pub open spec fn dev_write_answer(&self, n: int, buf: Seq<u8>, offset: usize, count: usize) -> Result<usize, UNIXERROR> {
        match self.nodes@[n] {
            VNode::DevFile(f) => f.write_answer(buf, offset, count),
            _ => Err(UNIXERROR::ENOENT),
        }
    }

    /// Every entry of every directory, and the root, name a node.
    pub open spec fn wf(&self) -> bool {
        &&& forall|i: int, name: Seq<char>| 0 <= i < self.view().len() && #[trigger] self.view()[i].1.contains_key(name)
            ==> self.view()[i].1[name] < self.view().len()
        &&& self.vnode matches Some(r) ==> r < self.view().len()
    }

    /// A file system with no nodes and no root.
    pub fn default() -> (r: vfs)
        ensures
            r.ops is None,
            r.vnode is None,
            r.view() == Seq::<NodeView>::empty(),
            r.wf(),
    {
        let r = vfs { ops: None, vnode: None, nodes: Vec::new() };
        assert(r.view() =~= Seq::<NodeView>::empty());
        r
    }

    /// Appends a node and gives its index.
    pub fn add_node(&mut self, node: VNode) -> (r: usize)
        requires
            old(self).wf(),
            forall|name: Seq<char>| #[trigger] node_view(node).1.contains_key(name) ==> node_view(node).1[name]
                < old(self).view().len(),
            old(self).view().len() < usize::MAX,
        ensures
            r == old(self).view().len(),
            final(self).view() == old(self).view().push(node_view(node)),
            final(self).nodes@ == old(self).nodes@.push(node),
            final(self).vnode == old(self).vnode,
            final(self).wf(),
    {
        let r = self.nodes.len();
        let ghost nv = node_view(node);
        self.nodes.push(node);
        assert(self.view() =~= old(self).view().push(nv));
        r
    }

    /// The kind of node `n`.
    pub fn kind_of(&self, n: usize) -> (r: NodeKind)
        requires
            n < self.view().len(),
        ensures
            r == self.view()[n as int].0,
    {
        match &self.nodes[n] {
            VNode::TmpDir(_) => NodeKind::TmpDir,
            VNode::TmpFile(_) => NodeKind::TmpFile,
            VNode::DevDir(_) => NodeKind::DevDir,
            VNode::DevFile(_) => NodeKind::DevFile,
        }
    }

    /// Sets entry `name` of directory `n` to `child` (an entry of the same
    /// name is replaced).
    pub fn set_entry(&mut self, n: usize, name: &str, child: usize)
        requires
            n < old(self).view().len(),
            is_dir(old(self).view()[n as int]),
        ensures
            final(self).vnode == old(self).vnode,
            final(self).view() == old(self).view().update(
                n as int,
                ({
                    let d = old(self).view()[n as int];
                    (d.0, d.1.insert(name@, child), d.2, d.3, d.4)
                }),
            ),
            final(self).nodes@.len() == old(self).nodes@.len(),
            forall|j: int| 0 <= j < old(self).nodes@.len() && j != n ==> #[trigger] final(self).nodes@[j] == old(self).nodes@[j],
    {
        let ghost v0 = self.view();
        match &mut self.nodes[n] {
            VNode::TmpDir(d) => {
                d.files.insert(name.to_owned(), child);
            },
            VNode::DevDir(d) => {
                d.files.insert(name.to_owned(), child);
            },
            _ => {
                proof {
                    assert(false);
                }
            },
        }
        proof {
            let d = v0[n as int];
            assert(self.view() =~= v0.update(n as int, (d.0, d.1.insert(name@, child), d.2, d.3, d.4)));
        }
    }

    /// Creates a file `name` in node `n`: a fresh empty file in an
    /// in-memory directory, a fresh device file without operations in the
    /// device directory; `EISFILE` in a file.
    pub fn create(&mut self, n: usize, name: &str) -> (r: Result<usize, UNIXERROR>)
        requires
            old(self).wf(),
            n < old(self).view().len(),
            old(self).view().len() < usize::MAX,
        ensures
            final(self).wf(),
            final(self).vnode == old(self).vnode,
            (final(self).view(), r) == create_spec(old(self).view(), n as int, name@),
    {
        let kind = self.kind_of(n);
        let idx = self.nodes.len();
        match kind {
            NodeKind::TmpDir => {
                self.set_entry(n, name, idx);
                self.nodes.push(VNode::TmpFile(tmpfsfile::default()));
            },
            NodeKind::DevDir => {
                self.set_entry(n, name, idx);
                self.nodes.push(VNode::DevFile(devfsfile::default()));
            },
            _ => {
                return Err(UNIXERROR::EISFILE);
            },
        }
        proof {
            assert(self.view() =~= create_spec(old(self).view(), n as int, name@).0);
        }
        Ok(idx)
    }

    /// Makes a directory `name` in node `n`: a fresh empty in-memory
    /// directory in an in-memory directory, a fresh device directory in the
    /// device directory; `EISFILE` in a file.
    pub fn mkdir(&mut self, n: usize, name: &str) -> (r: Result<usize, UNIXERROR>)
        requires
            old(self).wf(),
            n < old(self).view().len(),
            old(self).view().len() < usize::MAX,
        ensures
            final(self).wf(),
            final(self).vnode == old(self).vnode,
            (final(self).view(), r) == mkdir_spec(old(self).view(), n as int, name@),
    {
        let kind = self.kind_of(n);
        let idx = self.nodes.len();
        match kind {
            NodeKind::TmpDir => {
                self.set_entry(n, name, idx);
                self.nodes.push(VNode::TmpDir(tmpfsdir::default()));
            },
            NodeKind::DevDir => {
                self.set_entry(n, name, idx);
                self.nodes.push(VNode::DevDir(devfsdir::default()));
            },
            _ => {
                return Err(UNIXERROR::EISFILE);
            },
        }
        proof {
            assert(self.view() =~= mkdir_spec(old(self).view(), n as int, name@).0);
        }
        Ok(idx)
    }

    /// Reads node `n`: an in-memory file as `tmpfsfile::read` does, a
    /// device file through its operations (`ENOENT` without any), a
    /// directory refuses with `EISDIR`.
    pub fn read(&self, n: usize, buf: &mut [u8], offset: usize, count: usize) -> (r: Result<usize, UNIXERROR>)
        requires
            n < self.view().len(),
            self.view()[n as int].0 == NodeKind::TmpFile ==> read_ok(self.view()[n as int].2, old(buf)@.len(), offset as nat, count as nat),
        ensures
            is_dir(self.view()[n as int]) ==> r == Err::<usize, UNIXERROR>(UNIXERROR::EISDIR) && final(buf)@ == old(buf)@,
            self.view()[n as int].0 == NodeKind::TmpFile ==> read_post(self.view()[n as int].2, old(buf)@, final(buf)@, offset as nat, count as nat, r),
            self.view()[n as int].0 == NodeKind::DevFile ==> (r, final(buf)@) == self.dev_read_answer(n as int, old(buf)@, offset, count),
            self.view()[n as int].0 == NodeKind::DevFile && !self.view()[n as int].3 ==> r == Err::<usize, UNIXERROR>(UNIXERROR::ENOENT)
                && final(buf)@ == old(buf)@,
    {
        match &self.nodes[n] {
            VNode::TmpFile(f) => f.read(buf, offset, count),
            VNode::DevFile(f) => f.read(buf, offset, count),
            _ => Err(UNIXERROR::EISDIR),
        }
    }

    /// Writes node `n`: an in-memory file as `tmpfsfile::write` does, a
    /// device file through its operations (`ENOENT` without any), a
    /// directory refuses with `EISDIR`.  No other node changes.
    pub fn write(&mut self, n: usize, buf: &[u8], offset: usize, count: usize) -> (r: Result<usize, UNIXERROR>)
        requires
            n < old(self).view().len(),
            old(self).wf(),
            old(self).view()[n as int].0 == NodeKind::TmpFile ==> write_ok(old(self).view()[n as int].2.len(), buf@, offset as nat, count as nat),
        ensures
            final(self).wf(),
            final(self).vnode == old(self).vnode,
            final(self).view().len() == old(self).view().len(),
            forall|j: int| 0 <= j < old(self).view().len() && j != n ==> #[trigger] final(self).view()[j] == old(self).view()[j],
            final(self).view()[n as int].0 == old(self).view()[n as int].0,
            final(self).view()[n as int].1 == old(self).view()[n as int].1,
            final(self).view()[n as int].3 == old(self).view()[n as int].3,
            is_dir(old(self).view()[n as int]) ==> r == Err::<usize, UNIXERROR>(UNIXERROR::EISDIR)
                && final(self).view() == old(self).view(),
            old(self).view()[n as int].0 == NodeKind::TmpFile ==> write_post(
                old(self).view()[n as int].2,
                old(self).view()[n as int].4,
                final(self).view()[n as int].2,
                final(self).view()[n as int].4,
                buf@,
                offset as nat,
                count as nat,
                r,
            ),
            old(self).view()[n as int].0 == NodeKind::DevFile ==> final(self).view() == old(self).view(),
            old(self).view()[n as int].0 == NodeKind::DevFile ==> r == old(self).dev_write_answer(n as int, buf@, offset, count),
            old(self).view()[n as int].0 == NodeKind::DevFile && !old(self).view()[n as int].3 ==> r == Err::<usize, UNIXERROR>(UNIXERROR::ENOENT),
    {
        let ghost v0 = self.view();
        let r = match &mut self.nodes[n] {
            VNode::TmpFile(f) => f.write(buf, offset, count),
            VNode::DevFile(f) => f.write(buf, offset, count),
            _ => Err(UNIXERROR::EISDIR),
        };
        proof {
            assert(self.view().len() == v0.len());
            assert forall|j: int| 0 <= j < v0.len() && j != n implies #[trigger] self.view()[j] == v0[j] by {}
            if v0[n as int].0 != NodeKind::TmpFile {
                assert(self.view() =~= v0);
            }
        }
        r
    }

    /// The attributes of node `n`.
    pub fn get_attrib(&self, n: usize) -> (r: Result<vnodeattributetable, UNIXERROR>)
        requires
            n < self.view().len(),
        ensures
            r == Ok::<vnodeattributetable, UNIXERROR>(self.view()[n as int].4),
    {
        match &self.nodes[n] {
            VNode::TmpDir(d) => Ok(d.attrib),
            VNode::TmpFile(f) => Ok(f.attrib),
            VNode::DevDir(d) => Ok(d.attrib),
            VNode::DevFile(f) => Ok(f.attrib),
        }
    }

    /// Creates a device file `name` in the device directory `n` and gives
    /// it the operations `ops`.
    pub fn dev_create(&mut self, n: usize, name: &str, ops: Box<dyn devfsops>) -> (r: Result<usize, UNIXERROR>)
        requires
            old(self).wf(),
            n < old(self).view().len(),
            old(self).view()[n as int].0 == NodeKind::DevDir,
            old(self).view().len() < usize::MAX,
        ensures
            final(self).wf(),
            final(self).vnode == old(self).vnode,
            r == Ok::<usize, UNIXERROR>(old(self).view().len() as usize),
            final(self).view() == add_child(
                old(self).view(),
                n as int,
                name@,
                (NodeKind::DevFile, Map::empty(), Seq::empty(), true, vnodeattributetable { size: 0, TYPE: VNODEFLAGS::FILE }),
            ),
            final(self).nodes@[old(self).view().len() as int] matches VNode::DevFile(f) && f.ops == Some(ops),
            forall|buf: Seq<u8>, offset: usize, count: usize|
                #[trigger] final(self).dev_read_answer(old(self).view().len() as int, buf, offset, count)
                    == ops.read_answer(buf, offset, count),
            forall|buf: Seq<u8>, offset: usize, count: usize|
                #[trigger] final(self).dev_write_answer(old(self).view().len() as int, buf, offset, count)
                    == ops.write_answer(buf, offset, count),
    {
        let o = self.create(n, name);
        assert(self.nodes@.len() == self.view().len());
        let idx = self.nodes.len() - 1;
        assert(self.view() == add_child(old(self).view(), n as int, name@, empty_dev_file()));
        assert(self.view()[idx as int] == empty_dev_file());
        assert(self.view()[idx as int] == node_view(self.nodes@[idx as int]));
        assert(node_view(self.nodes@[idx as int]).0 == NodeKind::DevFile);
        let ghost v1 = self.view();
        let ghost g = ops;
        let so = Some(ops);
        assert(so == Some(g));
        let file = devfsfile { ops: so, attrib: vnodeattributetable { size: 0, TYPE: VNODEFLAGS::FILE } };
        assert(file.ops == Some(g));
        let ghost gfile = file;
        self.nodes[idx] = VNode::DevFile(file);
        assert(self.nodes@[idx as int] == VNode::DevFile(gfile));
        proof {
            let x = (NodeKind::DevFile, Map::<Seq<char>, usize>::empty(), Seq::<u8>::empty(), true, vnodeattributetable { size: 0, TYPE: VNODEFLAGS::FILE });
            assert(self.view()[idx as int] == node_view(self.nodes@[idx as int]));
            assert(self.view()[idx as int] == x);
            assert forall|j: int| 0 <= j < self.view().len() && j != idx implies #[trigger] self.view()[j] == v1[j] by {
                assert(self.view()[j] == node_view(self.nodes@[j]));
            }
            assert(self.view() =~= add_child(old(self).view(), n as int, name@, x));
        }
        o
    }

    /// Creates the null device `name` in the device directory `n`, as
    /// `dev_create` does with the null driver's operations: the new node
    /// reads nothing and leaves the buffer, and takes every byte written.
    pub fn dev_create_null(&mut self, n: usize, name: &str) -> (r: usize)
        requires
            old(self).wf(),
            n < old(self).view().len(),
            old(self).view()[n as int].0 == NodeKind::DevDir,
            old(self).view().len() < usize::MAX,
        ensures
            final(self).wf(),
            final(self).vnode == old(self).vnode,
            r == old(self).view().len(),
            final(self).view() == add_child(
                old(self).view(),
                n as int,
                name@,
                (NodeKind::DevFile, Map::empty(), Seq::empty(), true, vnodeattributetable { size: 0, TYPE: VNODEFLAGS::FILE }),
            ),
            forall|buf: Seq<u8>, offset: usize, count: usize|
                #[trigger] final(self).dev_read_answer(r as int, buf, offset, count) == (Ok::<usize, UNIXERROR>(0), buf),
            forall|buf: Seq<u8>, offset: usize, count: usize|
                #[trigger] final(self).dev_write_answer(r as int, buf, offset, count) == Ok::<usize, UNIXERROR>(count),
    {
        let nd: Box<dyn devfsops> = Box::new(NullDriver);
        let ghost g = nd;
        assert(forall|buf: Seq<u8>, offset: usize, count: usize| #[trigger] g.read_answer(buf, offset, count) == (
        Ok::<usize, UNIXERROR>(0), buf));
        assert(forall|buf: Seq<u8>, offset: usize, count: usize| #[trigger] g.write_answer(buf, offset, count)
            == Ok::<usize, UNIXERROR>(count));
        let _ = self.create(n, name);
        assert(self.nodes@.len() == self.view().len());
        let idx = self.nodes.len() - 1;
        assert(self.view() == add_child(old(self).view(), n as int, name@, empty_dev_file()));
        assert(self.view()[idx as int] == empty_dev_file());
        assert(self.view()[idx as int] == node_view(self.nodes@[idx as int]));
        let ghost v1 = self.view();
        let so = Some(nd);
        assert(so == Some(g));
        let file = devfsfile { ops: so, attrib: vnodeattributetable { size: 0, TYPE: VNODEFLAGS::FILE } };
        assert(file.ops == Some(g));
        let ghost gfile = file;
        self.nodes[idx] = VNode::DevFile(file);
        assert(self.nodes@[idx as int] == VNode::DevFile(gfile));
        proof {
            let x = (NodeKind::DevFile, Map::<Seq<char>, usize>::empty(), Seq::<u8>::empty(), true, vnodeattributetable { size: 0, TYPE: VNODEFLAGS::FILE });
            assert(self.view()[idx as int] == node_view(self.nodes@[idx as int]));
            assert(self.view()[idx as int] == x);
            assert forall|j: int| 0 <= j < self.view().len() && j != idx implies #[trigger] self.view()[j] == v1[j] by {
                assert(self.view()[j] == node_view(self.nodes@[j]));
            }
            assert(self.view() =~= add_child(old(self).view(), n as int, name@, x));
        }
        idx
    }

    /// Looks `child` up in node `n`.
    pub fn lookup(&self, n: usize, child: &str) -> (r: Result<usize, UNIXERROR>)
        requires
            n < self.view().len(),
        ensures
            r == lookup_spec(self.view(), n as int, child@),
    {
        match &self.nodes[n] {
            VNode::TmpDir(d) => {
                if d.files.contains_key(child) {
                    if let Some(i) = d.files.get(child) {
                        return Ok(i);
                    }
                }
                Err(UNIXERROR::EISDIR)
            },
            VNode::DevDir(d) => {
                if d.files.contains_key(child) {
                    if let Some(i) = d.files.get(child) {
                        return Ok(i);
                    }
                }
                Err(UNIXERROR::EISDIR)
            },
            _ => Err(UNIXERROR::EISFILE),
        }
    }
}

} // verus!
