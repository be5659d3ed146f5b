pub mod devfs;
pub mod names;
pub mod posix;
pub mod tmpfs;
pub mod ustar;
pub mod vfs;

use vstd::prelude::*;

verus! {

/// What kind of node a vnode is.
#[derive(Clone, Copy, PartialEq, Eq, Structural, Debug)]
pub enum VNODEFLAGS {
    NONE,
    DIR,
    SYMLINK,
    FILE,
}

/// Where a seek offset counts from.
#[derive(Clone, Copy, PartialEq, Eq, Structural, Debug)]
pub enum WHENCE {
    CURRENT,
    SET,
    END,
}

/// The errors of the file-system calls.
#[derive(Clone, Copy, PartialEq, Eq, Structural, Debug)]
pub enum UNIXERROR {
    EINVAL,
    EPERM,
    ENOENT,
    EISDIR,
    EISFILE,
}

/// The attributes of a vnode: its size in bytes and its kind.
#[derive(Clone, Copy, PartialEq, Eq, Structural, Debug)]
pub struct vnodeattributetable {
    pub size: usize,
    pub TYPE: VNODEFLAGS,
}

} // verus!
