//! Node attributes: the fixed per-node metadata that attribute queries return.
//! Only `size` and `kind` vary between nodes; permission bits are a hardcoded
//! constant and every timestamp, owner and device field is zero.

use vstd::prelude::*;

verus! {

/// A point in time as whole seconds and nanoseconds. Every timestamp in the
/// model is zero (the model has no real clock); the only other value used is
/// the one-second freshness window handed back with attribute replies.
#[derive(Clone, Copy, Debug, PartialEq, Eq, Structural)]
pub struct Timespec {
    pub sec: i64,
    pub nsec: i32,
}

/// The kind of a node: the model is exactly two levels deep, so a node is
/// either a synthetic directory or a regular file.
#[derive(Clone, Copy, Debug, PartialEq, Eq, Structural)]
pub enum FileType {
    RegularFile,
    Directory,
}

/// The attributes of a node, as an attribute query reports them.
#[derive(Clone, Copy, Debug, PartialEq, Eq, Structural)]
pub struct FileAttr {
    pub ino: u64,
    pub size: u64,
    pub blocks: u64,
    pub atime: Timespec,
    pub mtime: Timespec,
    pub ctime: Timespec,
    pub crtime: Timespec,
    pub kind: FileType,
    pub perm: u16,
    pub nlink: u32,
    pub uid: u32,
    pub gid: u32,
    pub rdev: u32,
    pub flags: u32,
}

/// The fixed permission bits every node carries (rwxr-xr-x).
pub const PERM_BITS: u16 = 0o755;

/// The zero timestamp used for every node.
pub open spec fn zero_time() -> Timespec {
    Timespec { sec: 0, nsec: 0 }
}

/// The attributes a node with the given identifier, size and kind carries:
/// everything but `ino`, `size` and `kind` is a hardcoded constant.
pub open spec fn attr_spec(inode: u64, size: u64, is_dir: bool) -> FileAttr {
    FileAttr {
        ino: inode,
        size: size,
        blocks: 0,
        atime: zero_time(),
        mtime: zero_time(),
        ctime: zero_time(),
        crtime: zero_time(),
        kind: if is_dir {
            FileType::Directory
        } else {
            FileType::RegularFile
        },
        perm: PERM_BITS,
        nlink: 0,
        uid: 0,
        gid: 0,
        rdev: 0,
        flags: 0,
    }
}

/// Builds the attributes of a node: zeroed timestamps and counters, fixed
/// permission bits, and the given identifier, size and kind.
pub fn make_attr(inode: u64, size: u64, is_dir: bool) -> (r: FileAttr)
    ensures
        r == attr_spec(inode, size, is_dir),
{
    let ts = Timespec { sec: 0, nsec: 0 };
    FileAttr {
        ino: inode,
        size: size,
        blocks: 0,
        atime: ts,
        mtime: ts,
        ctime: ts,
        crtime: ts,
        kind: if is_dir {
            FileType::Directory
        } else {
            FileType::RegularFile
        },
        perm: PERM_BITS,
        nlink: 0,
        uid: 0,
        gid: 0,
        rdev: 0,
        flags: 0,
    }
}

} // verus!
