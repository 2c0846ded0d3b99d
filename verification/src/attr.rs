//! Synthesized metadata records for directory and symlink nodes.
//!
//! No real backing file exists for a node, so sizes and timestamps are fixed
//! constants; only the entry kind varies with the node's variant.
use vstd::prelude::*;

verus! {

/// The kind of a node: a directory or a symbolic link.
#[derive(Clone, Copy, Debug, PartialEq, Eq, Structural)]
pub enum FileType {
    Directory,
    Symlink,
}

/// A synthesized metadata record. Timestamps are seconds since the epoch and
/// are always zero; the size is always zero; permissions, link count and
/// ownership are fixed defaults.
#[derive(Clone, Copy, Debug, PartialEq, Eq, Structural)]
pub struct FileAttr {
    pub ino: u64,
    pub size: u64,
    pub atime: u64,
    pub mtime: u64,
    pub ctime: u64,
    pub crtime: u64,
    pub kind: FileType,
    pub perm: u16,
    pub nlink: u32,
    pub uid: u32,
    pub gid: u32,
}

/// How long (in seconds) a caller's cache may reuse a returned record without
/// re-querying; safe because the table never changes after construction.
pub const TTL_SECS: u64 = 10;

/// The fixed owner user id reported for every node.
pub const OWNER_UID: u32 = 501;

/// The fixed owner group id reported for every node.
pub const OWNER_GID: u32 = 20;

/// The metadata record synthesized for a node of kind `kind` with identifier `ino`.
pub open spec fn spec_attr(ino: u64, kind: FileType) -> FileAttr {
    FileAttr {
        ino,
        size: 0,
        atime: 0,
        mtime: 0,
        ctime: 0,
        crtime: 0,
        kind,
        perm: 0o755,
        nlink: 2,
        uid: OWNER_UID,
        gid: OWNER_GID,
    }
}

/// Synthesize the metadata record for a node of kind `kind` with identifier `ino`.
pub fn make_attr(ino: u64, kind: FileType) -> (r: FileAttr)
    ensures
        r == spec_attr(ino, kind),
{
    FileAttr {
        ino,
        size: 0,
        atime: 0,
        mtime: 0,
        ctime: 0,
        crtime: 0,
        kind,
        perm: 0o755,
        nlink: 2,
        uid: OWNER_UID,
        gid: OWNER_GID,
    }
}

} // verus!
