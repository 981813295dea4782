//! What the filesystems of this crate tell about their entries.

use vstd::prelude::*;

verus! {

/// Kind of an entry.
#[derive(Clone, Copy, Debug, PartialEq, Eq, Structural)]
pub enum EntryKind {
    Regular,
    Dir,
    Symlink,
    Char,
    Block,
    Fifo,
    Socket,
    Unknown,
}

/// An entry of a directory listing.
#[derive(Debug)]
pub struct DirEntry {
    pub name: String,
    pub inode: u32,
    pub kind: EntryKind,
    pub size: u64,
}

/// An entry of a directory listing as a mathematical value.
pub struct Listed {
    pub name: Seq<char>,
    pub inode: u32,
    pub kind: EntryKind,
    pub size: u64,
}

impl View for DirEntry {
    type V = Listed;

    open spec fn view(&self) -> Listed {
        Listed { name: self.name@, inode: self.inode, kind: self.kind, size: self.size }
    }
}

/// The views of a directory listing.
pub open spec fn listing(v: Seq<DirEntry>) -> Seq<Listed> {
    Seq::new(v.len(), |i: int| v[i]@)
}

/// Attributes of a file.
#[derive(Clone, Copy, Debug, PartialEq, Eq, Structural)]
pub struct FileAttrs {
    pub kind: EntryKind,
    pub mode: u16,
    pub uid: u32,
    pub gid: u32,
    pub size: u64,
    pub blocks: u64,
    pub nlink: u32,
    pub atime: u32,
    pub mtime: u32,
    pub ctime: u32,
    pub rdev: u32,
    pub inode: u32,
}

/// What a new entry is created with.
#[derive(Clone, Copy, Debug, PartialEq, Eq, Structural)]
pub struct FileMeta {
    pub mode: u16,
    pub uid: u32,
    pub gid: u32,
    /// Seconds since 1970.
    pub mtime: u32,
}

impl FileMeta {
    /// The permission bits `mode` and zero for the rest.
    pub fn with_mode(mode: u16) -> (r: Self)
        ensures
            r == (FileMeta { mode, uid: 0, gid: 0, mtime: 0 }),
    {
        FileMeta { mode, uid: 0, gid: 0, mtime: 0 }
    }
}

/// Changes to the attributes of a file; `None` leaves one as it is. Times are
/// seconds since 1970.
#[derive(Clone, Copy, Debug, PartialEq, Eq, Structural)]
pub struct SetAttrs {
    pub mode: Option<u16>,
    pub uid: Option<u32>,
    pub gid: Option<u32>,
    pub mtime: Option<u32>,
    pub ctime: Option<u32>,
    pub atime: Option<u32>,
}

/// What can be changed on a filesystem.
#[derive(Clone, Copy, Debug, PartialEq, Eq, Structural)]
pub enum MutationCapability {
    /// Nothing.
    Immutable,
    /// Entries can be added one after another, and none be read back before
    /// the end.
    Streaming,
    /// Whole files can be added.
    WholeFileOnly,
    /// Files can be changed in place.
    Mutable,
}

/// How a file is opened for writing.
#[derive(Clone, Copy, Debug, PartialEq, Eq, Structural)]
pub struct OpenFlags {
    pub create: bool,
    pub truncate: bool,
    pub append: bool,
}

/// Where a reader is moved to.
#[derive(Clone, Copy, Debug, PartialEq, Eq, Structural)]
pub enum SeekFrom {
    Start(u64),
    Current(i64),
    End(i64),
}

/// Kind of a device node.
#[derive(Clone, Copy, Debug, PartialEq, Eq, Structural)]
pub enum DeviceKind {
    Char,
    Block,
    Fifo,
    Socket,
}

/// The position that `from` names in a file of `size` bytes whose reader stands
/// at `cursor`; it may lie outside the file.
pub open spec fn seek_target(from: SeekFrom, cursor: u64, size: u64) -> int {
    match from {
        SeekFrom::Start(n) => n as int,
        SeekFrom::Current(d) => cursor + d,
        SeekFrom::End(d) => size + d,
    }
}

} // verus!
