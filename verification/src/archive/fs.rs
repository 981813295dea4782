//! An archive like a filesystem: reading by its tree, and writing by a builder.

use vstd::prelude::*;

use crate::archive::codec::{self, inflate};
use crate::archive::index::{self, ArchiveIndex, DataLocator, EntryKind, Item, Method, Tree};
use crate::archive::mem::{mem_handle, MemHandle};
use crate::archive::names::{self, join_parts};
use crate::block::{self, MemoryBackend};
use crate::entry::{
    self, DeviceKind, DirEntry, FileAttrs, FileMeta, Listed, MutationCapability, SetAttrs,
};
use crate::error::{self, Error, Result};
use crate::num::{self, div_ceil};
use crate::path::{self, split_path};
use crate::text::{copy_text, same_text, to_chars};

verus! {

/// What an archive format needs to be written: each call appends to the device,
/// and the last one ends the archive.
pub trait ArchiveBuilder: Sized + View {
    /// The builder, the device and the outcome after a file was added.
    spec fn file_added(
        b: Self::V,
        img: Seq<u8>,
        path: Seq<char>,
        data: Seq<u8>,
        meta: FileMeta,
    ) -> (Self::V, Seq<u8>, Result<()>);

    /// The same after a directory was added.
    spec fn dir_added(b: Self::V, img: Seq<u8>, path: Seq<char>, meta: FileMeta) -> (
        Self::V,
        Seq<u8>,
        Result<()>,
    );

    /// The same after a symbolic link was added.
    spec fn link_added(
        b: Self::V,
        img: Seq<u8>,
        path: Seq<char>,
        target: Seq<char>,
        meta: FileMeta,
    ) -> (Self::V, Seq<u8>, Result<()>);

    /// The same after a device node was added.
    spec fn device_added(
        b: Self::V,
        img: Seq<u8>,
        path: Seq<char>,
        kind: DeviceKind,
        major: u32,
        minor: u32,
        meta: FileMeta,
    ) -> (Self::V, Seq<u8>, Result<()>);

    /// The same after the archive was ended.
    spec fn finished(b: Self::V, img: Seq<u8>) -> (Self::V, Seq<u8>, Result<()>);

    /// Number of bytes written so far.
    spec fn written(b: Self::V) -> u64;

    /// Add a file with the contents `data`.
    fn add_file(&mut self, dev: &mut MemoryBackend, path: &str, data: &[u8], meta: FileMeta) -> (r:
        Result<()>)
        ensures
            (final(self)@, final(dev)@, r) == Self::file_added(
                old(self)@,
                old(dev)@,
                path@,
                data@,
                meta,
            ),
    ;

    /// Add a directory.
    fn add_dir(&mut self, dev: &mut MemoryBackend, path: &str, meta: FileMeta) -> (r: Result<()>)
        ensures
            (final(self)@, final(dev)@, r) == Self::dir_added(
                old(self)@,
                old(dev)@,
                path@,
                meta,
            ),
    ;

    /// Add a symbolic link.
    fn add_symlink(
        &mut self,
        dev: &mut MemoryBackend,
        path: &str,
        target: &str,
        meta: FileMeta,
    ) -> (r: Result<()>)
        ensures
            (final(self)@, final(dev)@, r) == Self::link_added(
                old(self)@,
                old(dev)@,
                path@,
                target@,
                meta,
            ),
    ;

    /// Add a device node.
    fn add_device(
        &mut self,
        dev: &mut MemoryBackend,
        path: &str,
        kind: DeviceKind,
        major: u32,
        minor: u32,
        meta: FileMeta,
    ) -> (r: Result<()>)
        ensures
            (final(self)@, final(dev)@, r) == Self::device_added(
                old(self)@,
                old(dev)@,
                path@,
                kind,
                major,
                minor,
                meta,
            ),
    ;

    /// End the archive.
    fn finish(&mut self, dev: &mut MemoryBackend) -> (r: Result<()>)
        ensures
            (final(self)@, final(dev)@, r) == Self::finished(old(self)@, old(dev)@),
    ;

    /// Number of bytes written so far.
    fn position(&self) -> (n: u64)
        ensures
            n == Self::written(self@),
    ;
}

/// An archive as a mathematical value; `B` is the view of its builder.
pub struct Arch<B> {
    pub tree: Tree,
    pub builder: Option<B>,
    pub cap: MutationCapability,
    /// Whether the format is known, but cannot be read.
    pub scaffold: bool,
    pub flushed: Option<u64>,
}

/// An archive like a filesystem.
pub struct ArchiveFs<B: ArchiveBuilder> {
    pub index: ArchiveIndex,
    pub builder: Option<B>,
    pub cap: MutationCapability,
    pub scaffold: bool,
    /// Length of the archive, once it was ended.
    pub flushed_len: Option<u64>,
}

/// The view of an optional builder.
pub open spec fn builder_view<B: ArchiveBuilder>(b: Option<B>) -> Option<B::V> {
    match b {
        Some(x) => Some(x@),
        None => None,
    }
}

impl<B: ArchiveBuilder> View for ArchiveFs<B> {
    type V = Arch<B::V>;

    open spec fn view(&self) -> Arch<B::V> {
        Arch {
            tree: self.index@,
            builder: builder_view(self.builder),
            cap: self.cap,
            scaffold: self.scaffold,
            flushed: self.flushed_len,
        }
    }
}

/// Attributes of a directory with nothing told of it.
pub open spec fn dir_attrs_of(inode: u32) -> FileAttrs {
    FileAttrs {
        kind: entry::EntryKind::Dir,
        mode: 0x1ed,
        uid: 0,
        gid: 0,
        size: 0,
        blocks: 0,
        nlink: 2,
        atime: 0,
        mtime: 0,
        ctime: 0,
        rdev: 0,
        inode,
    }
}

/// Attributes of the entry `e`, the `i`-th of its archive.
pub open spec fn item_attrs(e: Item, i: int) -> FileAttrs {
    let t = (e.mtime % 0x1_0000_0000) as u32;
    FileAttrs {
        kind: e.kind.shown(),
        mode: e.mode,
        uid: e.uid,
        gid: e.gid,
        size: e.size(),
        blocks: num::div_up(e.size() as int, 512) as u64,
        nlink: 1,
        atime: t,
        mtime: t,
        ctime: t,
        rdev: 0,
        inode: ((i + 1) % 0x1_0000_0000) as u32,
    }
}

/// Attributes of what a listing shows as `l`.
pub open spec fn shown_attrs(l: Listed) -> FileAttrs {
    FileAttrs {
        kind: l.kind,
        mode: if l.kind == entry::EntryKind::Dir {
            0x1ed
        } else if l.kind == entry::EntryKind::Symlink {
            0x1ff
        } else {
            0x1a4
        },
        uid: 0,
        gid: 0,
        size: l.size,
        blocks: num::div_up(l.size as int, 512) as u64,
        nlink: 1,
        atime: 0,
        mtime: 0,
        ctime: 0,
        rdev: 0,
        inode: l.inode,
    }
}

/// Index of the first entry of a listing from `i` on that is named `n`.
pub open spec fn named(l: Seq<Listed>, n: Seq<char>, i: int) -> Option<int>
    decreases l.len() - i,
{
    if i >= l.len() {
        None
    } else if l[i].name == n {
        Some(i)
    } else {
        named(l, n, i + 1)
    }
}

/// Whether the path `p` means the root directory.
pub open spec fn means_root(p: Seq<char>) -> bool {
    p.len() == 0 || (p[0] == '/' && path::parts(p).len() == 0)
}

/// What the bytes `b` hold, encoded by `m`; streaming codecs are not decoded.
pub open spec fn decoded(m: Method, b: Seq<u8>) -> Result<Seq<u8>> {
    match m {
        Method::Stored => Ok(b),
        Method::Deflate => match codec::inflated(Seq::empty(), b) {
            Some(v) => Ok(v),
            None => Err(Error::InvalidImage),
        },
        _ => Err(Error::Unsupported),
    }
}

/// The bytes that `d` locates on the device `img`.
pub open spec fn located(img: Seq<u8>, d: DataLocator) -> Result<Seq<u8>> {
    match d.method {
        Method::Stored | Method::Deflate => match block::read(
            img,
            d.offset as int,
            d.compressed_len as int,
        ) {
            Ok(b) => decoded(d.method, b),
            Err(e) => Err(e),
        },
        _ => Err(Error::Unsupported),
    }
}

impl Tree {
    /// Where the bytes of the regular file at the path `p` are.
    pub open spec fn locator(self, p: Seq<char>) -> Result<DataLocator> {
        match self.found(p) {
            None => Err(Error::InvalidArgument),
            Some(e) => match (e.kind, e.data) {
                (EntryKind::Regular, Some(d)) => Ok(d),
                (EntryKind::HardLink, Some(d)) => Ok(d),
                _ => Err(Error::InvalidArgument),
            },
        }
    }

    /// Attributes of what is at the path `p`.
    pub open spec fn attrs(self, p: Seq<char>) -> Result<FileAttrs> {
        let ps = path::parts(p);
        if means_root(p) {
            Ok(dir_attrs_of(1))
        } else {
            match index::item_at(self.items, p, 0) {
                Some(i) => Ok(item_attrs(self.items[i], i)),
                None => if index::dir_at(self.dirs, p, 0) is Some {
                    Ok(dir_attrs_of(0))
                } else if ps.len() == 0 || names::is_up(ps.last()) {
                    Err(Error::InvalidArgument)
                } else {
                    match self.listed(names::joined(ps.drop_last())) {
                        Err(e) => Err(e),
                        Ok(l) => match named(l, ps.last(), 0) {
                            None => Err(Error::InvalidArgument),
                            Some(i) => Ok(shown_attrs(l[i])),
                        },
                    }
                },
            }
        }
    }
}

impl<B> Arch<B> {
    /// An archive that is read by the tree `t`.
    pub open spec fn of_tree(t: Tree) -> Arch<B> {
        Arch {
            tree: t,
            builder: None,
            cap: MutationCapability::Streaming,
            scaffold: false,
            flushed: None,
        }
    }

    /// An archive that is written by the builder `b`.
    pub open spec fn of_builder(b: B) -> Arch<B> {
        Arch {
            tree: Tree::empty(),
            builder: Some(b),
            cap: MutationCapability::Streaming,
            scaffold: false,
            flushed: None,
        }
    }

    /// An archive of a format that is known, but cannot be read.
    pub open spec fn unreadable() -> Arch<B> {
        Arch {
            tree: Tree::empty(),
            builder: None,
            cap: MutationCapability::Immutable,
            scaffold: true,
            flushed: None,
        }
    }

    /// Attributes of what is at the path `p`.
    pub open spec fn attributes(self, p: Seq<char>) -> Result<FileAttrs> {
        if self.scaffold && !means_root(p) {
            Err(Error::Unsupported)
        } else {
            self.tree.attrs(p)
        }
    }

    /// The error of an operation that would change the archive.
    pub open spec fn refusal(self) -> Error {
        if self.cap == MutationCapability::Immutable {
            Error::Immutable
        } else {
            Error::Streaming
        }
    }

    /// The entries of the directory at the path `p`.
    pub open spec fn listing(self, p: Seq<char>) -> Result<Seq<Listed>> {
        if self.scaffold {
            Err(Error::Unsupported)
        } else {
            self.tree.listed(p)
        }
    }

    /// The bytes of the regular file at the path `p`.
    pub open spec fn contents(self, img: Seq<u8>, p: Seq<char>) -> Result<Seq<u8>> {
        if self.scaffold {
            Err(Error::Unsupported)
        } else {
            match self.tree.locator(p) {
                Err(e) => Err(e),
                Ok(d) => located(img, d),
            }
        }
    }

    /// The target of the symbolic link at the path `p`.
    pub open spec fn target(self, p: Seq<char>) -> Result<Seq<char>> {
        if self.scaffold {
            Err(Error::Unsupported)
        } else {
            match self.tree.found(p) {
                None => Err(Error::InvalidArgument),
                Some(e) => match (e.kind, e.link) {
                    (EntryKind::Symlink, Some(t)) => Ok(t),
                    _ => Err(Error::InvalidArgument),
                },
            }
        }
    }

    /// With the builder `b`.
    pub open spec fn with_builder(self, b: B) -> Arch<B> {
        Arch { builder: Some(b), ..self }
    }
}

/// The archive `a`, the device and the outcome after an entry was added to an archive
/// that is being written; nothing is added to any other.
pub open spec fn grown<W>(
    a: Arch<W>,
    img: Seq<u8>,
    step: spec_fn(W) -> (W, Seq<u8>, Result<()>),
) -> (Arch<W>, Seq<u8>, Result<()>) {
    match a.builder {
        None => (a, img, Err(a.refusal())),
        Some(b) => {
            let (b2, img2, r) = step(b);
            (a.with_builder(b2), img2, r)
        },
    }
}

/// The same after a file was added.
pub open spec fn file_created<B: ArchiveBuilder>(
    a: Arch<B::V>,
    img: Seq<u8>,
    p: Seq<char>,
    data: Seq<u8>,
    meta: FileMeta,
) -> (Arch<B::V>, Seq<u8>, Result<()>) {
    grown(a, img, |b: B::V| B::file_added(b, img, p, data, meta))
}

/// The same after a directory was added.
pub open spec fn dir_created<B: ArchiveBuilder>(
    a: Arch<B::V>,
    img: Seq<u8>,
    p: Seq<char>,
    meta: FileMeta,
) -> (Arch<B::V>, Seq<u8>, Result<()>) {
    grown(a, img, |b: B::V| B::dir_added(b, img, p, meta))
}

/// The same after a symbolic link was added.
pub open spec fn link_created<B: ArchiveBuilder>(
    a: Arch<B::V>,
    img: Seq<u8>,
    p: Seq<char>,
    target: Seq<char>,
    meta: FileMeta,
) -> (Arch<B::V>, Seq<u8>, Result<()>) {
    grown(a, img, |b: B::V| B::link_added(b, img, p, target, meta))
}

/// The same after a device node was added.
pub open spec fn device_created<B: ArchiveBuilder>(
    a: Arch<B::V>,
    img: Seq<u8>,
    p: Seq<char>,
    kind: DeviceKind,
    major: u32,
    minor: u32,
    meta: FileMeta,
) -> (Arch<B::V>, Seq<u8>, Result<()>) {
    grown(a, img, |b: B::V| B::device_added(b, img, p, kind, major, minor, meta))
}

/// The archive `a`, the device and the outcome after the archive was ended; one that
/// is not being written stays as it is.
pub open spec fn ended<B: ArchiveBuilder>(a: Arch<B::V>, img: Seq<u8>) -> (
    Arch<B::V>,
    Seq<u8>,
    Result<()>,
) {
    match a.builder {
        None => (a, img, Ok(())),
        Some(b) => {
            let (b2, img2, r) = B::finished(b, img);
            let n = if r is Ok {
                Some(B::written(b2))
            } else {
                a.flushed
            };
            (Arch { builder: Some(b2), flushed: n, ..a }, img2, r)
        },
    }
}

fn dir_attrs(inode: u32) -> (r: FileAttrs)
    ensures
        r == dir_attrs_of(inode),
{
    FileAttrs {
        kind: entry::EntryKind::Dir,
        mode: 0x1ed,
        uid: 0,
        gid: 0,
        size: 0,
        blocks: 0,
        nlink: 2,
        atime: 0,
        mtime: 0,
        ctime: 0,
        rdev: 0,
        inode,
    }
}

/// Read the bytes that `d` locates.
pub fn read_located(dev: &MemoryBackend, d: &DataLocator) -> (r: Result<Vec<u8>>)
    ensures
        error::view_of(r) == located(dev@, *d),
{
    match d.method {
        Method::Stored | Method::Deflate => {
            let b = read_range(dev, d.offset, d.compressed_len)?;
            decode(d.method, b)
        },
        _ => Err(Error::Unsupported),
    }
}

/// What the bytes `b` hold, encoded by `m`.
pub fn decode(m: Method, b: Vec<u8>) -> (r: Result<Vec<u8>>)
    ensures
        error::view_of(r) == decoded(m, b@),
{
    match m {
        Method::Stored => Ok(b),
        Method::Deflate => {
            let none: Vec<u8> = Vec::new();
            match inflate(none.as_slice(), b.as_slice()) {
                Some(v) => Ok(v),
                None => Err(Error::InvalidImage),
            }
        },
        _ => Err(Error::Unsupported),
    }
}

/// Read `len` bytes at `off`.
pub fn read_range(dev: &MemoryBackend, off: u64, len: u64) -> (r: Result<Vec<u8>>)
    ensures
        error::view_of(r) == block::read(dev@, off as int, len as int),
{
    let held: usize = dev.as_slice().len();
    if len > held as u64 {
        return Err(Error::OutOfBounds);
    }
    dev.read_at(off, len as usize)
}

impl<B: ArchiveBuilder> ArchiveFs<B> {
    /// An archive that was scanned.
    pub fn from_index(index: ArchiveIndex) -> (r: Self)
        ensures
            r.index == index,
            r@ == Arch::<B::V>::of_tree(index@),
    {
        ArchiveFs {
            index,
            builder: None,
            cap: MutationCapability::Streaming,
            scaffold: false,
            flushed_len: None,
        }
    }

    /// A new archive of the format `kind`.
    pub fn writer(kind: &'static str, builder: B) -> (r: Self)
        ensures
            r.index.kind == kind,
            r@ == Arch::of_builder(builder@),
    {
        ArchiveFs {
            index: ArchiveIndex::new(kind),
            builder: Some(builder),
            cap: MutationCapability::Streaming,
            scaffold: false,
            flushed_len: None,
        }
    }

    /// An archive of a format that is known, but cannot be read.
    pub fn scaffold(kind: &'static str) -> (r: Self)
        ensures
            r.index.kind == kind,
            r@ == Arch::<B::V>::unreadable(),
    {
        ArchiveFs {
            index: ArchiveIndex::new(kind),
            builder: None,
            cap: MutationCapability::Immutable,
            scaffold: true,
            flushed_len: None,
        }
    }

    /// Short name of the format.
    pub fn kind(&self) -> (r: &'static str)
        ensures
            r == self.index.kind,
    {
        self.index.kind
    }

    fn guard_scaffold(&self) -> (r: Result<()>)
        ensures
            r == if self@.scaffold {
                Err::<(), Error>(Error::Unsupported)
            } else {
                Ok(())
            },
    {
        if self.scaffold {
            return Err(Error::Unsupported);
        }
        Ok(())
    }

    /// The error of an operation that would change the archive.
    pub fn write_refused(&self) -> (e: Error)
        ensures
            e == self@.refusal(),
    {
        match self.cap {
            MutationCapability::Immutable => Error::Immutable,
            _ => Error::Streaming,
        }
    }

    /// Add a file to an archive that is being written.
    pub fn create_file(
        &mut self,
        dev: &mut MemoryBackend,
        path: &str,
        data: &[u8],
        meta: FileMeta,
    ) -> (r: Result<()>)
        ensures
            (final(self)@, final(dev)@, r) == file_created::<B>(
                old(self)@,
                old(dev)@,
                path@,
                data@,
                meta,
            ),
    {
        match &mut self.builder {
            Some(b) => b.add_file(dev, path, data, meta),
            None => Err(self.write_refused()),
        }
    }

    /// Add a directory to an archive that is being written.
    pub fn create_dir(&mut self, dev: &mut MemoryBackend, path: &str, meta: FileMeta) -> (r: Result<
        (),
    >)
        ensures
            (final(self)@, final(dev)@, r) == dir_created::<B>(
                old(self)@,
                old(dev)@,
                path@,
                meta,
            ),
    {
        match &mut self.builder {
            Some(b) => b.add_dir(dev, path, meta),
            None => Err(self.write_refused()),
        }
    }

    /// Add a symbolic link to an archive that is being written.
    pub fn create_symlink(
        &mut self,
        dev: &mut MemoryBackend,
        path: &str,
        target: &str,
        meta: FileMeta,
    ) -> (r: Result<()>)
        ensures
            (final(self)@, final(dev)@, r) == link_created::<B>(
                old(self)@,
                old(dev)@,
                path@,
                target@,
                meta,
            ),
    {
        match &mut self.builder {
            Some(b) => b.add_symlink(dev, path, target, meta),
            None => Err(self.write_refused()),
        }
    }

    /// Add a device node to an archive that is being written.
    pub fn create_device(
        &mut self,
        dev: &mut MemoryBackend,
        path: &str,
        kind: DeviceKind,
        major: u32,
        minor: u32,
        meta: FileMeta,
    ) -> (r: Result<()>)
        ensures
            (final(self)@, final(dev)@, r) == device_created::<B>(
                old(self)@,
                old(dev)@,
                path@,
                kind,
                major,
                minor,
                meta,
            ),
    {
        match &mut self.builder {
            Some(b) => b.add_device(dev, path, kind, major, minor, meta),
            None => Err(self.write_refused()),
        }
    }

    /// Nothing can be removed.
    pub fn remove(&mut self, path: &str) -> (r: Result<()>)
        ensures
            r == Err::<(), Error>(old(self)@.refusal()),
            final(self)@ == old(self)@,
    {
        Err(self.write_refused())
    }

    /// No attributes can be changed.
    pub fn set_attrs(&mut self, path: &str, attrs: SetAttrs) -> (r: Result<()>)
        ensures
            r == Err::<(), Error>(old(self)@.refusal()),
            final(self)@ == old(self)@,
    {
        Err(self.write_refused())
    }

    /// The entries of the directory at `path`.
    pub fn list(&self, path: &str) -> (r: Result<Vec<DirEntry>>)
        ensures
            self@.listing(path@) == match r {
                Ok(v) => Ok::<Seq<Listed>, Error>(entry::listing(v@)),
                Err(e) => Err(e),
            },
    {
        self.guard_scaffold()?;
        self.index.list(path)
    }

    fn locate(&self, path: &str) -> (r: Result<DataLocator>)
        ensures
            r == if self@.scaffold {
                Err(Error::Unsupported)
            } else {
                self@.tree.locator(path@)
            },
    {
        self.guard_scaffold()?;
        match self.index.lookup(path) {
            None => Err(Error::InvalidArgument),
            Some(e) => match (e.kind, e.data) {
                (EntryKind::Regular, Some(d)) => Ok(d),
                (EntryKind::HardLink, Some(d)) => Ok(d),
                _ => Err(Error::InvalidArgument),
            },
        }
    }

    /// The bytes of the regular file at `path`.
    pub fn read_file(&self, dev: &MemoryBackend, path: &str) -> (r: Result<Vec<u8>>)
        ensures
            error::view_of(r) == self@.contents(dev@, path@),
    {
        let d = self.locate(path)?;
        read_located(dev, &d)
    }

    /// A seekable reader over the regular file at `path`.
    pub fn open_file_ro(&self, dev: &MemoryBackend, path: &str) -> (r: Result<MemHandle>)
        ensures
            match r {
                Ok(h) => h.pos == 0 && self@.contents(dev@, path@) == Ok::<Seq<u8>, Error>(
                    h.bytes@,
                ),
                Err(e) => self@.contents(dev@, path@) == Err::<Seq<u8>, Error>(e),
            },
    {
        let b = self.read_file(dev, path)?;
        Ok(mem_handle(b))
    }

    /// End an archive that is being written.
    pub fn flush(&mut self, dev: &mut MemoryBackend) -> (r: Result<()>)
        ensures
            (final(self)@, final(dev)@, r) == ended::<B>(old(self)@, old(dev)@),
    {
        match &mut self.builder {
            Some(b) => {
                b.finish(dev)?;
                let n: u64 = b.position();
                self.flushed_len = Some(n);
                Ok(())
            },
            None => Ok(()),
        }
    }

    /// Entries are written as they are added.
    pub fn streams_immediately(&self) -> (r: bool)
        ensures
            r,
    {
        true
    }

    /// Length of the archive, once it was ended.
    pub fn image_len(&self) -> (r: Option<u64>)
        ensures
            r == self@.flushed,
    {
        self.flushed_len
    }

    /// What can be changed.
    pub fn mutation_capability(&self) -> (r: MutationCapability)
        ensures
            r == self@.cap,
    {
        self.cap
    }

    /// The target of the symbolic link at `path`.
    pub fn read_symlink(&self, path: &str) -> (r: Result<String>)
        ensures
            error::view_of(r) == self@.target(path@),
    {
        self.guard_scaffold()?;
        match self.index.lookup(path) {
            None => Err(Error::InvalidArgument),
            Some(e) => match (e.kind, &e.link_target) {
                (EntryKind::Symlink, Some(t)) => Ok(copy_text(t.as_str())),
                _ => Err(Error::InvalidArgument),
            },
        }
    }

    /// Attributes of what is at `path`. The root has some even where nothing
    /// can be read.
    pub fn getattr(&self, path: &str) -> (r: Result<FileAttrs>)
        ensures
            r == self@.attributes(path@),
    {
        let ps = split_path(path);
        let c = to_chars(path);
        if c.len() == 0 || (c[0] == '/' && ps.len() == 0) {
            return Ok(dir_attrs(1));
        }
        self.guard_scaffold()?;
        if let Some(i) = self.index.find_entry(path) {
            let e = &self.index.entries[i];
            let size: u64 = e.logical_size();
            let t: u32 = (e.mtime % 0x1_0000_0000) as u32;
            return Ok(
                FileAttrs {
                    kind: e.kind.to_fs(),
                    mode: e.mode,
                    uid: e.uid,
                    gid: e.gid,
                    size,
                    blocks: div_ceil(size, 512),
                    nlink: 1,
                    atime: t,
                    mtime: t,
                    ctime: t,
                    rdev: 0,
                    inode: ((i as u64 % 0x1_0000_0000 + 1) % 0x1_0000_0000) as u32,
                },
            );
        }
        if self.index.find_dir(path).is_some() {
            return Ok(dir_attrs(0));
        }
        self.default_getattr(&ps)
    }

    /// Attributes of the path with the components `ps`, as the listing of its
    /// directory shows them.
    fn default_getattr(&self, ps: &Vec<String>) -> (r: Result<FileAttrs>)
        requires
            !self@.scaffold,
        ensures
            ({
                let cs = path::texts(ps@);
                r == if cs.len() == 0 || names::is_up(cs.last()) {
                    Err(Error::InvalidArgument)
                } else {
                    match self@.tree.listed(names::joined(cs.drop_last())) {
                        Err(e) => Err(e),
                        Ok(l) => match named(l, cs.last(), 0) {
                            None => Err(Error::InvalidArgument),
                            Some(i) => Ok(shown_attrs(l[i])),
                        },
                    }
                }
            }),
    {
        let ghost cs = path::texts(ps@);
        if ps.len() == 0 {
            return Err(Error::InvalidArgument);
        }
        let last: usize = ps.len() - 1;
        let leaf = to_chars(ps[last].as_str());
        let up = leaf.len() == 2 && leaf[0] == '.' && leaf[1] == '.';
        proof {
            assert(cs.last() == leaf@);
            if up {
                assert(leaf@ =~= seq!['.', '.']);
            } else if names::is_up(leaf@) {
                assert(leaf@[0] == '.' && leaf@[1] == '.');
            }
            assert(cs.take(last as int) =~= cs.drop_last());
        }
        if up {
            return Err(Error::InvalidArgument);
        }
        let parent = join_parts(ps, last);
        let v = self.list(parent.as_str())?;
        let ghost l = entry::listing(v@);
        let mut i: usize = 0;
        while i < v.len()
            invariant
                i <= v@.len(),
                l == entry::listing(v@),
                last < ps@.len(),
                cs == path::texts(ps@),
                cs.last() == ps@[last as int]@,
                cs.len() > 0,
                !names::is_up(cs.last()),
                self@.tree.listed(names::joined(cs.drop_last())) == Ok::<Seq<Listed>, Error>(l),
                named(l, cs.last(), 0) == named(l, cs.last(), i as int),
            decreases v@.len() - i,
        {
            if same_text(v[i].name.as_str(), ps[last].as_str()) {
                let e = &v[i];
                proof {
                    assert(l[i as int] == v@[i as int]@);
                }
                let mode: u16 = match e.kind {
                    entry::EntryKind::Dir => 0x1ed,
                    entry::EntryKind::Symlink => 0x1ff,
                    _ => 0x1a4,
                };
                return Ok(
                    FileAttrs {
                        kind: e.kind,
                        mode,
                        uid: 0,
                        gid: 0,
                        size: e.size,
                        blocks: div_ceil(e.size, 512),
                        nlink: 1,
                        atime: 0,
                        mtime: 0,
                        ctime: 0,
                        rdev: 0,
                        inode: e.inode,
                    },
                );
            }
            i = i + 1;
        }
        Err(Error::InvalidArgument)
    }
}

/// The builder of formats that are only read: it refuses everything.
#[derive(Clone, Copy, Debug, PartialEq, Eq, Structural)]
pub struct NoBuilder;

impl View for NoBuilder {
    type V = ();

    open spec fn view(&self) -> () {
        ()
    }
}

impl ArchiveBuilder for NoBuilder {
    open spec fn file_added(
        b: (),
        img: Seq<u8>,
        path: Seq<char>,
        data: Seq<u8>,
        meta: FileMeta,
    ) -> ((), Seq<u8>, Result<()>) {
        ((), img, Err(Error::Unsupported))
    }

    open spec fn dir_added(b: (), img: Seq<u8>, path: Seq<char>, meta: FileMeta) -> (
        (),
        Seq<u8>,
        Result<()>,
    ) {
        ((), img, Err(Error::Unsupported))
    }

    open spec fn link_added(
        b: (),
        img: Seq<u8>,
        path: Seq<char>,
        target: Seq<char>,
        meta: FileMeta,
    ) -> ((), Seq<u8>, Result<()>) {
        ((), img, Err(Error::Unsupported))
    }

    open spec fn device_added(
        b: (),
        img: Seq<u8>,
        path: Seq<char>,
        kind: DeviceKind,
        major: u32,
        minor: u32,
        meta: FileMeta,
    ) -> ((), Seq<u8>, Result<()>) {
        ((), img, Err(Error::Unsupported))
    }

    open spec fn finished(b: (), img: Seq<u8>) -> ((), Seq<u8>, Result<()>) {
        ((), img, Err(Error::Unsupported))
    }

    open spec fn written(b: ()) -> u64 {
        0
    }

    fn add_file(&mut self, dev: &mut MemoryBackend, path: &str, data: &[u8], meta: FileMeta) -> (r:
        Result<()>) {
        Err(Error::Unsupported)
    }

    fn add_dir(&mut self, dev: &mut MemoryBackend, path: &str, meta: FileMeta) -> (r: Result<()>) {
        Err(Error::Unsupported)
    }

    fn add_symlink(
        &mut self,
        dev: &mut MemoryBackend,
        path: &str,
        target: &str,
        meta: FileMeta,
    ) -> (r: Result<()>) {
        Err(Error::Unsupported)
    }

    fn add_device(
        &mut self,
        dev: &mut MemoryBackend,
        path: &str,
        kind: DeviceKind,
        major: u32,
        minor: u32,
        meta: FileMeta,
    ) -> (r: Result<()>) {
        Err(Error::Unsupported)
    }

    fn finish(&mut self, dev: &mut MemoryBackend) -> (r: Result<()>) {
        Err(Error::Unsupported)
    }

    fn position(&self) -> (n: u64) {
        0
    }
}

/// An archive that was scanned to the tree `t`, of a format that is only read.
pub open spec fn read_only(t: Tree) -> Arch<()> {
    Arch {
        tree: t,
        builder: None,
        cap: MutationCapability::Streaming,
        scaffold: false,
        flushed: None,
    }
}

} // verus!
