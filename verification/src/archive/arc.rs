//! SEA ARC archives. Stored members are read; the other ones are listed.

use vstd::prelude::*;
use vstd::slice::slice_subrange;

use crate::archive::fs::{self, read_range, ArchiveFs, NoBuilder};
use crate::archive::index::{self, ArchiveEntry, ArchiveIndex, DataLocator, Method, Tree};
use crate::archive::names::{self, from_latin1, is_root, normalise_path, to_slashes};
use crate::archive::table::PathTable;
use crate::block::{self, MemoryBackend};
use crate::bytes::{self, find_nul, get_u32};
use crate::error::{self, Error, Result};

pub use crate::archive::mem::{mem_handle, MemHandle};

verus! {

/// Where the bytes of a stored member are.
#[derive(Clone, Copy, Debug, PartialEq, Eq, Structural)]
pub struct ArcFile {
    pub data_offset: u64,
    pub size: u64,
}

/// What is known of a member.
#[derive(Clone, Copy, Debug, PartialEq, Eq, Structural)]
pub enum Entry {
    /// Its bytes are stored as they are.
    Stored(ArcFile),
    /// It is packed by a method that has no decoder.
    Unsupported(u8),
}

impl View for Entry {
    type V = Entry;

    open spec fn view(&self) -> Entry {
        *self
    }
}

/// What a path leads to.
#[derive(Clone, Copy, Debug, PartialEq, Eq, Structural)]
pub enum Lookup {
    Stored(ArcFile),
    Unsupported(u8),
    NotRegular,
}

/// A scanned archive, as a mathematical value.
#[verifier::ext_equal]
pub struct Scanned {
    pub tree: Tree,
    pub files: Map<Seq<char>, Entry>,
}

/// A scanned archive.
pub struct Parsed {
    pub index: ArchiveIndex,
    pub files: PathTable<Entry>,
}

impl View for Parsed {
    type V = Scanned;

    open spec fn view(&self) -> Scanned {
        Scanned { tree: self.index@, files: self.files@ }
    }
}

/// Most members that are scanned.
pub const MAX_MEMBERS: u32 = 0x10_0000;

/// A member: its path, its method, where its bytes are, its length, and where
/// the next member is.
pub struct Record {
    pub path: Seq<char>,
    pub method: u8,
    pub at: int,
    pub packed: u64,
    pub unpacked: u64,
    pub next: int,
}

/// The member at `pos`. The oldest method has a shorter header, without a length
/// of the file.
pub open spec fn record(img: Seq<u8>, pos: int) -> Option<Record> {
    let left = img.len() - pos;
    let method = img[pos + 1];
    let packed = bytes::get32(img, pos + 15) as u64;
    let head = if method == 1 {
        25int
    } else {
        29int
    };
    if left < 25 || img[pos] != 0x1a || method == 0 || left < head || pos + head + packed
        > img.len() {
        None
    } else {
        Some(
            Record {
                path: names::normal(
                    names::slashed(names::latin1(bytes::until_nul(img.subrange(pos + 2, pos + 15)))),
                ),
                method,
                at: pos + head,
                packed,
                unpacked: if method == 1 {
                    packed
                } else {
                    bytes::get32(img, pos + 25) as u64
                },
                next: pos + head + packed,
            },
        )
    }
}

/// What is known of the member `r`.
pub open spec fn entry_of(r: Record) -> Entry {
    if r.method == 1 || r.method == 2 {
        Entry::Stored(ArcFile { data_offset: r.at as u64, size: r.packed })
    } else {
        Entry::Unsupported(r.method)
    }
}

impl Scanned {
    /// With the member `r`; one without a name is left out.
    pub open spec fn with(self, r: Record) -> Scanned {
        if r.path == seq!['/'] {
            self
        } else {
            Scanned {
                tree: self.tree.pushed(
                    index::plain_file(
                        r.path,
                        DataLocator {
                            offset: r.at as u64,
                            compressed_len: r.packed,
                            uncompressed_len: r.unpacked,
                            method: Method::Stored,
                        },
                    ),
                ),
                files: self.files.insert(r.path, entry_of(r)),
            }
        }
    }
}

/// `s` with the members from `pos` on, at most `n` of them, up to the first
/// place where there is none.
pub open spec fn scan_from(img: Seq<u8>, pos: int, n: int, s: Scanned) -> Scanned
    decreases n,
{
    if n <= 0 {
        s
    } else {
        match record(img, pos) {
            None => s,
            Some(r) => scan_from(img, r.next, n - 1, s.with(r)),
        }
    }
}

/// The archive on the device `img`.
pub open spec fn scanned(img: Seq<u8>) -> Scanned {
    scan_from(
        img,
        0,
        MAX_MEMBERS as int,
        Scanned { tree: Tree::empty(), files: Map::empty() },
    )
}

/// Scan the archive on `dev`.
pub fn scan(dev: &MemoryBackend) -> (r: Result<Parsed>)
    ensures
        r matches Ok(p) && p@ == scanned(dev@) && p.files.wf(),
{
    let b = dev.as_slice();
    let len: usize = b.len();
    let mut index = ArchiveIndex::new("arc");
    let mut files: PathTable<Entry> = PathTable::new();
    let mut pos: usize = 0;
    let mut left: u32 = MAX_MEMBERS;
    while left > 0 && len - pos >= 25
        invariant_except_break
            scanned(dev@) == scan_from(
                dev@,
                pos as int,
                left as int,
                Scanned { tree: index@, files: files@ },
            ),
        invariant
            b@ == dev@,
            len == b@.len(),
            pos <= len,
            files.wf(),
        ensures
            scanned(dev@) == (Scanned { tree: index@, files: files@ }),
        decreases left,
    {
        let method: u8 = b[pos + 1];
        if b[pos] != 0x1a || method == 0 {
            break;
        }
        let packed: u32 = get_u32(b, pos + 15);
        let head: usize = if method == 1 {
            25
        } else {
            29
        };
        if len - pos < head || packed as u64 > (len - pos - head) as u64 {
            break;
        }
        let ghost rv = record(dev@, pos as int).unwrap();
        let at: usize = pos + head;
        let unpacked: u32 = if method == 1 {
            packed
        } else {
            get_u32(b, pos + 25)
        };
        let field = slice_subrange(b, pos + 2, pos + 15);
        let k: usize = find_nul(field);
        let name = from_latin1(slice_subrange(field, 0, k));
        let slashed = to_slashes(name.as_str());
        let path = normalise_path(slashed.as_str());
        proof {
            assert(path@ == rv.path);
        }
        if !is_root(path.as_str()) {
            let e = if method == 1 || method == 2 {
                Entry::Stored(ArcFile { data_offset: at as u64, size: packed as u64 })
            } else {
                Entry::Unsupported(method)
            };
            files.insert(path.as_str(), e);
            index.push(
                ArchiveEntry::regular(
                    path,
                    DataLocator {
                        offset: at as u64,
                        compressed_len: packed as u64,
                        uncompressed_len: unpacked as u64,
                        method: Method::Stored,
                    },
                ),
            );
        }
        pos = at + packed as usize;
        left = left - 1;
    }
    Ok(Parsed { index, files })
}

/// Read the bytes of a stored member.
pub fn open_stored(dev: &MemoryBackend, f: &ArcFile) -> (r: Result<Vec<u8>>)
    ensures
        error::view_of(r) == block::read(dev@, f.data_offset as int, f.size as int),
{
    read_range(dev, f.data_offset, f.size)
}

/// A SEA ARC archive.
pub struct ArcFs {
    pub fs: ArchiveFs<NoBuilder>,
    pub files: PathTable<Entry>,
}

impl ArcFs {
    /// The bytes of the file at the path `p`.
    pub open spec fn contents(self, img: Seq<u8>, p: Seq<char>) -> Result<Seq<u8>> {
        let q = names::normal(p);
        if !self.files@.dom().contains(q) {
            self.fs@.contents(img, p)
        } else {
            match self.files@[q] {
                Entry::Stored(f) => block::read(img, f.data_offset as int, f.size as int),
                Entry::Unsupported(_) => Err(Error::Unsupported),
            }
        }
    }

    /// Scan the archive on `dev`.
    pub fn open(dev: &MemoryBackend) -> (r: Result<Self>)
        ensures
            r matches Ok(a) && a.fs@ == fs::read_only(scanned(dev@).tree) && a.files@ == scanned(
                dev@,
            ).files,
    {
        let p = scan(dev)?;
        Ok(ArcFs { fs: ArchiveFs::from_index(p.index), files: p.files })
    }

    /// Archives cannot be created.
    pub fn format(dev: &MemoryBackend) -> (r: Result<Self>)
        ensures
            r matches Err(e) && e == Error::Unsupported,
    {
        Err(Error::Unsupported)
    }

    /// What `path` leads to.
    pub fn lookup(&self, path: &str) -> (r: Lookup)
        ensures
            r == if !self.files@.dom().contains(names::normal(path@)) {
                Lookup::NotRegular
            } else {
                match self.files@[names::normal(path@)] {
                    Entry::Stored(f) => Lookup::Stored(f),
                    Entry::Unsupported(m) => Lookup::Unsupported(m),
                }
            },
    {
        let key = normalise_path(path);
        match self.files.get(key.as_str()) {
            Some(Entry::Stored(f)) => Lookup::Stored(*f),
            Some(Entry::Unsupported(m)) => Lookup::Unsupported(*m),
            None => Lookup::NotRegular,
        }
    }

    /// The bytes of the file at `path`.
    pub fn read_file(&self, dev: &MemoryBackend, path: &str) -> (r: Result<Vec<u8>>)
        ensures
            error::view_of(r) == self.contents(dev@, path@),
    {
        match self.lookup(path) {
            Lookup::Stored(f) => open_stored(dev, &f),
            Lookup::Unsupported(_) => Err(Error::Unsupported),
            Lookup::NotRegular => self.fs.read_file(dev, path),
        }
    }

    /// A seekable reader over the file at `path`.
    pub fn open_file_ro(&self, dev: &MemoryBackend, path: &str) -> (r: Result<MemHandle>)
        ensures
            match r {
                Ok(h) => h.pos == 0 && self.contents(dev@, path@) == Ok::<Seq<u8>, Error>(h.bytes@),
                Err(e) => self.contents(dev@, path@) == Err::<Seq<u8>, Error>(e),
            },
    {
        let b = self.read_file(dev, path)?;
        Ok(mem_handle(b))
    }
}

} // verus!
