//! Amiga LZX archives: several files may share one packed run, and each is then
//! a slice of what the run holds.

use vstd::prelude::*;
use vstd::slice::slice_subrange;

use crate::archive::codec::{self, decode_amiga_lzx, deliver};
use crate::archive::fs::{self, read_range, ArchiveFs, NoBuilder};
use crate::archive::index::{self, ArchiveEntry, ArchiveIndex, DataLocator, Method, Tree};
use crate::archive::mem::{self, bytes_needed, slice_stream};
use crate::archive::names::{self, drop_drive, from_latin1, is_root, normalise_path, path_of_stored};
use crate::archive::table::PathTable;
use crate::block::{self, MemoryBackend};
use crate::bytes::{self, copy_range, get_u32, le_u32, push_all};
use crate::error::{self, Error, Result};
use crate::text::copy_text;

pub use crate::archive::mem::{mem_handle, skip_exact, LimitReader, MemHandle};

verus! {

/// A packed run, which holds one or more files.
#[derive(Clone, Copy, Debug, PartialEq, Eq, Structural)]
pub struct Group {
    pub data_offset: u64,
    pub pack_size: u64,
    pub pack_mode: u8,
    pub total_uncomp: u64,
}

/// Where a file is in what its run holds.
#[derive(Clone, Copy, Debug, PartialEq, Eq, Structural)]
pub struct FileSlice {
    pub group: usize,
    pub uoff: u64,
    pub len: u64,
}

impl View for FileSlice {
    type V = FileSlice;

    open spec fn view(&self) -> FileSlice {
        *self
    }
}

/// What a path leads to.
#[derive(Debug)]
pub enum Lookup {
    Slice(FileSlice, Group),
    Unextractable(String),
    NotRegular,
}

/// A file whose run has not come yet, as a mathematical value.
#[verifier::ext_equal]
pub struct Waiting {
    pub path: Seq<char>,
    pub uoff: u64,
    pub len: u64,
}

/// A file whose run has not come yet.
struct Pending {
    path: String,
    uoff: u64,
    len: u64,
}

impl View for Pending {
    type V = Waiting;

    closed spec fn view(&self) -> Waiting {
        Waiting { path: self.path@, uoff: self.uoff, len: self.len }
    }
}

/// The views of files.
closed spec fn waiting(s: Seq<Pending>) -> Seq<Waiting> {
    s.map_values(|p: Pending| p@)
}

/// A scan under way: the tree, the runs, the files, those that wait for their
/// run, and what they amount to.
#[verifier::ext_equal]
pub struct Scanned {
    pub tree: Tree,
    pub groups: Seq<Group>,
    pub files: Map<Seq<char>, Option<FileSlice>>,
    pub pending: Seq<Waiting>,
    pub merged: int,
}

/// A scanned archive.
pub struct Parsed {
    pub index: ArchiveIndex,
    pub groups: Vec<Group>,
    pub files: PathTable<Option<FileSlice>>,
}

/// `files` with the first `n` of the files `w`, which lie in the run `g`, or
/// cannot be read.
pub open spec fn assigned(
    files: Map<Seq<char>, Option<FileSlice>>,
    w: Seq<Waiting>,
    n: int,
    g: Option<usize>,
) -> Map<Seq<char>, Option<FileSlice>>
    decreases n,
{
    if n <= 0 {
        files
    } else {
        assigned(files, w, n - 1, g).insert(
            w[n - 1].path,
            match g {
                Some(i) => Some(FileSlice { group: i, uoff: w[n - 1].uoff, len: w[n - 1].len }),
                None => None,
            },
        )
    }
}

/// The path of a stored name: without a volume, downward.
pub open spec fn name_path(b: Seq<u8>) -> Seq<char> {
    names::stored_path(names::without_drive(names::latin1(b)))
}

/// Where the bytes behind the header at `pos`, its name and its comment start.
pub open spec fn body(img: Seq<u8>, pos: int) -> int {
    pos + 31 + img[pos + 30] + img[pos + 14]
}

impl Scanned {
    /// With the file of the header at `pos`, which waits for its run.
    pub open spec fn noted(self, img: Seq<u8>, pos: int) -> Scanned {
        let unpack = bytes::get32(img, pos + 2) as u64;
        let path = name_path(img.subrange(pos + 31, pos + 31 + img[pos + 30]));
        let s = Scanned { merged: self.merged + unpack, ..self };
        if path == seq!['/'] {
            s
        } else {
            Scanned {
                tree: self.tree.pushed(
                    index::plain_file(
                        path,
                        DataLocator {
                            offset: 0,
                            compressed_len: 0,
                            uncompressed_len: unpack,
                            method: Method::Stored,
                        },
                    ),
                ),
                pending: self.pending.push(
                    Waiting { path, uoff: self.merged as u64, len: unpack },
                ),
                ..s
            }
        }
    }

    /// With the run of the header at `pos`, if it has one: the files that wait
    /// lie in it.
    pub open spec fn closed_by(self, img: Seq<u8>, pos: int) -> Scanned {
        let pack = bytes::get32(img, pos + 6) as u64;
        let mode = img[pos + 11];
        if pack == 0 {
            self
        } else {
            Scanned {
                groups: self.groups.push(
                    Group {
                        data_offset: body(img, pos) as u64,
                        pack_size: pack,
                        pack_mode: mode,
                        total_uncomp: self.merged as u64,
                    },
                ),
                files: assigned(
                    self.files,
                    self.pending,
                    self.pending.len() as int,
                    if mode == 0 || mode == 2 {
                        Some(self.groups.len() as usize)
                    } else {
                        None
                    },
                ),
                pending: Seq::empty(),
                merged: 0,
                ..self
            }
        }
    }

    /// At the end of the archive: files without a run cannot be read.
    pub open spec fn ended(self) -> Scanned {
        Scanned {
            files: assigned(self.files, self.pending, self.pending.len() as int, None),
            pending: Seq::empty(),
            ..self
        }
    }
}

/// `s` with the headers from `pos` on.
pub open spec fn scan_from(img: Seq<u8>, pos: int, s: Scanned) -> Result<Scanned>
    decreases
            (if pos < img.len() {
                img.len() - pos
            } else {
                0
            }),
{
    if pos + 31 > img.len() {
        Ok(s.ended())
    } else if pos + 31 + img[pos + 30] > img.len() {
        Err(Error::OutOfBounds)
    } else if s.merged + bytes::get32(img, pos + 2) > u64::MAX || body(img, pos) + bytes::get32(
        img,
        pos + 6,
    ) > u64::MAX {
        Err(Error::InvalidImage)
    } else {
        scan_from(
            img,
            body(img, pos) + bytes::get32(img, pos + 6),
            s.noted(img, pos).closed_by(img, pos),
        )
    }
}

/// The archive on the device `img`.
pub open spec fn scanned(img: Seq<u8>) -> Result<Scanned> {
    if img.len() < 10 {
        Err(Error::OutOfBounds)
    } else if img.subrange(0, 3) != seq![0x4cu8, 0x5au8, 0x58u8] {
        Err(Error::InvalidImage)
    } else {
        scan_from(
            img,
            10,
            Scanned {
                tree: Tree::empty(),
                groups: Seq::empty(),
                files: Map::empty(),
                pending: Seq::empty(),
                merged: 0,
            },
        )
    }
}

/// Every file that can be read lies in one of `n` runs.
pub open spec fn in_groups(files: Map<Seq<char>, Option<FileSlice>>, n: int) -> bool {
    forall|p: Seq<char>| #[trigger]
        files.dom().contains(p) ==> (files[p] matches Some(s) ==> s.group < n)
}

proof fn lemma_assigned(
    files: Map<Seq<char>, Option<FileSlice>>,
    w: Seq<Waiting>,
    n: int,
    g: Option<usize>,
    k: int,
    m: int,
)
    requires
        in_groups(files, k),
        k <= m,
        g matches Some(i) ==> i < m,
    ensures
        in_groups(assigned(files, w, n, g), m),
    decreases n,
{
    if n > 0 {
        lemma_assigned(files, w, n - 1, g, k, m);
    }
}

fn assign(files: &mut PathTable<Option<FileSlice>>, pending: &Vec<Pending>, g: Option<usize>)
    requires
        old(files).wf(),
    ensures
        final(files).wf(),
        final(files)@ == assigned(old(files)@, waiting(pending@), pending@.len() as int, g),
{
    let ghost old_files = files@;
    let ghost w = waiting(pending@);
    let mut i: usize = 0;
    while i < pending.len()
        invariant
            i <= pending@.len(),
            w == waiting(pending@),
            files.wf(),
            files@ == assigned(old_files, w, i as int, g),
        decreases pending@.len() - i,
    {
        let p = &pending[i];
        let s = match g {
            Some(k) => Some(FileSlice { group: k, uoff: p.uoff, len: p.len }),
            None => None,
        };
        proof {
            assert(w[i as int] == p@);
        }
        files.insert(p.path.as_str(), s);
        i = i + 1;
    }
}

/// Scan the archive on `dev`.
pub fn scan(dev: &MemoryBackend) -> (r: Result<Parsed>)
    ensures
        match r {
            Ok(p) => {
                &&& scanned(dev@) matches Ok(s)
                &&& p.index@ == s.tree
                &&& p.groups@ == s.groups
                &&& p.files@ == s.files
                &&& p.files.wf()
                &&& in_groups(p.files@, p.groups@.len() as int)
            },
            Err(e) => scanned(dev@) == Err::<Scanned, Error>(e),
        },
{
    let b = dev.as_slice();
    let len: usize = b.len();
    if len < 10 {
        return Err(Error::OutOfBounds);
    }
    proof {
        assert(b@.subrange(0, 3) == seq![0x4cu8, 0x5au8, 0x58u8] <==> (b@[0] == 0x4c && b@[1]
            == 0x5a && b@[2] == 0x58)) by {
            let m = b@.subrange(0, 3);
            let s = seq![0x4cu8, 0x5au8, 0x58u8];
            assert(m[0] == b@[0] && m[1] == b@[1] && m[2] == b@[2]);
            if b@[0] == 0x4c && b@[1] == 0x5a && b@[2] == 0x58 {
                assert(m =~= s);
            }
        }
    }
    if b[0] != 0x4c || b[1] != 0x5a || b[2] != 0x58 {
        return Err(Error::InvalidImage);
    }
    let mut index = ArchiveIndex::new("lzx");
    let mut groups: Vec<Group> = Vec::new();
    let mut files: PathTable<Option<FileSlice>> = PathTable::new();
    let mut pending: Vec<Pending> = Vec::new();
    let mut merged: u64 = 0;
    let mut pos: u64 = 10;
    proof {
        assert(waiting(pending@) =~= Seq::empty());
    }
    while len as u64 >= 31 && pos <= len as u64 - 31
        invariant
            b@ == dev@,
            len == b@.len(),
            10 <= pos,
            files.wf(),
            in_groups(files@, groups@.len() as int),
            scanned(dev@) == scan_from(
                dev@,
                pos as int,
                Scanned {
                    tree: index@,
                    groups: groups@,
                    files: files@,
                    pending: waiting(pending@),
                    merged: merged as int,
                },
            ),
        decreases
                (if pos < len {
                    len - pos
                } else {
                    0
                }),
    {
        let at: usize = pos as usize;
        let ghost s0 = Scanned {
            tree: index@,
            groups: groups@,
            files: files@,
            pending: waiting(pending@),
            merged: merged as int,
        };
        let unpack: u64 = get_u32(b, at + 2) as u64;
        let pack: u64 = get_u32(b, at + 6) as u64;
        let mode: u8 = b[at + 11];
        let name_len: usize = b[at + 30] as usize;
        if name_len > len - at - 31 {
            return Err(Error::OutOfBounds);
        }
        if unpack > u64::MAX - merged {
            return Err(Error::InvalidImage);
        }
        let comment: u64 = b[at + 14] as u64;
        let field = slice_subrange(b, at + 31, at + 31 + name_len);
        let raw = from_latin1(field);
        let name = drop_drive(raw.as_str());
        let path = path_of_stored(name.as_str());
        let start: u64 = (at + 31 + name_len) as u64;
        if start > u64::MAX - comment || pack > u64::MAX - comment - start {
            return Err(Error::InvalidImage);
        }
        let start: u64 = start + comment;
        let ghost w0 = waiting(pending@);
        if !is_root(path.as_str()) {
            pending.push(Pending { path: copy_text(path.as_str()), uoff: merged, len: unpack });
            index.push(
                ArchiveEntry::regular(
                    path,
                    DataLocator {
                        offset: 0,
                        compressed_len: 0,
                        uncompressed_len: unpack,
                        method: Method::Stored,
                    },
                ),
            );
        }
        merged = merged + unpack;
        let ghost s1 = s0.noted(b@, pos as int);
        proof {
            assert(waiting(pending@) =~= s1.pending);
        }
        if pack > 0 {
            let i: usize = groups.len();
            let g = if mode == 0 || mode == 2 {
                Some(i)
            } else {
                None
            };
            proof {
                lemma_assigned(
                    files@,
                    waiting(pending@),
                    pending@.len() as int,
                    g,
                    i as int,
                    i as int + 1,
                );
            }
            assign(&mut files, &pending, g);
            groups.push(
                Group { data_offset: start, pack_size: pack, pack_mode: mode, total_uncomp: merged },
            );
            pending = Vec::new();
            merged = 0;
            proof {
                assert(waiting(pending@) =~= Seq::empty());
            }
        }
        proof {
            assert(s1.closed_by(b@, pos as int) =~= Scanned {
                tree: index@,
                groups: groups@,
                files: files@,
                pending: waiting(pending@),
                merged: merged as int,
            });
        }
        pos = start + pack;
    }
    proof {
        lemma_assigned(
            files@,
            waiting(pending@),
            pending@.len() as int,
            None,
            groups@.len() as int,
            groups@.len() as int,
        );
    }
    assign(&mut files, &pending, None);
    Ok(Parsed { index, groups, files })
}

/// The packed run of `len` bytes at `off`, as far as it lies on the device; and
/// why the rest of it cannot be read, if there is a rest.
pub open spec fn packed_run(img: Seq<u8>, off: int, len: int) -> (Seq<u8>, Option<Error>) {
    if off + len <= img.len() {
        (img.subrange(off, off + len), None)
    } else {
        (
            if off <= img.len() {
                img.subrange(off, img.len() as int)
            } else {
                Seq::empty()
            },
            Some(Error::OutOfBounds),
        )
    }
}

fn read_packed_run(dev: &MemoryBackend, off: u64, len: u64) -> (r: (Vec<u8>, Option<Error>))
    ensures
        (r.0@, r.1) == packed_run(dev@, off as int, len as int),
{
    let b = dev.as_slice();
    if off > b.len() as u64 {
        let none: Vec<u8> = Vec::new();
        proof {
            assert(none@ =~= Seq::empty());
        }
        return (none, Some(Error::OutOfBounds));
    }
    let from: usize = off as usize;
    if len > (b.len() - from) as u64 {
        return (copy_range(b, from, b.len()), Some(Error::OutOfBounds));
    }
    (copy_range(b, from, from + len as usize), None)
}

/// The first `n` bytes that the run `g` holds.
pub open spec fn group_prefix(img: Seq<u8>, g: Group, n: u64) -> Result<Seq<u8>> {
    if g.pack_mode == 0 {
        block::read(
            img,
            g.data_offset as int,
            if n < g.pack_size {
                n as int
            } else {
                g.pack_size as int
            },
        )
    } else if g.pack_mode != 2 || g.total_uncomp > u32::MAX {
        Err(Error::Unsupported)
    } else {
        let (run, fault) = packed_run(img, g.data_offset as int, g.pack_size as int);
        codec::delivered(
            codec::amiga_lzx_decoded(bytes::le32(g.total_uncomp as u32) + run, n),
            fault,
            n,
        )
    }
}

/// The first `n` bytes that the run `group` holds.
pub fn decode_group_reader(dev: &MemoryBackend, group: &Group, n: u64) -> (r: Result<Vec<u8>>)
    ensures
        error::view_of(r) == group_prefix(dev@, *group, n),
{
    if group.pack_mode == 0 {
        let want: u64 = if n < group.pack_size {
            n
        } else {
            group.pack_size
        };
        return read_range(dev, group.data_offset, want);
    }
    if group.pack_mode != 2 || group.total_uncomp > u32::MAX as u64 {
        return Err(Error::Unsupported);
    }
    let (run, fault) = read_packed_run(dev, group.data_offset, group.pack_size);
    let mut framed = le_u32(group.total_uncomp as u32);
    push_all(&mut framed, run.as_slice());
    deliver(decode_amiga_lzx(framed.as_slice(), n), fault, n)
}

/// The bytes of the slice `s` of the run `g`.
pub open spec fn slice_of(img: Seq<u8>, g: Group, s: FileSlice) -> Result<Seq<u8>> {
    match group_prefix(img, g, mem::needed(s.uoff, s.len)) {
        Err(e) => Err(e),
        Ok(b) => mem::sliced(b, s.uoff as int, s.len as int),
    }
}

/// An Amiga LZX archive.
pub struct LzxFs {
    pub fs: ArchiveFs<NoBuilder>,
    pub groups: Vec<Group>,
    pub files: PathTable<Option<FileSlice>>,
}

impl LzxFs {
    /// Every file that can be read lies in one of the runs.
    pub open spec fn wf(self) -> bool {
        in_groups(self.files@, self.groups@.len() as int)
    }

    /// The bytes of the file at the path `p`.
    pub open spec fn contents(self, img: Seq<u8>, p: Seq<char>) -> Result<Seq<u8>> {
        let q = names::normal(p);
        if !self.files@.dom().contains(q) {
            self.fs@.contents(img, p)
        } else {
            match self.files@[q] {
                Some(s) => slice_of(img, self.groups@[s.group as int], s),
                None => Err(Error::Unsupported),
            }
        }
    }

    /// Scan the archive on `dev`.
    pub fn open(dev: &MemoryBackend) -> (r: Result<Self>)
        ensures
            match r {
                Ok(a) => {
                    &&& scanned(dev@) matches Ok(s)
                    &&& a.fs@ == fs::read_only(s.tree)
                    &&& a.groups@ == s.groups
                    &&& a.files@ == s.files
                    &&& a.wf()
                },
                Err(e) => scanned(dev@) == Err::<Scanned, Error>(e),
            },
    {
        let p = scan(dev)?;
        Ok(LzxFs { fs: ArchiveFs::from_index(p.index), groups: p.groups, files: p.files })
    }

    /// Archives cannot be created.
    pub fn format(dev: &MemoryBackend) -> (r: Result<Self>)
        ensures
            r matches Err(e) && e == Error::Unsupported,
    {
        Err(Error::Unsupported)
    }

    /// What `path` leads to.
    pub fn lookup(&self, path: &str) -> (r: Lookup)
        requires
            self.wf(),
        ensures
            ({
                let q = names::normal(path@);
                if !self.files@.dom().contains(q) {
                    r is NotRegular
                } else {
                    match self.files@[q] {
                        Some(s) => r == Lookup::Slice(s, self.groups@[s.group as int]),
                        None => r matches Lookup::Unextractable(k) && k@ == q,
                    }
                }
            }),
    {
        let key = normalise_path(path);
        match self.files.get(key.as_str()) {
            Some(Some(s)) => Lookup::Slice(*s, self.groups[s.group]),
            Some(None) => Lookup::Unextractable(key),
            None => Lookup::NotRegular,
        }
    }

    /// The bytes of the file at `path`.
    pub fn read_file(&self, dev: &MemoryBackend, path: &str) -> (r: Result<Vec<u8>>)
        requires
            self.wf(),
        ensures
            error::view_of(r) == self.contents(dev@, path@),
    {
        match self.lookup(path) {
            Lookup::Slice(s, g) => {
                let b = decode_group_reader(dev, &g, bytes_needed(s.uoff, s.len))?;
                slice_stream(b.as_slice(), s.uoff, s.len)
            },
            Lookup::Unextractable(_) => Err(Error::Unsupported),
            Lookup::NotRegular => self.fs.read_file(dev, path),
        }
    }

    /// A seekable reader over the file at `path`.
    pub fn open_file_ro(&self, dev: &MemoryBackend, path: &str) -> (r: Result<MemHandle>)
        requires
            self.wf(),
        ensures
            match r {
                Ok(h) => h.pos == 0 && self.contents(dev@, path@) == Ok::<Seq<u8>, Error>(h.bytes@),
                Err(e) => self.contents(dev@, path@) == Err::<Seq<u8>, Error>(e),
            },
    {
        let b = self.read_file(dev, path)?;
        Ok(mem_handle(b))
    }
}

} // verus!
