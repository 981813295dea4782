//! LHA archives with headers of the levels 0, 1 and 2. Stored members are read;
//! packed ones are listed.

use vstd::prelude::*;
use vstd::slice::slice_subrange;

use crate::archive::fs::{self, read_range, ArchiveFs, NoBuilder};
use crate::archive::index::{self, ArchiveEntry, ArchiveIndex, DataLocator, Method, Tree};
use crate::archive::names::{self, drop_drive, from_latin1, is_root, normalise_path, path_of_stored};
use crate::archive::table::PathTable;
use crate::block::{self, MemoryBackend};
use crate::bytes::{self, copy_range, get_u16, get_u32};
use crate::error::{self, Error, Result};
use crate::text::{copy_text, from_chars, same_text};

pub use crate::archive::mem::{mem_handle, MemHandle};

verus! {

/// Where the bytes of a stored member are.
#[derive(Clone, Copy, Debug, PartialEq, Eq, Structural)]
pub struct LhaFile {
    pub data_offset: u64,
    pub size: u64,
}

/// What is known of a member, as a mathematical value.
pub enum Known {
    Stored(LhaFile),
    Unsupported(Seq<char>),
}

/// What is known of a member.
#[derive(Debug)]
pub enum Entry {
    /// Its bytes are stored as they are.
    Stored(LhaFile),
    /// It is packed by a method that has no decoder, given by its tag.
    Unsupported(String),
}

impl View for Entry {
    type V = Known;

    open spec fn view(&self) -> Known {
        match self {
            Entry::Stored(f) => Known::Stored(*f),
            Entry::Unsupported(t) => Known::Unsupported(t@),
        }
    }
}

/// What a path leads to.
#[derive(Debug)]
pub enum Lookup {
    Stored(LhaFile),
    Unsupported(String),
    NotRegular,
}

/// A scanned archive, as a mathematical value.
#[verifier::ext_equal]
pub struct Scanned {
    pub tree: Tree,
    pub files: Map<Seq<char>, Known>,
}

/// A scanned archive.
pub struct Parsed {
    pub index: ArchiveIndex,
    pub files: PathTable<Entry>,
}

impl View for Parsed {
    type V = Scanned;

    open spec fn view(&self) -> Scanned {
        Scanned { tree: self.index@, files: self.files@ }
    }
}

/// Most members that are scanned.
pub const MAX_MEMBERS: u32 = 0x10_0000;

/// Most extended headers of one member.
pub const MAX_EXTENDED: u32 = 4096;

// ---- extended headers ----

/// What a chain of extended headers tells: its length, the name and the
/// directory.
#[verifier::ext_equal]
pub struct Ext {
    pub sum: int,
    pub name: Option<Seq<u8>>,
    pub dir: Option<Seq<u8>>,
}

/// The same, read.
struct ExtInfo {
    sum: u64,
    name: Option<Vec<u8>>,
    dir: Option<Vec<u8>>,
}

/// The view of optional bytes.
pub open spec fn opt_bytes(b: Option<Vec<u8>>) -> Option<Seq<u8>> {
    match b {
        Some(v) => Some(v@),
        None => None,
    }
}

/// What the chain from `cur` on tells, whose first header has `size` bytes, when
/// `e` was told before it; at most `n` headers are taken. A header holds its
/// kind, its data, and the size of the next header.
pub open spec fn chain(img: Seq<u8>, cur: int, size: int, n: int, e: Ext) -> Result<Ext>
    decreases n,
{
    if size == 0 {
        Ok(e)
    } else if n <= 0 || size < 3 || cur + size > img.len() {
        Err(Error::InvalidImage)
    } else {
        let data = img.subrange(cur + 1, cur + size - 2);
        let e2 = Ext {
            sum: e.sum + size,
            name: if img[cur] == 1 {
                Some(data)
            } else {
                e.name
            },
            dir: if img[cur] == 2 {
                Some(data)
            } else {
                e.dir
            },
        };
        chain(img, cur + size, bytes::get16(img, cur + size - 2) as int, n - 1, e2)
    }
}

/// What the chain from `cur` on tells, whose first header has `size` bytes.
pub open spec fn extended(img: Seq<u8>, cur: int, size: int) -> Result<Ext> {
    chain(img, cur, size, MAX_EXTENDED as int, Ext { sum: 0, name: None, dir: None })
}

/// A chain takes up bytes of the device.
proof fn lemma_chain(img: Seq<u8>, cur: int, size: int, n: int, e: Ext)
    requires
        0 <= cur <= img.len(),
        0 <= size,
    ensures
        chain(img, cur, size, n, e) matches Ok(x) ==> e.sum <= x.sum && cur + (x.sum - e.sum)
            <= img.len(),
    decreases n,
{
    if size > 0 && n > 0 && size >= 3 && cur + size <= img.len() {
        let data = img.subrange(cur + 1, cur + size - 2);
        let e2 = Ext {
            sum: e.sum + size,
            name: if img[cur] == 1 {
                Some(data)
            } else {
                e.name
            },
            dir: if img[cur] == 2 {
                Some(data)
            } else {
                e.dir
            },
        };
        lemma_chain(img, cur + size, bytes::get16(img, cur + size - 2) as int, n - 1, e2);
    }
}

fn walk_ext(b: &[u8], start: usize, first: u16) -> (r: Result<ExtInfo>)
    requires
        start <= b@.len(),
    ensures
        match r {
            Ok(x) => extended(b@, start as int, first as int) == Ok::<Ext, Error>(
                Ext { sum: x.sum as int, name: opt_bytes(x.name), dir: opt_bytes(x.dir) },
            ) && start + x.sum <= b@.len(),
            Err(e) => extended(b@, start as int, first as int) == Err::<Ext, Error>(e),
        },
{
    let mut info = ExtInfo { sum: 0, name: None, dir: None };
    let mut cur: usize = start;
    let mut size: u16 = first;
    let mut left: u32 = MAX_EXTENDED;
    while size != 0
        invariant
            start <= cur <= b@.len(),
            info.sum == cur - start,
            extended(b@, start as int, first as int) == chain(
                b@,
                cur as int,
                size as int,
                left as int,
                Ext {
                    sum: info.sum as int,
                    name: opt_bytes(info.name),
                    dir: opt_bytes(info.dir),
                },
            ),
        decreases left,
    {
        if left == 0 {
            return Err(Error::InvalidImage);
        }
        if size < 3 || size as usize > b.len() - cur {
            return Err(Error::InvalidImage);
        }
        let end: usize = cur + size as usize;
        let data = copy_range(b, cur + 1, end - 2);
        if b[cur] == 1 {
            info.name = Some(data);
        } else if b[cur] == 2 {
            info.dir = Some(data);
        }
        info.sum = info.sum + size as u64;
        size = get_u16(b, end - 2);
        cur = end;
        left = left - 1;
    }
    Ok(info)
}

// ---- members ----

/// The characters of a name; backslashes become slashes.
pub open spec fn name_chars(b: Seq<u8>) -> Seq<char> {
    names::slashed(names::latin1(b))
}

/// The characters of a directory; a byte 0xff separates components.
pub open spec fn dir_chars(b: Seq<u8>) -> Seq<char> {
    Seq::new(
        b.len(),
        |i: int|
            if b[i] == 0xff || b[i] == 0x5c {
                '/'
            } else {
                b[i] as char
            },
    )
}

/// Directory and name behind one another, with a slash between them.
pub open spec fn raw_path(dir: Option<Seq<u8>>, name: Seq<u8>) -> Seq<char> {
    match dir {
        None => name_chars(name),
        Some(d) => {
            let c = dir_chars(d);
            if c.len() > 0 && c.last() == '/' {
                c + name_chars(name)
            } else {
                c.push('/') + name_chars(name)
            }
        },
    }
}

/// The path of a member.
pub open spec fn member_path(dir: Option<Seq<u8>>, name: Seq<u8>) -> Seq<char> {
    names::stored_path(names::without_drive(raw_path(dir, name)))
}

/// A member: its path, the tag of its method, where its bytes are, its length,
/// and where the next member is.
#[verifier::ext_equal]
pub struct Record {
    pub path: Seq<char>,
    pub tag: Seq<char>,
    pub at: int,
    pub packed: int,
    pub unpacked: u64,
    pub next: int,
}

/// A header of level 0 or 1 at `pos`. `None` ends the scan.
pub open spec fn short_header(img: Seq<u8>, pos: int, level: u8) -> Result<Option<Record>> {
    let end = pos + 2 + img[pos];
    let size = bytes::get32(img, pos + 7) as int;
    let n = img[pos + 21];
    let tag = names::latin1(img.subrange(pos + 3, pos + 6));
    let unpacked = bytes::get32(img, pos + 11) as u64;
    if end > img.len() || pos + 22 > img.len() {
        Ok(None)
    } else if pos + 22 + n > img.len() {
        Err(Error::OutOfBounds)
    } else {
        let name = img.subrange(pos + 22, pos + 22 + n);
        if level == 0 {
            Ok(
                Some(
                    Record {
                        path: member_path(None, name),
                        tag,
                        at: end,
                        packed: size,
                        unpacked,
                        next: end + size,
                    },
                ),
            )
        } else {
            match extended(img, end, bytes::get16(img, end - 2) as int) {
                Err(e) => Err(e),
                Ok(x) => {
                    let packed = if size > x.sum {
                        size - x.sum
                    } else {
                        0
                    };
                    Ok(
                        Some(
                            Record {
                                path: member_path(
                                    x.dir,
                                    match x.name {
                                        Some(n) => n,
                                        None => name,
                                    },
                                ),
                                tag,
                                at: end + x.sum,
                                packed,
                                unpacked,
                                next: end + x.sum + packed,
                            },
                        ),
                    )
                },
            }
        }
    }
}

/// A header of level 2 at `pos`.
pub open spec fn long_header(img: Seq<u8>, pos: int) -> Result<Option<Record>> {
    let total = bytes::get16(img, pos) as int;
    if total < 26 || pos + total > img.len() {
        Ok(None)
    } else {
        match extended(img, pos + 26, bytes::get16(img, pos + 24) as int) {
            Err(e) => Err(e),
            Ok(x) => {
                let packed = bytes::get32(img, pos + 7) as int;
                Ok(
                    Some(
                        Record {
                            path: member_path(
                                x.dir,
                                match x.name {
                                    Some(n) => n,
                                    None => Seq::empty(),
                                },
                            ),
                            tag: names::latin1(img.subrange(pos + 3, pos + 6)),
                            at: pos + total,
                            packed,
                            unpacked: bytes::get32(img, pos + 11) as u64,
                            next: pos + total + packed,
                        },
                    ),
                )
            },
        }
    }
}

/// The header `r`, where its member lies on the device.
pub open spec fn within(img: Seq<u8>, r: Result<Option<Record>>) -> Result<Option<Record>> {
    match r {
        Ok(Some(x)) => if x.next > img.len() {
            Ok(None)
        } else {
            Ok(Some(x))
        },
        _ => r,
    }
}

/// The member at `pos`. A zero byte ends the archive; so does a header that does
/// not fit, or one of another level.
pub open spec fn record(img: Seq<u8>, pos: int) -> Result<Option<Record>> {
    if pos + 21 > img.len() || img[pos] == 0 {
        Ok(None)
    } else {
        let level = img[pos + 20];
        within(
            img,
            if level == 0 || level == 1 {
                short_header(img, pos, level)
            } else if level == 2 {
                long_header(img, pos)
            } else {
                Ok(None)
            },
        )
    }
}

impl Scanned {
    /// With the member `r`; one without a name is left out.
    pub open spec fn with(self, r: Record) -> Scanned {
        if r.path == seq!['/'] {
            self
        } else if r.tag == "lhd"@ {
            Scanned { tree: self.tree.pushed(index::plain_dir(r.path)), ..self }
        } else {
            Scanned {
                tree: self.tree.pushed(
                    index::plain_file(
                        r.path,
                        DataLocator {
                            offset: r.at as u64,
                            compressed_len: r.packed as u64,
                            uncompressed_len: r.unpacked,
                            method: Method::Stored,
                        },
                    ),
                ),
                files: self.files.insert(
                    r.path,
                    if r.tag == "lh0"@ {
                        Known::Stored(
                            LhaFile { data_offset: r.at as u64, size: r.packed as u64 },
                        )
                    } else {
                        Known::Unsupported(r.tag)
                    },
                ),
            }
        }
    }
}

/// `s` with the members from `pos` on, at most `n` of them.
pub open spec fn scan_from(img: Seq<u8>, pos: int, n: int, s: Scanned) -> Result<Scanned>
    decreases n,
{
    if n <= 0 {
        Ok(s)
    } else {
        match record(img, pos) {
            Err(e) => Err(e),
            Ok(None) => Ok(s),
            Ok(Some(r)) => scan_from(img, r.next, n - 1, s.with(r)),
        }
    }
}

/// The archive on the device `img`.
pub open spec fn scanned(img: Seq<u8>) -> Result<Scanned> {
    scan_from(
        img,
        0,
        MAX_MEMBERS as int,
        Scanned { tree: Tree::empty(), files: Map::empty() },
    )
}

/// A member that was read.
struct Read {
    path: String,
    tag: String,
    at: u64,
    packed: u64,
    unpacked: u64,
    next: u64,
}

impl View for Read {
    type V = Record;

    closed spec fn view(&self) -> Record {
        Record {
            path: self.path@,
            tag: self.tag@,
            at: self.at as int,
            packed: self.packed as int,
            unpacked: self.unpacked,
            next: self.next as int,
        }
    }
}

/// The view of a member that was read.
closed spec fn read_of(r: Result<Option<Read>>) -> Result<Option<Record>> {
    match r {
        Ok(Some(x)) => Ok(Some(x@)),
        Ok(None) => Ok(None),
        Err(e) => Err(e),
    }
}

fn assemble_path(dir: &Option<Vec<u8>>, name: &[u8]) -> (r: String)
    ensures
        r@ == member_path(opt_bytes(*dir), name@),
{
    let mut raw: Vec<char> = Vec::new();
    if let Some(d) = dir {
        let mut i: usize = 0;
        while i < d.len()
            invariant
                i <= d@.len(),
                raw@ =~= dir_chars(d@).take(i as int),
            decreases d@.len() - i,
        {
            raw.push(
                if d[i] == 0xff || d[i] == 0x5c {
                    '/'
                } else {
                    d[i] as char
                },
            );
            i = i + 1;
        }
        assert(raw@ =~= dir_chars(d@));
        if raw.len() == 0 || raw[raw.len() - 1] != '/' {
            raw.push('/');
        }
    }
    let ghost start = raw@;
    let ghost all = name_chars(name@);
    let mut i: usize = 0;
    proof {
        assert(start + all.take(0) =~= start);
    }
    while i < name.len()
        invariant
            i <= name@.len(),
            all == name_chars(name@),
            raw@ == start + all.take(i as int),
        decreases name@.len() - i,
    {
        let c: char = if name[i] == 0x5c {
            '/'
        } else {
            name[i] as char
        };
        proof {
            assert(all[i as int] == c);
            assert((start + all.take(i as int)).push(c) =~= start + all.take(i + 1));
        }
        raw.push(c);
        i = i + 1;
    }
    proof {
        assert(all.take(i as int) =~= all);
        assert(raw@ =~= raw_path(opt_bytes(*dir), name@));
    }
    let s = from_chars(raw.as_slice());
    let t = drop_drive(s.as_str());
    path_of_stored(t.as_str())
}

fn read_short(b: &[u8], pos: usize, level: u8) -> (r: Result<Option<Read>>)
    requires
        pos + 21 <= b@.len(),
        b@[pos as int] != 0,
        level == 0 || level == 1,
    ensures
        read_of(r) == within(b@, short_header(b@, pos as int, level)),
{
    let len: usize = b.len();
    let left: usize = len - pos;
    if left < 22 || 2 + b[pos] as usize > left {
        return Ok(None);
    }
    let end: usize = pos + 2 + b[pos] as usize;
    let n: usize = b[pos + 21] as usize;
    if n > left - 22 {
        return Err(Error::OutOfBounds);
    }
    let size: u64 = get_u32(b, pos + 7) as u64;
    let unpacked: u64 = get_u32(b, pos + 11) as u64;
    let tag = from_latin1(slice_subrange(b, pos + 3, pos + 6));
    let name = slice_subrange(b, pos + 22, pos + 22 + n);
    if level == 0 {
        if size > (len - end) as u64 {
            return Ok(None);
        }
        return Ok(
            Some(
                Read {
                    path: assemble_path(&None, name),
                    tag,
                    at: end as u64,
                    packed: size,
                    unpacked,
                    next: end as u64 + size,
                },
            ),
        );
    }
    let x = walk_ext(b, end, get_u16(b, end - 2))?;
    let at: u64 = end as u64 + x.sum;
    let packed: u64 = if size > x.sum {
        size - x.sum
    } else {
        0
    };
    if packed > len as u64 - at {
        return Ok(None);
    }
    let path = match &x.name {
        Some(n) => assemble_path(&x.dir, n.as_slice()),
        None => assemble_path(&x.dir, name),
    };
    Ok(Some(Read { path, tag, at, packed, unpacked, next: at + packed }))
}

fn read_long(b: &[u8], pos: usize) -> (r: Result<Option<Read>>)
    requires
        pos + 21 <= b@.len(),
    ensures
        read_of(r) == within(b@, long_header(b@, pos as int)),
{
    let len: usize = b.len();
    let total: usize = get_u16(b, pos) as usize;
    if total < 26 || total > len - pos {
        return Ok(None);
    }
    let x = walk_ext(b, pos + 26, get_u16(b, pos + 24))?;
    let packed: u64 = get_u32(b, pos + 7) as u64;
    let unpacked: u64 = get_u32(b, pos + 11) as u64;
    let tag = from_latin1(slice_subrange(b, pos + 3, pos + 6));
    let at: u64 = (pos + total) as u64;
    if packed > len as u64 - at {
        return Ok(None);
    }
    let path = match &x.name {
        Some(n) => assemble_path(&x.dir, n.as_slice()),
        None => {
            let none: Vec<u8> = Vec::new();
            assemble_path(&x.dir, none.as_slice())
        },
    };
    Ok(Some(Read { path, tag, at, packed, unpacked, next: at + packed }))
}

fn read_record(b: &[u8], pos: usize) -> (r: Result<Option<Read>>)
    requires
        pos <= b@.len(),
    ensures
        read_of(r) == record(b@, pos as int),
{
    let len: usize = b.len();
    if len - pos < 21 || b[pos] == 0 {
        return Ok(None);
    }
    let level: u8 = b[pos + 20];
    if level == 0 || level == 1 {
        read_short(b, pos, level)
    } else if level == 2 {
        read_long(b, pos)
    } else {
        Ok(None)
    }
}

/// A member's end lies behind its start and on the device.
proof fn lemma_record(img: Seq<u8>, pos: int)
    requires
        0 <= pos <= img.len(),
    ensures
        record(img, pos) matches Ok(Some(r)) ==> pos < r.at && r.at + r.packed == r.next && r.next
            <= img.len() && 0 <= r.packed,
{
    if pos + 21 <= img.len() {
        let e = Ext { sum: 0, name: None, dir: None };
        if img[pos + 20] == 1 && pos + 2 + img[pos] <= img.len() {
            let end = pos + 2 + img[pos];
            lemma_chain(img, end, bytes::get16(img, end - 2) as int, MAX_EXTENDED as int, e);
        }
    }
}

/// Scan the archive on `dev`.
pub fn scan(dev: &MemoryBackend) -> (r: Result<Parsed>)
    ensures
        match r {
            Ok(p) => scanned(dev@) == Ok::<Scanned, Error>(p@) && p.files.wf(),
            Err(e) => scanned(dev@) == Err::<Scanned, Error>(e),
        },
{
    let b = dev.as_slice();
    let len: usize = b.len();
    let mut index = ArchiveIndex::new("lha");
    let mut files: PathTable<Entry> = PathTable::new();
    let mut pos: usize = 0;
    let mut left: u32 = MAX_MEMBERS;
    while left > 0
        invariant_except_break
            scanned(dev@) == scan_from(
                dev@,
                pos as int,
                left as int,
                Scanned { tree: index@, files: files@ },
            ),
        invariant
            b@ == dev@,
            len == b@.len(),
            pos <= len,
            files.wf(),
        ensures
            scanned(dev@) == Ok::<Scanned, Error>(Scanned { tree: index@, files: files@ }),
        decreases left,
    {
        let m = match read_record(b, pos)? {
            Some(m) => m,
            None => break,
        };
        let ghost rv = m@;
        proof {
            lemma_record(b@, pos as int);
        }
        if !is_root(m.path.as_str()) {
            if same_text(m.tag.as_str(), "lhd") {
                index.push(ArchiveEntry::dir(m.path));
            } else {
                let e = if same_text(m.tag.as_str(), "lh0") {
                    Entry::Stored(LhaFile { data_offset: m.at, size: m.packed })
                } else {
                    Entry::Unsupported(m.tag)
                };
                files.insert(m.path.as_str(), e);
                index.push(
                    ArchiveEntry::regular(
                        m.path,
                        DataLocator {
                            offset: m.at,
                            compressed_len: m.packed,
                            uncompressed_len: m.unpacked,
                            method: Method::Stored,
                        },
                    ),
                );
            }
        }
        pos = m.next as usize;
        left = left - 1;
    }
    Ok(Parsed { index, files })
}

/// Read the bytes of a stored member.
pub fn open_stored(dev: &MemoryBackend, f: &LhaFile) -> (r: Result<Vec<u8>>)
    ensures
        error::view_of(r) == block::read(dev@, f.data_offset as int, f.size as int),
{
    read_range(dev, f.data_offset, f.size)
}

/// An LHA archive.
pub struct LhaFs {
    pub fs: ArchiveFs<NoBuilder>,
    pub files: PathTable<Entry>,
}

impl LhaFs {
    /// The bytes of the file at the path `p`.
    pub open spec fn contents(self, img: Seq<u8>, p: Seq<char>) -> Result<Seq<u8>> {
        let q = names::normal(p);
        if !self.files@.dom().contains(q) {
            self.fs@.contents(img, p)
        } else {
            match self.files@[q] {
                Known::Stored(f) => block::read(img, f.data_offset as int, f.size as int),
                Known::Unsupported(_) => Err(Error::Unsupported),
            }
        }
    }

    /// Scan the archive on `dev`.
    pub fn open(dev: &MemoryBackend) -> (r: Result<Self>)
        ensures
            match r {
                Ok(a) => a.fs@ == fs::read_only(a.fs@.tree) && scanned(dev@) == Ok::<
                    Scanned,
                    Error,
                >(Scanned { tree: a.fs@.tree, files: a.files@ }),
                Err(e) => scanned(dev@) == Err::<Scanned, Error>(e),
            },
    {
        let p = scan(dev)?;
        Ok(LhaFs { fs: ArchiveFs::from_index(p.index), files: p.files })
    }

    /// Archives cannot be created.
    pub fn format(dev: &MemoryBackend) -> (r: Result<Self>)
        ensures
            r matches Err(e) && e == Error::Unsupported,
    {
        Err(Error::Unsupported)
    }

    /// What `path` leads to.
    pub fn lookup(&self, path: &str) -> (r: Lookup)
        ensures
            !self.files@.dom().contains(names::normal(path@)) ==> r is NotRegular,
            self.files@.dom().contains(names::normal(path@)) ==> match self.files@[names::normal(
                path@,
            )] {
                Known::Stored(f) => r == Lookup::Stored(f),
                Known::Unsupported(t) => r matches Lookup::Unsupported(s) && s@ == t,
            },
    {
        let key = normalise_path(path);
        match self.files.get(key.as_str()) {
            Some(Entry::Stored(f)) => Lookup::Stored(*f),
            Some(Entry::Unsupported(t)) => Lookup::Unsupported(copy_text(t.as_str())),
            None => Lookup::NotRegular,
        }
    }

    /// The bytes of the file at `path`.
    pub fn read_file(&self, dev: &MemoryBackend, path: &str) -> (r: Result<Vec<u8>>)
        ensures
            error::view_of(r) == self.contents(dev@, path@),
    {
        match self.lookup(path) {
            Lookup::Stored(f) => open_stored(dev, &f),
            Lookup::Unsupported(_) => Err(Error::Unsupported),
            Lookup::NotRegular => self.fs.read_file(dev, path),
        }
    }

    /// A seekable reader over the file at `path`.
    pub fn open_file_ro(&self, dev: &MemoryBackend, path: &str) -> (r: Result<MemHandle>)
        ensures
            match r {
                Ok(h) => h.pos == 0 && self.contents(dev@, path@) == Ok::<Seq<u8>, Error>(h.bytes@),
                Err(e) => self.contents(dev@, path@) == Err::<Seq<u8>, Error>(e),
            },
    {
        let b = self.read_file(dev, path)?;
        Ok(mem_handle(b))
    }
}

} // verus!
