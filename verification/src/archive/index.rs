//! The tree of an archive: its entries, and the directories that they imply.

use vstd::prelude::*;

use crate::archive::names::{self, join_child, join_parts, normalise_path};
use crate::entry::{self, DirEntry, Listed};
use crate::error::{Error, Result};
use crate::path::{self, split_path};
use crate::text::{copy_text, same_text};

verus! {

/// Kind of an archive entry.
#[derive(Clone, Copy, Debug, PartialEq, Eq, Structural)]
pub enum EntryKind {
    Regular,
    Dir,
    Symlink,
    HardLink,
    Char,
    Block,
    Fifo,
    Socket,
}

impl EntryKind {
    /// The kind that is shown: a hard link shows as a regular file.
    pub open spec fn shown(self) -> entry::EntryKind {
        match self {
            EntryKind::Regular => entry::EntryKind::Regular,
            EntryKind::HardLink => entry::EntryKind::Regular,
            EntryKind::Dir => entry::EntryKind::Dir,
            EntryKind::Symlink => entry::EntryKind::Symlink,
            EntryKind::Char => entry::EntryKind::Char,
            EntryKind::Block => entry::EntryKind::Block,
            EntryKind::Fifo => entry::EntryKind::Fifo,
            EntryKind::Socket => entry::EntryKind::Socket,
        }
    }

    /// The kind that is shown.
    pub fn to_fs(self) -> (r: entry::EntryKind)
        ensures
            r == self.shown(),
    {
        match self {
            EntryKind::Regular => entry::EntryKind::Regular,
            EntryKind::HardLink => entry::EntryKind::Regular,
            EntryKind::Dir => entry::EntryKind::Dir,
            EntryKind::Symlink => entry::EntryKind::Symlink,
            EntryKind::Char => entry::EntryKind::Char,
            EntryKind::Block => entry::EntryKind::Block,
            EntryKind::Fifo => entry::EntryKind::Fifo,
            EntryKind::Socket => entry::EntryKind::Socket,
        }
    }
}

/// How the bytes of an entry are encoded.
#[derive(Clone, Copy, Debug, PartialEq, Eq, Structural)]
pub enum Method {
    /// As they are.
    Stored,
    /// Raw DEFLATE.
    Deflate,
    /// A streaming codec, by its number.
    Codec(u16),
    /// A method that has a number but no decoder.
    Unsupported(u16),
}

/// Where the bytes of an entry are stored.
#[derive(Clone, Copy, Debug, PartialEq, Eq, Structural)]
pub struct DataLocator {
    pub offset: u64,
    /// Number of bytes on the device.
    pub compressed_len: u64,
    /// Number of bytes of the file.
    pub uncompressed_len: u64,
    pub method: Method,
}

/// An archive entry.
#[derive(Debug)]
pub struct ArchiveEntry {
    pub path: String,
    pub kind: EntryKind,
    pub mode: u16,
    pub uid: u32,
    pub gid: u32,
    /// Seconds since 1970.
    pub mtime: u64,
    pub link_target: Option<String>,
    pub device_major: u32,
    pub device_minor: u32,
    pub data: Option<DataLocator>,
}

/// An archive entry as a mathematical value.
#[verifier::ext_equal]
pub struct Item {
    pub path: Seq<char>,
    pub kind: EntryKind,
    pub mode: u16,
    pub uid: u32,
    pub gid: u32,
    pub mtime: u64,
    pub link: Option<Seq<char>>,
    pub major: u32,
    pub minor: u32,
    pub data: Option<DataLocator>,
}

/// The view of an optional text.
pub open spec fn opt_view(s: Option<String>) -> Option<Seq<char>> {
    match s {
        Some(t) => Some(t@),
        None => None,
    }
}

impl View for ArchiveEntry {
    type V = Item;

    open spec fn view(&self) -> Item {
        Item {
            path: self.path@,
            kind: self.kind,
            mode: self.mode,
            uid: self.uid,
            gid: self.gid,
            mtime: self.mtime,
            link: opt_view(self.link_target),
            major: self.device_major,
            minor: self.device_minor,
            data: self.data,
        }
    }
}

/// A regular file with nothing told of it but where its bytes are.
pub open spec fn plain_file(path: Seq<char>, data: DataLocator) -> Item {
    Item {
        path,
        kind: EntryKind::Regular,
        mode: 0x1a4,
        uid: 0,
        gid: 0,
        mtime: 0,
        link: None,
        major: 0,
        minor: 0,
        data: Some(data),
    }
}

/// A directory with nothing told of it.
pub open spec fn plain_dir(path: Seq<char>) -> Item {
    Item {
        path,
        kind: EntryKind::Dir,
        mode: 0x1ed,
        uid: 0,
        gid: 0,
        mtime: 0,
        link: None,
        major: 0,
        minor: 0,
        data: None,
    }
}

impl Item {
    /// The size that is shown.
    pub open spec fn size(self) -> u64 {
        match (self.data, self.kind) {
            (Some(d), EntryKind::Regular) => d.uncompressed_len,
            (Some(d), EntryKind::HardLink) => d.uncompressed_len,
            _ => 0,
        }
    }
}

impl ArchiveEntry {
    /// A regular file, readable by all.
    pub fn regular(path: String, data: DataLocator) -> (r: Self)
        ensures
            r@ == plain_file(path@, data),
    {
        ArchiveEntry {
            path,
            kind: EntryKind::Regular,
            mode: 0x1a4,
            uid: 0,
            gid: 0,
            mtime: 0,
            link_target: None,
            device_major: 0,
            device_minor: 0,
            data: Some(data),
        }
    }

    /// A directory, open to all.
    pub fn dir(path: String) -> (r: Self)
        ensures
            r@ == plain_dir(path@),
    {
        ArchiveEntry {
            path,
            kind: EntryKind::Dir,
            mode: 0x1ed,
            uid: 0,
            gid: 0,
            mtime: 0,
            link_target: None,
            device_major: 0,
            device_minor: 0,
            data: None,
        }
    }

    /// The size that is shown: that of a file with contents.
    pub fn logical_size(&self) -> (n: u64)
        ensures
            n == self@.size(),
    {
        match (&self.data, self.kind) {
            (Some(d), EntryKind::Regular) => d.uncompressed_len,
            (Some(d), EntryKind::HardLink) => d.uncompressed_len,
            _ => 0,
        }
    }
}

/// A directory: its path and the names in it, in the order in which they came.
#[verifier::ext_equal]
pub struct Folder {
    pub path: Seq<char>,
    pub names: Seq<Seq<char>>,
}

/// A directory of the tree.
pub struct DirNode {
    pub path: String,
    pub names: Vec<String>,
}

impl View for DirNode {
    type V = Folder;

    open spec fn view(&self) -> Folder {
        Folder { path: self.path@, names: path::texts(self.names@) }
    }
}

/// The tree of an archive as a mathematical value.
#[verifier::ext_equal]
pub struct Tree {
    pub items: Seq<Item>,
    pub dirs: Seq<Folder>,
}

/// Index of the first item from `i` on with the path `p`.
pub open spec fn item_at(s: Seq<Item>, p: Seq<char>, i: int) -> Option<int>
    decreases s.len() - i,
{
    if i >= s.len() {
        None
    } else if s[i].path == p {
        Some(i)
    } else {
        item_at(s, p, i + 1)
    }
}

/// Index of the first directory from `i` on with the path `p`.
pub open spec fn dir_at(s: Seq<Folder>, p: Seq<char>, i: int) -> Option<int>
    decreases s.len() - i,
{
    if i >= s.len() {
        None
    } else if s[i].path == p {
        Some(i)
    } else {
        dir_at(s, p, i + 1)
    }
}

/// The directories with one at the path `p`.
pub open spec fn with_dir(s: Seq<Folder>, p: Seq<char>) -> Seq<Folder> {
    if dir_at(s, p, 0) is Some {
        s
    } else {
        s.push(Folder { path: p, names: Seq::empty() })
    }
}

/// The directories with the name `n` in the one at the path `p`.
pub open spec fn with_name(s: Seq<Folder>, p: Seq<char>, n: Seq<char>) -> Seq<Folder> {
    let t = with_dir(s, p);
    let i = dir_at(t, p, 0).unwrap();
    if t[i].names.contains(n) {
        t
    } else {
        t.update(i, Folder { path: p, names: t[i].names.push(n) })
    }
}

/// The directories after the first `i` components of the path `cs` were
/// registered: each is a name in the directory that the ones before it lead to,
/// and each but the last is a directory.
pub open spec fn registered(s: Seq<Folder>, cs: Seq<Seq<char>>, i: int) -> Seq<Folder>
    decreases i,
{
    if i <= 0 {
        s
    } else {
        let t = with_name(registered(s, cs, i - 1), names::joined(cs.take(i - 1)), cs[i - 1]);
        if i < cs.len() {
            with_dir(t, names::joined(cs.take(i)))
        } else {
            t
        }
    }
}

impl Tree {
    /// The tree of an empty archive.
    pub open spec fn empty() -> Tree {
        Tree {
            items: Seq::empty(),
            dirs: seq![Folder { path: seq!['/'], names: Seq::empty() }],
        }
    }

    /// With the entry `e` added. A later entry replaces an earlier one with the
    /// same path; an entry for the root is left out.
    #[verifier::opaque]
    pub open spec fn pushed(self, e: Item) -> Tree {
        let cs = path::parts(e.path);
        let p = names::joined(cs);
        let it = Item { path: p, ..e };
        if cs.len() == 0 {
            self
        } else {
            let d = registered(self.dirs, cs, cs.len() as int);
            Tree {
                items: match item_at(self.items, p, 0) {
                    Some(i) => self.items.update(i, it),
                    None => self.items.push(it),
                },
                dirs: if e.kind == EntryKind::Dir {
                    with_dir(d, p)
                } else {
                    d
                },
            }
        }
    }

    /// The entry at the path `p`.
    pub open spec fn found(self, p: Seq<char>) -> Option<Item> {
        match item_at(self.items, names::normal(p), 0) {
            Some(i) => Some(self.items[i]),
            None => None,
        }
    }

    /// What is shown of the name `n` in the directory at the path `p`.
    pub open spec fn shown(self, p: Seq<char>, n: Seq<char>) -> Listed {
        match item_at(self.items, names::child_path(p, n), 0) {
            Some(i) => Listed {
                name: n,
                inode: ((i + 1) % 0x1_0000_0000) as u32,
                kind: self.items[i].kind.shown(),
                size: self.items[i].size(),
            },
            None => Listed { name: n, inode: 0, kind: entry::EntryKind::Dir, size: 0 },
        }
    }

    /// The entries of the directory at the path `p`.
    pub open spec fn listed(self, p: Seq<char>) -> Result<Seq<Listed>> {
        let q = names::normal(p);
        match dir_at(self.dirs, q, 0) {
            None => Err(Error::InvalidArgument),
            Some(i) => Ok(
                Seq::new(
                    self.dirs[i].names.len(),
                    |k: int| self.shown(q, self.dirs[i].names[k]),
                ),
            ),
        }
    }
}

/// The views of a list of entries.
pub open spec fn items(s: Seq<ArchiveEntry>) -> Seq<Item> {
    Seq::new(s.len(), |i: int| s[i]@)
}

/// The views of a list of directories.
pub open spec fn folders(s: Seq<DirNode>) -> Seq<Folder> {
    Seq::new(s.len(), |i: int| s[i]@)
}

/// The tree of an archive.
pub struct ArchiveIndex {
    /// Short name of the format.
    pub kind: &'static str,
    pub entries: Vec<ArchiveEntry>,
    pub dirs: Vec<DirNode>,
}

impl View for ArchiveIndex {
    type V = Tree;

    open spec fn view(&self) -> Tree {
        Tree { items: items(self.entries@), dirs: folders(self.dirs@) }
    }
}

proof fn lemma_dir_at(s: Seq<Folder>, p: Seq<char>, i: int)
    requires
        0 <= i <= s.len(),
    ensures
        match dir_at(s, p, i) {
            Some(k) => i <= k < s.len() && s[k].path == p && forall|j: int|
                i <= j < k ==> (#[trigger] s[j]).path != p,
            None => forall|k: int| i <= k < s.len() ==> (#[trigger] s[k]).path != p,
        },
    decreases s.len() - i,
{
    if i < s.len() && s[i].path != p {
        lemma_dir_at(s, p, i + 1);
    }
}

/// The first directory with a path is the one that is found.
proof fn lemma_dir_is(s: Seq<Folder>, p: Seq<char>, k: int)
    requires
        0 <= k < s.len(),
        s[k].path == p,
        forall|j: int| 0 <= j < k ==> (#[trigger] s[j]).path != p,
    ensures
        dir_at(s, p, 0) == Some(k),
{
    lemma_dir_at(s, p, 0);
}

proof fn lemma_item_at(s: Seq<Item>, p: Seq<char>, i: int)
    requires
        0 <= i <= s.len(),
    ensures
        match item_at(s, p, i) {
            Some(k) => i <= k < s.len() && s[k].path == p && forall|j: int|
                i <= j < k ==> (#[trigger] s[j]).path != p,
            None => forall|k: int| i <= k < s.len() ==> (#[trigger] s[k]).path != p,
        },
    decreases s.len() - i,
{
    if i < s.len() && s[i].path != p {
        lemma_item_at(s, p, i + 1);
    }
}

fn has_name(v: &Vec<String>, n: &str) -> (r: bool)
    ensures
        r == path::texts(v@).contains(n@),
{
    let mut i: usize = 0;
    while i < v.len()
        invariant
            i <= v@.len(),
            forall|k: int| 0 <= k < i ==> (#[trigger] v@[k])@ != n@,
        decreases v@.len() - i,
    {
        if same_text(v[i].as_str(), n) {
            assert(path::texts(v@)[i as int] == n@);
            return true;
        }
        i = i + 1;
    }
    proof {
        if path::texts(v@).contains(n@) {
            let k = choose|k: int| 0 <= k < path::texts(v@).len() && path::texts(v@)[k] == n@;
            assert(v@[k]@ == n@);
        }
    }
    false
}

impl ArchiveIndex {
    /// The tree of an empty archive.
    pub fn new(kind: &'static str) -> (r: Self)
        ensures
            r@ == Tree::empty(),
            r.kind == kind,
    {
        let mut dirs: Vec<DirNode> = Vec::new();
        let no_parts: Vec<String> = Vec::new();
        let root = join_parts(&no_parts, 0);
        let d = DirNode { path: root, names: Vec::new() };
        proof {
            assert(path::texts(no_parts@).take(0).len() == 0);
            assert(d@ =~= Folder { path: seq!['/'], names: Seq::empty() });
        }
        dirs.push(d);
        let r = ArchiveIndex { kind, entries: Vec::new(), dirs };
        proof {
            assert(r@ =~= Tree::empty());
        }
        r
    }

    pub(crate) fn find_dir(&self, p: &str) -> (r: Option<usize>)
        ensures
            match r {
                Some(i) => i < self.dirs@.len() && dir_at(self@.dirs, p@, 0) == Some(i as int),
                None => dir_at(self@.dirs, p@, 0) is None,
            },
    {
        let ghost s = self@.dirs;
        let mut i: usize = 0;
        while i < self.dirs.len()
            invariant
                i <= self.dirs@.len(),
                s == folders(self.dirs@),
                dir_at(s, p@, 0) == dir_at(s, p@, i as int),
            decreases self.dirs@.len() - i,
        {
            if same_text(self.dirs[i].path.as_str(), p) {
                assert(s[i as int].path == p@);
                return Some(i);
            }
            assert(s[i as int].path != p@);
            i = i + 1;
        }
        None
    }

    pub(crate) fn find_entry(&self, p: &str) -> (r: Option<usize>)
        ensures
            match r {
                Some(i) => i < self.entries@.len() && item_at(self@.items, p@, 0) == Some(i as int),
                None => item_at(self@.items, p@, 0) is None,
            },
    {
        let ghost s = self@.items;
        let mut i: usize = 0;
        while i < self.entries.len()
            invariant
                i <= self.entries@.len(),
                s == items(self.entries@),
                item_at(s, p@, 0) == item_at(s, p@, i as int),
            decreases self.entries@.len() - i,
        {
            if same_text(self.entries[i].path.as_str(), p) {
                assert(s[i as int].path == p@);
                return Some(i);
            }
            assert(s[i as int].path != p@);
            i = i + 1;
        }
        None
    }

    /// See that there is a directory at the path `p`; gives its index.
    fn add_dir(&mut self, p: &str) -> (i: usize)
        ensures
            final(self)@ == (Tree { dirs: with_dir(old(self)@.dirs, p@), ..old(self)@ }),
            i < final(self).dirs@.len(),
            dir_at(final(self)@.dirs, p@, 0) == Some(i as int),
            final(self).kind == old(self).kind,
    {
        let ghost s = self@.dirs;
        match self.find_dir(p) {
            Some(i) => i,
            None => {
                let ghost before = self.dirs@;
                let d = DirNode { path: copy_text(p), names: Vec::new() };
                let ghost dv = d@;
                self.dirs.push(d);
                proof {
                    assert(dv =~= Folder { path: p@, names: Seq::empty() });
                    assert(folders(self.dirs@) =~= folders(before).push(dv));
                    lemma_dir_at(s, p@, 0);
                    lemma_dir_is(s.push(dv), p@, s.len() as int);
                }
                self.dirs.len() - 1
            },
        }
    }

    /// See that the directory at the path `p` has the name `n`.
    fn add_name(&mut self, p: &str, n: &str)
        ensures
            final(self)@ == (Tree { dirs: with_name(old(self)@.dirs, p@, n@), ..old(self)@ }),
            final(self).kind == old(self).kind,
    {
        let i: usize = self.add_dir(p);
        let ghost t = self@.dirs;
        let ghost whole = self@;
        proof {
            lemma_dir_at(t, p@, 0);
            assert(t[i as int] == self.dirs@[i as int]@);
        }
        if !has_name(&self.dirs[i].names, n) {
            let mut fresh: Vec<String> = Vec::new();
            let mut k: usize = 0;
            let ghost held = path::texts(self.dirs@[i as int].names@);
            proof {
                assert(path::texts(fresh@) =~= held.take(0));
            }
            while k < self.dirs[i].names.len()
                invariant
                    i < self.dirs@.len(),
                    k <= self.dirs@[i as int].names@.len(),
                    held == path::texts(self.dirs@[i as int].names@),
                    path::texts(fresh@) == held.take(k as int),
                decreases self.dirs@[i as int].names@.len() - k,
            {
                let c = copy_text(self.dirs[i].names[k].as_str());
                let ghost before = fresh@;
                let ghost cv = c@;
                fresh.push(c);
                proof {
                    assert(path::texts(fresh@) =~= path::texts(before).push(cv));
                    assert(held.take(k + 1) =~= held.take(k as int).push(cv));
                }
                k = k + 1;
            }
            let c = copy_text(n);
            let ghost before = fresh@;
            fresh.push(c);
            let d = DirNode { path: copy_text(p), names: fresh };
            let ghost dv = d@;
            let ghost was = self.dirs@;
            proof {
                assert(held.take(k as int) =~= held);
                assert(path::texts(d.names@) =~= held.push(n@));
            }
            self.dirs.set(i, d);
            proof {
                assert(folders(self.dirs@) =~= folders(was).update(i as int, dv));
                assert(dv =~= Folder { path: p@, names: t[i as int].names.push(n@) });
            }
        }
    }

    /// Add an entry, and the directories on the way to it.
    pub fn push(&mut self, e: ArchiveEntry)
        ensures
            final(self)@ == old(self)@.pushed(e@),
            final(self).kind == old(self).kind,
    {
        let ghost ev = e@;
        let ghost tree = self@;
        proof {
            reveal(Tree::pushed);
        }
        let cs = split_path(e.path.as_str());
        let ghost csv = path::parts(ev.path);
        let n: usize = cs.len();
        if n == 0 {
            return;
        }
        let p = join_parts(&cs, n);
        let mut i: usize = 0;
        proof {
            assert(path::texts(cs@).take(n as int) =~= csv);
            assert(p@ == names::joined(csv));
        }
        while i < n
            invariant
                i <= n,
                n == cs@.len(),
                csv == path::texts(cs@),
                self@ == (Tree { dirs: registered(tree.dirs, csv, i as int), ..tree }),
                self.kind == old(self).kind,
            decreases n - i,
        {
            let parent = join_parts(&cs, i);
            self.add_name(parent.as_str(), cs[i].as_str());
            if i + 1 < n {
                let sub = join_parts(&cs, i + 1);
                self.add_dir(sub.as_str());
            }
            i = i + 1;
        }
        if e.kind == EntryKind::Dir {
            self.add_dir(p.as_str());
        }
        let found = self.find_entry(p.as_str());
        let ghost before = self.entries@;
        let it = ArchiveEntry {
            path: p,
            kind: e.kind,
            mode: e.mode,
            uid: e.uid,
            gid: e.gid,
            mtime: e.mtime,
            link_target: e.link_target,
            device_major: e.device_major,
            device_minor: e.device_minor,
            data: e.data,
        };
        let ghost iv = it@;
        match found {
            Some(k) => {
                self.entries.set(k, it);
                proof {
                    assert(items(self.entries@) =~= items(before).update(k as int, iv));
                }
            },
            None => {
                self.entries.push(it);
                proof {
                    assert(items(self.entries@) =~= items(before).push(iv));
                }
            },
        }
    }

    /// All the entries, in the order in which they came.
    pub fn entries(&self) -> (r: &[ArchiveEntry])
        ensures
            items(r@) == self@.items,
    {
        self.entries.as_slice()
    }

    /// The entry at `path`.
    pub fn lookup(&self, path: &str) -> (r: Option<&ArchiveEntry>)
        ensures
            match r {
                Some(e) => self@.found(path@) == Some(e@),
                None => self@.found(path@) is None,
            },
    {
        let p = normalise_path(path);
        match self.find_entry(p.as_str()) {
            Some(i) => Some(&self.entries[i]),
            None => None,
        }
    }

    /// The entries of the directory at `path`. A directory that has no entry of
    /// its own is shown as one.
    pub fn list(&self, path: &str) -> (r: Result<Vec<DirEntry>>)
        ensures
            match r {
                Ok(v) => self@.listed(path@) == Ok::<Seq<Listed>, Error>(entry::listing(v@)),
                Err(e) => self@.listed(path@) == Err::<Seq<Listed>, Error>(e),
            },
    {
        let p = normalise_path(path);
        let i: usize = match self.find_dir(p.as_str()) {
            Some(i) => i,
            None => {
                return Err(Error::InvalidArgument);
            },
        };
        let ghost q = p@;
        let ghost t = self@;
        let ghost all = Seq::new(
            t.dirs[i as int].names.len(),
            |k: int| t.shown(q, t.dirs[i as int].names[k]),
        );
        let mut out: Vec<DirEntry> = Vec::new();
        let mut k: usize = 0;
        proof {
            assert(t.dirs[i as int] == self.dirs@[i as int]@);
        }
        while k < self.dirs[i].names.len()
            invariant
                i < self.dirs@.len(),
                k <= self.dirs@[i as int].names@.len(),
                t == self@,
                t.dirs[i as int] == self.dirs@[i as int]@,
                q == p@,
                all.len() == t.dirs[i as int].names.len(),
                forall|j: int|
                    0 <= j < all.len() ==> #[trigger] all[j] == t.shown(
                        q,
                        t.dirs[i as int].names[j],
                    ),
                entry::listing(out@) == all.take(k as int),
            decreases self.dirs@[i as int].names@.len() - k,
        {
            let child = join_child(p.as_str(), self.dirs[i].names[k].as_str());
            let name = copy_text(self.dirs[i].names[k].as_str());
            let d = match self.find_entry(child.as_str()) {
                Some(j) => DirEntry {
                    name,
                    inode: ((j as u64 % 0x1_0000_0000 + 1) % 0x1_0000_0000) as u32,
                    kind: self.entries[j].kind.to_fs(),
                    size: self.entries[j].logical_size(),
                },
                None => DirEntry { name, inode: 0, kind: entry::EntryKind::Dir, size: 0 },
            };
            let ghost dv = d@;
            let ghost before = out@;
            proof {
                assert(t.dirs[i as int].names[k as int] == self.dirs@[i as int].names@[k as int]@);
                assert(dv == all[k as int]);
            }
            out.push(d);
            proof {
                assert(entry::listing(out@) =~= entry::listing(before).push(dv));
                assert(all.take(k + 1) =~= all.take(k as int).push(dv));
            }
            k = k + 1;
        }
        proof {
            assert(all.take(k as int) =~= all);
        }
        Ok(out)
    }
}

} // verus!
