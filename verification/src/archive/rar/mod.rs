//! RAR5 archives. Files of a solid group share one packed stream; reading them
//! in order decodes it once.

pub mod laws;
pub mod scan;
pub mod solid;

use vstd::prelude::*;

use crate::archive::codec::{self, decode_rar5};
use crate::archive::fs::{self, read_range, Arch, ArchiveFs, NoBuilder};
use crate::archive::index::Tree;
use crate::archive::names::{self, normalise_path};
use crate::archive::table::PathTable;
use crate::block::{self, MemoryBackend};
use crate::entry::MutationCapability;
use crate::error::{self, Error, Result};

pub use crate::archive::mem::{mem_handle, MemHandle};
pub use scan::{DataArea, Entry, Parsed, RarFile, SolidGroup};
pub use solid::{skip_to, LiveSolid, SolidReader};

verus! {

/// What a path leads to.
#[derive(Debug)]
pub enum Lookup {
    Plain(RarFile),
    Solid { group: usize, member: usize },
    Unextractable(String),
    NotRegular,
}

/// The bytes of a file with a packed run of its own.
pub open spec fn plain_contents(img: Seq<u8>, f: RarFile) -> Result<Seq<u8>> {
    match block::read(img, f.data_offset as int, f.pack_size as int) {
        Err(e) => Err(e),
        Ok(run) => if f.store {
            Ok(run)
        } else {
            codec::rar5_decoded(run, f.unpack_size, f.window)
        },
    }
}

/// Read a file with a packed run of its own.
pub fn open_file(dev: &MemoryBackend, f: &RarFile) -> (r: Result<Vec<u8>>)
    ensures
        error::view_of(r) == plain_contents(dev@, *f),
{
    let run = read_range(dev, f.data_offset, f.pack_size)?;
    if f.store {
        return Ok(run);
    }
    decode_rar5(run.as_slice(), f.unpack_size, f.window)
}

/// A RAR archive.
pub struct RarFs {
    pub fs: ArchiveFs<NoBuilder>,
    pub files: PathTable<Entry>,
    pub groups: Vec<SolidGroup>,
    /// How far the solid group that was read last was decoded.
    pub live: Option<LiveSolid>,
    /// How often decoding of a solid group has started.
    pub rebuilds: usize,
}

/// What a read of the file at the path `p` does: `a` is the archive before it, `b`
/// after it, and `r` the result. Only a member of a solid group moves the cursor.
pub open spec fn file_given(
    a: RarFs,
    b: RarFs,
    img: Seq<u8>,
    p: Seq<char>,
    r: Result<Seq<u8>>,
) -> bool {
    let q = names::normal(p);
    let t = a.tables();
    if !t.files.dom().contains(q) {
        b == a && r == a.fs@.contents(img, p)
    } else {
        match t.files[q] {
            Entry::Plain(f) => b == a && r == plain_contents(img, f),
            Entry::Unextractable => b == a && r == Err::<Seq<u8>, Error>(Error::Unsupported),
            Entry::Solid { group, member } => read_of(
                a,
                b,
                img,
                t.groups[group as int],
                member as int,
                group,
                r,
            ),
        }
    }
}

/// An archive that is recognised but cannot be read.
pub open spec fn closed_book() -> Arch<()> {
    Arch {
        tree: Tree::empty(),
        builder: None,
        cap: MutationCapability::Immutable,
        scaffold: true,
        flushed: None,
    }
}

/// What a read of the member `member` of the solid group `g`, the group `group`
/// of an archive on the device `img`, does: `a` is the archive before it, `b`
/// after it, and `r` the result. The cursor goes on where it stands, or decoding
/// starts again. Where the packed runs lie on the device, and the cursor stood in
/// its group or decoding starts again, the result is the bytes of the member where
/// the group holds them, and the fault of the stream where it fails or ends before.
pub open spec fn read_of(
    a: RarFs,
    b: RarFs,
    img: Seq<u8>,
    g: scan::Run,
    member: int,
    group: usize,
    r: Result<Seq<u8>>,
) -> bool {
    let start = g.starts[member];
    let len = g.starts[member + 1] - start;
    let tied = a.tied(img) || !a.reusable(group, start);
    &&& b.rebuilds == if a.reusable(group, start) || a.rebuilds == usize::MAX {
        a.rebuilds as int
    } else {
        a.rebuilds + 1
    }
    &&& b.live matches Some(l)
    &&& l.group == group
    &&& start == 0 && len == 0 ==> r is Ok
    &&& match r {
        Ok(v) => {
            &&& v.len() <= len
            &&& l.out_pos == start + v.len()
            &&& tied ==> b.tied(img)
        },
        Err(e) => e == Error::InvalidImage || e == Error::Unsupported || e == Error::OutOfBounds,
    }
    &&& tied && solid::areas_within(img, g.areas) ==> (r matches Ok(v) ==> solid::slice_of(
        solid::group_stream(img, g).0,
        start as int,
        v,
    ))
    &&& tied && solid::areas_within(img, g.areas) && g.total < u64::MAX ==> solid::span_of(
        img,
        g,
        start as int,
        len,
        r,
    )
    &&& a.reusable(group, start) && a.live->Some_0.broken() && len > 0 ==> r is Err
}

impl RarFs {
    /// The tables of the archive.
    pub open spec fn tables(self) -> scan::Tables {
        scan::Tables { files: self.files@, groups: scan::runs(self.groups@) }
    }

    /// Members of groups have their place there, and so has the cursor.
    pub open spec fn wf(self) -> bool {
        &&& self.tables().wf()
        &&& self.live matches Some(l) ==> l.wf() && l.group < self.groups@.len()
    }

    /// The cursor, if there is one, stands in its group of the device `img`.
    pub open spec fn tied(self, img: Seq<u8>) -> bool {
        self.live matches Some(l) ==> l.group < self.groups@.len() && l.tied(
            img,
            self.groups@[l.group as int]@,
        )
    }

    /// Whether the cursor can be used for the byte `start` of the group `group`.
    pub open spec fn reusable(self, group: usize, start: u64) -> bool {
        self.live matches Some(l) && l.group == group && l.out_pos <= start
    }

    /// Scan the archive on `dev`. Other versions of the format are recognised
    /// but cannot be read.
    pub fn open(dev: &MemoryBackend) -> (r: Result<Self>)
        ensures
            r matches Ok(a) ==> a.wf() && a.live is None && a.rebuilds == 0,
            if dev@.len() < 8 {
                r matches Err(e) && e == Error::OutOfBounds
            } else if dev@[6] != 1 {
                r matches Ok(a) && a.fs@ == closed_book() && a.tables() == (scan::Tables {
                    files: Map::empty(),
                    groups: Seq::empty(),
                })
            } else {
                match r {
                    Ok(a) => scan::scanned(dev@) == Ok::<scan::Scanned, Error>(
                        (scan::Scanned { tree: a.fs@.tree, tables: a.tables() }),
                    ) && a.fs@ == fs::read_only(a.fs@.tree),
                    Err(e) => scan::scanned(dev@) == Err::<scan::Scanned, Error>(e),
                }
            },
    {
        let b = dev.as_slice();
        if b.len() < 8 {
            return Err(Error::OutOfBounds);
        }
        if b[6] != 1 {
            let a = RarFs {
                fs: ArchiveFs::scaffold("rar"),
                files: PathTable::new(),
                groups: Vec::new(),
                live: None,
                rebuilds: 0,
            };
            proof {
                assert(scan::runs(a.groups@) =~= Seq::empty());
            }
            return Ok(a);
        }
        let p = scan::scan(dev)?;
        Ok(
            RarFs {
                fs: ArchiveFs::from_index(p.index),
                files: p.files,
                groups: p.groups,
                live: None,
                rebuilds: 0,
            },
        )
    }

    /// Archives cannot be created.
    pub fn format(dev: &MemoryBackend) -> (r: Result<Self>)
        ensures
            r matches Err(e) && e == Error::Unsupported,
    {
        Err(Error::Unsupported)
    }

    /// What `path` leads to.
    pub fn lookup(&self, path: &str) -> (r: Lookup)
        ensures
            ({
                let q = names::normal(path@);
                if !self.files@.dom().contains(q) {
                    r is NotRegular
                } else {
                    match self.files@[q] {
                        Entry::Plain(f) => r == Lookup::Plain(f),
                        Entry::Solid { group, member } => r == (Lookup::Solid { group, member }),
                        Entry::Unextractable => r matches Lookup::Unextractable(k) && k@ == q,
                    }
                }
            }),
    {
        let key = normalise_path(path);
        match self.files.get(key.as_str()) {
            Some(Entry::Plain(f)) => Lookup::Plain(*f),
            Some(Entry::Solid { group, member }) => Lookup::Solid {
                group: *group,
                member: *member,
            },
            Some(Entry::Unextractable) => Lookup::Unextractable(key),
            None => Lookup::NotRegular,
        }
    }

    /// Read the member `member` of the solid group `group`. The cursor goes on
    /// where it stands if it has not passed the member; else decoding starts
    /// again. Either way the bytes are those of what the group holds.
    pub fn read_solid(&mut self, dev: &MemoryBackend, group: usize, member: usize) -> (r: Result<
        Vec<u8>,
    >)
        requires
            old(self).wf(),
            group < old(self).groups@.len(),
            member < old(self).groups@[group as int].areas@.len(),
        ensures
            final(self).wf(),
            final(self).tables() == old(self).tables(),
            final(self).fs == old(self).fs,
            final(self).groups == old(self).groups,
            read_of(
                *old(self),
                *final(self),
                dev@,
                old(self).groups@[group as int]@,
                member as int,
                group,
                error::view_of(r),
            ),
    {
        let ghost g = self.groups@[group as int]@;
        proof {
            assert(scan::runs(self.groups@)[group as int] == g);
            assert(self.tables().groups[group as int].wf());
        }
        let grp = &self.groups[group];
        let held: usize = grp.starts.len();
        let start: u64 = grp.starts[member];
        let remaining: u64 = grp.starts[member + 1] - start;
        let ghost tied = self.tied(dev@) || !self.reusable(group, start);
        let mut live = None;
        std::mem::swap(&mut live, &mut self.live);
        let mut l = match live {
            Some(l) => if l.group == group && l.out_pos <= start {
                l
            } else {
                if self.rebuilds < usize::MAX {
                    self.rebuilds = self.rebuilds + 1;
                }
                LiveSolid::new(group, grp.window, grp.total)
            },
            None => {
                if self.rebuilds < usize::MAX {
                    self.rebuilds = self.rebuilds + 1;
                }
                LiveSolid::new(group, grp.window, grp.total)
            },
        };
        proof {
            assert(tied ==> l.tied(dev@, g));
        }
        let r = skip_to(&mut l, &self.groups[group], dev, start);
        let r = match r {
            Ok(_) => {
                let mut rd = SolidReader { remaining };
                let ghost before = l.passed();
                let v = rd.read_to_end(&mut l, &self.groups[group], dev);
                proof {
                    if tied && solid::areas_within(dev@, g.areas) && v is Ok {
                        solid::lemma_passed(l, dev@, g);
                        solid::lemma_slice(before, v->Ok_0@, solid::group_stream(dev@, g).0);
                    }
                }
                v
            },
            Err(e) => Err(e),
        };
        self.live = Some(l);
        r
    }

    /// The bytes of the file at `path`.
    pub fn read_file(&mut self, dev: &MemoryBackend, path: &str) -> (r: Result<Vec<u8>>)
        requires
            old(self).wf(),
        ensures
            final(self).wf(),
            final(self).tables() == old(self).tables(),
            file_given(*old(self), *final(self), dev@, path@, error::view_of(r)),
    {
        match self.lookup(path) {
            Lookup::Plain(f) => open_file(dev, &f),
            Lookup::Solid { group, member } => {
                proof {
                    let q = names::normal(path@);
                    assert(self.tables().files.dom().contains(q));
                    assert(scan::runs(self.groups@)[group as int] == self.groups@[group as int]@);
                }
                self.read_solid(dev, group, member)
            },
            Lookup::Unextractable(_) => Err(Error::Unsupported),
            Lookup::NotRegular => self.fs.read_file(dev, path),
        }
    }

    /// A seekable reader over the file at `path`.
    pub fn open_file_ro(&mut self, dev: &MemoryBackend, path: &str) -> (r: Result<MemHandle>)
        requires
            old(self).wf(),
        ensures
            final(self).wf(),
            final(self).tables() == old(self).tables(),
            r matches Ok(h) ==> h.pos == 0,
            file_given(
                *old(self),
                *final(self),
                dev@,
                path@,
                match r {
                    Ok(h) => Ok(h.bytes@),
                    Err(e) => Err(e),
                },
            ),
    {
        match self.read_file(dev, path) {
            Ok(b) => Ok(mem_handle(b)),
            Err(e) => Err(e),
        }
    }
}

/// A walk through a solid group in order decodes it once: where a member was read
/// whole, the read of the next one does not start decoding again.
pub proof fn lemma_in_order(
    a: RarFs,
    b: RarFs,
    c: RarFs,
    img: Seq<u8>,
    g: scan::Run,
    member: int,
    group: usize,
    v: Seq<u8>,
    r: Result<Seq<u8>>,
)
    requires
        g.wf(),
        0 <= member < g.areas.len() - 1,
        read_of(a, b, img, g, member, group, Ok(v)),
        v.len() == g.starts[member + 1] - g.starts[member],
        read_of(b, c, img, g, member + 1, group, r),
    ensures
        c.rebuilds == b.rebuilds,
{
}

/// A member has the same bytes whether the cursor went on to it or decoding
/// started again for it, a cursor that goes on standing in its group. (Of a group of `u64::MAX` bytes the length of what comes is not known.)
pub proof fn lemma_same_bytes(
    a: RarFs,
    b: RarFs,
    c: RarFs,
    d: RarFs,
    img: Seq<u8>,
    g: scan::Run,
    member: int,
    group: usize,
    v: Seq<u8>,
    w: Seq<u8>,
)
    requires
        solid::areas_within(img, g.areas),
        a.tied(img) || !a.reusable(group, g.starts[member]),
        c.tied(img) || !c.reusable(group, g.starts[member]),
        read_of(a, b, img, g, member, group, Ok(v)),
        read_of(c, d, img, g, member, group, Ok(w)),
        g.total < u64::MAX || v.len() == w.len(),
    ensures
        v == w,
{
}

/// A read of a member that the cursor has passed starts decoding again.
pub proof fn lemma_backward(
    a: RarFs,
    b: RarFs,
    img: Seq<u8>,
    g: scan::Run,
    member: int,
    group: usize,
    r: Result<Seq<u8>>,
)
    requires
        a.live matches Some(l) && l.group == group && l.out_pos > g.starts[member],
        a.rebuilds < usize::MAX,
        read_of(a, b, img, g, member, group, r),
    ensures
        b.rebuilds == a.rebuilds + 1,
{
}

} // verus!
