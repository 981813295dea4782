//! Reading a volume: directories, inodes, file contents, extended attributes.

use vstd::prelude::*;

use crate::apfs::container::{self, read_omap_header, ContainerCtx};
use crate::apfs::fstree::{self, DrecKeyLayout, FsKeyTarget, FsTreeCtx};
use crate::apfs::jrec::{
    self, DrecKey, DrecVal, InodeVal, APFS_TYPE_DIR_REC,
    APFS_TYPE_INODE, DT_BLK, DT_CHR, DT_DIR, DT_FIFO, DT_LNK, DT_REG, DT_SOCK,
};
use crate::apfs::obj::{self, ObjPhys, OBJECT_TYPE_BTREE, OBJECT_TYPE_BTREE_NODE};
use crate::apfs::omap::{self, lookup, OmapKey};
use crate::apfs::pack::Rec;
use crate::apfs::rangescan::{self, RangeScan};
use crate::apfs::record::{self, FsRecord};
use crate::apfs::superblock::{self, ApfsSuperblock};
use crate::block::{self, MemoryBackend};
use crate::bytes::{self, copy_all};
use crate::entry::{self, DirEntry, EntryKind, Listed};
use crate::error::{self, Error, Result};
use crate::path::{self, split_path};
use crate::text::{self, same_text};

verus! {

/// Object id of the root directory.
pub const ROOT_DIR_INO: u64 = 2;

/// A volume as it is opened.
pub struct Mounted {
    pub bs: u32,
    pub total_bytes: u64,
    pub name: Seq<char>,
    /// Block of the snapshot tree's root; zero where there are no snapshots.
    pub snap_meta: u64,
    /// Slot of the volume in its container.
    pub index: int,
    /// Root node of the filesystem tree.
    pub root: Seq<u8>,
    /// Root node of the object map.
    pub omap: Seq<u8>,
    /// Transaction to read at.
    pub xid: u64,
    pub layout: DrecKeyLayout,
}

impl Mounted {
    /// Where the tree's nodes are found on the device `img`.
    pub open spec fn vol(self, img: Seq<u8>) -> fstree::Vol {
        fstree::Vol { img, omap: self.omap, xid: self.xid, bs: self.bs as int }
    }
}

/// Whether bit `n`, given as its value `unit`, is set in `x`.
pub open spec fn has_bit(x: u64, unit: u64) -> bool {
    x / unit % 2 == 1
}

/// Block of the volume superblock: that of a snapshot, or the one that the
/// container's object map tells.
pub open spec fn apsb_at(img: Seq<u8>, c: container::Cont, oid: u64, snap: Option<(u64, u64)>) -> Result<
    u64,
> {
    match snap {
        Some((p, _)) => Ok(p),
        None => match container::volume_at(img, c.omap, c.xid(), oid) {
            Err(e) => Err(e),
            Ok(None) => Err(Error::InvalidImage),
            Ok(Some(p)) => Ok(p),
        },
    }
}

/// The volume superblock at `paddr`, unless the volume is encrypted or sealed.
pub open spec fn plain_apsb(img: Seq<u8>, bs: int, paddr: u64) -> Result<Seq<u8>> {
    match block::block_at(img, bs, paddr) {
        Err(e) => Err(e),
        Ok(b) => if !superblock::is_apsb(b) {
            Err(Error::InvalidImage)
        } else if !has_bit(bytes::get64(b, 264), 1) || has_bit(bytes::get64(b, 56), 0x80) {
            Err(Error::Unsupported)
        } else {
            Ok(b)
        },
    }
}

/// Root node of the object map that the volume superblock `apsb` names.
pub open spec fn omap_root_of(img: Seq<u8>, bs: int, apsb: Seq<u8>) -> Result<Seq<u8>> {
    match container::omap_at(img, bs, bytes::get64(apsb, 128)) {
        Err(e) => Err(e),
        Ok(tree) => block::block_at(img, bs, tree),
    }
}

/// Root node of the filesystem tree that the volume superblock `apsb` names.
pub open spec fn fs_root_of(img: Seq<u8>, bs: int, apsb: Seq<u8>, omap: Seq<u8>, xid: u64) -> Result<
    Seq<u8>,
> {
    match omap::find(img, omap, OmapKey { oid: bytes::get64(apsb, 136), xid }) {
        Err(e) => Err(e),
        Ok(None) => Err(Error::InvalidImage),
        Ok(Some(v)) => match block::block_at(img, bs, v.paddr) {
            Err(e) => Err(e),
            Ok(b) => if obj::type_of(b) == OBJECT_TYPE_BTREE || obj::type_of(b)
                == OBJECT_TYPE_BTREE_NODE {
                Ok(b)
            } else {
                Err(Error::InvalidImage)
            },
        },
    }
}

/// The volume in slot `index` of the container `c`, or a snapshot of it, given
/// as the block of its superblock and its transaction.
pub open spec fn volume(img: Seq<u8>, c: container::Cont, index: int, snap: Option<(u64, u64)>) -> Result<
    Mounted,
> {
    let bs = c.bs();
    if index >= 100 || superblock::nx_fs_oid(c.sb)[index] == 0 {
        Err(Error::InvalidArgument)
    } else {
        match apsb_at(img, c, superblock::nx_fs_oid(c.sb)[index], snap) {
            Err(e) => Err(e),
            Ok(paddr) => match plain_apsb(img, bs, paddr) {
                Err(e) => Err(e),
                Ok(apsb) => match omap_root_of(img, bs, apsb) {
                    Err(e) => Err(e),
                    Ok(omap) => {
                        let xid = match snap {
                            Some((_, x)) => x,
                            None => bytes::get64(apsb, 16),
                        };
                        match fs_root_of(img, bs, apsb, omap, xid) {
                            Err(e) => Err(e),
                            Ok(root) => Ok(
                                Mounted {
                                    bs: bs as u32,
                                    total_bytes: c.total_bytes(),
                                    name: text::text_of(superblock::volname_bytes(apsb)),
                                    snap_meta: bytes::get64(apsb, 152),
                                    index,
                                    root,
                                    omap,
                                    xid,
                                    layout: if has_bit(bytes::get64(apsb, 56), 8) {
                                        DrecKeyLayout::Hashed
                                    } else {
                                        DrecKeyLayout::Plain
                                    },
                                },
                            ),
                        }
                    },
                },
            },
        }
    }
}

/// A volume that is open for reading.
pub struct ReadState {
    pub block_size: u32,
    pub total_bytes: u64,
    pub volume_name: String,
    pub snap_meta_tree_oid: u64,
    pub volume_index: usize,
    pub fsroot_block: Vec<u8>,
    pub omap_root: Vec<u8>,
    pub omap_xid: u64,
    pub drec_layout: DrecKeyLayout,
}

impl View for ReadState {
    type V = Mounted;

    open spec fn view(&self) -> Mounted {
        Mounted {
            bs: self.block_size,
            total_bytes: self.total_bytes,
            name: self.volume_name@,
            snap_meta: self.snap_meta_tree_oid,
            index: self.volume_index as int,
            root: self.fsroot_block@,
            omap: self.omap_root@,
            xid: self.omap_xid,
            layout: self.drec_layout,
        }
    }
}

/// Open the volume in slot `index`, or a snapshot of it.
pub(crate) fn open_volume_with_ctx(
    dev: &MemoryBackend,
    ctx: &ContainerCtx,
    index: usize,
    snapshot: Option<(u64, u64)>,
    Ghost(c): Ghost<container::Cont>,
) -> (r: Result<ReadState>)
    requires
        ctx.of(c),
    ensures
        error::view_of(r) == volume(dev@, c, index as int, snapshot),
{
    if index >= ctx.live_sb.fs_oid.len() {
        return Err(Error::InvalidArgument);
    }
    let vol_oid: u64 = ctx.live_sb.fs_oid[index];
    if vol_oid == 0 {
        return Err(Error::InvalidArgument);
    }
    let bs: usize = ctx.block_size as usize;
    let apsb_paddr: u64 = match snapshot {
        Some((p, _)) => p,
        None => match ctx.find_volume(dev, vol_oid)? {
            Some(p) => p,
            None => {
                return Err(Error::InvalidImage);
            },
        },
    };
    let apsb_block = dev.read_block(apsb_paddr, bs)?;
    let apsb = ApfsSuperblock::decode(apsb_block.as_slice())?;
    if apsb.fs_flags % 2 != 1 {
        return Err(Error::Unsupported);
    }
    if apsb.incompatible_features / 0x80 % 2 == 1 {
        return Err(Error::Unsupported);
    }
    assert(plain_apsb(dev@, bs as int, apsb_paddr) == Ok::<Seq<u8>, Error>(apsb_block@));
    let tree: u64 = read_omap_header(dev, apsb.omap_oid, bs)?;
    let omap_root = dev.read_block(tree, bs)?;
    let omap_xid: u64 = match snapshot {
        Some((_, x)) => x,
        None => apsb.obj.xid,
    };
    let loc = match lookup(omap_root.as_slice(), apsb.root_tree_oid, omap_xid, dev)? {
        Some(v) => v,
        None => {
            return Err(Error::InvalidImage);
        },
    };
    let fsroot_block = dev.read_block(loc.paddr, bs)?;
    let head = ObjPhys::decode(fsroot_block.as_slice())?;
    let ot: u32 = head.obj_type();
    if ot != OBJECT_TYPE_BTREE && ot != OBJECT_TYPE_BTREE_NODE {
        return Err(Error::InvalidImage);
    }
    let drec_layout = if apsb.incompatible_features / 8 % 2 == 1 {
        DrecKeyLayout::Hashed
    } else {
        DrecKeyLayout::Plain
    };
    Ok(
        ReadState {
            block_size: ctx.block_size,
            total_bytes: ctx.total_bytes,
            volume_name: apsb.volname,
            snap_meta_tree_oid: apsb.snap_meta_tree_oid,
            volume_index: index,
            fsroot_block,
            omap_root,
            omap_xid,
            drec_layout,
        },
    )
}

// ---- records of one object ----

/// The records of one object and kind that a scan found, and the error that
/// ended it, if one did.
#[verifier::ext_equal]
pub struct Found {
    pub recs: Seq<Rec>,
    pub err: Option<Error>,
}

/// The records at the front of `s` that have object id and kind `p`.
pub open spec fn gather(s: Seq<Result<Rec>>, p: (u64, u8)) -> Found
    decreases s.len(),
{
    if s.len() == 0 {
        Found { recs: Seq::empty(), err: None }
    } else {
        match s[0] {
            Err(e) => Found { recs: Seq::empty(), err: Some(e) },
            Ok(r) => if (jrec::key_oid(r.0), jrec::key_kind(r.0)) == p {
                let f = gather(s.drop_first(), p);
                Found { recs: seq![r] + f.recs, err: f.err }
            } else {
                Found { recs: Seq::empty(), err: None }
            },
        }
    }
}

/// The records of kind `kind` of object `oid`.
pub open spec fn found(m: Mounted, img: Seq<u8>, oid: u64, kind: u8) -> Found {
    let t = fstree::Target { oid, kind, tail: Seq::empty(), layout: m.layout };
    match rangescan::ahead(m.vol(img), m.root, t) {
        Err(e) => Found { recs: Seq::empty(), err: Some(e) },
        Ok(s) => gather(s, (oid, kind)),
    }
}

/// The records that a scan found.
pub struct Scan {
    pub records: Vec<FsRecord>,
    pub error: Option<Error>,
}

impl View for Scan {
    type V = Found;

    open spec fn view(&self) -> Found {
        Found { recs: record::recs(self.records@), err: self.error }
    }
}

proof fn lemma_gather_step(done: Seq<Rec>, s: Seq<Result<Rec>>, p: (u64, u8))
    ensures
        s.len() > 0 ==> match s[0] {
            Err(e) => gather(s, p) == (Found { recs: Seq::empty(), err: Some(e) }),
            Ok(r) => if (jrec::key_oid(r.0), jrec::key_kind(r.0)) == p {
                let f = gather(s.drop_first(), p);
                &&& done + gather(s, p).recs == done.push(r) + f.recs
                &&& gather(s, p).err == f.err
            } else {
                gather(s, p) == (Found { recs: Seq::empty(), err: None })
            },
        },
{
    if s.len() > 0 {
        if let Ok(r) = s[0] {
            let f = gather(s.drop_first(), p);
            assert(done + (seq![r] + f.recs) =~= done.push(r) + f.recs);
        }
    }
}

impl ReadState {
    /// A context for walking the tree.
    fn tree_ctx(&self) -> (r: FsTreeCtx)
        ensures
            forall|img: Seq<u8>| #[trigger] r.wf(img),
            forall|img: Seq<u8>| #[trigger] r.vol(img) == self@.vol(img),
    {
        FsTreeCtx::new(
            copy_all(self.omap_root.as_slice()),
            self.omap_xid,
            self.block_size as usize,
        )
    }

    /// Scan the records of kind `kind` of object `oid`.
    pub fn scan(&self, dev: &MemoryBackend, oid: u64, kind: u8) -> (r: Scan)
        ensures
            r@ == found(self@, dev@, oid, kind),
    {
        let tail: Vec<u8> = Vec::new();
        let target = FsKeyTarget {
            oid,
            kind,
            tail: tail.as_slice(),
            drec_layout: self.drec_layout,
        };
        let mut ctx = self.tree_ctx();
        let ghost v = self@.vol(dev@);
        let mut records: Vec<FsRecord> = Vec::new();
        proof {
            assert(target@ =~= (fstree::Target {
                oid,
                kind,
                tail: Seq::empty(),
                layout: self.drec_layout,
            }));
            assert(record::recs(records@) =~= Seq::empty());
        }
        let mut scan = match RangeScan::start(
            self.fsroot_block.as_slice(),
            &target,
            &mut ctx,
            dev,
        ) {
            Ok(s) => s,
            Err(e) => {
                return Scan { records, error: Some(e) };
            },
        };
        let ghost p = (oid, kind);
        let ghost all = found(self@, dev@, oid, kind);
        loop
            invariant
                scan.wf(),
                scan.prefix() == p,
                ctx.wf(dev@),
                ctx.vol(dev@) == v,
                all == found(self@, dev@, oid, kind),
                all.recs == record::recs(records@) + gather(scan.rest(v), p).recs,
                all.err == gather(scan.rest(v), p).err,
            decreases scan.rest(v).len(),
        {
            let ghost rest = scan.rest(v);
            let ghost done = record::recs(records@);
            proof {
                lemma_gather_step(done, rest, p);
            }
            match scan.next(&mut ctx, dev) {
                Err(e) => {
                    proof {
                        assert(all.recs =~= done);
                    }
                    return Scan { records, error: Some(e) };
                },
                Ok(None) => {
                    proof {
                        assert(all.recs =~= done);
                    }
                    return Scan { records, error: None };
                },
                Ok(Some((key, val))) => {
                    let ghost kv = (key@, val@);
                    records.push(FsRecord { key, val });
                    proof {
                        assert(record::recs(records@) =~= done.push(kv));
                    }
                },
            }
        }
    }
}

// ---- directories ----

/// Name in the directory key `k` of a volume with the key layout `layout`; the
/// other layout is tried where the key does not decode.
pub open spec fn drec_name(k: Seq<u8>, layout: DrecKeyLayout) -> Result<Seq<char>> {
    let (a, b) = match layout {
        DrecKeyLayout::Hashed => (jrec::drec_hashed(k), jrec::drec_plain(k)),
        DrecKeyLayout::Plain => (jrec::drec_plain(k), jrec::drec_hashed(k)),
    };
    match a {
        Ok(p) => Ok(p.1),
        Err(_) => match b {
            Ok(p) => Ok(p.1),
            Err(e) => Err(e),
        },
    }
}

/// Target of the first record from `i` on that is named `name`.
pub open spec fn child_named(f: Found, layout: DrecKeyLayout, name: Seq<char>, i: int) -> Result<
    Option<u64>,
>
    decreases f.recs.len() - i,
{
    if i >= f.recs.len() {
        match f.err {
            Some(e) => Err(e),
            None => Ok(None),
        }
    } else {
        match drec_name(f.recs[i].0, layout) {
            Err(e) => Err(e),
            Ok(n) => if n == name {
                match jrec::drec_val(f.recs[i].1) {
                    Err(e) => Err(e),
                    Ok(v) => Ok(Some(v.file_id)),
                }
            } else {
                child_named(f, layout, name, i + 1)
            },
        }
    }
}

/// The child of directory `dir` named `name`.
pub open spec fn child(m: Mounted, img: Seq<u8>, dir: u64, name: Seq<char>) -> Result<Option<u64>> {
    child_named(found(m, img, dir, APFS_TYPE_DIR_REC), m.layout, name, 0)
}

/// The object that the components `ps` lead to from directory `dir`.
pub open spec fn walk(m: Mounted, img: Seq<u8>, dir: u64, ps: Seq<Seq<char>>) -> Result<u64>
    decreases ps.len(),
{
    if ps.len() == 0 {
        Ok(dir)
    } else {
        match child(m, img, dir, ps[0]) {
            Err(e) => Err(e),
            Ok(None) => Err(Error::InvalidArgument),
            Ok(Some(o)) => walk(m, img, o, ps.drop_first()),
        }
    }
}

/// The object at `path`.
pub open spec fn resolve(m: Mounted, img: Seq<u8>, p: Seq<char>) -> Result<u64> {
    walk(m, img, ROOT_DIR_INO, path::parts(p))
}

/// The directory that holds `path`, and the name in it.
pub open spec fn resolve_parent(m: Mounted, img: Seq<u8>, p: Seq<char>) -> Result<
    (u64, Seq<char>),
> {
    let ps = path::parts(p);
    if ps.len() == 0 {
        Err(Error::InvalidArgument)
    } else {
        match walk(m, img, ROOT_DIR_INO, ps.drop_last()) {
            Err(e) => Err(e),
            Ok(o) => Ok((o, ps.last())),
        }
    }
}

/// Kind of an entry by its directory type code.
pub open spec fn kind_of_dtype(t: u16) -> EntryKind {
    if t == DT_DIR {
        EntryKind::Dir
    } else if t == DT_REG {
        EntryKind::Regular
    } else if t == DT_LNK {
        EntryKind::Symlink
    } else if t == DT_FIFO {
        EntryKind::Fifo
    } else if t == DT_CHR {
        EntryKind::Char
    } else if t == DT_BLK {
        EntryKind::Block
    } else if t == DT_SOCK {
        EntryKind::Socket
    } else {
        EntryKind::Unknown
    }
}

/// The listed entry of a directory record; `None` where it does not decode.
pub open spec fn listed(r: Rec, layout: DrecKeyLayout) -> Option<Listed> {
    match (drec_name(r.0, layout), jrec::drec_val(r.1)) {
        (Ok(name), Ok(v)) => Some(
            Listed {
                name,
                inode: (v.file_id % 0x1_0000_0000) as u32,
                kind: kind_of_dtype((v.flags % 0x100) as u16),
                size: 0,
            },
        ),
        _ => None,
    }
}

/// The listed entries of the first `i` directory records.
pub open spec fn listed_upto(rs: Seq<Rec>, layout: DrecKeyLayout, i: int) -> Seq<Listed>
    decreases i,
{
    if i <= 0 {
        Seq::empty()
    } else {
        let s = listed_upto(rs, layout, i - 1);
        match listed(rs[i - 1], layout) {
            Some(e) => s.push(e),
            None => s,
        }
    }
}

/// The entries of directory `dir`.
pub open spec fn list_dir(m: Mounted, img: Seq<u8>, dir: u64) -> Result<Seq<Listed>> {
    let f = found(m, img, dir, APFS_TYPE_DIR_REC);
    match f.err {
        Some(e) => Err(e),
        None => Ok(listed_upto(f.recs, m.layout, f.recs.len() as int)),
    }
}

/// The view of a fallible listing.
pub open spec fn listing_of(r: Result<Vec<DirEntry>>) -> Result<Seq<Listed>> {
    match r {
        Ok(v) => Ok(entry::listing(v@)),
        Err(e) => Err(e),
    }
}

fn dtype_kind(t: u16) -> (r: EntryKind)
    ensures
        r == kind_of_dtype(t),
{
    if t == DT_DIR {
        EntryKind::Dir
    } else if t == DT_REG {
        EntryKind::Regular
    } else if t == DT_LNK {
        EntryKind::Symlink
    } else if t == DT_FIFO {
        EntryKind::Fifo
    } else if t == DT_CHR {
        EntryKind::Char
    } else if t == DT_BLK {
        EntryKind::Block
    } else if t == DT_SOCK {
        EntryKind::Socket
    } else {
        EntryKind::Unknown
    }
}

fn decode_name(k: &[u8], layout: DrecKeyLayout) -> (r: Result<String>)
    ensures
        error::view_of(r) == drec_name(k@, layout),
{
    let (a, b) = match layout {
        DrecKeyLayout::Hashed => (DrecKey::decode_hashed(k), DrecKey::decode_plain(k)),
        DrecKeyLayout::Plain => (DrecKey::decode_plain(k), DrecKey::decode_hashed(k)),
    };
    match a {
        Ok(p) => Ok(p.name),
        Err(_) => match b {
            Ok(p) => Ok(p.name),
            Err(e) => Err(e),
        },
    }
}

impl ReadState {
    /// The child of directory `parent_oid` named `name`.
    pub fn find_drec_child(&self, dev: &MemoryBackend, parent_oid: u64, name: &str) -> (r: Result<
        Option<u64>,
    >)
        ensures
            r == child(self@, dev@, parent_oid, name@),
    {
        let s = self.scan(dev, parent_oid, APFS_TYPE_DIR_REC);
        let ghost f = s@;
        let mut i: usize = 0;
        while i < s.records.len()
            invariant
                f == s@,
                i <= s.records@.len(),
                child(self@, dev@, parent_oid, name@) == child_named(
                    f,
                    self.drec_layout,
                    name@,
                    i as int,
                ),
            decreases s.records@.len() - i,
        {
            assert(f.recs[i as int] == s.records@[i as int]@);
            let n = decode_name(s.records[i].key.as_slice(), self.drec_layout)?;
            if same_text(n.as_str(), name) {
                let v = DrecVal::decode(s.records[i].val.as_slice())?;
                return Ok(Some(v.file_id));
            }
            i = i + 1;
        }
        match s.error {
            Some(e) => Err(e),
            None => Ok(None),
        }
    }

    /// Follow the first `n` components of `ps` from the root directory.
    fn walk_parts(&self, dev: &MemoryBackend, ps: &Vec<String>, n: usize) -> (r: Result<u64>)
        requires
            n <= ps@.len(),
        ensures
            r == walk(self@, dev@, ROOT_DIR_INO, path::texts(ps@).take(n as int)),
    {
        let ghost all = path::texts(ps@).take(n as int);
        let mut cur: u64 = ROOT_DIR_INO;
        let mut i: usize = 0;
        proof {
            assert(all.skip(0) =~= all);
        }
        while i < n
            invariant
                i <= n <= ps@.len(),
                all == path::texts(ps@).take(n as int),
                walk(self@, dev@, ROOT_DIR_INO, all) == walk(
                    self@,
                    dev@,
                    cur,
                    all.skip(i as int),
                ),
            decreases n - i,
        {
            proof {
                assert(all.skip(i as int)[0] == ps@[i as int]@);
                assert(all.skip(i as int).drop_first() =~= all.skip(i + 1));
            }
            match self.find_drec_child(dev, cur, ps[i].as_str())? {
                None => {
                    return Err(Error::InvalidArgument);
                },
                Some(o) => {
                    cur = o;
                },
            }
            i = i + 1;
        }
        Ok(cur)
    }

    /// The object at `path`.
    pub fn resolve_path_to_oid(&self, dev: &MemoryBackend, path: &str) -> (r: Result<u64>)
        ensures
            r == resolve(self@, dev@, path@),
    {
        let ps = split_path(path);
        proof {
            assert(path::texts(ps@).take(ps@.len() as int) =~= path::texts(ps@));
        }
        self.walk_parts(dev, &ps, ps.len())
    }

    /// The directory that holds `path`, and the name in it.
    pub fn resolve_parent_and_name(&self, dev: &MemoryBackend, path: &str) -> (r: Result<
        (u64, String),
    >)
        ensures
            match r {
                Ok((o, n)) => resolve_parent(self@, dev@, path@) == Ok::<(u64, Seq<char>), Error>(
                    (o, n@),
                ),
                Err(e) => resolve_parent(self@, dev@, path@) == Err::<(u64, Seq<char>), Error>(e),
            },
    {
        let ps = split_path(path);
        if ps.len() == 0 {
            return Err(Error::InvalidArgument);
        }
        let last: usize = ps.len() - 1;
        proof {
            assert(path::texts(ps@).take(last as int) =~= path::texts(ps@).drop_last());
        }
        let o: u64 = self.walk_parts(dev, &ps, last)?;
        Ok((o, text::copy_text(ps[last].as_str())))
    }

    /// The entries of directory `dir_oid`.
    pub fn list_dir(&self, dev: &MemoryBackend, dir_oid: u64) -> (r: Result<Vec<DirEntry>>)
        ensures
            listing_of(r) == list_dir(self@, dev@, dir_oid),
    {
        let s = self.scan(dev, dir_oid, APFS_TYPE_DIR_REC);
        if let Some(e) = s.error {
            return Err(e);
        }
        let ghost f = s@;
        let mut out: Vec<DirEntry> = Vec::new();
        let mut i: usize = 0;
        proof {
            assert(entry::listing(out@) =~= listed_upto(f.recs, self.drec_layout, 0));
        }
        while i < s.records.len()
            invariant
                f == s@,
                i <= s.records@.len(),
                entry::listing(out@) == listed_upto(f.recs, self.drec_layout, i as int),
            decreases s.records@.len() - i,
        {
            assert(f.recs[i as int] == s.records@[i as int]@);
            let name = decode_name(s.records[i].key.as_slice(), self.drec_layout);
            let val = DrecVal::decode(s.records[i].val.as_slice());
            let ghost before = out@;
            match (name, val) {
                (Ok(name), Ok(v)) => {
                    let d = DirEntry {
                        name,
                        inode: (v.file_id % 0x1_0000_0000) as u32,
                        kind: dtype_kind(v.dtype()),
                        size: 0,
                    };
                    let ghost dv = d@;
                    out.push(d);
                    proof {
                        assert(entry::listing(out@) =~= entry::listing(before).push(dv));
                    }
                },
                _ => {},
            }
            i = i + 1;
        }
        Ok(out)
    }
}

// ---- inodes ----

/// The inode value of object `oid`.
pub open spec fn inode(m: Mounted, img: Seq<u8>, oid: u64) -> Result<Seq<u8>> {
    let f = found(m, img, oid, APFS_TYPE_INODE);
    if f.recs.len() > 0 {
        if f.recs[0].1.len() < 92 {
            Err(Error::InvalidImage)
        } else {
            Ok(f.recs[0].1)
        }
    } else {
        match f.err {
            Some(e) => Err(e),
            None => Err(Error::InvalidArgument),
        }
    }
}

/// Directory type code of an inode with mode `mode`.
pub open spec fn dtype_of_mode(mode: u16) -> u16 {
    if record::type_bits(mode) == 0x4000 {
        DT_DIR
    } else if record::type_bits(mode) == 0xa000 {
        DT_LNK
    } else {
        DT_REG
    }
}

/// Length of the contents that the inode value `b` records.
pub open spec fn inode_size(b: Seq<u8>) -> u64 {
    match jrec::inode_dstream(b) {
        Some(d) => d.size,
        None => 0,
    }
}

/// Length of the contents of object `oid`, and the object that holds them, for
/// a regular file or a symbolic link.
pub open spec fn stream_of(m: Mounted, img: Seq<u8>, oid: u64) -> Result<(u64, u64)> {
    match inode(m, img, oid) {
        Err(e) => Err(e),
        Ok(b) => {
            let t = record::type_bits(bytes::get16(b, 80));
            let private = bytes::get64(b, 8);
            if t != 0x8000 && t != 0xa000 {
                Err(Error::InvalidArgument)
            } else {
                Ok(
                    (
                        inode_size(b),
                        if private != 0 {
                            private
                        } else {
                            oid
                        },
                    ),
                )
            }
        },
    }
}

impl ReadState {
    /// Read and decode the inode of object `oid`.
    pub fn read_inode_val(&self, dev: &MemoryBackend, oid: u64) -> (r: Result<InodeVal>)
        ensures
            match r {
                Ok(v) => inode(self@, dev@, oid) matches Ok(b) && b.len() >= 92 && v.of(b),
                Err(e) => inode(self@, dev@, oid) == Err::<Seq<u8>, Error>(e),
            },
    {
        let s = self.scan(dev, oid, APFS_TYPE_INODE);
        let ghost f = s@;
        if s.records.len() > 0 {
            assert(f.recs[0] == s.records@[0]@);
            return InodeVal::decode(s.records[0].val.as_slice());
        }
        match s.error {
            Some(e) => Err(e),
            None => Err(Error::InvalidArgument),
        }
    }

    /// Directory type code of object `oid`.
    pub fn lookup_inode_dtype(&self, dev: &MemoryBackend, oid: u64) -> (r: Result<u16>)
        ensures
            r == match inode(self@, dev@, oid) {
                Ok(b) => Ok(dtype_of_mode(bytes::get16(b, 80))),
                Err(e) => Err::<u16, Error>(e),
            },
    {
        let v = self.read_inode_val(dev, oid)?;
        let t: u16 = v.mode - v.mode % 0x1000;
        Ok(
            if t == 0x4000 {
                DT_DIR
            } else if t == 0xa000 {
                DT_LNK
            } else {
                DT_REG
            },
        )
    }

    /// Length of the contents of object `oid`, and the object that holds them.
    pub fn lookup_inode_size(&self, dev: &MemoryBackend, oid: u64) -> (r: Result<(u64, u64)>)
        ensures
            r == stream_of(self@, dev@, oid),
    {
        let v = self.read_inode_val(dev, oid)?;
        let t: u16 = v.mode - v.mode % 0x1000;
        if t != 0x8000 && t != 0xa000 {
            return Err(Error::InvalidArgument);
        }
        let size: u64 = match v.dstream {
            Some(d) => d.size,
            None => 0,
        };
        let holder: u64 = if v.private_id != 0 {
            v.private_id
        } else {
            oid
        };
        Ok((size, holder))
    }
}

} // verus!
