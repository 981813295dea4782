//! A container as callers see it.
//!
//! An [`Apfs`] is in one of three modes. A new container collects operations in
//! memory until [`Apfs::flush`] writes the image in one pass; from then on it is
//! read. A container that was opened is read. One that was opened for changes
//! writes a new checkpoint with each change.

use vstd::prelude::*;

use crate::apfs::btree::{self, BTreeNode};
use crate::apfs::container::{self, load_container};
use crate::apfs::content::{self, ApfsFileReader, XattrPair};
use crate::apfs::jrec::{self, APFS_TYPE_SNAP_METADATA};
use crate::apfs::pending::{self, starts_at_root, Pend, PendingWrite};
use crate::apfs::record;
use crate::apfs::rw::{self, open_first, open_live, Live, WriteState};
use crate::apfs::snap::{self, decode_snap_meta_key, SnapMetaVal};
use crate::apfs::superblock::{self, ApfsSuperblock};
use crate::apfs::volume::{self, open_volume_with_ctx, Mounted, ReadState, ROOT_DIR_INO};
use crate::apfs::write::ApfsWriter;
use crate::block::{self, MemoryBackend};
use crate::bytes::{self, get_u16, get_u32};
use crate::entry::{self, DirEntry, EntryKind, FileAttrs, Listed, MutationCapability};
use crate::error::{Error, Result};
use crate::num::{self, div_ceil};
use crate::path::{self, split_path};
use crate::text::{self, copy_text, same_text};

verus! {

/// What a container is open for.
pub enum Mode {
    /// For reading.
    Read(Mounted),
    /// For operations that wait to be written in one pass.
    Pending(Pend),
    /// For reading and for changes.
    Write(Live),
}

/// A container as callers see it.
pub struct Fs {
    pub bs: u32,
    pub total_bytes: u64,
    pub name: Seq<char>,
    pub mode: Mode,
}

impl Fs {
    /// What holds of every container.
    pub open spec fn wf(self) -> bool {
        match self.mode {
            Mode::Read(m) => m.bs > 0,
            Mode::Pending(p) => true,
            Mode::Write(l) => l.wf(),
        }
    }

    /// The volume that is read; there is none while operations wait.
    pub open spec fn mounted(self) -> Result<Mounted> {
        match self.mode {
            Mode::Read(m) => Ok(m),
            Mode::Write(l) => Ok(l.m),
            Mode::Pending(_) => Err(Error::Unsupported),
        }
    }

    /// The object at the path `p`. The root directory is known without reading.
    pub open spec fn resolve(self, img: Seq<u8>, p: Seq<char>) -> Result<u64> {
        match self.mounted() {
            Ok(m) => volume::resolve(m, img, p),
            Err(e) => if path::parts(p).len() == 0 {
                Ok(ROOT_DIR_INO)
            } else {
                Err(e)
            },
        }
    }

    /// The directory that holds the path `p`, and the name in it.
    pub open spec fn resolve_parent(self, img: Seq<u8>, p: Seq<char>) -> Result<(u64, Seq<char>)> {
        let ps = path::parts(p);
        match self.mounted() {
            Ok(m) => volume::resolve_parent(m, img, p),
            Err(e) => if ps.len() == 0 {
                Err(Error::InvalidArgument)
            } else if ps.len() == 1 {
                Ok((ROOT_DIR_INO, ps[0]))
            } else {
                Err(e)
            },
        }
    }
}

/// What a container is open for.
pub enum ApfsState {
    Read(ReadState),
    PendingWrite(PendingWrite),
    Write(WriteState),
}

impl View for ApfsState {
    type V = Mode;

    open spec fn view(&self) -> Mode {
        match self {
            ApfsState::Read(r) => Mode::Read(r@),
            ApfsState::PendingWrite(p) => Mode::Pending(p@),
            ApfsState::Write(w) => Mode::Write(w@),
        }
    }
}

/// A container.
pub struct Apfs {
    pub block_size: u32,
    pub total_bytes: u64,
    pub volume_name: String,
    pub state: ApfsState,
}

impl View for Apfs {
    type V = Fs;

    open spec fn view(&self) -> Fs {
        Fs {
            bs: self.block_size,
            total_bytes: self.total_bytes,
            name: self.volume_name@,
            mode: self.state@,
        }
    }
}

/// The view of a fallible container.
pub open spec fn fs_of(r: Result<Apfs>) -> Result<Fs> {
    match r {
        Ok(a) => Ok(a@),
        Err(e) => Err(e),
    }
}

/// The volume `m`, open for reading.
pub open spec fn reading(m: Mounted) -> Fs {
    Fs { bs: m.bs, total_bytes: m.total_bytes, name: m.name, mode: Mode::Read(m) }
}

/// The outcome of opening the volume that `m` tells of for reading.
pub open spec fn read_outcome(m: Result<Mounted>) -> Result<Fs> {
    match m {
        Ok(m) => Ok(reading(m)),
        Err(e) => Err(e),
    }
}

/// A new container before anything was created in it.
pub open spec fn formatted(total_blocks: u64, bs: u32, name: Seq<char>) -> Fs {
    let n = total_blocks * bs;
    Fs {
        bs,
        total_bytes: if n <= u64::MAX {
            n as u64
        } else {
            u64::MAX
        },
        name,
        mode: Mode::Pending(
            Pend {
                total_blocks,
                dirs: seq![(pending::root_path(), ROOT_DIR_INO)],
                ops: Seq::empty(),
                next_oid: 16,
            },
        ),
    }
}

/// Whether a device of `len` bytes takes a container of this geometry.
pub open spec fn geometry_ok(len: int, total_blocks: u64, bs: u32) -> bool {
    &&& crate::apfs::write::block_size_ok(bs)
    &&& total_blocks * bs <= len
    &&& total_blocks >= crate::apfs::write::MIN_BLOCKS
}

// ---- volumes of a container ----

/// A volume of a container.
#[verifier::ext_equal]
pub struct VolumeEntry {
    pub index: int,
    pub vol_oid: u64,
    pub name: Seq<char>,
    pub role: u16,
    pub encrypted: bool,
    pub uuid: Seq<u8>,
}

/// A volume of a container.
#[derive(Debug)]
pub struct VolumeInfo {
    /// Slot in the container.
    pub index: usize,
    pub vol_oid: u64,
    pub name: String,
    pub role: u16,
    /// An encrypted volume is listed, but cannot be opened.
    pub encrypted: bool,
    pub uuid: Vec<u8>,
}

impl View for VolumeInfo {
    type V = VolumeEntry;

    open spec fn view(&self) -> VolumeEntry {
        VolumeEntry {
            index: self.index as int,
            vol_oid: self.vol_oid,
            name: self.name@,
            role: self.role,
            encrypted: self.encrypted,
            uuid: self.uuid@,
        }
    }
}

/// The views of a list of volumes.
pub open spec fn volume_views(s: Seq<VolumeInfo>) -> Seq<VolumeEntry> {
    Seq::new(s.len(), |i: int| s[i]@)
}

/// The volume in slot `i` of the container `c`. A slot that is empty, that the
/// object map does not know, or whose superblock is not one, holds none.
pub open spec fn volume_entry(img: Seq<u8>, c: container::Cont, i: int) -> Result<
    Option<VolumeEntry>,
> {
    let oid = superblock::nx_fs_oid(c.sb)[i];
    if oid == 0 {
        Ok(None)
    } else {
        match container::volume_at(img, c.omap, c.xid(), oid) {
            Err(e) => Err(e),
            Ok(None) => Ok(None),
            Ok(Some(p)) => match block::block_at(img, c.bs(), p) {
                Err(e) => Err(e),
                Ok(b) => if !superblock::is_apsb(b) {
                    Ok(None)
                } else {
                    Ok(
                        Some(
                            VolumeEntry {
                                index: i,
                                vol_oid: oid,
                                name: text::text_of(superblock::volname_bytes(b)),
                                role: if b.len() >= 966 {
                                    bytes::get16(b, 964)
                                } else {
                                    0
                                },
                                encrypted: !volume::has_bit(bytes::get64(b, 264), 1),
                                uuid: b.subrange(240, 256),
                            },
                        ),
                    )
                },
            },
        }
    }
}

/// The volumes in the first `n` slots of the container `c`.
pub open spec fn volumes_upto(img: Seq<u8>, c: container::Cont, n: int) -> Result<Seq<VolumeEntry>>
    decreases n,
{
    if n <= 0 {
        Ok(Seq::empty())
    } else {
        match volumes_upto(img, c, n - 1) {
            Err(e) => Err(e),
            Ok(s) => match volume_entry(img, c, n - 1) {
                Err(e) => Err(e),
                Ok(None) => Ok(s),
                Ok(Some(v)) => Ok(s.push(v)),
            },
        }
    }
}

/// The volumes of the container on the device `img`.
pub open spec fn volumes(img: Seq<u8>) -> Result<Seq<VolumeEntry>> {
    match container::container(img) {
        Err(e) => Err(e),
        Ok(c) => volumes_upto(img, c, 100),
    }
}

/// The view of a fallible list of volumes.
pub open spec fn volumes_of(r: Result<Vec<VolumeInfo>>) -> Result<Seq<VolumeEntry>> {
    match r {
        Ok(v) => Ok(volume_views(v@)),
        Err(e) => Err(e),
    }
}

proof fn lemma_volumes_err(img: Seq<u8>, c: container::Cont, i: int, n: int)
    requires
        i <= n,
        volumes_upto(img, c, i) is Err,
    ensures
        volumes_upto(img, c, n) == volumes_upto(img, c, i),
    decreases n - i,
{
    if i < n {
        lemma_volumes_err(img, c, i, n - 1);
    }
}

// ---- snapshots of a volume ----

/// A snapshot of a volume.
#[verifier::ext_equal]
pub struct Snapshot {
    pub xid: u64,
    pub name: Seq<char>,
    pub sblock_paddr: u64,
    pub create_time: u64,
}

/// A snapshot of a volume.
#[derive(Debug)]
pub struct SnapshotInfo {
    /// Transaction at which it was taken.
    pub xid: u64,
    pub name: String,
    /// Block of the volume superblock of that time.
    pub sblock_paddr: u64,
    /// Nanoseconds since 1970.
    pub create_time: u64,
}

impl View for SnapshotInfo {
    type V = Snapshot;

    open spec fn view(&self) -> Snapshot {
        Snapshot {
            xid: self.xid,
            name: self.name@,
            sblock_paddr: self.sblock_paddr,
            create_time: self.create_time,
        }
    }
}

/// The views of a list of snapshots.
pub open spec fn snapshot_views(s: Seq<SnapshotInfo>) -> Seq<Snapshot> {
    Seq::new(s.len(), |i: int| s[i]@)
}

/// The snapshot of a record; none where it is a name record, or does not decode.
pub open spec fn snapshot_of(r: (Seq<u8>, Seq<u8>)) -> Option<Snapshot> {
    if r.0.len() < 8 || jrec::key_kind(r.0) != APFS_TYPE_SNAP_METADATA || r.1.len() < 50 {
        None
    } else {
        Some(
            Snapshot {
                xid: jrec::key_oid(r.0),
                name: snap::snap_name(r.1),
                sblock_paddr: bytes::get64(r.1, 8),
                create_time: bytes::get64(r.1, 16),
            },
        )
    }
}

/// The snapshots of the first `n` records of the leaf `b`.
pub open spec fn snapshots_upto(b: Seq<u8>, n: int) -> Result<Seq<Snapshot>>
    decreases n,
{
    if n <= 0 {
        Ok(Seq::empty())
    } else {
        match snapshots_upto(b, n - 1) {
            Err(e) => Err(e),
            Ok(s) => match btree::entry(b, n - 1, 0, 0) {
                Err(e) => Err(e),
                Ok(r) => match snapshot_of(r) {
                    None => Ok(s),
                    Some(x) => Ok(s.push(x)),
                },
            },
        }
    }
}

/// The snapshots of the volume `m`. Trees of more than one node are refused.
pub open spec fn snapshots(m: Mounted, img: Seq<u8>) -> Result<Seq<Snapshot>> {
    if m.snap_meta == 0 {
        Ok(Seq::empty())
    } else {
        match block::block_at(img, m.bs as int, m.snap_meta) {
            Err(e) => Err(e),
            Ok(b) => if !btree::is_node(b) {
                Err(Error::InvalidImage)
            } else if !btree::node_is_leaf(b) {
                Err(Error::Unsupported)
            } else {
                snapshots_upto(b, btree::node_nkeys(b) as int)
            },
        }
    }
}

/// The view of a fallible list of snapshots.
pub open spec fn snapshots_of(r: Result<Vec<SnapshotInfo>>) -> Result<Seq<Snapshot>> {
    match r {
        Ok(v) => Ok(snapshot_views(v@)),
        Err(e) => Err(e),
    }
}

proof fn lemma_snapshots_err(b: Seq<u8>, i: int, n: int)
    requires
        i <= n,
        snapshots_upto(b, i) is Err,
    ensures
        snapshots_upto(b, n) == snapshots_upto(b, i),
    decreases n - i,
{
    if i < n {
        lemma_snapshots_err(b, i, n - 1);
    }
}

/// Index of the first snapshot from `i` on with the transaction `xid`.
pub open spec fn with_xid(s: Seq<Snapshot>, xid: u64, i: int) -> Option<int>
    decreases s.len() - i,
{
    if i >= s.len() {
        None
    } else if s[i].xid == xid {
        Some(i)
    } else {
        with_xid(s, xid, i + 1)
    }
}

/// Index of the first snapshot from `i` on that is named `name`.
pub open spec fn with_name(s: Seq<Snapshot>, name: Seq<char>, i: int) -> Option<int>
    decreases s.len() - i,
{
    if i >= s.len() {
        None
    } else if s[i].name == name {
        Some(i)
    } else {
        with_name(s, name, i + 1)
    }
}

/// The volume in slot `index` as it was when the snapshot `s` was taken.
pub open spec fn at_snapshot(img: Seq<u8>, index: int, s: Snapshot) -> Result<Fs> {
    match container::container(img) {
        Err(e) => Err(e),
        Ok(c) => read_outcome(volume::volume(img, c, index, Some((s.sblock_paddr, s.xid)))),
    }
}

impl Fs {
    /// The snapshots of the volume.
    pub open spec fn snapshot_list(self, img: Seq<u8>) -> Result<Seq<Snapshot>> {
        match self.mounted() {
            Ok(m) => snapshots(m, img),
            Err(e) => Err(e),
        }
    }

    /// The volume as it was at the snapshot of the transaction `xid`.
    pub open spec fn snapshot_by_xid(self, img: Seq<u8>, xid: u64) -> Result<Fs> {
        match self.snapshot_list(img) {
            Err(e) => Err(e),
            Ok(s) => match with_xid(s, xid, 0) {
                None => Err(Error::InvalidArgument),
                Some(i) => at_snapshot(img, self.mounted()->Ok_0.index, s[i]),
            },
        }
    }

    /// The volume as it was at the snapshot that is named `name`.
    pub open spec fn snapshot_by_name(self, img: Seq<u8>, name: Seq<char>) -> Result<Fs> {
        match self.snapshot_list(img) {
            Err(e) => Err(e),
            Ok(s) => match with_name(s, name, 0) {
                None => Err(Error::InvalidArgument),
                Some(i) => at_snapshot(img, self.mounted()->Ok_0.index, s[i]),
            },
        }
    }
}

/// The volume in slot `index` of the container on the device `img`, open for
/// reading.
pub open spec fn volume_in_slot(img: Seq<u8>, index: int) -> Result<Fs> {
    match container::container(img) {
        Ok(c) => read_outcome(volume::volume(img, c, index, None)),
        Err(e) => Err(e),
    }
}

// ---- attributes ----

/// Kind of an entry by its mode.
pub open spec fn kind_of_mode(mode: u16) -> EntryKind {
    let t = record::type_bits(mode);
    if t == 0x4000 {
        EntryKind::Dir
    } else if t == 0xa000 {
        EntryKind::Symlink
    } else if t == 0x2000 {
        EntryKind::Char
    } else if t == 0x6000 {
        EntryKind::Block
    } else if t == 0x1000 {
        EntryKind::Fifo
    } else if t == 0xc000 {
        EntryKind::Socket
    } else {
        EntryKind::Regular
    }
}

/// `ns` nanoseconds in whole seconds, as far as 32 bits hold them.
pub open spec fn whole_seconds(ns: u64) -> u32 {
    (ns / 1_000_000_000 % 0x1_0000_0000) as u32
}

/// Number of links that the inode value `b` of an entry of kind `k` tells: two
/// for a directory, and at least one for everything else.
pub open spec fn links(b: Seq<u8>, k: EntryKind) -> u32 {
    let n = bytes::get32(b, 56);
    if k == EntryKind::Dir {
        2
    } else if n == 0 || n >= 0x8000_0000 {
        1
    } else {
        n
    }
}

/// The attributes of object `oid` with the inode value `b`.
pub open spec fn attrs(oid: u64, b: Seq<u8>) -> FileAttrs {
    let mode = bytes::get16(b, 80);
    let size = volume::inode_size(b);
    FileAttrs {
        kind: kind_of_mode(mode),
        mode: (mode % 0x1000) as u16,
        uid: bytes::get32(b, 72),
        gid: bytes::get32(b, 76),
        size,
        blocks: num::div_up(size as int, 512) as u64,
        nlink: links(b, kind_of_mode(mode)),
        atime: whole_seconds(bytes::get64(b, 40)),
        mtime: whole_seconds(bytes::get64(b, 24)),
        ctime: whole_seconds(bytes::get64(b, 32)),
        rdev: 0,
        inode: (oid % 0x1_0000_0000) as u32,
    }
}

impl Fs {
    /// The entries of the directory at the path `p`, which starts at `/` or is
    /// empty.
    pub open spec fn listing_at(self, img: Seq<u8>, p: Seq<char>) -> Result<Seq<Listed>> {
        match self.mounted() {
            Err(e) => Err(e),
            Ok(m) => if p.len() > 0 && !pending::is_absolute(p) {
                Err(Error::InvalidArgument)
            } else {
                match volume::resolve(m, img, p) {
                    Err(e) => Err(e),
                    Ok(o) => volume::list_dir(m, img, o),
                }
            },
        }
    }

    /// The extended attributes of the object at the path `p`.
    pub open spec fn xattrs_at(self, img: Seq<u8>, p: Seq<char>) -> Result<
        Seq<(Seq<char>, Seq<u8>)>,
    > {
        match self.mounted() {
            Err(e) => Err(e),
            Ok(m) => match volume::resolve(m, img, p) {
                Err(e) => Err(e),
                Ok(o) => content::xattrs(m, img, o),
            },
        }
    }

    /// Whether `r` is what opening the object at the path `p` for reading gives.
    pub open spec fn reader_at(
        self,
        img: Seq<u8>,
        p: Seq<char>,
        r: Result<ApfsFileReader>,
    ) -> bool {
        match self.mounted() {
            Err(e) => r == Err::<ApfsFileReader, Error>(e),
            Ok(m) => match volume::resolve(m, img, p) {
                Err(e) => r == Err::<ApfsFileReader, Error>(e),
                Ok(o) => content::opened(r, m, img, o),
            },
        }
    }

    /// What can be changed.
    pub open spec fn capability(self) -> MutationCapability {
        match self.mode {
            Mode::Read(_) => MutationCapability::Immutable,
            Mode::Pending(_) => MutationCapability::WholeFileOnly,
            Mode::Write(_) => MutationCapability::Mutable,
        }
    }

    /// The attributes of the object at the path `p`.
    pub open spec fn attributes(self, img: Seq<u8>, p: Seq<char>) -> Result<FileAttrs> {
        match self.mounted() {
            Err(e) => Err(e),
            Ok(m) => match volume::resolve(m, img, p) {
                Err(e) => Err(e),
                Ok(o) => match volume::inode(m, img, o) {
                    Err(e) => Err(e),
                    Ok(b) => Ok(attrs(o, b)),
                },
            },
        }
    }
}

fn mode_kind(mode: u16) -> (r: EntryKind)
    ensures
        r == kind_of_mode(mode),
{
    let t: u16 = mode - mode % 0x1000;
    if t == 0x4000 {
        EntryKind::Dir
    } else if t == 0xa000 {
        EntryKind::Symlink
    } else if t == 0x2000 {
        EntryKind::Char
    } else if t == 0x6000 {
        EntryKind::Block
    } else if t == 0x1000 {
        EntryKind::Fifo
    } else if t == 0xc000 {
        EntryKind::Socket
    } else {
        EntryKind::Regular
    }
}

fn to_secs(ns: u64) -> (r: u32)
    ensures
        r == whole_seconds(ns),
{
    (ns / 1_000_000_000 % 0x1_0000_0000) as u32
}

/// Whether the device `img` starts like a container superblock.
pub open spec fn looks_like(img: Seq<u8>) -> bool {
    img.len() >= 64 && bytes::get32(img, 32) == superblock::NX_MAGIC
}

/// Whether a device holds a container: whether its first block starts like a
/// container superblock.
pub fn probe(dev: &MemoryBackend) -> (r: Result<bool>)
    ensures
        r == Ok::<bool, Error>(looks_like(dev@)),
{
    if dev.as_slice().len() < 64 {
        return Ok(false);
    }
    Ok(get_u32(dev.as_slice(), 32) == superblock::NX_MAGIC)
}

impl Apfs {
    /// What holds of every container.
    pub open spec fn wf(self) -> bool {
        self@.wf()
    }

    fn of_read(s: ReadState) -> (r: Self)
        ensures
            r@ == reading(s@),
    {
        Apfs {
            block_size: s.block_size,
            total_bytes: s.total_bytes,
            volume_name: copy_text(s.volume_name.as_str()),
            state: ApfsState::Read(s),
        }
    }

    /// The volume that is read.
    pub(crate) fn read_state(&self) -> (r: Result<&ReadState>)
        ensures
            match r {
                Ok(s) => self@.mounted() == Ok::<Mounted, Error>(s@) && (self@.wf()
                    ==> s.block_size > 0),
                Err(e) => self@.mounted() == Err::<Mounted, Error>(e),
            },
    {
        match &self.state {
            ApfsState::Read(r) => Ok(r),
            ApfsState::Write(w) => Ok(&w.read),
            ApfsState::PendingWrite(_) => Err(Error::Unsupported),
        }
    }

    /// A new container on `dev`. Nothing is written before [`Apfs::flush`].
    pub fn format(
        dev: &MemoryBackend,
        total_blocks: u64,
        block_size: u32,
        volume_name: &str,
    ) -> (r: Result<Self>)
        ensures
            match r {
                Ok(a) => {
                    &&& geometry_ok(dev@.len() as int, total_blocks, block_size)
                    &&& a@ == formatted(total_blocks, block_size, volume_name@)
                    &&& a.wf()
                },
                Err(e) => {
                    &&& !geometry_ok(dev@.len() as int, total_blocks, block_size)
                    &&& e == Error::InvalidArgument
                },
            },
    {
        let held: u64 = dev.total_size();
        let _w = ApfsWriter::new(dev, total_blocks, block_size, volume_name)?;
        Ok(
            Apfs {
                block_size,
                total_bytes: total_blocks * (block_size as u64),
                volume_name: copy_text(volume_name),
                state: ApfsState::PendingWrite(PendingWrite::new(total_blocks)),
            },
        )
    }

    /// Open the first volume of the container on `dev` for reading.
    pub fn open(dev: &MemoryBackend) -> (r: Result<Self>)
        ensures
            fs_of(r) == read_outcome(rw::first_open(dev@)),
            r matches Ok(a) ==> a.wf(),
    {
        let s = open_first(dev)?;
        Ok(Apfs::of_read(s))
    }

    /// Open the first volume of the container on `dev` for changes.
    pub fn open_writable(dev: &MemoryBackend) -> (r: Result<Self>)
        ensures
            fs_of(r) == match rw::writable(dev@) {
                Ok(l) => Ok(
                    Fs {
                        bs: l.m.bs,
                        total_bytes: l.m.total_bytes,
                        name: l.m.name,
                        mode: Mode::Write(l),
                    },
                ),
                Err(e) => Err(e),
            },
            r matches Ok(a) ==> a.wf(),
    {
        let w = open_live(dev)?;
        Ok(
            Apfs {
                block_size: w.read.block_size,
                total_bytes: w.read.total_bytes,
                volume_name: copy_text(w.read.volume_name.as_str()),
                state: ApfsState::Write(w),
            },
        )
    }

    /// The volumes of the container on `dev`, encrypted ones too.
    pub fn list_volumes(dev: &MemoryBackend) -> (r: Result<Vec<VolumeInfo>>)
        ensures
            volumes_of(r) == volumes(dev@),
    {
        let ctx = load_container(dev)?;
        let ghost c = container::container(dev@).unwrap();
        let bs: usize = ctx.block_size as usize;
        let mut out: Vec<VolumeInfo> = Vec::new();
        let mut i: usize = 0;
        proof {
            assert(volume_views(out@) =~= Seq::empty());
        }
        while i < 100
            invariant
                i <= 100,
                ctx.of(c),
                bs == ctx.block_size,
                volumes(dev@) == volumes_upto(dev@, c, 100),
                volumes_upto(dev@, c, i as int) == Ok::<Seq<VolumeEntry>, Error>(
                    volume_views(out@),
                ),
            decreases 100 - i,
        {
            proof {
                if volumes_upto(dev@, c, i + 1) is Err {
                    lemma_volumes_err(dev@, c, i + 1, 100);
                }
            }
            let oid: u64 = ctx.live_sb.fs_oid[i];
            if oid != 0 {
                if let Some(p) = ctx.find_volume(dev, oid)? {
                    let b = dev.read_block(p, bs)?;
                    if let Ok(apsb) = ApfsSuperblock::decode(b.as_slice()) {
                        let role: u16 = if b.len() >= 966 {
                            get_u16(b.as_slice(), 964)
                        } else {
                            0
                        };
                        let v = VolumeInfo {
                            index: i,
                            vol_oid: oid,
                            name: apsb.volname,
                            role,
                            encrypted: apsb.fs_flags % 2 == 0,
                            uuid: apsb.vol_uuid,
                        };
                        let ghost before = out@;
                        let ghost vv = v@;
                        out.push(v);
                        proof {
                            assert(volume_views(out@) =~= volume_views(before).push(vv));
                        }
                    }
                }
            }
            i = i + 1;
        }
        Ok(out)
    }

    /// Open the volume in slot `index` for reading.
    pub fn open_volume(dev: &MemoryBackend, index: usize) -> (r: Result<Self>)
        ensures
            fs_of(r) == volume_in_slot(dev@, index as int),
            r matches Ok(a) ==> a.wf(),
    {
        let ctx = load_container(dev)?;
        let ghost c = container::container(dev@).unwrap();
        let s = open_volume_with_ctx(dev, &ctx, index, None, Ghost(c))?;
        Ok(Apfs::of_read(s))
    }

    /// The snapshots of the volume.
    pub fn list_snapshots(&self, dev: &MemoryBackend) -> (r: Result<Vec<SnapshotInfo>>)
        ensures
            snapshots_of(r) == self@.snapshot_list(dev@),
    {
        let rs = self.read_state()?;
        let ghost m = rs@;
        let mut out: Vec<SnapshotInfo> = Vec::new();
        proof {
            assert(snapshot_views(out@) =~= Seq::empty());
        }
        if rs.snap_meta_tree_oid == 0 {
            return Ok(out);
        }
        let root = dev.read_block(rs.snap_meta_tree_oid, rs.block_size as usize)?;
        let node = BTreeNode::decode(root.as_slice())?;
        if !node.is_leaf() {
            return Err(Error::Unsupported);
        }
        let ghost b = root@;
        let mut i: u32 = 0;
        while i < node.nkeys
            invariant
                node.wf(),
                node.block@ == b,
                i <= node.nkeys,
                self@.mounted() == Ok::<Mounted, Error>(m),
                snapshots(m, dev@) == snapshots_upto(b, node.nkeys as int),
                snapshots_upto(b, i as int) == Ok::<Seq<Snapshot>, Error>(snapshot_views(out@)),
            decreases node.nkeys - i,
        {
            proof {
                if snapshots_upto(b, i + 1) is Err {
                    lemma_snapshots_err(b, i + 1, node.nkeys as int);
                }
            }
            let (kb, vb) = node.entry_at(i, 0, 0)?;
            if let Ok((kind, xid)) = decode_snap_meta_key(kb) {
                if kind == APFS_TYPE_SNAP_METADATA {
                    if let Ok(meta) = SnapMetaVal::decode(vb) {
                        let s = SnapshotInfo {
                            xid,
                            name: meta.name,
                            sblock_paddr: meta.sblock_oid,
                            create_time: meta.create_time,
                        };
                        let ghost before = out@;
                        let ghost sv = s@;
                        out.push(s);
                        proof {
                            assert(snapshot_views(out@) =~= snapshot_views(before).push(sv));
                        }
                    }
                }
            }
            i = i + 1;
        }
        Ok(out)
    }

    fn open_snapshot_at(&self, dev: &MemoryBackend, index: usize, s: &SnapshotInfo) -> (r: Result<
        Self,
    >)
        ensures
            fs_of(r) == at_snapshot(dev@, index as int, s@),
            r matches Ok(a) ==> a.wf(),
    {
        let ctx = load_container(dev)?;
        let ghost c = container::container(dev@).unwrap();
        let st = open_volume_with_ctx(
            dev,
            &ctx,
            index,
            Some((s.sblock_paddr, s.xid)),
            Ghost(c),
        )?;
        Ok(Apfs::of_read(st))
    }

    /// Open the snapshot that was taken at transaction `xid`.
    pub fn open_snapshot(&self, dev: &MemoryBackend, xid: u64) -> (r: Result<Self>)
        ensures
            fs_of(r) == self@.snapshot_by_xid(dev@, xid),
            r matches Ok(a) ==> a.wf(),
    {
        let rs = self.read_state()?;
        let index: usize = rs.volume_index;
        let snaps = self.list_snapshots(dev)?;
        let ghost s = snapshot_views(snaps@);
        let mut i: usize = 0;
        while i < snaps.len()
            invariant
                i <= snaps@.len(),
                s == snapshot_views(snaps@),
                with_xid(s, xid, 0) == with_xid(s, xid, i as int),
                self@.mounted() matches Ok(m) && m.index == index && snapshots(m, dev@) == Ok::<
                    Seq<Snapshot>,
                    Error,
                >(s),
            decreases snaps@.len() - i,
        {
            if snaps[i].xid == xid {
                return self.open_snapshot_at(dev, index, &snaps[i]);
            }
            i = i + 1;
        }
        Err(Error::InvalidArgument)
    }

    /// Open the snapshot that is named `name`.
    pub fn open_snapshot_by_name(&self, dev: &MemoryBackend, name: &str) -> (r: Result<Self>)
        ensures
            fs_of(r) == self@.snapshot_by_name(dev@, name@),
            r matches Ok(a) ==> a.wf(),
    {
        let rs = self.read_state()?;
        let index: usize = rs.volume_index;
        let snaps = self.list_snapshots(dev)?;
        let ghost s = snapshot_views(snaps@);
        let mut i: usize = 0;
        while i < snaps.len()
            invariant
                i <= snaps@.len(),
                s == snapshot_views(snaps@),
                with_name(s, name@, 0) == with_name(s, name@, i as int),
                self@.mounted() matches Ok(m) && m.index == index && snapshots(m, dev@) == Ok::<
                    Seq<Snapshot>,
                    Error,
                >(s),
            decreases snaps@.len() - i,
        {
            if same_text(snaps[i].name.as_str(), name) {
                return self.open_snapshot_at(dev, index, &snaps[i]);
            }
            i = i + 1;
        }
        Err(Error::InvalidArgument)
    }

    /// Size of the container in bytes.
    pub fn total_bytes(&self) -> (n: u64)
        ensures
            n == self@.total_bytes,
    {
        self.total_bytes
    }

    /// Size of a block in bytes.
    pub fn block_size(&self) -> (n: u32)
        ensures
            n == self@.bs,
    {
        self.block_size
    }

    /// Name of the volume.
    pub fn volume_name(&self) -> (s: &str)
        ensures
            s@ == self@.name,
    {
        self.volume_name.as_str()
    }

    /// What can be changed.
    pub fn mutation_capability(&self) -> (r: MutationCapability)
        ensures
            r == self@.capability(),
    {
        match &self.state {
            ApfsState::Read(_) => MutationCapability::Immutable,
            ApfsState::PendingWrite(_) => MutationCapability::WholeFileOnly,
            ApfsState::Write(_) => MutationCapability::Mutable,
        }
    }

    /// The object at `path`.
    pub fn resolve_path_to_oid(&self, dev: &MemoryBackend, path: &str) -> (r: Result<u64>)
        ensures
            r == self@.resolve(dev@, path@),
    {
        match self.read_state() {
            Ok(rs) => rs.resolve_path_to_oid(dev, path),
            Err(e) => {
                let ps = split_path(path);
                if ps.len() == 0 {
                    Ok(ROOT_DIR_INO)
                } else {
                    Err(e)
                }
            },
        }
    }

    /// The directory that holds `path`, and the name in it.
    pub(crate) fn resolve_parent_and_name(&self, dev: &MemoryBackend, path: &str) -> (r: Result<
        (u64, String),
    >)
        ensures
            match r {
                Ok((o, n)) => self@.resolve_parent(dev@, path@) == Ok::<(u64, Seq<char>), Error>(
                    (o, n@),
                ),
                Err(e) => self@.resolve_parent(dev@, path@) == Err::<(u64, Seq<char>), Error>(e),
            },
    {
        match self.read_state() {
            Ok(rs) => rs.resolve_parent_and_name(dev, path),
            Err(e) => {
                let ps = split_path(path);
                if ps.len() == 0 {
                    Err(Error::InvalidArgument)
                } else if ps.len() == 1 {
                    Ok((ROOT_DIR_INO, copy_text(ps[0].as_str())))
                } else {
                    Err(e)
                }
            },
        }
    }

    /// The entries of the directory at `path`, which starts at `/` or is empty.
    pub fn list_path(&self, dev: &MemoryBackend, path: &str) -> (r: Result<Vec<DirEntry>>)
        ensures
            volume::listing_of(r) == self@.listing_at(dev@, path@),
    {
        let rs = self.read_state()?;
        if path.as_bytes().len() > 0 && !starts_at_root(path) {
            return Err(Error::InvalidArgument);
        }
        let oid: u64 = rs.resolve_path_to_oid(dev, path)?;
        rs.list_dir(dev, oid)
    }

    /// The extended attributes of the object at `path`, by name. Those that are
    /// not stored in their records are left out.
    pub fn read_xattrs(&self, dev: &MemoryBackend, path: &str) -> (r: Result<Vec<XattrPair>>)
        ensures
            content::pairs_of(r) == self@.xattrs_at(dev@, path@),
    {
        let rs = self.read_state()?;
        let oid: u64 = rs.resolve_path_to_oid(dev, path)?;
        rs.xattrs_of(dev, oid)
    }

    /// A reader over the file or symbolic link at `path`.
    pub fn open_file_reader(&self, dev: &MemoryBackend, path: &str) -> (r: Result<ApfsFileReader>)
        requires
            self.wf(),
        ensures
            self@.reader_at(dev@, path@, r),
    {
        let rs = self.read_state()?;
        let oid: u64 = rs.resolve_path_to_oid(dev, path)?;
        rs.open_oid(dev, oid)
    }

    /// The attributes of the object at `path`.
    pub fn getattr(&self, dev: &MemoryBackend, path: &str) -> (r: Result<FileAttrs>)
        ensures
            r == self@.attributes(dev@, path@),
    {
        let rs = self.read_state()?;
        let oid: u64 = rs.resolve_path_to_oid(dev, path)?;
        let ino = rs.read_inode_val(dev, oid)?;
        let ghost b = volume::inode(rs@, dev@, oid).unwrap();
        let kind = mode_kind(ino.mode);
        let size: u64 = match ino.dstream {
            Some(d) => d.size,
            None => 0,
        };
        let n: i32 = ino.nchildren_or_nlink;
        proof {
            let w = bytes::get32(b, 56);
            assert(w as i32 == n);
            assert((w as i32) < 1 <==> (w == 0 || w >= 0x8000_0000)) by (bit_vector);
            assert((w as i32) >= 1 ==> w as i32 == w) by (bit_vector);
        }
        let nlink: u32 = if kind == EntryKind::Dir {
            2
        } else if n < 1 {
            1
        } else {
            n as u32
        };
        Ok(
            FileAttrs {
                kind,
                mode: ino.mode % 0x1000,
                uid: ino.owner,
                gid: ino.group,
                size,
                blocks: div_ceil(size, 512),
                nlink,
                atime: to_secs(ino.access_time),
                mtime: to_secs(ino.mod_time),
                ctime: to_secs(ino.change_time),
                rdev: 0,
                inode: (oid % 0x1_0000_0000) as u32,
            },
        )
    }
}

} // verus!
