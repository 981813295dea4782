//! Changing a volume in place: every change writes a new checkpoint.
//!
//! A change takes all the records of the volume, changes the list, and writes
//! the whole tree anew to blocks that are not in use, then a superblock to the
//! next slot of the checkpoint descriptor area. Until that last block is
//! written the checkpoint before is the live one.

use vstd::prelude::*;

use crate::apfs::btree::{self, BTreeNode};
use crate::apfs::container::{self, load_container, read_spaceman_high_water};
use crate::apfs::fstree::{self, FsTreeCtx};
use crate::apfs::pack::{self, sort_records, Rec};
use crate::apfs::record::{self, FsRecord};
use crate::apfs::superblock::{self, ApfsSuperblock};
use crate::apfs::volume::{self, open_volume_with_ctx, Mounted, ReadState};
use crate::apfs::write::{
    pad, ApfsWriter, CheckpointBase, Draft, BUMP_BLOCK_START, NXSB_LIVE_PADDR, XP_DESC_BLOCKS,
};
use crate::block::{self, MemoryBackend};
use crate::bytes::{self, copy_all, get_u64};
use crate::error::{Error, Result};
use crate::num::{self, div_ceil};
use crate::text;

verus! {

/// A volume that is open for changes.
#[verifier::ext_equal]
pub struct Live {
    pub m: Mounted,
    pub container_uuid: Seq<u8>,
    pub volume_uuid: Seq<u8>,
    pub total_blocks: u64,
    pub next_oid: u64,
    pub num_files: u64,
    pub num_directories: u64,
    pub num_symlinks: u64,
    /// Transaction of the live checkpoint.
    pub xid: u64,
    /// Block of the next checkpoint's superblock.
    pub slot: u64,
    /// First block that no checkpoint uses.
    pub bump: u64,
}

/// The volume that opens by default: the first one of the container.
pub open spec fn first_open(img: Seq<u8>) -> Result<Mounted> {
    match container::container(img) {
        Err(e) => Err(e),
        Ok(c) => match container::first_volume(superblock::nx_fs_oid(c.sb), 0) {
            None => Err(Error::InvalidImage),
            Some(i) => volume::volume(img, c, i, None),
        },
    }
}

/// Block of the superblock that follows the one of the container `c`. The slots
/// are used in turn, but for the first one, which holds the checkpoint map.
pub open spec fn next_slot(c: container::Cont) -> int {
    let blocks = bytes::get32(c.sb, 104) as int;
    let n = if blocks > 2 {
        blocks - 1
    } else {
        1
    };
    let off = match c.slot {
        Some(o) => if o >= 1 {
            o % n + 1
        } else {
            1
        },
        None => 1,
    };
    bytes::get64(c.sb, 112) + off
}

/// First block behind all that is in use: behind what the space manager counts,
/// or half of the container where it cannot be read; and behind the container's
/// object map, which is the last thing that a checkpoint allocates.
pub open spec fn high_water(img: Seq<u8>, c: container::Cont) -> u64 {
    let a = match container::used_blocks(img, c.bs()) {
        Some(n) => n,
        None => bytes::get64(c.sb, 40) / 2,
    };
    if c.omap_tree == u64::MAX || a > c.omap_tree {
        if a > c.omap_tree {
            a
        } else {
            u64::MAX
        }
    } else {
        (c.omap_tree + 1) as u64
    }
}

/// The volume on the device `img`, open for changes.
pub open spec fn writable(img: Seq<u8>) -> Result<Live> {
    match first_open(img) {
        Err(e) => Err(e),
        Ok(m) => {
            let c = container::container(img).unwrap();
            let p = volume::apsb_at(img, c, superblock::nx_fs_oid(c.sb)[m.index], None).unwrap();
            let apsb = block::block_at(img, c.bs(), p).unwrap();
            if volume::has_bit(bytes::get64(apsb, 56), 8) {
                Err(Error::Unsupported)
            } else if next_slot(c) > u64::MAX {
                Err(Error::InvalidImage)
            } else {
                Ok(
                    Live {
                        m,
                        container_uuid: c.sb.subrange(72, 88),
                        volume_uuid: apsb.subrange(240, 256),
                        total_blocks: bytes::get64(c.sb, 40),
                        next_oid: bytes::get64(apsb, 176),
                        num_files: bytes::get64(apsb, 184),
                        num_directories: bytes::get64(apsb, 192),
                        num_symlinks: bytes::get64(apsb, 200),
                        xid: c.xid(),
                        slot: next_slot(c) as u64,
                        bump: high_water(img, c),
                    },
                )
            }
        },
    }
}

/// A volume that is open for changes.
pub struct WriteState {
    pub read: ReadState,
    pub container_uuid: Vec<u8>,
    pub volume_uuid: Vec<u8>,
    pub total_blocks: u64,
    pub next_oid: u64,
    pub num_files: u64,
    pub num_directories: u64,
    pub num_symlinks: u64,
    pub cur_xid: u64,
    pub next_xp_desc_slot: u64,
    pub bump_high_water: u64,
}

impl View for WriteState {
    type V = Live;

    open spec fn view(&self) -> Live {
        Live {
            m: self.read@,
            container_uuid: self.container_uuid@,
            volume_uuid: self.volume_uuid@,
            total_blocks: self.total_blocks,
            next_oid: self.next_oid,
            num_files: self.num_files,
            num_directories: self.num_directories,
            num_symlinks: self.num_symlinks,
            xid: self.cur_xid,
            slot: self.next_xp_desc_slot,
            bump: self.bump_high_water,
        }
    }
}

impl Live {
    /// What holds of every volume that is open for changes.
    pub open spec fn wf(self) -> bool {
        &&& self.container_uuid.len() == 16
        &&& self.volume_uuid.len() == 16
        &&& 984 <= self.m.bs <= 65536
        &&& num::is_pow2(self.m.bs as int)
    }
}

/// A block size of at least 984 bytes is one of 1024 bytes or more.
pub proof fn lemma_kilo(n: int)
    requires
        num::is_pow2(n),
        984 <= n <= 65536,
    ensures
        n >= 1024,
{
    if n < 1024 {
        reveal_with_fuel(num::is_pow2, 12);
    }
}

/// Open the first volume for reading.
pub fn open_first(dev: &MemoryBackend) -> (r: Result<ReadState>)
    ensures
        match r {
            Ok(s) => first_open(dev@) == Ok::<Mounted, Error>(s@) && 984 <= s.block_size <= 65536
                && num::is_pow2(s.block_size as int),
            Err(e) => first_open(dev@) == Err::<Mounted, Error>(e),
        },
{
    let ctx = load_container(dev)?;
    let ghost c = container::container(dev@).unwrap();
    match ctx.first_volume() {
        None => Err(Error::InvalidImage),
        Some(i) => open_volume_with_ctx(dev, &ctx, i, None, Ghost(c)),
    }
}

/// Open the first volume for changes.
pub fn open_live(dev: &MemoryBackend) -> (r: Result<WriteState>)
    ensures
        match r {
            Ok(s) => writable(dev@) == Ok::<Live, Error>(s@) && s@.wf(),
            Err(e) => writable(dev@) == Err::<Live, Error>(e),
        },
{
    let read = open_first(dev)?;
    let ctx = load_container(dev)?;
    let ghost c = container::container(dev@).unwrap();
    let bs: usize = ctx.block_size as usize;
    let vol_oid: u64 = ctx.live_sb.fs_oid[read.volume_index];
    let apsb_paddr: u64 = match ctx.find_volume(dev, vol_oid)? {
        Some(p) => p,
        None => {
            return Err(Error::InvalidImage);
        },
    };
    let apsb_block = dev.read_block(apsb_paddr, bs)?;
    let apsb = ApfsSuperblock::decode(apsb_block.as_slice())?;
    if apsb.incompatible_features / 8 % 2 == 1 {
        return Err(Error::Unsupported);
    }
    let blocks: u64 = ctx.live_sb.xp_desc_blocks as u64;
    let n: u64 = if blocks > 2 {
        blocks - 1
    } else {
        1
    };
    let off: u64 = match ctx.live_xp_desc_offset {
        Some(o) => if o >= 1 {
            o % n + 1
        } else {
            1
        },
        None => 1,
    };
    let slot: u64 = match ctx.live_sb.xp_desc_base.checked_add(off) {
        Some(s) => s,
        None => {
            return Err(Error::InvalidImage);
        },
    };
    let used: u64 = match read_spaceman_high_water(dev, bs) {
        Some(u) => u,
        None => ctx.live_sb.block_count / 2,
    };
    let bump: u64 = if used > ctx.omap_tree {
        used
    } else if ctx.omap_tree == u64::MAX {
        u64::MAX
    } else {
        ctx.omap_tree + 1
    };
    Ok(
        WriteState {
            read,
            container_uuid: ctx.live_sb.uuid,
            volume_uuid: apsb.vol_uuid,
            total_blocks: ctx.live_sb.block_count,
            next_oid: get_u64(apsb_block.as_slice(), 176),
            num_files: apsb.num_files,
            num_directories: apsb.num_directories,
            num_symlinks: apsb.num_symlinks,
            cur_xid: ctx.live_sb.obj.xid,
            next_xp_desc_slot: slot,
            bump_high_water: bump,
        },
    )
}

// ---- all the records of a volume ----

/// The first `i` records of the leaf `b`.
pub open spec fn leaf_recs(b: Seq<u8>, i: int) -> Result<Seq<Rec>>
    decreases i,
{
    if i <= 0 {
        Ok(Seq::empty())
    } else {
        match leaf_recs(b, i - 1) {
            Err(e) => Err(e),
            Ok(s) => match btree::entry(b, i - 1, 0, 0) {
                Err(e) => Err(e),
                Ok(r) => if r.0.len() < 8 {
                    Err(Error::InvalidImage)
                } else {
                    Ok(s.push(r))
                },
            },
        }
    }
}

/// The leaves below the first `i` entries of the root `b`. Deeper trees are
/// refused; an entry that is too short for a child link is left out.
pub open spec fn leaves_upto(v: fstree::Vol, b: Seq<u8>, i: int) -> Result<Seq<Seq<u8>>>
    decreases i,
{
    if i <= 0 {
        Ok(Seq::empty())
    } else {
        match leaves_upto(v, b, i - 1) {
            Err(e) => Err(e),
            Ok(s) => match btree::entry(b, i - 1, 0, 8) {
                Err(e) => Err(e),
                Ok(r) => if r.1.len() < 8 {
                    Ok(s)
                } else {
                    match fstree::block_of_vid(v, bytes::get64(r.1, 0)) {
                        Err(e) => Err(e),
                        Ok(c) => if !btree::is_node(c) {
                            Err(Error::InvalidImage)
                        } else if !btree::node_is_leaf(c) {
                            Err(Error::Unsupported)
                        } else {
                            Ok(s.push(c))
                        },
                    }
                },
            },
        }
    }
}

/// The leaves of the tree with the root `b`.
pub open spec fn leaves(v: fstree::Vol, b: Seq<u8>) -> Result<Seq<Seq<u8>>> {
    if !btree::is_node(b) {
        Err(Error::InvalidImage)
    } else if btree::node_is_leaf(b) {
        Ok(seq![b])
    } else {
        leaves_upto(v, b, btree::node_nkeys(b) as int)
    }
}

/// The records of the first `i` of the leaves `ls`.
pub open spec fn recs_upto(ls: Seq<Seq<u8>>, i: int) -> Result<Seq<Rec>>
    decreases i,
{
    if i <= 0 {
        Ok(Seq::empty())
    } else {
        match recs_upto(ls, i - 1) {
            Err(e) => Err(e),
            Ok(s) => match leaf_recs(ls[i - 1], btree::node_nkeys(ls[i - 1]) as int) {
                Err(e) => Err(e),
                Ok(t) => Ok(s + t),
            },
        }
    }
}

/// All the records of the volume `m`, in order.
pub open spec fn all_records(m: Mounted, img: Seq<u8>) -> Result<Seq<Rec>> {
    match leaves(m.vol(img), m.root) {
        Err(e) => Err(e),
        Ok(ls) => match recs_upto(ls, ls.len() as int) {
            Err(e) => Err(e),
            Ok(rs) => Ok(pack::sort(rs)),
        },
    }
}

/// An error while reading the records of one leaf stays one.
proof fn lemma_leaf_recs_err(b: Seq<u8>, i: int, n: int)
    requires
        i <= n,
        leaf_recs(b, i) is Err,
    ensures
        leaf_recs(b, n) == leaf_recs(b, i),
    decreases n - i,
{
    if i < n {
        lemma_leaf_recs_err(b, i, n - 1);
    }
}

proof fn lemma_leaves_err(v: fstree::Vol, b: Seq<u8>, i: int, n: int)
    requires
        i <= n,
        leaves_upto(v, b, i) is Err,
    ensures
        leaves_upto(v, b, n) == leaves_upto(v, b, i),
    decreases n - i,
{
    if i < n {
        lemma_leaves_err(v, b, i, n - 1);
    }
}

proof fn lemma_recs_err(ls: Seq<Seq<u8>>, i: int, n: int)
    requires
        i <= n,
        recs_upto(ls, i) is Err,
    ensures
        recs_upto(ls, n) == recs_upto(ls, i),
    decreases n - i,
{
    if i < n {
        lemma_recs_err(ls, i, n - 1);
    }
}

/// Append the records of the leaf `b` to `out`.
fn push_leaf(b: &Vec<u8>, out: &mut Vec<FsRecord>) -> (r: Result<()>)
    requires
        btree::is_node(b@),
        pack::keyed(record::recs(old(out)@)),
    ensures
        match leaf_recs(b@, btree::node_nkeys(b@) as int) {
            Ok(s) => {
                &&& r is Ok
                &&& record::recs(final(out)@) == record::recs(old(out)@) + s
                &&& pack::keyed(record::recs(final(out)@))
            },
            Err(e) => r == Err::<(), Error>(e),
        },
{
    let ghost start = record::recs(out@);
    let node = BTreeNode::decode(b.as_slice())?;
    let ghost mut got: Seq<Rec> = Seq::empty();
    let mut i: u32 = 0;
    proof {
        assert(start + got =~= start);
    }
    while i < node.nkeys
        invariant
            node.wf(),
            node.block@ == b@,
            i <= node.nkeys,
            start == record::recs(old(out)@),
            leaf_recs(b@, i as int) == Ok::<Seq<Rec>, Error>(got),
            record::recs(out@) == start + got,
            pack::keyed(record::recs(out@)),
        decreases node.nkeys - i,
    {
        let (kb, vb) = match node.entry_at(i, 0, 0) {
            Ok(p) => p,
            Err(e) => {
                proof {
                    lemma_leaf_recs_err(b@, i + 1, node.nkeys as int);
                }
                return Err(e);
            },
        };
        if kb.len() < 8 {
            proof {
                lemma_leaf_recs_err(b@, i + 1, node.nkeys as int);
            }
            return Err(Error::InvalidImage);
        }
        let rec = FsRecord { key: copy_all(kb), val: copy_all(vb) };
        let ghost rv = rec@;
        let ghost before = out@;
        out.push(rec);
        proof {
            assert(record::recs(out@) =~= record::recs(before).push(rv));
            assert(start + got.push(rv) =~= (start + got).push(rv));
            got = got.push(rv);
        }
        i = i + 1;
    }
    Ok(())
}

/// The views of a list of blocks.
pub open spec fn block_views(s: Seq<Vec<u8>>) -> Seq<Seq<u8>> {
    Seq::new(s.len(), |i: int| s[i]@)
}

impl ReadState {
    /// Collect the leaves of the tree.
    fn collect_leaves(&self, dev: &MemoryBackend) -> (r: Result<Vec<Vec<u8>>>)
        ensures
            match r {
                Ok(ls) => {
                    &&& leaves(self@.vol(dev@), self@.root) == Ok::<Seq<Seq<u8>>, Error>(
                        block_views(ls@),
                    )
                    &&& forall|k: int| 0 <= k < ls@.len() ==> btree::is_node((#[trigger] ls@[k])@)
                },
                Err(e) => leaves(self@.vol(dev@), self@.root) == Err::<Seq<Seq<u8>>, Error>(e),
            },
    {
        let ghost v = self@.vol(dev@);
        let root = BTreeNode::decode(self.fsroot_block.as_slice())?;
        let ghost b = root.block@;
        let mut out: Vec<Vec<u8>> = Vec::new();
        if root.is_leaf() {
            out.push(copy_all(self.fsroot_block.as_slice()));
            proof {
                assert(block_views(out@) =~= seq![self@.root]);
            }
            return Ok(out);
        }
        let mut ctx = FsTreeCtx::new(
            copy_all(self.omap_root.as_slice()),
            self.omap_xid,
            self.block_size as usize,
        );
        let mut i: u32 = 0;
        proof {
            assert(block_views(out@) =~= Seq::empty());
        }
        while i < root.nkeys
            invariant
                root.wf(),
                root.block@ == b,
                i <= root.nkeys,
                ctx.wf(dev@),
                ctx.vol(dev@) == v,
                leaves_upto(v, b, i as int) == Ok::<Seq<Seq<u8>>, Error>(block_views(out@)),
                forall|k: int| 0 <= k < out@.len() ==> btree::is_node((#[trigger] out@[k])@),
                leaves(v, b) == leaves_upto(v, b, root.nkeys as int),
                b == self@.root,
                v == self@.vol(dev@),
            decreases root.nkeys - i,
        {
            proof {
                if leaves_upto(v, b, i + 1) is Err {
                    lemma_leaves_err(v, b, i + 1, root.nkeys as int);
                }
            }
            let (_, vb) = root.entry_at(i, 0, 8)?;
            if vb.len() >= 8 {
                let c = ctx.load_vid(get_u64(vb, 0), dev)?;
                let node = BTreeNode::decode(c.as_slice())?;
                if !node.is_leaf() {
                    return Err(Error::Unsupported);
                }
                let ghost before = out@;
                let ghost cv = c@;
                out.push(c);
                proof {
                    assert(block_views(out@) =~= block_views(before).push(cv));
                }
            }
            i = i + 1;
        }
        Ok(out)
    }

    /// All the records of the volume, in order.
    pub fn dump_all_records(&self, dev: &MemoryBackend) -> (r: Result<Vec<FsRecord>>)
        ensures
            match r {
                Ok(rs) => {
                    &&& all_records(self@, dev@) == Ok::<Seq<Rec>, Error>(record::recs(rs@))
                    &&& pack::keyed(record::recs(rs@))
                },
                Err(e) => all_records(self@, dev@) == Err::<Seq<Rec>, Error>(e),
            },
    {
        let blocks = self.collect_leaves(dev)?;
        let ghost ls = block_views(blocks@);
        let mut out: Vec<FsRecord> = Vec::new();
        let mut i: usize = 0;
        proof {
            assert(record::recs(out@) =~= Seq::empty());
        }
        while i < blocks.len()
            invariant
                i <= blocks@.len(),
                ls == block_views(blocks@),
                forall|k: int|
                    0 <= k < blocks@.len() ==> btree::is_node((#[trigger] blocks@[k])@),
                recs_upto(ls, i as int) == Ok::<Seq<Rec>, Error>(record::recs(out@)),
                pack::keyed(record::recs(out@)),
                leaves(self@.vol(dev@), self@.root) == Ok::<Seq<Seq<u8>>, Error>(ls),
            decreases blocks@.len() - i,
        {
            proof {
                assert(ls[i as int] == blocks@[i as int]@);
                if recs_upto(ls, i + 1) is Err {
                    lemma_recs_err(ls, i + 1, ls.len() as int);
                }
            }
            push_leaf(&blocks[i], &mut out)?;
            i = i + 1;
        }
        proof {
            pack::lemma_sort(record::recs(out@));
        }
        sort_records(&mut out);
        Ok(out)
    }
}

// ---- a change in the making ----

/// The records of a volume and the counters that go with them, while they are
/// being changed.
#[verifier::ext_equal]
pub struct Edit {
    pub recs: Seq<Rec>,
    pub bump: u64,
    pub next_oid: u64,
    pub num_files: u64,
    pub num_directories: u64,
    pub num_symlinks: u64,
}

impl Live {
    /// A change that starts from the records `rs`.
    pub open spec fn edit(self, rs: Seq<Rec>) -> Edit {
        Edit {
            recs: rs,
            bump: self.bump,
            next_oid: self.next_oid,
            num_files: self.num_files,
            num_directories: self.num_directories,
            num_symlinks: self.num_symlinks,
        }
    }

    /// Whether `len` bytes can be allocated behind block `bump`.
    pub open spec fn has_room(self, bump: u64, len: u64) -> bool {
        bump + num::div_up(len as int, self.m.bs as int) <= self.total_blocks
    }

    /// The writer of the checkpoint that `e` makes; or why there is none.
    pub open spec fn checkpoint(self, e: Edit) -> Result<Draft> {
        if self.xid >= u64::MAX - 1 || e.next_oid > u64::MAX - 1024 || e.recs.len() + 0x2_0000
            > u64::MAX {
            Err(Error::Unsupported)
        } else if !(BUMP_BLOCK_START <= e.bump < self.total_blocks)
            || !(NXSB_LIVE_PADDR <= self.slot <= XP_DESC_BLOCKS) {
            Err(Error::InvalidArgument)
        } else {
            Ok(
                Draft {
                    block_size: self.m.bs,
                    total_blocks: self.total_blocks,
                    next_block: e.bump,
                    name: self.m.name,
                    container_uuid: self.container_uuid,
                    volume_uuid: self.volume_uuid,
                    records: e.recs,
                    next_oid: e.next_oid,
                    num_files: e.num_files,
                    num_directories: e.num_directories,
                    num_symlinks: e.num_symlinks,
                    xid: (self.xid + 1) as u64,
                    nxsb_paddr: self.slot,
                    fresh: false,
                },
            )
        }
    }

    /// Writing the checkpoint that `e` makes to the device `img`: the device
    /// after it, and the volume as it then opens.
    pub open spec fn committed(self, e: Edit, img: Seq<u8>) -> (Seq<u8>, Result<Live>) {
        match self.checkpoint(e) {
            Err(x) => (img, Err(x)),
            Ok(d) => match d.plan() {
                Err(x) => (img, Err(x)),
                Ok(bl) => {
                    let done = block::store_all(img, self.m.bs as int, bl);
                    if done.1 {
                        (done.0, writable(done.0))
                    } else {
                        (done.0, Err(Error::OutOfBounds))
                    }
                },
            },
        }
    }
}

/// The records of a volume and the counters that go with them, while they are
/// being changed.
pub struct MutatorCx {
    pub records: Vec<FsRecord>,
    pub block_size: u32,
    pub total_blocks: u64,
    pub bump_high_water: u64,
    pub next_oid: u64,
    pub num_files: u64,
    pub num_directories: u64,
    pub num_symlinks: u64,
}

impl View for MutatorCx {
    type V = Edit;

    open spec fn view(&self) -> Edit {
        Edit {
            recs: record::recs(self.records@),
            bump: self.bump_high_water,
            next_oid: self.next_oid,
            num_files: self.num_files,
            num_directories: self.num_directories,
            num_symlinks: self.num_symlinks,
        }
    }
}

/// `n` plus one, or the largest number.
pub open spec fn bumped(n: u64) -> u64 {
    if n == u64::MAX {
        n
    } else {
        (n + 1) as u64
    }
}

fn bump_count(n: u64) -> (r: u64)
    ensures
        r == bumped(n),
{
    if n == u64::MAX {
        n
    } else {
        n + 1
    }
}

impl MutatorCx {
    /// Whether this is a change to the volume `l`.
    pub open spec fn of(self, l: Live) -> bool {
        &&& self.block_size == l.m.bs
        &&& self.block_size > 0
        &&& self.total_blocks == l.total_blocks
        &&& pack::keyed(self@.recs)
    }

    /// Give out an object id.
    pub fn alloc_oid(&mut self) -> (o: u64)
        ensures
            o == old(self)@.next_oid,
            final(self)@ == (Edit { next_oid: bumped(old(self)@.next_oid), ..old(self)@ }),
            final(self).block_size == old(self).block_size,
            final(self).total_blocks == old(self).total_blocks,
            final(self).records == old(self).records,
    {
        let o: u64 = self.next_oid;
        self.next_oid = bump_count(o);
        o
    }

    /// Allocate blocks for `len_bytes` bytes; gives the first one, or zero
    /// where there are no bytes.
    pub fn alloc_extent(&mut self, len_bytes: u64) -> (r: Result<u64>)
        requires
            old(self).block_size > 0,
        ensures
            final(self).block_size == old(self).block_size,
            final(self).total_blocks == old(self).total_blocks,
            final(self).records == old(self).records,
            ({
                let n = num::div_up(len_bytes as int, old(self).block_size as int);
                let end = old(self)@.bump + n;
                if len_bytes == 0 {
                    r == Ok::<u64, Error>(0) && final(self)@ == old(self)@
                } else if end > old(self).total_blocks {
                    r == Err::<u64, Error>(Error::InvalidArgument) && final(self)@ == old(self)@
                } else {
                    &&& r == Ok::<u64, Error>(old(self)@.bump)
                    &&& final(self)@ == (Edit { bump: end as u64, ..old(self)@ })
                }
            }),
    {
        if len_bytes == 0 {
            return Ok(0);
        }
        let blocks: u64 = div_ceil(len_bytes, self.block_size as u64);
        let start: u64 = self.bump_high_water;
        match start.checked_add(blocks) {
            None => Err(Error::InvalidArgument),
            Some(end) => {
                if end > self.total_blocks {
                    return Err(Error::InvalidArgument);
                }
                self.bump_high_water = end;
                Ok(start)
            },
        }
    }

    /// Store `b` from block `paddr` on, filled up with zeros to whole blocks.
    /// Nothing is written where it does not fit on the device.
    pub fn write_extent_bytes(&self, dev: &mut MemoryBackend, paddr: u64, b: &[u8]) -> (r: Result<
        (),
    >)
        requires
            self.block_size > 0,
        ensures
            ({
                let bs = self.block_size as int;
                let n = num::div_up(b@.len() as int, bs) * bs;
                let ok = b@.len() == 0 || paddr * bs + n <= old(dev)@.len();
                &&& r == if ok {
                    Ok(())
                } else {
                    Err::<(), Error>(Error::OutOfBounds)
                }
                &&& final(dev)@ == if ok && b@.len() > 0 {
                    bytes::put(
                        old(dev)@,
                        paddr * bs,
                        crate::apfs::write::padded(b@, b@.len() as int, n),
                    )
                } else {
                    old(dev)@
                }
            }),
    {
        if b.len() == 0 {
            return Ok(());
        }
        let bs: u64 = self.block_size as u64;
        let blocks: u64 = div_ceil(b.len() as u64, bs);
        proof {
            num::lemma_div_up(b@.len() as int, bs as int);
            assert(paddr * bs >= 0) by (nonlinear_arith);
        }
        let held: u64 = dev.total_size();
        let slice_held: usize = dev.as_slice().len();
        let n: u64 = match blocks.checked_mul(bs) {
            Some(n) => n,
            None => {
                return Err(Error::OutOfBounds);
            },
        };
        if n > held {
            return Err(Error::OutOfBounds);
        }
        let buf = pad(b, b.len(), n as usize);
        dev.write_block(paddr, self.block_size as usize, buf.as_slice())
    }

    /// Count a new regular file.
    pub fn note_new_file(&mut self)
        ensures
            final(self)@ == (Edit { num_files: bumped(old(self)@.num_files), ..old(self)@ }),
            final(self).block_size == old(self).block_size,
            final(self).total_blocks == old(self).total_blocks,
    {
        self.num_files = bump_count(self.num_files);
    }

    /// Count a new directory.
    pub fn note_new_dir(&mut self)
        ensures
            final(self)@ == (Edit {
                num_directories: bumped(old(self)@.num_directories),
                ..old(self)@
            }),
            final(self).block_size == old(self).block_size,
            final(self).total_blocks == old(self).total_blocks,
    {
        self.num_directories = bump_count(self.num_directories);
    }

    /// Count a new symbolic link.
    pub fn note_new_symlink(&mut self)
        ensures
            final(self)@ == (Edit { num_symlinks: bumped(old(self)@.num_symlinks), ..old(self)@ }),
            final(self).block_size == old(self).block_size,
            final(self).total_blocks == old(self).total_blocks,
    {
        self.num_symlinks = bump_count(self.num_symlinks);
    }
}

impl WriteState {
    /// Start a change: all the records and the counters.
    pub fn begin(&self, dev: &MemoryBackend) -> (r: Result<MutatorCx>)
        requires
            self@.wf(),
        ensures
            match r {
                Ok(cx) => {
                    &&& all_records(self@.m, dev@) matches Ok(rs)
                    &&& cx@ == self@.edit(rs)
                    &&& cx.of(self@)
                },
                Err(e) => all_records(self@.m, dev@) == Err::<Seq<Rec>, Error>(e),
            },
    {
        let records = self.read.dump_all_records(dev)?;
        Ok(
            MutatorCx {
                records,
                block_size: self.read.block_size,
                total_blocks: self.total_blocks,
                bump_high_water: self.bump_high_water,
                next_oid: self.next_oid,
                num_files: self.num_files,
                num_directories: self.num_directories,
                num_symlinks: self.num_symlinks,
            },
        )
    }

    /// Write a new checkpoint with the changed records, and open it.
    pub fn commit(&self, dev: &mut MemoryBackend, cx: MutatorCx) -> (r: Result<WriteState>)
        requires
            self@.wf(),
            cx.of(self@),
        ensures
            ({
                let (img, res) = self@.committed(cx@, old(dev)@);
                &&& final(dev)@ == img
                &&& match r {
                    Ok(w) => res == Ok::<Live, Error>(w@) && w@.wf(),
                    Err(e) => res == Err::<Live, Error>(e),
                }
            }),
    {
        let ghost d0 = self@.checkpoint(cx@);
        if self.cur_xid >= u64::MAX - 1 || cx.next_oid > u64::MAX - 1024 || (cx.records.len()
            as u64) > u64::MAX - 0x2_0000 {
            return Err(Error::Unsupported);
        }
        let base = CheckpointBase {
            total_blocks: self.total_blocks,
            block_size: self.read.block_size,
            volume_name: text::copy_text(self.read.volume_name.as_str()),
            container_uuid: copy_all(self.container_uuid.as_slice()),
            volume_uuid: copy_all(self.volume_uuid.as_slice()),
            xid: self.cur_xid + 1,
            nxsb_paddr: self.next_xp_desc_slot,
            bump_block_start: cx.bump_high_water,
            next_oid: cx.next_oid,
            num_files: cx.num_files,
            num_directories: cx.num_directories,
            num_symlinks: cx.num_symlinks,
        };
        let mut w = ApfsWriter::new_checkpoint(base)?;
        let ghost empty = w@;
        let ghost rs = cx@.recs;
        let mut i: usize = 0;
        proof {
            lemma_kilo(self@.m.bs as int);
            assert(empty.records + rs.take(0) =~= empty.records);
        }
        while i < cx.records.len()
            invariant
                i <= cx.records@.len(),
                rs == record::recs(cx.records@),
                pack::keyed(rs),
                w@.wf(),
                empty.records.len() == 0,
                w@ == (Draft { records: rs.take(i as int), ..empty }),
            decreases cx.records@.len() - i,
        {
            let c = pack::copy_record(&cx.records[i]);
            let ghost cv = c@;
            assert(rs[i as int] == cv);
            w.push_raw_record(c);
            proof {
                assert(rs.take(i as int) + seq![cv] =~= rs.take(i + 1));
            }
            i = i + 1;
        }
        proof {
            assert(rs.take(i as int) =~= rs);
            assert(d0 == Ok::<Draft, Error>(w@));
        }
        w.finish(dev)?;
        open_live(dev)
    }
}

} // verus!
