//! Finding the live checkpoint of a container.

use vstd::prelude::*;

use crate::apfs::checksum;
use crate::apfs::omap::{self, lookup, OmapKey, OmapPhys};
use crate::apfs::spaceman::OBJECT_TYPE_SPACEMAN;
use crate::apfs::superblock::{self, NxSuperblock};
use crate::apfs::write::SPACEMAN_PADDR;
use crate::block::{self, MemoryBackend};
use crate::bytes::{self, get_u32, get_u64};
use crate::error::{Error, Result};
use crate::num::{self, power_of_two};

verus! {

/// The first container superblock of the device `img`: that of block 0, whose
/// size it tells itself.
pub open spec fn label(img: Seq<u8>) -> Result<Seq<u8>> {
    if img.len() < 4096 {
        Err(Error::OutOfBounds)
    } else {
        let head = img.subrange(0, 4096);
        let bs = bytes::get32(head, 36);
        if !superblock::is_nx(head) || bs == 0 || bs > 65536 || !num::is_pow2(bs as int) {
            Err(Error::InvalidImage)
        } else if img.len() < bs {
            Err(Error::OutOfBounds)
        } else if !superblock::is_nx(img.subrange(0, bs as int)) {
            Err(Error::InvalidImage)
        } else {
            Ok(img.subrange(0, bs as int))
        }
    }
}

/// Transaction of the superblock `b`.
pub open spec fn sb_xid(b: Seq<u8>) -> u64 {
    bytes::get64(b, 16)
}

/// Whether the superblock `b` reached the device in part: it carries a checksum,
/// which is not that of the rest.
#[verifier::opaque]
pub open spec fn torn(b: Seq<u8>) -> bool {
    &&& bytes::get64(b, 0) != 0
    &&& bytes::get64(b, 0) != u64::MAX
    &&& !checksum::verifies(b)
}

/// The container superblock at slot `i` of the checkpoint descriptor area that
/// `lab` describes, if there is one that is not torn.
pub open spec fn slot_sb(img: Seq<u8>, lab: Seq<u8>, i: int) -> Option<Seq<u8>> {
    let bs = lab.len() as int;
    let at = (bytes::get64(lab, 112) + i) * bs;
    if at + bs > img.len() {
        None
    } else {
        let b = img.subrange(at, at + bs);
        if superblock::is_nx(b) && !torn(b) {
            Some(b)
        } else {
            None
        }
    }
}

/// The superblock with the latest transaction among the first `n` slots, with
/// its slot; the first of several with the same one. A superblock older than
/// `lab` is not taken while nothing better was seen.
pub open spec fn latest(img: Seq<u8>, lab: Seq<u8>, n: int) -> Option<(Seq<u8>, int)>
    decreases n,
{
    if n <= 0 {
        None
    } else {
        let best = latest(img, lab, n - 1);
        match slot_sb(img, lab, n - 1) {
            None => best,
            Some(b) => {
                let better = match best {
                    None => sb_xid(b) >= sb_xid(lab),
                    Some((c, _)) => sb_xid(b) > sb_xid(c),
                };
                if better {
                    Some((b, n - 1))
                } else {
                    best
                }
            },
        }
    }
}

/// A container at its live checkpoint.
pub struct Cont {
    /// The superblock.
    pub sb: Seq<u8>,
    /// Its slot; none where it is the one of block 0.
    pub slot: Option<int>,
    /// Root node of the object map.
    pub omap: Seq<u8>,
    /// Address of that node.
    pub omap_tree: u64,
}

impl Cont {
    /// Block size.
    pub open spec fn bs(self) -> int {
        self.sb.len() as int
    }

    /// Size of the container in bytes, or the largest number that can be told.
    pub open spec fn total_bytes(self) -> u64 {
        let n = bytes::get64(self.sb, 40) * self.bs();
        if n <= u64::MAX {
            n as u64
        } else {
            u64::MAX
        }
    }

    /// Transaction of the checkpoint.
    pub open spec fn xid(self) -> u64 {
        sb_xid(self.sb)
    }
}

/// The tree address in the object-map header at block `paddr`.
pub open spec fn omap_at(img: Seq<u8>, bs: int, paddr: u64) -> Result<u64> {
    match block::block_at(img, bs, paddr) {
        Err(_) => Err(Error::InvalidImage),
        Ok(b) => match omap::omap_phys(b) {
            Err(e) => Err(e),
            Ok(h) => Ok(h.tree_oid),
        },
    }
}

/// The container on the device `img`.
pub open spec fn container(img: Seq<u8>) -> Result<Cont> {
    match label(img) {
        Err(e) => Err(e),
        Ok(lab) => {
            let best = latest(img, lab, bytes::get32(lab, 104) as int);
            let sb = match best {
                Some((b, _)) => b,
                None => lab,
            };
            let slot = match best {
                Some((_, i)) => Some(i),
                None => None,
            };
            match omap_at(img, lab.len() as int, bytes::get64(sb, 160)) {
                Err(e) => Err(e),
                Ok(tree) => match block::block_at(img, lab.len() as int, tree) {
                    Err(e) => Err(e),
                    Ok(root) => Ok(Cont { sb, slot, omap: root, omap_tree: tree }),
                },
            }
        },
    }
}

/// A container at its live checkpoint.
pub struct ContainerCtx {
    pub live_sb: NxSuperblock,
    pub omap_root: Vec<u8>,
    pub omap_tree: u64,
    pub block_size: u32,
    pub total_bytes: u64,
    /// Slot of the superblock in the checkpoint descriptor area.
    pub live_xp_desc_offset: Option<u64>,
}

impl ContainerCtx {
    /// Whether this is the container `c`.
    pub open spec fn of(self, c: Cont) -> bool {
        &&& self.live_sb.of(c.sb)
        &&& superblock::is_nx(c.sb)
        &&& self.omap_root@ == c.omap
        &&& self.omap_tree == c.omap_tree
        &&& self.block_size == c.bs()
        &&& 0 < self.block_size <= 65536
        &&& num::is_pow2(self.block_size as int)
        &&& c.omap.len() == c.bs()
        &&& self.total_bytes == c.total_bytes()
        &&& match (self.live_xp_desc_offset, c.slot) {
            (Some(a), Some(b)) => a == b,
            (None, None) => true,
            _ => false,
        }
    }
}

/// Read the object-map header at block `paddr`.
pub fn read_omap_header(dev: &MemoryBackend, paddr: u64, bs: usize) -> (r: Result<u64>)
    ensures
        r == omap_at(dev@, bs as int, paddr),
{
    match dev.read_block(paddr, bs) {
        Err(_) => Err(Error::InvalidImage),
        Ok(b) => match OmapPhys::decode(b.as_slice()) {
            Err(e) => Err(e),
            Ok(h) => Ok(h.tree_oid),
        },
    }
}

/// Whether the superblock `b` reached the device in part.
fn is_torn(b: &[u8]) -> (r: bool)
    requires
        b@.len() >= 8,
    ensures
        r == torn(b@),
{
    reveal(torn);
    let stored: u64 = get_u64(b, 0);
    stored != 0 && stored != u64::MAX && !checksum::verify(b)
}

/// The latest superblock of the checkpoint descriptor area.
fn find_live_nxsb(dev: &MemoryBackend, lab: &Vec<u8>, sb: &NxSuperblock) -> (r: Option<
    (Vec<u8>, u64),
>)
    requires
        sb.of(lab@),
        0 < lab@.len() <= 65536,
    ensures
        match (r, latest(dev@, lab@, bytes::get32(lab@, 104) as int)) {
            (Some(a), Some(b)) => a.0@ == b.0 && a.1 == b.1,
            (None, None) => true,
            _ => false,
        },
{
    let bs: usize = lab.len();
    let held: usize = dev.as_slice().len();
    let n: u64 = sb.xp_desc_blocks as u64;
    let base: u64 = sb.xp_desc_base;
    let label_xid: u64 = sb.obj.xid;
    let mut best: Option<(Vec<u8>, u64)> = None;
    let mut best_xid: u64 = 0;
    let mut i: u64 = 0;
    while i < n
        invariant
            i <= n,
            n <= u32::MAX,
            bs == lab@.len(),
            held == dev@.len(),
            0 < bs <= 65536,
            base == bytes::get64(lab@, 112),
            label_xid == sb_xid(lab@),
            match (best, latest(dev@, lab@, i as int)) {
                (Some(a), Some(b)) => a.0@ == b.0 && a.1 == b.1 && best_xid == sb_xid(b.0),
                (None, None) => true,
                _ => false,
            },
        decreases n - i,
    {
        let ghost at = (base + i) * bs;
        let seen: Option<Vec<u8>> = match base.checked_add(i) {
            None => {
                proof {
                    num::lemma_mono(u64::MAX as int, base + i, bs as int);
                    num::lemma_mono(1, bs as int, u64::MAX as int);
                    assert(u64::MAX * bs == bs * u64::MAX) by (nonlinear_arith);
                }
                None
            },
            Some(p) => match dev.read_block(p, bs) {
                Err(_) => None,
                Ok(b) => Some(b),
            },
        };
        match seen {
            None => {
                assert(slot_sb(dev@, lab@, i as int) is None);
            },
            Some(b) => {
                match NxSuperblock::decode(b.as_slice()) {
                    Err(_) => {},
                    Ok(s) => {
                        let better = match &best {
                            None => s.obj.xid >= label_xid,
                            Some(_) => s.obj.xid > best_xid,
                        };
                        if better && !is_torn(b.as_slice()) {
                            best_xid = s.obj.xid;
                            best = Some((b, i));
                        }
                    },
                }
            },
        }
        i = i + 1;
    }
    best
}

/// Read block 0.
fn read_label(dev: &MemoryBackend) -> (r: Result<(Vec<u8>, NxSuperblock)>)
    ensures
        match r {
            Ok((b, sb)) => {
                &&& label(dev@) == Ok::<Seq<u8>, Error>(b@)
                &&& sb.of(b@)
                &&& superblock::is_nx(b@)
                &&& 0 < b@.len() <= 65536
                &&& num::is_pow2(b@.len() as int)
            },
            Err(e) => label(dev@) == Err::<Seq<u8>, Error>(e),
        },
{
    let head = dev.read_at(0, 4096)?;
    let first = NxSuperblock::decode(head.as_slice())?;
    let bs: u32 = first.block_size;
    if bs == 0 || bs > 65536 || !power_of_two(bs as u64) {
        return Err(Error::InvalidImage);
    }
    let b = dev.read_at(0, bs as usize)?;
    let sb = NxSuperblock::decode(b.as_slice())?;
    Ok((b, sb))
}

/// Find the live checkpoint of the container on `dev`.
pub fn load_container(dev: &MemoryBackend) -> (r: Result<ContainerCtx>)
    ensures
        match r {
            Ok(ctx) => container(dev@) matches Ok(c) && ctx.of(c),
            Err(e) => container(dev@) == Err::<Cont, Error>(e),
        },
{
    let (lab, lab_sb) = read_label(dev)?;
    let bs: usize = lab.len();
    let (sb, slot) = match find_live_nxsb(dev, &lab, &lab_sb) {
        None => (lab_sb, None),
        Some((b, i)) => {
            proof {
                lemma_latest(dev@, lab@, bytes::get32(lab@, 104) as int);
            }
            match NxSuperblock::decode(b.as_slice()) {
                Ok(s) => (s, Some(i)),
                Err(e) => {
                    return Err(e);
                },
            }
        },
    };
    proof {
        lemma_latest(dev@, lab@, bytes::get32(lab@, 104) as int);
    }
    let tree: u64 = read_omap_header(dev, sb.omap_oid, bs)?;
    let root = dev.read_block(tree, bs)?;
    let total: u64 = match sb.block_count.checked_mul(bs as u64) {
        Some(n) => n,
        None => u64::MAX,
    };
    Ok(
        ContainerCtx {
            live_sb: sb,
            omap_root: root,
            omap_tree: tree,
            block_size: bs as u32,
            total_bytes: total,
            live_xp_desc_offset: slot,
        },
    )
}

/// What was found is a superblock of full size.
pub proof fn lemma_latest(img: Seq<u8>, lab: Seq<u8>, n: int)
    ensures
        match latest(img, lab, n) {
            Some((b, i)) => {
                &&& 0 <= i < n
                &&& slot_sb(img, lab, i) == Some(b)
                &&& superblock::is_nx(b)
                &&& b.len() == lab.len()
            },
            None => true,
        },
    decreases n,
{
    if n > 0 {
        lemma_latest(img, lab, n - 1);
        let bs = lab.len() as int;
        let at = (bytes::get64(lab, 112) + (n - 1)) * bs;
        num::lemma_mono(0, bytes::get64(lab, 112) + (n - 1), bs);
        assert(0 * bs == 0) by (nonlinear_arith);
    }
}

/// Index of the first volume slot from `i` on that is not empty.
pub open spec fn first_volume(slots: Seq<u64>, i: int) -> Option<int>
    decreases slots.len() - i,
{
    if i >= slots.len() {
        None
    } else if slots[i] != 0 {
        Some(i)
    } else {
        first_volume(slots, i + 1)
    }
}

/// Address of the volume superblock of the volume `oid`, by the object map with
/// the root node `root`.
pub open spec fn volume_at(img: Seq<u8>, root: Seq<u8>, xid: u64, oid: u64) -> Result<
    Option<u64>,
> {
    match omap::find(img, root, OmapKey { oid, xid }) {
        Err(e) => Err(e),
        Ok(None) => Ok(None),
        Ok(Some(v)) => Ok(Some(v.paddr)),
    }
}

impl ContainerCtx {
    /// The first volume slot that is not empty.
    pub fn first_volume(&self) -> (r: Option<usize>)
        ensures
            match r {
                Some(a) => first_volume(self.live_sb.fs_oid@, 0) == Some(a as int) && a
                    < self.live_sb.fs_oid@.len(),
                None => first_volume(self.live_sb.fs_oid@, 0) is None,
            },
    {
        let mut i: usize = 0;
        while i < self.live_sb.fs_oid.len()
            invariant
                i <= self.live_sb.fs_oid@.len(),
                first_volume(self.live_sb.fs_oid@, 0) == first_volume(
                    self.live_sb.fs_oid@,
                    i as int,
                ),
            decreases self.live_sb.fs_oid@.len() - i,
        {
            if self.live_sb.fs_oid[i] != 0 {
                return Some(i);
            }
            i = i + 1;
        }
        None
    }

    /// Look up the volume superblock of the volume `oid`.
    pub fn find_volume(&self, dev: &MemoryBackend, oid: u64) -> (r: Result<Option<u64>>)
        ensures
            r == volume_at(dev@, self.omap_root@, self.live_sb.obj.xid, oid),
    {
        match lookup(self.omap_root.as_slice(), oid, self.live_sb.obj.xid, dev)? {
            None => Ok(None),
            Some(v) => Ok(Some(v.paddr)),
        }
    }
}

/// Number of used blocks that the space manager of a container of blocks of
/// `bs` bytes tells, if it can be read.
pub open spec fn used_blocks(img: Seq<u8>, bs: int) -> Option<u64> {
    match block::block_at(img, bs, SPACEMAN_PADDR) {
        Err(_) => None,
        Ok(b) => if bytes::get32(b, 24) % 0x1_0000 != OBJECT_TYPE_SPACEMAN || bytes::get64(b, 48)
            < bytes::get64(b, 72) {
            None
        } else {
            Some((bytes::get64(b, 48) - bytes::get64(b, 72)) as u64)
        },
    }
}

/// Read the number of used blocks off the space manager.
pub fn read_spaceman_high_water(dev: &MemoryBackend, bs: usize) -> (r: Option<u64>)
    requires
        bs >= 80,
    ensures
        r == used_blocks(dev@, bs as int),
{
    match dev.read_block(SPACEMAN_PADDR, bs) {
        Err(_) => None,
        Ok(b) => {
            if get_u32(b.as_slice(), 24) % 0x1_0000 != OBJECT_TYPE_SPACEMAN {
                return None;
            }
            let blocks: u64 = get_u64(b.as_slice(), 48);
            let free: u64 = get_u64(b.as_slice(), 72);
            if blocks < free {
                return None;
            }
            Some(blocks - free)
        },
    }
}

} // verus!
