//! Writing a container with one volume.
//!
//! ```text
//!   0      container superblock, a label that stays put
//!   1      checkpoint map
//!   2      container superblock of the first checkpoint
//!   3..16  slots for the superblocks of later checkpoints
//!  17      space manager
//!  18      object map of the container
//!  19      volume superblock
//!  20      object map of the volume
//!  21..    allocated in order: file contents, tree nodes, space manager data
//! ```
//!
//! A later checkpoint writes the object maps and the volume superblock to
//! newly allocated blocks, so that the one before stays readable.

use vstd::prelude::*;

use crate::apfs::checksum::{self, sign_block};
use crate::apfs::fstree::DrecKeyLayout;
use crate::apfs::jrec::{DT_DIR, DT_LNK, DT_REG};
use crate::apfs::node::{OBJ_EPHEMERAL, OBJ_PHYSICAL};
use crate::apfs::obj::{
    OBJECT_TYPE_BTREE, OBJECT_TYPE_CHECKPOINT_MAP, OBJECT_TYPE_FS, OBJECT_TYPE_NX_SUPERBLOCK,
    OBJECT_TYPE_OMAP,
};
use crate::apfs::pack::{self, sort_records};
use crate::apfs::plan::{self, plan_fs_tree, plan_omap_tree, FSROOT_VID};
use crate::apfs::record::{
    self, build_drec_record, build_file_extent_records, build_inode_record, build_xattr_record,
    mode_dir, mode_lnk, mode_reg, FsRecord,
};
use crate::apfs::spaceman::{
    self, build_spaceman, SpacemanLayout, DEFAULT_IP_BLOCK_COUNT, OBJECT_TYPE_SPACEMAN,
};
use crate::apfs::superblock::{APFS_MAGIC, NX_MAGIC};
use crate::block::{self, MemoryBackend};
use crate::bytes::{
    self, copy_all, copy_range, le_u64, push_all, put_bytes, put_u32, put_u64, zero_vec,
};
use crate::error::{Error, Result};
use crate::num::{self, div_ceil, power_of_two};
use crate::text;

verus! {

/// Transaction of a fresh container.
pub const WRITE_XID: u64 = 2;

/// Blocks of the checkpoint descriptor area.
pub const XP_DESC_BLOCKS: u32 = 16;

/// Block of the checkpoint map.
pub const CHKMAP_PADDR: u64 = 1;

/// Block of the first checkpoint's superblock.
pub const NXSB_LIVE_PADDR: u64 = 2;

/// Block of the space manager.
pub const SPACEMAN_PADDR: u64 = 17;

/// Block of the container's object map.
pub const CONT_OMAP_PADDR: u64 = 18;

/// Block of the volume superblock.
pub const APSB_PADDR: u64 = 19;

/// Block of the volume's object map.
pub const VOL_OMAP_PADDR: u64 = 20;

/// First block that is allocated.
pub const BUMP_BLOCK_START: u64 = 21;

/// Fewest blocks of a container.
pub const MIN_BLOCKS: u64 = 32;

/// Object id of the volume.
pub const VOLUME_VID: u64 = 1024;

/// Object id of the space manager.
pub const SPACEMAN_VID: u64 = 512;

/// Object id of the reaper.
pub const REAPER_VID: u64 = 513;

/// Flag of a volume that is not encrypted.
pub const APFS_FS_UNENCRYPTED: u64 = 1;

// ---- identifiers derived from a name ----

/// One byte mixed into a seed.
pub open spec fn stir(seed: u64, b: u8) -> u64 {
    let s = ((seed * 0x0100_0193 + b) % 0x1_0000_0000_0000_0000) as u64;
    s ^ (s >> 27)
}

/// The bytes `s` mixed into a seed, in order.
pub open spec fn stir_all(seed: u64, s: Seq<u8>) -> u64
    decreases s.len(),
{
    if s.len() == 0 {
        seed
    } else {
        stir(stir_all(seed, s.drop_last()), s.last())
    }
}

/// The next number of a xor-shift generator.
pub open spec fn xorshift(seed: u64) -> u64 {
    let a = seed ^ (seed << 13);
    let b = a ^ (a >> 7);
    b ^ (b << 17)
}

/// The 16-byte identifier for `s`: two generated numbers with the variant and
/// version bits of a random UUID.
pub open spec fn uuid_of(s: Seq<u8>) -> Seq<u8> {
    let a = xorshift(stir_all(0x6a09_e667_f3bc_c908, s));
    let b = xorshift(a);
    let raw = bytes::le64(a) + bytes::le64(b);
    raw.update(6, (raw[6] % 16 + 0x40) as u8).update(8, (raw[8] % 64 + 0x80) as u8)
}

fn next_number(seed: u64) -> (r: u64)
    ensures
        r == xorshift(seed),
{
    let a: u64 = seed ^ (seed << 13);
    let b: u64 = a ^ (a >> 7);
    b ^ (b << 17)
}

/// Derive an identifier from a name and a salt.
pub fn derive_uuid(name: &[u8], salt: &[u8]) -> (r: Vec<u8>)
    ensures
        r@ == uuid_of(name@ + salt@),
        r@.len() == 16,
{
    let mut all = copy_range(name, 0, name.len());
    push_all(&mut all, salt);
    proof {
        assert(all@ =~= name@ + salt@);
    }
    let mut seed: u64 = 0x6a09_e667_f3bc_c908;
    let mut i: usize = 0;
    proof {
        assert(all@.take(0) =~= Seq::empty());
    }
    while i < all.len()
        invariant
            i <= all@.len(),
            seed == stir_all(0x6a09_e667_f3bc_c908, all@.take(i as int)),
        decreases all@.len() - i,
    {
        let m: u64 = seed.wrapping_mul(0x0100_0193).wrapping_add(all[i] as u64);
        proof {
            lemma_stir(seed, all@[i as int], m);
            assert(all@.take(i + 1).drop_last() =~= all@.take(i as int));
        }
        seed = m ^ (m >> 27);
        i = i + 1;
    }
    proof {
        assert(all@.take(i as int) =~= all@);
    }
    let a: u64 = next_number(seed);
    let b: u64 = next_number(a);
    let mut out = le_u64(a);
    let w = le_u64(b);
    push_all(&mut out, w.as_slice());
    proof {
        bytes::lemma_le_lens();
    }
    let x6: u8 = out[6] % 16 + 0x40;
    let x8: u8 = out[8] % 64 + 0x80;
    out.set(6, x6);
    out.set(8, x8);
    out
}

proof fn lemma_stir(seed: u64, b: u8, m: u64)
    requires
        m == seed.wrapping_mul(0x0100_0193).wrapping_add(b as u64),
    ensures
        m == (seed * 0x0100_0193 + b) % 0x1_0000_0000_0000_0000,
{
    let p = seed.wrapping_mul(0x0100_0193);
    let t: int = seed * 0x0100_0193;
    assert(p == t % 0x1_0000_0000_0000_0000);
    assert(m == (p + b) % 0x1_0000_0000_0000_0000);
    assert((t % 0x1_0000_0000_0000_0000 + b) % 0x1_0000_0000_0000_0000 == (t + b)
        % 0x1_0000_0000_0000_0000) by (nonlinear_arith);
}

// ---- what is being written ----

/// The state of a writer.
#[verifier::ext_equal]
pub struct Draft {
    pub block_size: u32,
    pub total_blocks: u64,
    /// The next block to allocate.
    pub next_block: u64,
    pub name: Seq<char>,
    pub container_uuid: Seq<u8>,
    pub volume_uuid: Seq<u8>,
    /// The records so far, in the order in which they came.
    pub records: Seq<(Seq<u8>, Seq<u8>)>,
    /// The next object id to give out.
    pub next_oid: u64,
    pub num_files: u64,
    pub num_directories: u64,
    pub num_symlinks: u64,
    pub xid: u64,
    /// Block of the container superblock.
    pub nxsb_paddr: u64,
    /// Whether this is a new container, not a later checkpoint of one.
    pub fresh: bool,
}

/// Whether `bs` is a block size that a container can have.
pub open spec fn block_size_ok(bs: u32) -> bool {
    512 <= bs <= 65536 && num::is_pow2(bs as int)
}

impl Draft {
    /// What holds of every writer.
    pub open spec fn wf(self) -> bool {
        &&& block_size_ok(self.block_size)
        &&& self.next_block <= self.total_blocks
        &&& BUMP_BLOCK_START <= self.next_block
        &&& NXSB_LIVE_PADDR <= self.nxsb_paddr <= XP_DESC_BLOCKS
        &&& self.container_uuid.len() == 16
        &&& self.volume_uuid.len() == 16
        &&& pack::keyed(self.records)
    }

    /// Whether the device `img` holds the whole container.
    pub open spec fn within(self, img: Seq<u8>) -> bool {
        self.total_blocks * self.block_size <= img.len()
    }

    /// With one object id given out; the last one is given out for ever.
    pub open spec fn took_oid(self) -> Draft {
        Draft {
            next_oid: if self.next_oid == u64::MAX {
                self.next_oid
            } else {
                (self.next_oid + 1) as u64
            },
            ..self
        }
    }

    /// With the records `rs` added.
    pub open spec fn with(self, rs: Seq<(Seq<u8>, Seq<u8>)>) -> Draft {
        Draft { records: self.records + rs, ..self }
    }

    /// Blocks that `n` bytes take; at least one.
    pub open spec fn blocks_for(self, n: u64) -> int {
        if n == 0 {
            1
        } else {
            num::div_up(n as int, self.block_size as int)
        }
    }

    /// Whether `n` bytes can be allocated.
    pub open spec fn has_room(self, n: u64) -> bool {
        n > 0 && self.next_block + self.blocks_for(n) <= self.total_blocks
    }

    /// The directory record for an entry of type `dtype`.
    pub open spec fn drec(self, parent: u64, name: Seq<char>, dtype: u16) -> (Seq<u8>, Seq<u8>) {
        (
            record::drec_key(parent, name, DrecKeyLayout::Plain, false),
            record::drec_value(self.next_oid, dtype),
        )
    }

    /// The inode record of the next object.
    pub open spec fn inode(self, parent: u64, mode: u16, size: u64, time: u64) -> (
        Seq<u8>,
        Seq<u8>,
    ) {
        (
            record::inode_key(self.next_oid),
            record::inode_value(self.next_oid, parent, mode, size, self.block_size, time),
        )
    }

    /// Adding a directory: the state after it, and the object id or the refusal.
    pub open spec fn dir_added(self, parent: u64, name: Seq<char>, mode: u16, time: u64) -> (
        Draft,
        Result<u64>,
    ) {
        if text::utf8(name).len() + 1 > 0xffff {
            (self.took_oid(), Err(Error::InvalidArgument))
        } else {
            let d = self.took_oid().with(
                seq![
                    self.drec(parent, name, DT_DIR),
                    self.inode(parent, (0x4000 + mode % 0x1000) as u16, 0, time),
                ],
            );
            (
                Draft { num_directories: (d.num_directories + 1) as u64, ..d },
                Ok(self.next_oid),
            )
        }
    }

    /// Adding an object with `size` bytes of contents: the state after it, and
    /// the object id or the refusal. The contents take the next free blocks.
    pub open spec fn stream_added(
        self,
        parent: u64,
        name: Seq<char>,
        dtype: u16,
        mode: u16,
        size: u64,
        time: u64,
    ) -> (Draft, Result<u64>) {
        let named = self.took_oid().with(seq![self.drec(parent, name, dtype)]);
        if text::utf8(name).len() + 1 > 0xffff {
            (self.took_oid(), Err(Error::InvalidArgument))
        } else if !self.has_room(size) {
            (named, Err(Error::InvalidArgument))
        } else {
            (
                Draft {
                    next_block: (self.next_block + self.blocks_for(size)) as u64,
                    ..named.with(
                        record::extent_records(
                            self.next_oid,
                            0,
                            size,
                            self.next_block,
                            self.block_size,
                        ) + seq![self.inode(parent, mode, size, time)],
                    )
                },
                Ok(self.next_oid),
            )
        }
    }

    /// Adding a regular file.
    pub open spec fn file_added(
        self,
        parent: u64,
        name: Seq<char>,
        mode: u16,
        size: u64,
        time: u64,
    ) -> (Draft, Result<u64>) {
        let m = (0x8000 + mode % 0x1000) as u16;
        let (d, r) = if size == 0 && text::utf8(name).len() + 1 <= 0xffff {
            (
                self.took_oid().with(
                    seq![self.drec(parent, name, DT_REG), self.inode(parent, m, 0, time)],
                ),
                Ok::<u64, Error>(self.next_oid),
            )
        } else {
            self.stream_added(parent, name, DT_REG, m, size, time)
        };
        if r is Ok {
            (Draft { num_files: (d.num_files + 1) as u64, ..d }, r)
        } else {
            (d, r)
        }
    }

    /// Adding a symbolic link; its target is stored as its contents.
    pub open spec fn link_added(
        self,
        parent: u64,
        name: Seq<char>,
        mode: u16,
        target: Seq<char>,
        time: u64,
    ) -> (Draft, Result<u64>) {
        let m = (0xa000 + mode % 0x1000) as u16;
        let (d, r) = self.stream_added(
            parent,
            name,
            DT_LNK,
            m,
            text::utf8(target).len() as u64,
            time,
        );
        if r is Ok {
            (Draft { num_symlinks: (d.num_symlinks + 1) as u64, ..d }, r)
        } else {
            (d, r)
        }
    }
}

/// `n` bytes: the first `size` of `data`, then zeros.
pub open spec fn padded(data: Seq<u8>, size: int, n: int) -> Seq<u8> {
    Seq::new(
        n as nat,
        |i: int|
            if i < size && i < data.len() {
                data[i]
            } else {
                0u8
            },
    )
}

/// The device after `size` bytes of `data` were stored from block `paddr` on.
pub open spec fn stored(
    img: Seq<u8>,
    bs: u32,
    paddr: u64,
    data: Seq<u8>,
    size: u64,
    blocks: int,
) -> Seq<u8> {
    bytes::put(img, paddr * bs, padded(data, size as int, blocks * bs))
}

/// Build `n` bytes: the first `size` of `data`, then zeros.
pub fn pad(data: &[u8], size: usize, n: usize) -> (r: Vec<u8>)
    requires
        size <= n,
    ensures
        r@ == padded(data@, size as int, n as int),
{
    let k: usize = if data.len() < size {
        data.len()
    } else {
        size
    };
    let mut out = copy_range(data, 0, k);
    let z = zero_vec(n - k);
    push_all(&mut out, z.as_slice());
    proof {
        reveal(bytes::zeros);
        assert(out@ =~= padded(data@, size as int, n as int));
    }
    out
}

// ---- blocks with one place each ----

/// The header block of an object map at `paddr` whose tree has its root at
/// `tree`.
pub open spec fn omap_header(bs: nat, paddr: u64, tree: u64, xid: u64) -> Seq<u8> {
    let b = bytes::put(bytes::zeros(bs), 8, bytes::le64(paddr));
    let b = bytes::put(b, 16, bytes::le64(xid));
    let b = bytes::put(b, 24, bytes::le32((OBJECT_TYPE_OMAP + OBJ_PHYSICAL) as u32));
    let b = bytes::put(b, 40, bytes::le32((OBJECT_TYPE_BTREE + OBJ_PHYSICAL) as u32));
    let b = bytes::put(b, 48, bytes::le64(tree));
    checksum::signed(b)
}

/// Build the header block of an object map.
pub fn build_omap_phys(bs: usize, paddr: u64, tree_paddr: u64, xid: u64) -> (r: Vec<u8>)
    requires
        bs >= 56,
    ensures
        r@ == omap_header(bs as nat, paddr, tree_paddr, xid),
{
    broadcast use {bytes::lemma_put_len, bytes::lemma_zeros_len};

    let mut buf = zero_vec(bs);
    put_u64(&mut buf, 8, paddr);
    put_u64(&mut buf, 16, xid);
    put_u32(&mut buf, 24, OBJECT_TYPE_OMAP + OBJ_PHYSICAL);
    put_u32(&mut buf, 40, OBJECT_TYPE_BTREE + OBJ_PHYSICAL);
    put_u64(&mut buf, 48, tree_paddr);
    sign_block(&mut buf);
    buf
}

/// The checkpoint map that resolves the space manager's object id.
pub open spec fn chkmap(bs: nat, xid: u64) -> Seq<u8> {
    let b = bytes::put(bytes::zeros(bs), 8, bytes::le64(CHKMAP_PADDR));
    let b = bytes::put(b, 16, bytes::le64(xid));
    let b = bytes::put(b, 24, bytes::le32((OBJECT_TYPE_CHECKPOINT_MAP + OBJ_PHYSICAL) as u32));
    let b = bytes::put(b, 32, bytes::le32(1));
    let b = bytes::put(b, 36, bytes::le32(1));
    let b = bytes::put(b, 40, bytes::le32((OBJECT_TYPE_SPACEMAN + OBJ_EPHEMERAL) as u32));
    let b = bytes::put(b, 48, bytes::le32(bs as u32));
    let b = bytes::put(b, 56, bytes::le64(SPACEMAN_VID));
    let b = bytes::put(b, 64, bytes::le64(SPACEMAN_PADDR));
    checksum::signed(b)
}

/// Build the checkpoint map.
pub fn build_chkmap(bs: usize, xid: u64) -> (r: Vec<u8>)
    requires
        80 <= bs <= 0x1_0000,
    ensures
        r@ == chkmap(bs as nat, xid),
{
    broadcast use {bytes::lemma_put_len, bytes::lemma_zeros_len};

    let mut buf = zero_vec(bs);
    put_u64(&mut buf, 8, CHKMAP_PADDR);
    put_u64(&mut buf, 16, xid);
    put_u32(&mut buf, 24, OBJECT_TYPE_CHECKPOINT_MAP + OBJ_PHYSICAL);
    put_u32(&mut buf, 32, 1);
    put_u32(&mut buf, 36, 1);
    put_u32(&mut buf, 40, OBJECT_TYPE_SPACEMAN + OBJ_EPHEMERAL);
    put_u32(&mut buf, 48, bs as u32);
    put_u64(&mut buf, 56, SPACEMAN_VID);
    put_u64(&mut buf, 64, SPACEMAN_PADDR);
    sign_block(&mut buf);
    buf
}

impl Draft {
    /// The name bytes that a volume superblock takes: at most 255.
    pub open spec fn volname(self) -> Seq<u8> {
        let b = text::utf8(self.name);
        b.take(if b.len() < 255 { b.len() as int } else { 255 })
    }

    /// The volume superblock at `paddr`.
    pub open spec fn apsb(self, paddr: u64, omap: u64) -> Seq<u8> {
        let b = bytes::put(bytes::zeros(self.block_size as nat), 8, bytes::le64(paddr));
        let b = bytes::put(b, 16, bytes::le64(self.xid));
        let b = bytes::put(b, 24, bytes::le32(OBJECT_TYPE_FS));
        let b = bytes::put(b, 32, bytes::le32(APFS_MAGIC));
        let b = bytes::put(b, 116, bytes::le32(OBJECT_TYPE_BTREE));
        let b = bytes::put(b, 120, bytes::le32(OBJECT_TYPE_BTREE));
        let b = bytes::put(b, 124, bytes::le32(OBJECT_TYPE_BTREE));
        let b = bytes::put(b, 128, bytes::le64(omap));
        let b = bytes::put(b, 136, bytes::le64(FSROOT_VID));
        let b = bytes::put(b, 176, bytes::le64(self.next_oid));
        let b = bytes::put(b, 184, bytes::le64(self.num_files));
        let b = bytes::put(b, 192, bytes::le64(self.num_directories));
        let b = bytes::put(b, 200, bytes::le64(self.num_symlinks));
        let b = bytes::put(b, 240, self.volume_uuid);
        let b = bytes::put(b, 264, bytes::le64(APFS_FS_UNENCRYPTED));
        let b = bytes::put(b, 704, self.volname());
        checksum::signed(b)
    }

    /// The container superblock that `nxsb` signs.
    pub open spec fn nxsb_fields(self, paddr: u64, omap: u64) -> Seq<u8> {
        let b = bytes::put(bytes::zeros(self.block_size as nat), 8, bytes::le64(paddr));
        let b = bytes::put(b, 16, bytes::le64(self.xid));
        let b = bytes::put(
            b,
            24,
            bytes::le32((OBJECT_TYPE_NX_SUPERBLOCK + OBJ_EPHEMERAL) as u32),
        );
        let b = bytes::put(b, 32, bytes::le32(NX_MAGIC));
        let b = bytes::put(b, 36, bytes::le32(self.block_size));
        let b = bytes::put(b, 40, bytes::le64(self.total_blocks));
        let b = bytes::put(b, 72, self.container_uuid);
        let b = bytes::put(b, 88, bytes::le64((self.next_oid + 1024) as u64));
        let b = bytes::put(b, 96, bytes::le64((self.xid + 1) as u64));
        let b = bytes::put(b, 104, bytes::le32(XP_DESC_BLOCKS));
        let b = bytes::put(b, 108, bytes::le32(1));
        let b = bytes::put(b, 112, bytes::le64(CHKMAP_PADDR));
        let b = bytes::put(b, 120, bytes::le64(SPACEMAN_PADDR));
        let b = bytes::put(b, 128, bytes::le32((paddr + 1) as u32));
        let b = bytes::put(b, 132, bytes::le32(1));
        let b = bytes::put(b, 140, bytes::le32(paddr as u32));
        let b = bytes::put(b, 148, bytes::le32(1));
        let b = bytes::put(b, 152, bytes::le64(SPACEMAN_VID));
        let b = bytes::put(b, 160, bytes::le64(omap));
        let b = bytes::put(b, 168, bytes::le64(REAPER_VID));
        let b = bytes::put(b, 180, bytes::le32(100));
        let b = bytes::put(b, 184, bytes::le64(VOLUME_VID));
        b
    }

    /// The container superblock at `paddr`.
    pub open spec fn nxsb(self, paddr: u64, omap: u64) -> Seq<u8> {
        checksum::signed(self.nxsb_fields(paddr, omap))
    }

    /// Blocks of the container's object map, the volume superblock and the
    /// volume's object map.
    pub open spec fn places(self) -> (u64, u64, u64) {
        if self.fresh {
            (CONT_OMAP_PADDR, APSB_PADDR, VOL_OMAP_PADDR)
        } else {
            (
                self.next_block,
                (self.next_block + 1) as u64,
                (self.next_block + 2) as u64,
            )
        }
    }

    /// First block behind those.
    pub open spec fn base(self) -> int {
        if self.fresh {
            self.next_block as int
        } else {
            self.next_block + 3
        }
    }

    /// The space manager's layout when all the blocks before `next` are in use,
    /// with its own data from there on.
    pub open spec fn manager_layout(self, next: int) -> spaceman::Layout {
        let chunks = num::div_up(self.total_blocks as int, 8 * self.block_size as int);
        spaceman::Layout {
            block_size: self.block_size as usize,
            total_blocks: self.total_blocks,
            xid: self.xid,
            spaceman_oid: SPACEMAN_VID,
            cib_paddr: (next + 20) as u64,
            bitmap_paddrs: Seq::new(chunks as nat, |i: int| (next + 21 + i) as u64),
            used_ranges: seq![(0u64, (next + 21 + chunks) as u64)],
            ip_base: (next + 1) as u64,
            ip_block_count: DEFAULT_IP_BLOCK_COUNT,
            ip_bm_base: next as u64,
            ip_bm_size_in_blocks: 1,
            free_queue_paddrs: seq![(next + 17) as u64, (next + 18) as u64, (next + 19) as u64],
        }
    }

    /// The blocks of the space manager, with its data from block `next` on.
    pub open spec fn manager_blocks(self, next: int) -> Result<Seq<plan::Placed>> {
        let l = self.manager_layout(next);
        let bs = self.block_size as nat;
        if next + 21 + l.chunks() > self.total_blocks {
            Err(Error::InvalidArgument)
        } else {
            match l.refused() {
                Some(e) => Err(e),
                None => Ok(
                    seq![(SPACEMAN_PADDR, l.manager()), (l.cib_paddr, l.cib())] + Seq::new(
                        l.chunks() as nat,
                        |i: int| (l.bitmap_paddrs[i], l.chunk_bitmap(i)),
                    ) + seq![
                        (l.ip_bm_base, bytes::zeros(bs)),
                        (
                            l.free_queue_paddrs[0],
                            spaceman::free_queue_root(bs, l.free_queue_paddrs[0], self.xid),
                        ),
                        (
                            l.free_queue_paddrs[1],
                            spaceman::free_queue_root(bs, l.free_queue_paddrs[1], self.xid),
                        ),
                        (
                            l.free_queue_paddrs[2],
                            spaceman::free_queue_root(bs, l.free_queue_paddrs[2], self.xid),
                        ),
                    ],
                ),
            }
        }
    }

    /// The trees of the container, in the order in which they are laid out.
    pub open spec fn trees(self) -> Result<(plan::FsTree, plan::Tree, plan::Tree)> {
        let bs = self.block_size as nat;
        let total = self.total_blocks as int;
        if self.base() > total {
            Err(Error::InvalidArgument)
        } else {
            match plan::fs_tree(pack::sort(self.records), bs, self.base(), total, self.xid) {
                Err(e) => Err(e),
                Ok(ft) => match plan::omap_tree(
                    ft.entries,
                    bs,
                    ft.tree.next,
                    total,
                    self.xid,
                ) {
                    Err(e) => Err(e),
                    Ok(vt) => match plan::omap_tree(
                        seq![(VOLUME_VID, self.xid, self.places().1)],
                        bs,
                        vt.next,
                        total,
                        self.xid,
                    ) {
                        Err(e) => Err(e),
                        Ok(ct) => Ok((ft, vt, ct)),
                    },
                },
            }
        }
    }

    /// Trees, object maps and volume superblock, in the order of writing.
    pub open spec fn volume_blocks(self, t: (plan::FsTree, plan::Tree, plan::Tree)) -> Seq<
        plan::Placed,
    > {
        let bs = self.block_size as nat;
        let (cont, apsb, vol) = self.places();
        t.0.tree.blocks + t.1.blocks + seq![
            (vol, omap_header(bs, vol, t.1.root, self.xid)),
            (apsb, self.apsb(apsb, vol)),
        ] + t.2.blocks + seq![(cont, omap_header(bs, cont, t.2.root, self.xid))]
    }

    /// Every block of the image, in the order of writing; or why there is none.
    pub open spec fn plan(self) -> Result<Seq<plan::Placed>> {
        let cont = self.places().0;
        match self.trees() {
            Err(e) => Err(e),
            Ok(t) => if !self.fresh {
                Ok(
                    self.volume_blocks(t) + seq![
                        (self.nxsb_paddr, self.nxsb(self.nxsb_paddr, cont)),
                    ],
                )
            } else {
                match self.manager_blocks(t.2.next) {
                    Err(e) => Err(e),
                    Ok(m) => Ok(
                        self.volume_blocks(t) + m + seq![
                            (CHKMAP_PADDR, chkmap(self.block_size as nat, self.xid)),
                            (self.nxsb_paddr, self.nxsb(self.nxsb_paddr, cont)),
                            (0u64, self.nxsb(0, cont)),
                        ],
                    ),
                }
            },
        }
    }
}

/// Builds a container with one volume, record by record. [`ApfsWriter::finish`]
/// writes the image.
pub struct ApfsWriter {
    block_size: u32,
    total_blocks: u64,
    next_block: u64,
    volume_name: String,
    container_uuid: Vec<u8>,
    volume_uuid: Vec<u8>,
    records: Vec<FsRecord>,
    next_oid: u64,
    num_files: u64,
    num_directories: u64,
    num_symlinks: u64,
    xid: u64,
    nxsb_paddr: u64,
    fresh: bool,
}

impl View for ApfsWriter {
    type V = Draft;

    closed spec fn view(&self) -> Draft {
        Draft {
            block_size: self.block_size,
            total_blocks: self.total_blocks,
            next_block: self.next_block,
            name: self.volume_name@,
            container_uuid: self.container_uuid@,
            volume_uuid: self.volume_uuid@,
            records: record::recs(self.records@),
            next_oid: self.next_oid,
            num_files: self.num_files,
            num_directories: self.num_directories,
            num_symlinks: self.num_symlinks,
            xid: self.xid,
            nxsb_paddr: self.nxsb_paddr,
            fresh: self.fresh,
        }
    }
}

/// A writer of a new container: nothing but the root directory.
pub open spec fn new_draft(total_blocks: u64, block_size: u32, name: Seq<char>) -> Draft {
    Draft {
        block_size,
        total_blocks,
        next_block: BUMP_BLOCK_START,
        name,
        container_uuid: uuid_of(text::utf8(name) + text::utf8("container"@)),
        volume_uuid: uuid_of(text::utf8(name) + text::utf8("volume"@)),
        records: seq![
            (record::inode_key(2), record::inode_value(2, 0, 0x41ed, 0, block_size, 0)),
        ],
        next_oid: 16,
        num_files: 0,
        num_directories: 0,
        num_symlinks: 0,
        xid: WRITE_XID,
        nxsb_paddr: NXSB_LIVE_PADDR,
        fresh: true,
    }
}

/// What a checkpoint takes over from the one before it.
pub struct CheckpointBase {
    pub total_blocks: u64,
    pub block_size: u32,
    pub volume_name: String,
    pub container_uuid: Vec<u8>,
    pub volume_uuid: Vec<u8>,
    pub xid: u64,
    /// Block of the new container superblock.
    pub nxsb_paddr: u64,
    /// First block that is free.
    pub bump_block_start: u64,
    pub next_oid: u64,
    pub num_files: u64,
    pub num_directories: u64,
    pub num_symlinks: u64,
}

impl CheckpointBase {
    /// Whether a checkpoint can be written from here.
    pub open spec fn valid(self) -> bool {
        &&& block_size_ok(self.block_size)
        &&& BUMP_BLOCK_START <= self.bump_block_start < self.total_blocks
        &&& NXSB_LIVE_PADDR <= self.nxsb_paddr < XP_DESC_BLOCKS + 1
    }

    /// The writer that starts from here: it holds no records yet.
    pub open spec fn draft(self) -> Draft {
        Draft {
            block_size: self.block_size,
            total_blocks: self.total_blocks,
            next_block: self.bump_block_start,
            name: self.volume_name@,
            container_uuid: self.container_uuid@,
            volume_uuid: self.volume_uuid@,
            records: Seq::empty(),
            next_oid: self.next_oid,
            num_files: self.num_files,
            num_directories: self.num_directories,
            num_symlinks: self.num_symlinks,
            xid: self.xid,
            nxsb_paddr: self.nxsb_paddr,
            fresh: false,
        }
    }
}

impl ApfsWriter {
    /// A writer of a new container of `total_blocks` blocks on `dev`.
    pub fn new(
        dev: &MemoryBackend,
        total_blocks: u64,
        block_size: u32,
        volume_name: &str,
    ) -> (r: Result<Self>)
        ensures
            match r {
                Ok(w) => {
                    &&& block_size_ok(block_size)
                    &&& total_blocks * block_size <= dev@.len()
                    &&& total_blocks >= MIN_BLOCKS
                    &&& w@ == new_draft(total_blocks, block_size, volume_name@)
                    &&& w@.wf()
                    &&& w@.within(dev@)
                },
                Err(e) => {
                    &&& e == Error::InvalidArgument
                    &&& !block_size_ok(block_size) || total_blocks * block_size > dev@.len()
                        || total_blocks < MIN_BLOCKS
                },
            },
    {
        if block_size < 512 || block_size > 65536 || !power_of_two(block_size as u64) {
            return Err(Error::InvalidArgument);
        }
        match total_blocks.checked_mul(block_size as u64) {
            None => {
                let n: u64 = dev.total_size();
                return Err(Error::InvalidArgument);
            },
            Some(needed) => {
                if needed > dev.total_size() {
                    return Err(Error::InvalidArgument);
                }
            },
        }
        if total_blocks < MIN_BLOCKS {
            return Err(Error::InvalidArgument);
        }
        let name = volume_name.as_bytes();
        let container_uuid = derive_uuid(name, "container".as_bytes());
        let volume_uuid = derive_uuid(name, "volume".as_bytes());
        proof {
            lemma_no_blocks(block_size);
        }
        let root = build_inode_record(2, 0, mode_dir(0x1ed), 0, block_size, 0);
        let mut records: Vec<FsRecord> = Vec::new();
        let ghost rv = root@;
        records.push(root);
        let w = ApfsWriter {
            block_size,
            total_blocks,
            next_block: BUMP_BLOCK_START,
            volume_name: volume_name.to_string(),
            container_uuid,
            volume_uuid,
            records,
            next_oid: 16,
            num_files: 0,
            num_directories: 0,
            num_symlinks: 0,
            xid: WRITE_XID,
            nxsb_paddr: NXSB_LIVE_PADDR,
            fresh: true,
        };
        proof {
            assert(record::recs(w.records@) =~= seq![rv]);
            bytes::lemma_le_lens();
            assert(w@ =~= new_draft(total_blocks, block_size, volume_name@));
        }
        Ok(w)
    }

    /// A writer of a later checkpoint of a container. Its records come through
    /// [`ApfsWriter::push_raw_record`].
    pub fn new_checkpoint(base: CheckpointBase) -> (r: Result<Self>)
        requires
            base.container_uuid@.len() == 16,
            base.volume_uuid@.len() == 16,
        ensures
            match r {
                Ok(w) => base.valid() && w@ == base.draft() && w@.wf(),
                Err(e) => e == Error::InvalidArgument && !base.valid(),
            },
    {
        if base.block_size < 512 || base.block_size > 65536 || !power_of_two(
            base.block_size as u64,
        ) {
            return Err(Error::InvalidArgument);
        }
        if base.bump_block_start < BUMP_BLOCK_START || base.bump_block_start >= base.total_blocks {
            return Err(Error::InvalidArgument);
        }
        if base.nxsb_paddr < NXSB_LIVE_PADDR || base.nxsb_paddr >= XP_DESC_BLOCKS as u64 + 1 {
            return Err(Error::InvalidArgument);
        }
        let w = ApfsWriter {
            block_size: base.block_size,
            total_blocks: base.total_blocks,
            next_block: base.bump_block_start,
            volume_name: base.volume_name,
            container_uuid: base.container_uuid,
            volume_uuid: base.volume_uuid,
            records: Vec::new(),
            next_oid: base.next_oid,
            num_files: base.num_files,
            num_directories: base.num_directories,
            num_symlinks: base.num_symlinks,
            xid: base.xid,
            nxsb_paddr: base.nxsb_paddr,
            fresh: false,
        };
        proof {
            assert(w@ =~= base.draft());
        }
        Ok(w)
    }

    /// Add a record as it stands.
    pub fn push_raw_record(&mut self, rec: FsRecord)
        requires
            rec@.0.len() >= 8,
            old(self)@.wf(),
        ensures
            final(self)@ == old(self)@.with(seq![rec@]),
            final(self)@.wf(),
    {
        let ghost before = self.records@;
        let ghost rv = rec@;
        self.records.push(rec);
        proof {
            assert(record::recs(self.records@) =~= record::recs(before) + seq![rv]);
        }
    }

    fn alloc_oid(&mut self) -> (o: u64)
        ensures
            o == old(self)@.next_oid,
            final(self)@ == old(self)@.took_oid(),
    {
        let o: u64 = self.next_oid;
        if o < u64::MAX {
            self.next_oid = o + 1;
        }
        o
    }

    /// Add an empty directory under `parent_oid`; gives its object id.
    pub fn add_dir(&mut self, parent_oid: u64, name: &str, mode: u16) -> (r: Result<u64>)
        requires
            old(self)@.wf(),
            old(self)@.num_directories < u64::MAX,
        ensures
            (final(self)@, r) == old(self)@.dir_added(parent_oid, name@, mode, 0),
            final(self)@.wf(),
    {
        self.add_dir_at_time(parent_oid, name, mode, 0)
    }

    /// [`ApfsWriter::add_dir`] with a time stamp in nanoseconds.
    pub fn add_dir_at_time(
        &mut self,
        parent_oid: u64,
        name: &str,
        mode: u16,
        mtime_ns: u64,
    ) -> (r: Result<u64>)
        requires
            old(self)@.wf(),
            old(self)@.num_directories < u64::MAX,
        ensures
            (final(self)@, r) == old(self)@.dir_added(parent_oid, name@, mode, mtime_ns),
            final(self)@.wf(),
    {
        let ghost d = self@;
        let oid: u64 = self.alloc_oid();
        let rec = build_drec_record(parent_oid, name, oid, DT_DIR, DrecKeyLayout::Plain, false)?;
        proof {
            lemma_drec_keyed(parent_oid, name@);
            lemma_no_blocks(self.block_size);
            bytes::lemma_le_lens();
        }
        let ghost r1 = rec@;
        self.push_raw_record(rec);
        let inode = build_inode_record(
            oid,
            parent_oid,
            mode_dir(mode),
            0,
            self.block_size,
            mtime_ns,
        );
        let ghost r2 = inode@;
        self.push_raw_record(inode);
        self.num_directories = self.num_directories + 1;
        proof {
            assert(d.records + seq![r1] + seq![r2] =~= d.records + seq![r1, r2]);
            assert(self@ =~= d.dir_added(parent_oid, name@, mode, mtime_ns).0);
        }
        Ok(oid)
    }

    /// Allocate blocks for `size` bytes and store them; gives the first block.
    fn store_stream(&mut self, dev: &mut MemoryBackend, data: &[u8], size: u64) -> (r: Result<u64>)
        requires
            old(self)@.wf(),
            old(self)@.within(old(dev)@),
        ensures
            match r {
                Ok(p) => {
                    let d = old(self)@;
                    &&& d.has_room(size)
                    &&& p == d.next_block
                    &&& final(self)@ == Draft {
                        next_block: (d.next_block + d.blocks_for(size)) as u64,
                        ..d
                    }
                    &&& final(dev)@ == stored(
                        old(dev)@,
                        d.block_size,
                        p,
                        data@,
                        size,
                        d.blocks_for(size),
                    )
                    &&& num::div_up(size as int, d.block_size as int) * d.block_size <= u64::MAX
                },
                Err(e) => {
                    &&& e == Error::InvalidArgument
                    &&& !old(self)@.has_room(size)
                    &&& final(self)@ == old(self)@
                    &&& final(dev)@ == old(dev)@
                },
            },
    {
        if size == 0 {
            return Err(Error::InvalidArgument);
        }
        let bs: u64 = self.block_size as u64;
        let blocks: u64 = div_ceil(size, bs);
        let start: u64 = self.next_block;
        if blocks > self.total_blocks - start {
            return Err(Error::InvalidArgument);
        }
        let held: usize = dev.as_slice().len();
        proof {
            assert(held == dev@.len());
            let b = bs as int;
            num::lemma_div_up(size as int, b);
            num::lemma_mono(start + blocks, self.total_blocks as int, b);
            assert((start + blocks) * b == start * b + blocks * b) by (nonlinear_arith);
            num::lemma_mono(0, start as int, b);
            assert(0 * b == 0) by (nonlinear_arith);
        }
        let n: usize = (blocks * bs) as usize;
        let buf = pad(data, size as usize, n);
        let res = dev.write_at(start * bs, buf.as_slice());
        assert(res is Ok);
        self.next_block = start + blocks;
        Ok(start)
    }

    /// Add an object with contents.
    fn add_stream(
        &mut self,
        dev: &mut MemoryBackend,
        parent_oid: u64,
        name: &str,
        dtype: u16,
        mode: u16,
        data: &[u8],
        size: u64,
        mtime_ns: u64,
    ) -> (r: Result<u64>)
        requires
            old(self)@.wf(),
            old(self)@.within(old(dev)@),
        ensures
            (final(self)@, r) == old(self)@.stream_added(
                parent_oid,
                name@,
                dtype,
                mode,
                size,
                mtime_ns,
            ),
            final(self)@.wf(),
            final(dev)@ == if r is Ok {
                stored(
                    old(dev)@,
                    old(self)@.block_size,
                    old(self)@.next_block,
                    data@,
                    size,
                    old(self)@.blocks_for(size),
                )
            } else {
                old(dev)@
            },
    {
        let ghost d = self@;
        let oid: u64 = self.alloc_oid();
        let rec = build_drec_record(parent_oid, name, oid, dtype, DrecKeyLayout::Plain, false)?;
        proof {
            lemma_drec_keyed(parent_oid, name@);
            bytes::lemma_le_lens();
        }
        let ghost r1 = rec@;
        self.push_raw_record(rec);
        let ghost d1 = self@;
        assert(d1.has_room(size) == d.has_room(size));
        let paddr: u64 = self.store_stream(dev, data, size)?;
        let (fe, ds) = build_file_extent_records(oid, 0, size, paddr, self.block_size);
        let ghost rf = fe@;
        let ghost rd = ds@;
        proof {
            let er = record::extent_records(oid, 0, size, paddr, self.block_size);
            assert(er[0] == rf && er[1] == rd);
        }
        self.push_raw_record(fe);
        self.push_raw_record(ds);
        let inode = build_inode_record(oid, parent_oid, mode, size, self.block_size, mtime_ns);
        let ghost ri = inode@;
        self.push_raw_record(inode);
        proof {
            let er = record::extent_records(oid, 0, size, paddr, d.block_size);
            assert(self@.records =~= (d.records + seq![r1]) + (er + seq![ri]));
            assert(self@ =~= d.stream_added(parent_oid, name@, dtype, mode, size, mtime_ns).0);
        }
        Ok(oid)
    }

    /// Add a symbolic link under `parent_oid`; gives its object id. The target
    /// is stored as the link's contents, so an empty one is refused.
    pub fn add_symlink(
        &mut self,
        dev: &mut MemoryBackend,
        parent_oid: u64,
        name: &str,
        mode: u16,
        target: &str,
    ) -> (r: Result<u64>)
        requires
            old(self)@.wf(),
            old(self)@.within(old(dev)@),
            old(self)@.num_symlinks < u64::MAX,
        ensures
            (final(self)@, r) == old(self)@.link_added(parent_oid, name@, mode, target@, 0),
            final(self)@.wf(),
            final(dev)@ == if r is Ok {
                stored(
                    old(dev)@,
                    old(self)@.block_size,
                    old(self)@.next_block,
                    text::utf8(target@),
                    text::utf8(target@).len() as u64,
                    old(self)@.blocks_for(text::utf8(target@).len() as u64),
                )
            } else {
                old(dev)@
            },
    {
        self.add_symlink_at_time(dev, parent_oid, name, mode, target, 0)
    }

    /// [`ApfsWriter::add_symlink`] with a time stamp in nanoseconds.
    pub fn add_symlink_at_time(
        &mut self,
        dev: &mut MemoryBackend,
        parent_oid: u64,
        name: &str,
        mode: u16,
        target: &str,
        mtime_ns: u64,
    ) -> (r: Result<u64>)
        requires
            old(self)@.wf(),
            old(self)@.within(old(dev)@),
            old(self)@.num_symlinks < u64::MAX,
        ensures
            (final(self)@, r) == old(self)@.link_added(parent_oid, name@, mode, target@, mtime_ns),
            final(self)@.wf(),
            final(dev)@ == if r is Ok {
                stored(
                    old(dev)@,
                    old(self)@.block_size,
                    old(self)@.next_block,
                    text::utf8(target@),
                    text::utf8(target@).len() as u64,
                    old(self)@.blocks_for(text::utf8(target@).len() as u64),
                )
            } else {
                old(dev)@
            },
    {
        let b = target.as_bytes();
        let oid: u64 = self.add_stream(
            dev,
            parent_oid,
            name,
            DT_LNK,
            mode_lnk(mode),
            b,
            b.len() as u64,
            mtime_ns,
        )?;
        self.num_symlinks = self.num_symlinks + 1;
        Ok(oid)
    }

    /// Add a regular file of `size` bytes under `parent_oid`; gives its object
    /// id. Its contents are the first `size` bytes of `data`, and zeros where
    /// `data` is shorter.
    pub fn add_file_from_reader(
        &mut self,
        dev: &mut MemoryBackend,
        parent_oid: u64,
        name: &str,
        mode: u16,
        data: &[u8],
        size: u64,
    ) -> (r: Result<u64>)
        requires
            old(self)@.wf(),
            old(self)@.within(old(dev)@),
            old(self)@.num_files < u64::MAX,
        ensures
            (final(self)@, r) == old(self)@.file_added(parent_oid, name@, mode, size, 0),
            final(self)@.wf(),
            final(dev)@ == if r is Ok && size > 0 {
                stored(
                    old(dev)@,
                    old(self)@.block_size,
                    old(self)@.next_block,
                    data@,
                    size,
                    old(self)@.blocks_for(size),
                )
            } else {
                old(dev)@
            },
    {
        self.add_file_from_reader_at_time(dev, parent_oid, name, mode, data, size, 0)
    }

    /// [`ApfsWriter::add_file_from_reader`] with a time stamp in nanoseconds.
    pub fn add_file_from_reader_at_time(
        &mut self,
        dev: &mut MemoryBackend,
        parent_oid: u64,
        name: &str,
        mode: u16,
        data: &[u8],
        size: u64,
        mtime_ns: u64,
    ) -> (r: Result<u64>)
        requires
            old(self)@.wf(),
            old(self)@.within(old(dev)@),
            old(self)@.num_files < u64::MAX,
        ensures
            (final(self)@, r) == old(self)@.file_added(parent_oid, name@, mode, size, mtime_ns),
            final(self)@.wf(),
            final(dev)@ == if r is Ok && size > 0 {
                stored(
                    old(dev)@,
                    old(self)@.block_size,
                    old(self)@.next_block,
                    data@,
                    size,
                    old(self)@.blocks_for(size),
                )
            } else {
                old(dev)@
            },
    {
        let m: u16 = mode_reg(mode);
        if size > 0 {
            let oid: u64 = self.add_stream(
                dev,
                parent_oid,
                name,
                DT_REG,
                m,
                data,
                size,
                mtime_ns,
            )?;
            self.num_files = self.num_files + 1;
            return Ok(oid);
        }
        let ghost d = self@;
        let oid: u64 = self.alloc_oid();
        let rec = build_drec_record(parent_oid, name, oid, DT_REG, DrecKeyLayout::Plain, false)?;
        proof {
            lemma_drec_keyed(parent_oid, name@);
            lemma_no_blocks(self.block_size);
            bytes::lemma_le_lens();
        }
        let ghost r1 = rec@;
        self.push_raw_record(rec);
        let inode = build_inode_record(oid, parent_oid, m, 0, self.block_size, mtime_ns);
        let ghost r2 = inode@;
        self.push_raw_record(inode);
        self.num_files = self.num_files + 1;
        proof {
            assert(d.records + seq![r1] + seq![r2] =~= d.records + seq![r1, r2]);
            assert(self@ =~= d.file_added(parent_oid, name@, mode, size, mtime_ns).0);
        }
        Ok(oid)
    }

    /// Add an extended attribute to object `parent_oid`.
    pub fn add_xattr(&mut self, parent_oid: u64, name: &str, value: &[u8]) -> (r: Result<()>)
        requires
            old(self)@.wf(),
        ensures
            final(self)@.wf(),
            match r {
                Ok(_) => {
                    &&& value@.len() <= record::APFS_XATTR_MAX_EMBEDDED_SIZE
                    &&& text::utf8(name@).len() + 1 <= 0xffff
                    &&& final(self)@ == old(self)@.with(
                        seq![(record::xattr_key(parent_oid, name@), record::xattr_value(value@))],
                    )
                },
                Err(e) => {
                    &&& final(self)@ == old(self)@
                    &&& if value@.len() > record::APFS_XATTR_MAX_EMBEDDED_SIZE {
                        e == Error::Unsupported
                    } else {
                        e == Error::InvalidArgument && text::utf8(name@).len() + 1 > 0xffff
                    }
                },
            },
    {
        let rec = build_xattr_record(parent_oid, name, value)?;
        proof {
            bytes::lemma_le_lens();
        }
        self.push_raw_record(rec);
        Ok(())
    }
}

impl ApfsWriter {
    /// Build the volume superblock.
    fn build_apsb(&self, paddr: u64, omap: u64) -> (r: Vec<u8>)
        requires
            self@.wf(),
            self@.block_size >= 1024,
        ensures
            r@ == self@.apsb(paddr, omap),
    {
        broadcast use {bytes::lemma_put_len, bytes::lemma_zeros_len};

        let mut buf = zero_vec(self.block_size as usize);
        put_u64(&mut buf, 8, paddr);
        put_u64(&mut buf, 16, self.xid);
        put_u32(&mut buf, 24, OBJECT_TYPE_FS);
        put_u32(&mut buf, 32, APFS_MAGIC);
        put_u32(&mut buf, 116, OBJECT_TYPE_BTREE);
        put_u32(&mut buf, 120, OBJECT_TYPE_BTREE);
        put_u32(&mut buf, 124, OBJECT_TYPE_BTREE);
        put_u64(&mut buf, 128, omap);
        put_u64(&mut buf, 136, FSROOT_VID);
        put_u64(&mut buf, 176, self.next_oid);
        put_u64(&mut buf, 184, self.num_files);
        put_u64(&mut buf, 192, self.num_directories);
        put_u64(&mut buf, 200, self.num_symlinks);
        put_bytes(&mut buf, 240, self.volume_uuid.as_slice());
        put_u64(&mut buf, 264, APFS_FS_UNENCRYPTED);
        let name = self.volume_name.as_str().as_bytes();
        let n: usize = if name.len() < 255 {
            name.len()
        } else {
            255
        };
        let shown = copy_range(name, 0, n);
        proof {
            assert(shown@ =~= self@.volname());
        }
        put_bytes(&mut buf, 704, shown.as_slice());
        sign_block(&mut buf);
        buf
    }

    /// Build the container superblock at `paddr`.
    fn build_nxsb(&self, paddr: u64, omap: u64) -> (r: Vec<u8>)
        requires
            self@.wf(),
            self@.block_size >= 1024,
            self@.next_oid <= u64::MAX - 1024,
            self@.xid < u64::MAX,
            paddr <= XP_DESC_BLOCKS,
        ensures
            r@ == self@.nxsb(paddr, omap),
    {
        broadcast use {bytes::lemma_put_len, bytes::lemma_zeros_len};

        let mut buf = zero_vec(self.block_size as usize);
        put_u64(&mut buf, 8, paddr);
        put_u64(&mut buf, 16, self.xid);
        put_u32(&mut buf, 24, OBJECT_TYPE_NX_SUPERBLOCK + OBJ_EPHEMERAL);
        put_u32(&mut buf, 32, NX_MAGIC);
        put_u32(&mut buf, 36, self.block_size);
        put_u64(&mut buf, 40, self.total_blocks);
        put_bytes(&mut buf, 72, self.container_uuid.as_slice());
        put_u64(&mut buf, 88, self.next_oid + 1024);
        put_u64(&mut buf, 96, self.xid + 1);
        put_u32(&mut buf, 104, XP_DESC_BLOCKS);
        put_u32(&mut buf, 108, 1);
        put_u64(&mut buf, 112, CHKMAP_PADDR);
        put_u64(&mut buf, 120, SPACEMAN_PADDR);
        put_u32(&mut buf, 128, (paddr + 1) as u32);
        put_u32(&mut buf, 132, 1);
        put_u32(&mut buf, 140, paddr as u32);
        put_u32(&mut buf, 148, 1);
        put_u64(&mut buf, 152, SPACEMAN_VID);
        put_u64(&mut buf, 160, omap);
        put_u64(&mut buf, 168, REAPER_VID);
        put_u32(&mut buf, 180, 100);
        put_u64(&mut buf, 184, VOLUME_VID);
        sign_block(&mut buf);
        buf
    }

    /// Lay out the space manager with its data from block `next` on.
    fn plan_manager(&self, next: u64) -> (r: Result<Vec<(u64, Vec<u8>)>>)
        requires
            self@.wf(),
            next <= self@.total_blocks,
        ensures
            match r {
                Ok(v) => self@.manager_blocks(next as int) == Ok::<Seq<plan::Placed>, Error>(
                    plan::placed(v@),
                ),
                Err(e) => self@.manager_blocks(next as int) == Err::<Seq<plan::Placed>, Error>(e),
            },
    {
        let bs: usize = self.block_size as usize;
        let chunks: u64 = div_ceil(self.total_blocks, 8 * bs as u64);
        let left: u64 = self.total_blocks - next;
        if left < 21 || chunks > left - 21 {
            return Err(Error::InvalidArgument);
        }
        let ghost l = self@.manager_layout(next as int);
        assert(l.chunks() == chunks);
        let mut bitmap_paddrs: Vec<u64> = Vec::new();
        let mut i: u64 = 0;
        while i < chunks
            invariant
                i <= chunks,
                next + 21 + chunks <= u64::MAX,
                bitmap_paddrs@ =~= Seq::new(i as nat, |k: int| (next + 21 + k) as u64),
            decreases chunks - i,
        {
            bitmap_paddrs.push(next + 21 + i);
            i = i + 1;
        }
        let mut used_ranges: Vec<(u64, u64)> = Vec::new();
        used_ranges.push((0, next + 21 + chunks));
        let free_queue_paddrs: [u64; 3] = [next + 17, next + 18, next + 19];
        let layout = SpacemanLayout {
            block_size: bs,
            total_blocks: self.total_blocks,
            xid: self.xid,
            spaceman_oid: SPACEMAN_VID,
            cib_paddr: next + 20,
            bitmap_paddrs,
            used_ranges,
            ip_base: next + 1,
            ip_block_count: DEFAULT_IP_BLOCK_COUNT,
            ip_bm_base: next,
            ip_bm_size_in_blocks: 1,
            free_queue_paddrs,
        };
        proof {
            assert(layout@.bitmap_paddrs =~= l.bitmap_paddrs);
            assert(layout@.used_ranges =~= l.used_ranges);
            assert(layout@.free_queue_paddrs =~= l.free_queue_paddrs);
            assert(layout@ == l);
        }
        let emitted = build_spaceman(&layout)?;
        let mut out: Vec<(u64, Vec<u8>)> = Vec::new();
        out.push((SPACEMAN_PADDR, emitted.spaceman_block));
        out.push((next + 20, emitted.cib_block));
        let ghost maps = Seq::new(
            chunks as nat,
            |k: int| (l.bitmap_paddrs[k], l.chunk_bitmap(k)),
        );
        let ghost head = seq![(SPACEMAN_PADDR, l.manager()), (l.cib_paddr, l.cib())];
        let mut c: usize = 0;
        proof {
            assert(plan::placed(out@) =~= head + maps.take(0));
        }
        while c < emitted.bitmap_blocks.len()
            invariant
                c <= emitted.bitmap_blocks@.len(),
                emitted.bitmap_blocks@.len() == chunks,
                l.chunks() == chunks,
                next + 21 + chunks <= u64::MAX,
                l.bitmap_paddrs == Seq::new(chunks as nat, |k: int| (next + 21 + k) as u64),
                maps == Seq::new(
                    chunks as nat,
                    |k: int| (l.bitmap_paddrs[k], l.chunk_bitmap(k)),
                ),
                forall|k: int|
                    0 <= k < chunks ==> (#[trigger] emitted.bitmap_blocks@[k])@
                        == l.chunk_bitmap(k),
                plan::placed(out@) == head + maps.take(c as int),
            decreases emitted.bitmap_blocks@.len() - c,
        {
            let bm = copy_all(emitted.bitmap_blocks[c].as_slice());
            let ghost before = out@;
            let ghost bv = bm@;
            let p: u64 = next + 21 + c as u64;
            out.push((p, bm));
            proof {
                assert(plan::placed(out@) =~= plan::placed(before).push((p, bv)));
                assert(maps.take(c + 1) =~= maps.take(c as int).push(maps[c as int]));
                assert(plan::placed(out@) =~= head + maps.take(c + 1));
            }
            c = c + 1;
        }
        let ghost before = out@;
        out.push((next, emitted.ip_bm_block));
        out.push((next + 17, copy_all(emitted.free_queue_blocks[0].as_slice())));
        out.push((next + 18, copy_all(emitted.free_queue_blocks[1].as_slice())));
        out.push((next + 19, copy_all(emitted.free_queue_blocks[2].as_slice())));
        proof {
            assert(maps.take(c as int) =~= maps);
            assert(plan::placed(out@) =~= self@.manager_blocks(next as int).unwrap());
        }
        Ok(out)
    }

    /// Write the image.
    ///
    /// A container of fresh blocks takes at least 2528 bytes per block, since
    /// the space manager must fit in one. Where no image can be laid out the
    /// device stays as it was.
    #[verifier::rlimit(60)]
    #[verifier::spinoff_prover]
    pub fn finish(self, dev: &mut MemoryBackend) -> (r: Result<()>)
        requires
            self@.wf(),
            self@.block_size >= 1024,
            self@.next_oid <= u64::MAX - 1024,
            self@.xid < u64::MAX,
            self@.records.len() + 0x2_0000 <= u64::MAX,
        ensures
            match self@.plan() {
                Err(e) => r == Err::<(), Error>(e) && final(dev)@ == old(dev)@,
                Ok(bl) => {
                    let done = block::store_all(old(dev)@, self@.block_size as int, bl);
                    &&& final(dev)@ == done.0
                    &&& r == if done.1 {
                        Ok(())
                    } else {
                        Err::<(), Error>(Error::OutOfBounds)
                    }
                },
            },
    {
        let ghost d = self@;
        let mut me = self;
        let bs: usize = me.block_size as usize;
        let total: u64 = me.total_blocks;
        let xid: u64 = me.xid;
        let nxsb_paddr: u64 = me.nxsb_paddr;
        sort_records(&mut me.records);
        let ghost s = pack::sort(d.records);
        proof {
            pack::lemma_sort(d.records);
            assert(record::recs(me.records@) == s);
            assert(me@ =~= (Draft { records: s, ..d }));
        }
        let (cont, apsb, vol, base) = if me.fresh {
            (CONT_OMAP_PADDR, APSB_PADDR, VOL_OMAP_PADDR, me.next_block)
        } else {
            if total - me.next_block < 3 {
                return Err(Error::InvalidArgument);
            }
            (me.next_block, me.next_block + 1, me.next_block + 2, me.next_block + 3)
        };
        let (ft, entries) = plan_fs_tree(&me.records, bs, base, total, xid)?;
        let vt = plan_omap_tree(&entries, bs, ft.next, total, xid)?;
        let mut volume: Vec<(u64, u64, u64)> = Vec::new();
        volume.push((VOLUME_VID, xid, apsb));
        proof {
            assert(volume@ =~= seq![(VOLUME_VID, xid, apsb)]);
        }
        let ct = plan_omap_tree(&volume, bs, vt.next, total, xid)?;
        let ghost t = (plan::FsTree { tree: ft@, entries: entries@ }, vt@, ct@);
        assert(d.trees() == Ok::<_, Error>(t));
        let vol_root: u64 = vt.root;
        let cont_root: u64 = ct.root;
        let next: u64 = ct.next;
        let mut out: Vec<(u64, Vec<u8>)> = ft.blocks;
        let mut vt_blocks = vt.blocks;
        out.append(&mut vt_blocks);
        out.push((vol, build_omap_phys(bs, vol, vol_root, xid)));
        let apsb_block = me.build_apsb(apsb, vol);
        assert(apsb_block@ == d.apsb(apsb, vol));
        out.push((apsb, apsb_block));
        let mut ct_blocks = ct.blocks;
        out.append(&mut ct_blocks);
        out.push((cont, build_omap_phys(bs, cont, cont_root, xid)));
        proof {
            assert(plan::placed(out@) =~= d.volume_blocks(t));
        }
        if me.fresh {
            let ghost before = out@;
            let mut m = me.plan_manager(next)?;
            let ghost mv = plan::placed(m@);
            assert(d.manager_blocks(next as int) == me@.manager_blocks(next as int));
            out.append(&mut m);
            out.push((CHKMAP_PADDR, build_chkmap(bs, xid)));
            let live = me.build_nxsb(nxsb_paddr, cont);
            out.push((nxsb_paddr, live));
            let label = me.build_nxsb(0, cont);
            out.push((0, label));
            proof {
                assert(plan::placed(out@) =~= d.plan().unwrap());
            }
        } else {
            let live = me.build_nxsb(nxsb_paddr, cont);
            out.push((nxsb_paddr, live));
            proof {
                assert(plan::placed(out@) =~= d.plan().unwrap());
            }
        }
        dev.write_blocks(bs, &out)
    }
}

proof fn lemma_drec_keyed(parent: u64, name: Seq<char>)
    ensures
        record::drec_key(parent, name, DrecKeyLayout::Plain, false).len() >= 8,
{
    bytes::lemma_le_lens();
}

/// No bytes take no blocks.
proof fn lemma_no_blocks(bs: u32)
    requires
        bs > 0,
    ensures
        num::div_up(0, bs as int) * bs == 0,
{
    assert((0 + bs - 1) / (bs as int) == 0) by (nonlinear_arith)
        requires
            bs > 0,
    ;
    assert(0 * bs == 0) by (nonlinear_arith);
}

} // verus!
