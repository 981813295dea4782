//! The space manager: which blocks of the container are in use.
//!
//! The container is cut into chunks of `8 * block_size` blocks, so that one
//! bitmap block covers one chunk; a set bit means "used". One chunk-info block
//! lists the chunks. Layout of the manager's own block:
//!
//! ```text
//!   0..32   object header
//!  32..48   block size, blocks per chunk, chunks per CIB, CIBs per CAB
//!  48..96   main device: block count, chunk count, CIB count, CAB count,
//!           free count, offset of the CIB address array
//!  96..144  second device (unused)
//! 144..148  flags
//! 148..184  internal pool
//! 200..320  three free queues of 40 bytes
//! 336..344  version, size of the structure
//! 344..2520 allocation zones: 2 devices, 8 zones, 136 bytes each
//! 2520..    address of the chunk-info block
//! ```

use vstd::prelude::*;

use crate::apfs::checksum::{self, sign_block};
use crate::apfs::node::{OBJ_EPHEMERAL, OBJ_PHYSICAL};
use crate::apfs::obj::OBJECT_TYPE_BTREE;
use crate::bytes::{
    self, get_u32, get_u64, put_u16, put_u32, put_u64, zero_vec,
};
use crate::error::{Error, Result};
use crate::num::{self, div_ceil, power_of_two};

verus! {

pub const OBJECT_TYPE_SPACEMAN: u32 = 0x0000_0005;

pub const OBJECT_TYPE_SPACEMAN_CIB: u32 = 0x0000_0007;

pub const OBJECT_TYPE_SPACEMAN_FREE_QUEUE: u32 = 0x0000_0009;

/// Set when the version field is meaningful.
pub const SM_FLAG_VERSIONED: u32 = 0x0000_0001;

pub const SPACEMAN_IP_BM_TX_MULTIPLIER: u32 = 16;

pub const SM_ALLOCZONE_NUM_PREVIOUS_BOUNDARIES: u16 = 7;

/// Offset of the allocation zones.
pub const SM_DATAZONE_OFFSET: usize = 344;

/// Size of the allocation zones.
pub const DATAZONE_SIZE: usize = 2176;

/// Offset of the array of chunk-info block addresses.
pub const SM_CIB_ADDR_OFFSET: usize = 2520;

/// Blocks of the internal pool of a fresh container.
pub const DEFAULT_IP_BLOCK_COUNT: u64 = 16;

/// Blocks that one bitmap block tracks.
pub fn blocks_per_chunk(block_size: usize) -> (r: u64)
    requires
        block_size <= 0x1_0000,
    ensures
        r == 8 * block_size,
{
    block_size as u64 * 8
}

/// Chunk entries that fit in a chunk-info block.
pub fn chunks_per_cib(block_size: usize) -> (r: u32)
    requires
        40 <= block_size <= 0x1_0000,
    ensures
        r == (block_size - 40) / 32,
{
    ((block_size - 40) / 32) as u32
}

/// What the space manager is built from.
pub struct SpacemanLayout {
    pub block_size: usize,
    /// Blocks of the container.
    pub total_blocks: u64,
    pub xid: u64,
    /// Object id of the space manager.
    pub spaceman_oid: u64,
    /// Address of the chunk-info block.
    pub cib_paddr: u64,
    /// Address of the bitmap of each chunk.
    pub bitmap_paddrs: Vec<u64>,
    /// Blocks in use: from the first number on, up to the second.
    pub used_ranges: Vec<(u64, u64)>,
    /// First block of the internal pool.
    pub ip_base: u64,
    pub ip_block_count: u64,
    /// First bitmap block of the internal pool.
    pub ip_bm_base: u64,
    pub ip_bm_size_in_blocks: u32,
    /// Roots of the three free queues.
    pub free_queue_paddrs: [u64; 3],
}

/// A layout as a mathematical value.
pub struct Layout {
    pub block_size: usize,
    pub total_blocks: u64,
    pub xid: u64,
    pub spaceman_oid: u64,
    pub cib_paddr: u64,
    pub bitmap_paddrs: Seq<u64>,
    pub used_ranges: Seq<(u64, u64)>,
    pub ip_base: u64,
    pub ip_block_count: u64,
    pub ip_bm_base: u64,
    pub ip_bm_size_in_blocks: u32,
    pub free_queue_paddrs: Seq<u64>,
}

impl View for SpacemanLayout {
    type V = Layout;

    open spec fn view(&self) -> Layout {
        Layout {
            block_size: self.block_size,
            total_blocks: self.total_blocks,
            xid: self.xid,
            spaceman_oid: self.spaceman_oid,
            cib_paddr: self.cib_paddr,
            bitmap_paddrs: self.bitmap_paddrs@,
            used_ranges: self.used_ranges@,
            ip_base: self.ip_base,
            ip_block_count: self.ip_block_count,
            ip_bm_base: self.ip_bm_base,
            ip_bm_size_in_blocks: self.ip_bm_size_in_blocks,
            free_queue_paddrs: self.free_queue_paddrs@,
        }
    }
}

/// Whether block `b` lies in one of the ranges `rs`.
pub open spec fn used(rs: Seq<(u64, u64)>, b: int) -> bool {
    exists|i: int| 0 <= i < rs.len() && (#[trigger] rs[i]).0 <= b < rs[i].1
}

/// Number of blocks of `lo..hi` that are not in use.
pub open spec fn free_in(rs: Seq<(u64, u64)>, lo: int, hi: int) -> int
    decreases hi - lo,
{
    if hi <= lo {
        0
    } else {
        free_in(rs, lo, hi - 1) + if used(rs, hi - 1) {
            0int
        } else {
            1
        }
    }
}

/// Whether bit `i` of the bitmap of the chunk `start..end` is set: the block is
/// in use, or past the end of the container.
pub open spec fn marked(rs: Seq<(u64, u64)>, start: int, end: int, i: int) -> bool {
    start + i >= end || used(rs, start + i)
}

/// The number whose binary digits, from the lowest on, are bits `base + n` to
/// `base + 7` of a bitmap.
pub open spec fn octet(rs: Seq<(u64, u64)>, start: int, end: int, base: int, n: int) -> int
    decreases 8 - n,
{
    if n >= 8 {
        0
    } else {
        2 * octet(rs, start, end, base, n + 1) + if marked(rs, start, end, base + n) {
            1int
        } else {
            0
        }
    }
}

/// The bitmap of the chunk `start..end`.
pub open spec fn bitmap(bs: nat, rs: Seq<(u64, u64)>, start: int, end: int) -> Seq<u8> {
    Seq::new(bs, |k: int| octet(rs, start, end, 8 * k, 0) as u8)
}

/// `x` without its `j` lowest binary digits.
pub open spec fn shifted(x: int, j: int) -> int
    decreases j,
{
    if j <= 0 {
        x
    } else {
        shifted(x, j - 1) / 2
    }
}

/// Bit `i` of a bitmap.
pub open spec fn bit(bm: Seq<u8>, i: int) -> bool {
    shifted(bm[i / 8] as int, i % 8) % 2 == 1
}

/// Number of set bits among the first `n` of a bitmap.
pub open spec fn bits_set(bm: Seq<u8>, n: int) -> int
    decreases n,
{
    if n <= 0 {
        0
    } else {
        bits_set(bm, n - 1) + if bit(bm, n - 1) {
            1int
        } else {
            0
        }
    }
}

proof fn lemma_octet_range(rs: Seq<(u64, u64)>, start: int, end: int, base: int)
    ensures
        0 <= octet(rs, start, end, base, 0) <= 255,
{
    reveal_with_fuel(octet, 9);
}

proof fn lemma_shifted_octet(rs: Seq<(u64, u64)>, start: int, end: int, base: int, j: int)
    requires
        0 <= j <= 8,
    ensures
        shifted(octet(rs, start, end, base, 0), j) == octet(rs, start, end, base, j),
    decreases j,
{
    if j > 0 {
        lemma_shifted_octet(rs, start, end, base, j - 1);
    }
}

/// The bits of a chunk's bitmap are what they stand for.
pub proof fn lemma_bitmap_bit(bs: nat, rs: Seq<(u64, u64)>, start: int, end: int, i: int)
    requires
        0 <= i < 8 * bs,
    ensures
        bit(bitmap(bs, rs, start, end), i) == marked(rs, start, end, i),
{
    let k = i / 8;
    let j = i % 8;
    lemma_octet_range(rs, start, end, 8 * k);
    lemma_shifted_octet(rs, start, end, 8 * k, j);
    assert(8 * k + j == i);
}

/// The set bits of a chunk's bitmap are the blocks that are not free.
pub proof fn lemma_bits_set(bs: nat, rs: Seq<(u64, u64)>, start: int, end: int, n: int)
    requires
        0 <= n <= 8 * bs,
        start + n <= end,
    ensures
        bits_set(bitmap(bs, rs, start, end), n) == n - free_in(rs, start, start + n),
    decreases n,
{
    if n > 0 {
        lemma_bits_set(bs, rs, start, end, n - 1);
        lemma_bitmap_bit(bs, rs, start, end, n - 1);
    }
}

pub proof fn lemma_free_range(rs: Seq<(u64, u64)>, lo: int, hi: int)
    requires
        lo <= hi,
    ensures
        0 <= free_in(rs, lo, hi) <= hi - lo,
    decreases hi - lo,
{
    if lo < hi {
        lemma_free_range(rs, lo, hi - 1);
    }
}

/// One range from the first block on leaves the rest free.
pub proof fn lemma_free_front(n: u64, hi: int)
    requires
        0 <= hi,
    ensures
        free_in(seq![(0u64, n)], 0, hi) == if hi <= n {
            0
        } else {
            hi - n
        },
    decreases hi,
{
    let rs = seq![(0u64, n)];
    if hi > 0 {
        lemma_free_front(n, hi - 1);
        if hi - 1 < n {
            assert(rs[0].0 <= hi - 1 < rs[0].1);
        }
    }
}

pub proof fn lemma_free_split(rs: Seq<(u64, u64)>, lo: int, mid: int, hi: int)
    requires
        lo <= mid <= hi,
    ensures
        free_in(rs, lo, hi) == free_in(rs, lo, mid) + free_in(rs, mid, hi),
    decreases hi - mid,
{
    if mid < hi {
        lemma_free_split(rs, lo, mid, hi - 1);
    }
}

impl Layout {
    /// Blocks of a chunk.
    pub open spec fn bpc(self) -> int {
        8 * self.block_size as int
    }

    /// Number of chunks of the container.
    pub open spec fn chunks(self) -> int {
        num::div_up(self.total_blocks as int, self.bpc())
    }

    /// First block of chunk `c`.
    pub open spec fn chunk_start(self, c: int) -> int {
        c * self.bpc()
    }

    /// End of chunk `c`: the last one ends with the container.
    pub open spec fn chunk_end(self, c: int) -> int {
        if self.chunk_start(c) + self.bpc() < self.total_blocks {
            self.chunk_start(c) + self.bpc()
        } else {
            self.total_blocks as int
        }
    }

    /// Free blocks of chunk `c`.
    pub open spec fn chunk_free(self, c: int) -> int {
        free_in(self.used_ranges, self.chunk_start(c), self.chunk_end(c))
    }

    /// Free blocks of the container.
    pub open spec fn free_total(self) -> int {
        free_in(self.used_ranges, 0, self.total_blocks as int)
    }

    /// The bitmap of chunk `c`.
    pub open spec fn chunk_bitmap(self, c: int) -> Seq<u8> {
        bitmap(
            self.block_size as nat,
            self.used_ranges,
            self.chunk_start(c),
            self.chunk_end(c),
        )
    }

    /// Why no space manager can be built from this layout, if so.
    pub open spec fn refused(self) -> Option<Error> {
        if self.block_size < 512 || !num::is_pow2(self.block_size as int) {
            Some(Error::InvalidArgument)
        } else if self.chunks() > (self.block_size - 40) / 32 {
            Some(Error::Unsupported)
        } else if self.bitmap_paddrs.len() != self.chunks() {
            Some(Error::InvalidArgument)
        } else if self.ip_block_count == 0 || self.ip_block_count % 16 != 0 {
            Some(Error::InvalidArgument)
        } else if self.ip_bm_size_in_blocks == 0 {
            Some(Error::InvalidArgument)
        } else if self.block_size < 2528 {
            Some(Error::Unsupported)
        } else {
            None
        }
    }

    /// `b` with the first `i` chunk entries of 32 bytes from 40 on.
    pub open spec fn with_chunks(self, b: Seq<u8>, i: int) -> Seq<u8>
        decreases i,
    {
        if i <= 0 {
            b
        } else {
            let c = i - 1;
            let p = self.with_chunks(b, c);
            let p = bytes::put(p, 40 + 32 * c, bytes::le64(self.xid));
            let p = bytes::put(p, 48 + 32 * c, bytes::le64(self.chunk_start(c) as u64));
            let p = bytes::put(
                p,
                56 + 32 * c,
                bytes::le32((self.chunk_end(c) - self.chunk_start(c)) as u32),
            );
            let p = bytes::put(p, 60 + 32 * c, bytes::le32(self.chunk_free(c) as u32));
            bytes::put(p, 64 + 32 * c, bytes::le64(self.bitmap_paddrs[c]))
        }
    }

    /// Header of the chunk-info block.
    pub open spec fn cib_head(self) -> Seq<u8> {
        let b = bytes::put(
            bytes::zeros(self.block_size as nat),
            8,
            bytes::le64(self.cib_paddr),
        );
        let b = bytes::put(b, 16, bytes::le64(self.xid));
        let b = bytes::put(
            b,
            24,
            bytes::le32((OBJECT_TYPE_SPACEMAN_CIB + OBJ_PHYSICAL) as u32),
        );
        bytes::put(b, 36, bytes::le32(self.chunks() as u32))
    }

    /// The chunk-info block.
    pub open spec fn cib(self) -> Seq<u8> {
        checksum::signed(self.with_chunks(self.cib_head(), self.chunks()))
    }

    /// The block of the space manager.
    pub open spec fn manager(self) -> Seq<u8> {
        let b = bytes::put(
            bytes::zeros(self.block_size as nat),
            8,
            bytes::le64(self.spaceman_oid),
        );
        let b = bytes::put(b, 16, bytes::le64(self.xid));
        let b = bytes::put(
            b,
            24,
            bytes::le32((OBJECT_TYPE_SPACEMAN + OBJ_EPHEMERAL) as u32),
        );
        let b = bytes::put(b, 32, bytes::le32(self.block_size as u32));
        let b = bytes::put(b, 36, bytes::le32(self.bpc() as u32));
        let b = bytes::put(b, 40, bytes::le32(((self.block_size - 40) / 32) as u32));
        let b = bytes::put(b, 44, bytes::le32(((self.block_size - 40) / 8) as u32));
        let b = bytes::put(b, 48, bytes::le64(self.total_blocks));
        let b = bytes::put(b, 56, bytes::le64(self.chunks() as u64));
        let b = bytes::put(b, 64, bytes::le32(1));
        let b = bytes::put(b, 72, bytes::le64(self.free_total() as u64));
        let b = bytes::put(b, 80, bytes::le32(SM_CIB_ADDR_OFFSET as u32));
        let b = bytes::put(b, 144, bytes::le32(SM_FLAG_VERSIONED));
        let b = bytes::put(b, 148, bytes::le32(SPACEMAN_IP_BM_TX_MULTIPLIER));
        let b = bytes::put(b, 152, bytes::le64(self.ip_block_count));
        let b = bytes::put(b, 160, bytes::le32(self.ip_bm_size_in_blocks));
        let b = bytes::put(b, 164, bytes::le32(SPACEMAN_IP_BM_TX_MULTIPLIER));
        let b = bytes::put(b, 168, bytes::le64(self.ip_bm_base));
        let b = bytes::put(b, 176, bytes::le64(self.ip_base));
        let b = bytes::put(b, 208, bytes::le64(self.free_queue_paddrs[0]));
        let b = bytes::put(b, 248, bytes::le64(self.free_queue_paddrs[1]));
        let b = bytes::put(b, 288, bytes::le64(self.free_queue_paddrs[2]));
        let b = bytes::put(b, 336, bytes::le32(1));
        let b = bytes::put(
            b,
            340,
            bytes::le32((SM_CIB_ADDR_OFFSET + 8 * self.chunks()) as u32),
        );
        let b = bytes::put(b, 352, bytes::le64(self.total_blocks));
        let b = bytes::put(b, 474, bytes::le16(SM_ALLOCZONE_NUM_PREVIOUS_BOUNDARIES));
        let b = bytes::put(b, 2520, bytes::le64(self.cib_paddr));
        checksum::signed(b)
    }
}

/// The empty root of a free queue at `paddr`.
pub open spec fn free_queue_root(bs: nat, paddr: u64, xid: u64) -> Seq<u8> {
    let b = bytes::put(bytes::zeros(bs), 8, bytes::le64(paddr));
    let b = bytes::put(b, 16, bytes::le64(xid));
    let b = bytes::put(b, 24, bytes::le32((OBJECT_TYPE_BTREE + OBJ_PHYSICAL) as u32));
    let b = bytes::put(b, 28, bytes::le32(OBJECT_TYPE_SPACEMAN_FREE_QUEUE));
    let b = bytes::put(b, 32, bytes::le16(7));
    let b = bytes::put(b, 46, bytes::le16((bs - 96) as u16));
    let b = bytes::put(b, 48, bytes::le16(0xffff));
    let b = bytes::put(b, 52, bytes::le16(0xffff));
    let b = bytes::put(b, bs - 40, bytes::le32(0x14));
    let b = bytes::put(b, bs - 36, bytes::le32(bs as u32));
    let b = bytes::put(b, bs - 32, bytes::le32(16));
    let b = bytes::put(b, bs - 28, bytes::le32(8));
    let b = bytes::put(b, bs - 8, bytes::le64(1));
    checksum::signed(b)
}

/// The blocks of a space manager.
pub struct EmittedSpaceman {
    pub spaceman_block: Vec<u8>,
    pub cib_block: Vec<u8>,
    /// One bitmap per chunk.
    pub bitmap_blocks: Vec<Vec<u8>>,
    /// Bitmap of the internal pool: nothing is in use.
    pub ip_bm_block: Vec<u8>,
    /// Roots of the three free queues.
    pub free_queue_blocks: [Vec<u8>; 3],
}

impl EmittedSpaceman {
    /// Whether these are the blocks for the layout `l`.
    pub open spec fn of(self, l: Layout) -> bool {
        let bs = l.block_size as nat;
        &&& self.spaceman_block@ == l.manager()
        &&& self.cib_block@ == l.cib()
        &&& self.bitmap_blocks@.len() == l.chunks()
        &&& forall|c: int|
            0 <= c < l.chunks() ==> (#[trigger] self.bitmap_blocks@[c])@ == l.chunk_bitmap(c)
        &&& self.ip_bm_block@ == bytes::zeros(bs)
        &&& self.free_queue_blocks@[0]@ == free_queue_root(bs, l.free_queue_paddrs[0], l.xid)
        &&& self.free_queue_blocks@[1]@ == free_queue_root(bs, l.free_queue_paddrs[1], l.xid)
        &&& self.free_queue_blocks@[2]@ == free_queue_root(bs, l.free_queue_paddrs[2], l.xid)
    }
}

/// Whether block `b` is in use.
fn in_use(ranges: &Vec<(u64, u64)>, b: u64) -> (r: bool)
    ensures
        r == used(ranges@, b as int),
{
    let mut i: usize = 0;
    while i < ranges.len()
        invariant
            i <= ranges@.len(),
            forall|j: int| 0 <= j < i ==> !((#[trigger] ranges@[j]).0 <= b < ranges@[j].1),
        decreases ranges@.len() - i,
    {
        let (lo, hi) = ranges[i];
        if lo <= b && b < hi {
            assert(ranges@[i as int].0 <= b < ranges@[i as int].1);
            return true;
        }
        i = i + 1;
    }
    false
}

/// Number of free blocks of `lo..hi`.
fn count_free(ranges: &Vec<(u64, u64)>, lo: u64, hi: u64) -> (r: u64)
    requires
        lo <= hi,
    ensures
        r == free_in(ranges@, lo as int, hi as int),
{
    let mut b: u64 = lo;
    let mut n: u64 = 0;
    while b < hi
        invariant
            lo <= b <= hi,
            n == free_in(ranges@, lo as int, b as int),
            n <= b - lo,
        decreases hi - b,
    {
        if !in_use(ranges, b) {
            n = n + 1;
        }
        b = b + 1;
    }
    n
}

/// Byte `k` of the bitmap of the chunk `start..end`.
fn bitmap_byte(ranges: &Vec<(u64, u64)>, start: u64, end: u64, k: u64) -> (r: u8)
    requires
        start + 8 * k + 8 <= u64::MAX,
    ensures
        r == octet(ranges@, start as int, end as int, 8 * k as int, 0),
{
    let mut v: u64 = 0;
    let mut n: u64 = 8;
    while n > 0
        invariant
            n <= 8,
            start + 8 * k + 8 <= u64::MAX,
            v == octet(ranges@, start as int, end as int, 8 * k as int, n as int),
            n == 8 ==> v == 0,
            n == 7 ==> v < 2,
            n == 6 ==> v < 4,
            n == 5 ==> v < 8,
            n == 4 ==> v < 16,
            n == 3 ==> v < 32,
            n == 2 ==> v < 64,
            n == 1 ==> v < 128,
            n == 0 ==> v < 256,
        decreases n,
    {
        n = n - 1;
        let b: u64 = start + 8 * k + n;
        let set = b >= end || in_use(ranges, b);
        v = 2 * v + if set {
            1
        } else {
            0
        };
    }
    v as u8
}

/// Build the bitmap of the chunk `start..end`.
fn build_bitmap(bs: usize, ranges: &Vec<(u64, u64)>, start: u64, end: u64) -> (r: Vec<u8>)
    requires
        bs <= 0x1_0000,
        start + 8 * bs <= u64::MAX,
    ensures
        r@ == bitmap(bs as nat, ranges@, start as int, end as int),
{
    let mut out: Vec<u8> = Vec::new();
    let mut k: usize = 0;
    while k < bs
        invariant
            k <= bs <= 0x1_0000,
            start + 8 * bs <= u64::MAX,
            out@ =~= bitmap(bs as nat, ranges@, start as int, end as int).take(k as int),
        decreases bs - k,
    {
        let x = bitmap_byte(ranges, start, end, k as u64);
        out.push(x);
        k = k + 1;
    }
    out
}

/// Build the empty root of a free queue.
fn build_empty_free_queue_root(bs: usize, paddr: u64, xid: u64) -> (r: Vec<u8>)
    requires
        96 <= bs <= 0x1_0000,
    ensures
        r@ == free_queue_root(bs as nat, paddr, xid),
{
    broadcast use {bytes::lemma_put_len, bytes::lemma_zeros_len};

    let mut block = zero_vec(bs);
    put_u64(&mut block, 8, paddr);
    put_u64(&mut block, 16, xid);
    put_u32(&mut block, 24, OBJECT_TYPE_BTREE + OBJ_PHYSICAL);
    put_u32(&mut block, 28, OBJECT_TYPE_SPACEMAN_FREE_QUEUE);
    put_u16(&mut block, 32, 7);
    put_u16(&mut block, 46, (bs - 96) as u16);
    put_u16(&mut block, 48, 0xffff);
    put_u16(&mut block, 52, 0xffff);
    put_u32(&mut block, bs - 40, 0x14);
    put_u32(&mut block, bs - 36, bs as u32);
    put_u32(&mut block, bs - 32, 16);
    put_u32(&mut block, bs - 28, 8);
    put_u64(&mut block, bs - 8, 1);
    sign_block(&mut block);
    block
}

/// Build the block of the space manager.
fn build_manager(layout: &SpacemanLayout, chunks: u64, free_total: u64) -> (r: Vec<u8>)
    requires
        2528 <= layout.block_size <= 0x1_0000,
        chunks == layout@.chunks(),
        chunks <= 0x1_0000,
        free_total == layout@.free_total(),
    ensures
        r@ == layout@.manager(),
{
    broadcast use {bytes::lemma_put_len, bytes::lemma_zeros_len};

    let bs: usize = layout.block_size;
    let bpc: u64 = blocks_per_chunk(bs);
    let mut sm = zero_vec(bs);
    put_u64(&mut sm, 8, layout.spaceman_oid);
    put_u64(&mut sm, 16, layout.xid);
    put_u32(&mut sm, 24, OBJECT_TYPE_SPACEMAN + OBJ_EPHEMERAL);
    put_u32(&mut sm, 32, bs as u32);
    put_u32(&mut sm, 36, bpc as u32);
    put_u32(&mut sm, 40, chunks_per_cib(bs));
    put_u32(&mut sm, 44, ((bs - 40) / 8) as u32);
    put_u64(&mut sm, 48, layout.total_blocks);
    put_u64(&mut sm, 56, chunks);
    put_u32(&mut sm, 64, 1);
    put_u64(&mut sm, 72, free_total);
    put_u32(&mut sm, 80, SM_CIB_ADDR_OFFSET as u32);
    put_u32(&mut sm, 144, SM_FLAG_VERSIONED);
    put_u32(&mut sm, 148, SPACEMAN_IP_BM_TX_MULTIPLIER);
    put_u64(&mut sm, 152, layout.ip_block_count);
    put_u32(&mut sm, 160, layout.ip_bm_size_in_blocks);
    put_u32(&mut sm, 164, SPACEMAN_IP_BM_TX_MULTIPLIER);
    put_u64(&mut sm, 168, layout.ip_bm_base);
    put_u64(&mut sm, 176, layout.ip_base);
    put_u64(&mut sm, 208, layout.free_queue_paddrs[0]);
    put_u64(&mut sm, 248, layout.free_queue_paddrs[1]);
    put_u64(&mut sm, 288, layout.free_queue_paddrs[2]);
    put_u32(&mut sm, 336, 1);
    put_u32(&mut sm, 340, (SM_CIB_ADDR_OFFSET as u64 + 8 * chunks) as u32);
    put_u64(&mut sm, 352, layout.total_blocks);
    put_u16(&mut sm, 474, SM_ALLOCZONE_NUM_PREVIOUS_BOUNDARIES);
    put_u64(&mut sm, 2520, layout.cib_paddr);
    sign_block(&mut sm);
    sm
}

/// Chunks before the last whole container block are inside it.
proof fn lemma_chunk(l: Layout, c: int)
    requires
        l.block_size > 0,
        0 <= c < l.chunks(),
    ensures
        0 <= l.chunk_start(c) < l.total_blocks,
        l.chunk_start(c) < l.chunk_end(c) <= l.total_blocks,
        l.chunk_end(c) - l.chunk_start(c) <= l.bpc(),
        c + 1 < l.chunks() ==> l.chunk_end(c) == l.chunk_start(c + 1),
        c + 1 == l.chunks() ==> l.chunk_end(c) == l.total_blocks,
{
    let b = l.bpc();
    num::lemma_div_up(l.total_blocks as int, b);
    num::lemma_mono(c, l.chunks() - 1, b);
    num::lemma_mono(0, c, b);
    num::lemma_step(c, b);
    if c + 1 < l.chunks() {
        num::lemma_mono(c + 1, l.chunks() - 1, b);
    }
}

/// Build the blocks of a space manager. The caller writes each at the address
/// that the layout records.
pub fn build_spaceman(layout: &SpacemanLayout) -> (r: Result<EmittedSpaceman>)
    requires
        layout.block_size <= 0x1_0000,
    ensures
        match r {
            Ok(e) => layout@.refused() is None && e.of(layout@),
            Err(e) => layout@.refused() == Some(e),
        },
{
    let bs: usize = layout.block_size;
    if bs < 512 || !power_of_two(bs as u64) {
        return Err(Error::InvalidArgument);
    }
    let bpc: u64 = blocks_per_chunk(bs);
    let chunks: u64 = div_ceil(layout.total_blocks, bpc);
    if chunks > chunks_per_cib(bs) as u64 {
        return Err(Error::Unsupported);
    }
    if layout.bitmap_paddrs.len() as u64 != chunks {
        return Err(Error::InvalidArgument);
    }
    if layout.ip_block_count == 0 || layout.ip_block_count % (SPACEMAN_IP_BM_TX_MULTIPLIER as u64)
        != 0 {
        return Err(Error::InvalidArgument);
    }
    if layout.ip_bm_size_in_blocks == 0 {
        return Err(Error::InvalidArgument);
    }
    if bs < SM_CIB_ADDR_OFFSET + 8 {
        return Err(Error::Unsupported);
    }
    let mut bitmap_blocks: Vec<Vec<u8>> = Vec::new();
    let mut free_total: u64 = 0;
    let ghost l = layout@;
    let ghost head = l.cib_head();
    let mut cib = {
        broadcast use {bytes::lemma_put_len, bytes::lemma_zeros_len};

        let mut cib = zero_vec(bs);
        put_u64(&mut cib, 8, layout.cib_paddr);
        put_u64(&mut cib, 16, layout.xid);
        put_u32(&mut cib, 24, OBJECT_TYPE_SPACEMAN_CIB + OBJ_PHYSICAL);
        put_u32(&mut cib, 36, chunks as u32);
        cib
    };
    proof {
        assert(cib@ == head);
        bytes::lemma_zeros_len(bs as nat);
        assert(cib@.len() == bs) by {
            broadcast use {bytes::lemma_put_len, bytes::lemma_zeros_len};

        }
    }
    let mut c: u64 = 0;
    let mut start: u64 = 0;
    assert(l.chunk_start(0) == 0) by (nonlinear_arith);
    proof {
        if chunks == 0 {
            num::lemma_div_up(l.total_blocks as int, l.bpc());
            assert(0 * l.bpc() == 0) by (nonlinear_arith);
            assert(l.total_blocks == 0);
        }
    }
    while c < chunks
        invariant
            l == layout@,
            bs == layout.block_size,
            2528 <= bs <= 0x1_0000,
            bpc == l.bpc(),
            chunks == l.chunks(),
            chunks <= (bs - 40) / 32,
            layout.bitmap_paddrs@.len() == chunks,
            c <= chunks,
            c < chunks ==> start == l.chunk_start(c as int),
            c == chunks ==> start == l.total_blocks,
            cib@ == l.with_chunks(head, c as int),
            cib@.len() == bs,
            free_total == free_in(l.used_ranges, 0, start as int),
            free_total <= start,
            bitmap_blocks@.len() == c,
            forall|k: int|
                0 <= k < c ==> (#[trigger] bitmap_blocks@[k])@ == l.chunk_bitmap(k),
        decreases chunks - c,
    {
        proof {
            lemma_chunk(l, c as int);
        }
        let end: u64 = if layout.total_blocks - start > bpc {
            start + bpc
        } else {
            layout.total_blocks
        };
        proof {
            num::lemma_mono(c as int, 0x1000, bpc as int);
            assert(start <= 0x1000 * 0x8_0000);
            lemma_free_split(l.used_ranges, 0, start as int, end as int);
            lemma_free_range(l.used_ranges, start as int, end as int);
        }
        let bm = build_bitmap(bs, &layout.used_ranges, start, end);
        let free: u64 = count_free(&layout.used_ranges, start, end);
        {
            broadcast use bytes::lemma_put_len;

            let off: usize = 32 * (c as usize);
            put_u64(&mut cib, 40 + off, layout.xid);
            put_u64(&mut cib, 48 + off, start);
            put_u32(&mut cib, 56 + off, (end - start) as u32);
            put_u32(&mut cib, 60 + off, free as u32);
            put_u64(&mut cib, 64 + off, layout.bitmap_paddrs[c as usize]);
        }
        bitmap_blocks.push(bm);
        free_total = free_total + free;
        start = end;
        c = c + 1;
    }
    sign_block(&mut cib);
    let sm = build_manager(layout, chunks, free_total);
    let q0 = build_empty_free_queue_root(bs, layout.free_queue_paddrs[0], layout.xid);
    let q1 = build_empty_free_queue_root(bs, layout.free_queue_paddrs[1], layout.xid);
    let q2 = build_empty_free_queue_root(bs, layout.free_queue_paddrs[2], layout.xid);
    let free_queue_blocks: [Vec<u8>; 3] = [q0, q1, q2];
    let ip_bm_block = zero_vec(bs);
    Ok(
        EmittedSpaceman {
            spaceman_block: sm,
            cib_block: cib,
            bitmap_blocks,
            ip_bm_block,
            free_queue_blocks,
        },
    )
}

/// The fields of a space manager's block.
#[derive(Debug)]
pub struct DecodedSpaceman {
    pub block_size: u32,
    pub blocks_per_chunk: u32,
    pub main_block_count: u64,
    pub main_chunk_count: u64,
    pub main_cib_count: u32,
    pub main_cab_count: u32,
    pub main_free_count: u64,
    pub cib_paddr: u64,
    pub flags: u32,
    pub ip_bm_tx_multiplier: u32,
    pub ip_block_count: u64,
    pub ip_bm_size_in_blocks: u32,
    pub ip_bm_block_count: u32,
    pub ip_bm_base: u64,
    pub ip_base: u64,
    pub sfq_tree_oids: [u64; 3],
    pub datazone_main_zone0_start: u64,
    pub datazone_main_zone0_end: u64,
}

impl DecodedSpaceman {
    /// Whether these are the fields of the block `b`.
    pub open spec fn of(self, b: Seq<u8>) -> bool {
        &&& self.block_size == bytes::get32(b, 32)
        &&& self.blocks_per_chunk == bytes::get32(b, 36)
        &&& self.main_block_count == bytes::get64(b, 48)
        &&& self.main_chunk_count == bytes::get64(b, 56)
        &&& self.main_cib_count == bytes::get32(b, 64)
        &&& self.main_cab_count == bytes::get32(b, 68)
        &&& self.main_free_count == bytes::get64(b, 72)
        &&& self.cib_paddr == bytes::get64(b, bytes::get32(b, 80) as int)
        &&& self.flags == bytes::get32(b, 144)
        &&& self.ip_bm_tx_multiplier == bytes::get32(b, 148)
        &&& self.ip_block_count == bytes::get64(b, 152)
        &&& self.ip_bm_size_in_blocks == bytes::get32(b, 160)
        &&& self.ip_bm_block_count == bytes::get32(b, 164)
        &&& self.ip_bm_base == bytes::get64(b, 168)
        &&& self.ip_base == bytes::get64(b, 176)
        &&& self.sfq_tree_oids@[0] == bytes::get64(b, 208)
        &&& self.sfq_tree_oids@[1] == bytes::get64(b, 248)
        &&& self.sfq_tree_oids@[2] == bytes::get64(b, 288)
        &&& self.datazone_main_zone0_start == bytes::get64(b, 344)
        &&& self.datazone_main_zone0_end == bytes::get64(b, 352)
    }
}

/// Whether `b` is the block of a space manager.
pub open spec fn is_spaceman(b: Seq<u8>) -> bool {
    &&& b.len() >= 2520
    &&& bytes::get32(b, 24) % 0x1_0000 == OBJECT_TYPE_SPACEMAN
    &&& bytes::get32(b, 80) + 8 <= b.len()
}

/// Decode the block of a space manager.
pub fn decode_spaceman(buf: &[u8]) -> (r: Result<DecodedSpaceman>)
    ensures
        match r {
            Ok(d) => is_spaceman(buf@) && d.of(buf@),
            Err(e) => !is_spaceman(buf@) && e == Error::InvalidImage,
        },
{
    if buf.len() < SM_DATAZONE_OFFSET + DATAZONE_SIZE {
        return Err(Error::InvalidImage);
    }
    if get_u32(buf, 24) % 0x1_0000 != OBJECT_TYPE_SPACEMAN {
        return Err(Error::InvalidImage);
    }
    let cib_addr_off: u64 = get_u32(buf, 80) as u64;
    if cib_addr_off + 8 > buf.len() as u64 {
        return Err(Error::InvalidImage);
    }
    let sfq_tree_oids: [u64; 3] = [get_u64(buf, 208), get_u64(buf, 248), get_u64(buf, 288)];
    Ok(
        DecodedSpaceman {
            block_size: get_u32(buf, 32),
            blocks_per_chunk: get_u32(buf, 36),
            main_block_count: get_u64(buf, 48),
            main_chunk_count: get_u64(buf, 56),
            main_cib_count: get_u32(buf, 64),
            main_cab_count: get_u32(buf, 68),
            main_free_count: get_u64(buf, 72),
            cib_paddr: get_u64(buf, cib_addr_off as usize),
            flags: get_u32(buf, 144),
            ip_bm_tx_multiplier: get_u32(buf, 148),
            ip_block_count: get_u64(buf, 152),
            ip_bm_size_in_blocks: get_u32(buf, 160),
            ip_bm_block_count: get_u32(buf, 164),
            ip_bm_base: get_u64(buf, 168),
            ip_base: get_u64(buf, 176),
            sfq_tree_oids,
            datazone_main_zone0_start: get_u64(buf, 344),
            datazone_main_zone0_end: get_u64(buf, 352),
        },
    )
}

/// One chunk entry.
#[derive(Clone, Copy, Debug)]
pub struct DecodedChunkInfo {
    pub addr: u64,
    pub block_count: u32,
    pub free_count: u32,
    pub bitmap_addr: u64,
}

/// Chunk entry `i` of the chunk-info block `b`.
pub open spec fn chunk_info(b: Seq<u8>, i: int) -> DecodedChunkInfo {
    DecodedChunkInfo {
        addr: bytes::get64(b, 48 + 32 * i),
        block_count: bytes::get32(b, 56 + 32 * i),
        free_count: bytes::get32(b, 60 + 32 * i),
        bitmap_addr: bytes::get64(b, 64 + 32 * i),
    }
}

/// Whether `b` is a chunk-info block.
pub open spec fn is_cib(b: Seq<u8>) -> bool {
    &&& b.len() >= 40
    &&& bytes::get32(b, 24) % 0x1_0000 == OBJECT_TYPE_SPACEMAN_CIB
    &&& 40 + 32 * bytes::get32(b, 36) <= b.len()
}

/// Decode the entries of a chunk-info block.
pub fn decode_cib_entries(buf: &[u8]) -> (r: Result<Vec<DecodedChunkInfo>>)
    ensures
        match r {
            Ok(v) => is_cib(buf@) && v@ == Seq::new(
                bytes::get32(buf@, 36) as nat,
                |i: int| chunk_info(buf@, i),
            ),
            Err(e) => !is_cib(buf@) && e == Error::InvalidImage,
        },
{
    if buf.len() < 40 {
        return Err(Error::InvalidImage);
    }
    if get_u32(buf, 24) % 0x1_0000 != OBJECT_TYPE_SPACEMAN_CIB {
        return Err(Error::InvalidImage);
    }
    let count: u64 = get_u32(buf, 36) as u64;
    if 40 + 32 * count > buf.len() as u64 {
        return Err(Error::InvalidImage);
    }
    let n: usize = count as usize;
    let mut out: Vec<DecodedChunkInfo> = Vec::new();
    let mut i: usize = 0;
    while i < n
        invariant
            i <= n,
            40 + 32 * n <= buf@.len(),
            out@ =~= Seq::new(i as nat, |k: int| chunk_info(buf@, k)),
        decreases n - i,
    {
        assert(40 + 32 * n <= buf.len());
        out.push(
            DecodedChunkInfo {
                addr: get_u64(buf, 48 + 32 * i),
                block_count: get_u32(buf, 56 + 32 * i),
                free_count: get_u32(buf, 60 + 32 * i),
                bitmap_addr: get_u64(buf, 64 + 32 * i),
            },
        );
        i = i + 1;
    }
    Ok(out)
}

/// Number of set bits among the first `chunk_blocks` of a bitmap.
pub fn count_used_bits(bmap: &[u8], chunk_blocks: u32) -> (n: u32)
    requires
        chunk_blocks <= 8 * bmap@.len(),
    ensures
        n == bits_set(bmap@, chunk_blocks as int),
{
    let mut n: u32 = 0;
    let mut i: u32 = 0;
    while i < chunk_blocks
        invariant
            i <= chunk_blocks <= 8 * bmap@.len(),
            n <= i,
            n == bits_set(bmap@, i as int),
        decreases chunk_blocks - i,
    {
        let mut x: u8 = bmap[(i / 8) as usize];
        let mut j: u32 = 0;
        while j < i % 8
            invariant
                i / 8 < bmap@.len(),
                j <= i % 8,
                x == shifted(bmap@[(i / 8) as int] as int, j as int),
            decreases i % 8 - j,
        {
            x = x / 2;
            j = j + 1;
        }
        if x % 2 == 1 {
            n = n + 1;
        }
        i = i + 1;
    }
    n
}

/// Entries of the chunk-info block read back.
proof fn lemma_with_chunks(l: Layout, b: Seq<u8>, i: int, c: int)
    requires
        0 <= i,
        40 + 32 * i <= b.len(),
        0 <= c < i,
    ensures
        l.with_chunks(b, i).len() == b.len(),
        chunk_info(l.with_chunks(b, i), c) == (DecodedChunkInfo {
            addr: l.chunk_start(c) as u64,
            block_count: (l.chunk_end(c) - l.chunk_start(c)) as u32,
            free_count: l.chunk_free(c) as u32,
            bitmap_addr: l.bitmap_paddrs[c],
        }),
    decreases i,
{
    lemma_with_chunks_head(l, b, i - 1);
    if c < i - 1 {
        lemma_with_chunks(l, b, i - 1, c);
    }
    broadcast use bytes::group_fields;

}

/// Chunk entries leave the header as it was.
pub proof fn lemma_with_chunks_head(l: Layout, b: Seq<u8>, i: int)
    requires
        40 + 32 * i <= b.len(),
        40 <= b.len(),
    ensures
        l.with_chunks(b, i).len() == b.len(),
        bytes::get32(l.with_chunks(b, i), 24) == bytes::get32(b, 24),
        bytes::get32(l.with_chunks(b, i), 36) == bytes::get32(b, 36),
    decreases i,
{
    if i > 0 {
        lemma_with_chunks_head(l, b, i - 1);
        broadcast use bytes::group_fields;

    }
}

/// Sum of the free counts of the first `n` chunk entries of `b`.
pub open spec fn free_sum(b: Seq<u8>, n: int) -> int
    decreases n,
{
    if n <= 0 {
        0
    } else {
        free_sum(b, n - 1) + chunk_info(b, n - 1).free_count
    }
}

/// The manager's own block reads back as the layout it was built from.
pub proof fn lemma_manager(l: Layout)
    requires
        l.block_size <= 0x1_0000,
        l.refused() is None,
    ensures
        is_spaceman(l.manager()),
        forall|d: DecodedSpaceman| #[trigger]
            d.of(l.manager()) ==> {
                &&& d.block_size == l.block_size
                &&& d.blocks_per_chunk == l.bpc()
                &&& d.main_block_count == l.total_blocks
                &&& d.main_chunk_count == l.chunks()
                &&& d.main_cib_count == 1
                &&& d.main_cab_count == 0
                &&& d.main_free_count == l.free_total()
                &&& d.cib_paddr == l.cib_paddr
                &&& d.flags == SM_FLAG_VERSIONED
                &&& d.ip_block_count == l.ip_block_count
                &&& d.ip_bm_size_in_blocks == l.ip_bm_size_in_blocks
                &&& d.ip_bm_base == l.ip_bm_base
                &&& d.ip_base == l.ip_base
                &&& d.sfq_tree_oids@[0] == l.free_queue_paddrs[0]
                &&& d.sfq_tree_oids@[1] == l.free_queue_paddrs[1]
                &&& d.sfq_tree_oids@[2] == l.free_queue_paddrs[2]
                &&& d.datazone_main_zone0_start == 0
                &&& d.datazone_main_zone0_end == l.total_blocks
            },
{
    broadcast use bytes::group_fields;

    lemma_free_range(l.used_ranges, 0, l.total_blocks as int);
    num::lemma_div_up(l.total_blocks as int, l.bpc());
}

/// Bitmaps, chunk entries and manager agree: every chunk entry's free count is
/// the number of cleared bits of its bitmap, the entries' counts add up to the
/// manager's, and a bit is set exactly where the block is in use.
pub proof fn lemma_spaceman_consistent(l: Layout)
    requires
        l.block_size <= 0x1_0000,
        l.refused() is None,
    ensures
        is_cib(l.cib()),
        bytes::get32(l.cib(), 36) == l.chunks(),
        free_sum(l.cib(), l.chunks()) == l.free_total(),
        forall|c: int|
            0 <= c < l.chunks() ==> {
                let e = #[trigger] chunk_info(l.cib(), c);
                &&& e.addr == l.chunk_start(c)
                &&& e.block_count == l.chunk_end(c) - l.chunk_start(c)
                &&& e.bitmap_addr == l.bitmap_paddrs[c]
                &&& bits_set(l.chunk_bitmap(c), e.block_count as int) == e.block_count
                    - e.free_count
            },
        forall|c: int, i: int|
            #![trigger bit(l.chunk_bitmap(c), i)]
            0 <= c < l.chunks() && 0 <= i < l.bpc() ==> bit(l.chunk_bitmap(c), i) == marked(
                l.used_ranges,
                l.chunk_start(c),
                l.chunk_end(c),
                i,
            ),
{
    let head = l.cib_head();
    let n = l.chunks();
    num::lemma_div_up(l.total_blocks as int, l.bpc());
    assert(head.len() == l.block_size && bytes::get32(head, 36) == n && bytes::get32(head, 24)
        == OBJECT_TYPE_SPACEMAN_CIB + OBJ_PHYSICAL) by {
        broadcast use bytes::group_fields;

    }
    lemma_with_chunks_head(l, head, n);
    let p = l.with_chunks(head, n);
    assert(bytes::get32(l.cib(), 36) == n && bytes::get32(l.cib(), 24) == OBJECT_TYPE_SPACEMAN_CIB
        + OBJ_PHYSICAL && l.cib().len() == l.block_size) by {
        broadcast use bytes::group_fields;

    }
    assert forall|c: int| 0 <= c < n implies {
        let e = #[trigger] chunk_info(l.cib(), c);
        &&& e.addr == l.chunk_start(c)
        &&& e.block_count == l.chunk_end(c) - l.chunk_start(c)
        &&& e.free_count == l.chunk_free(c)
        &&& e.bitmap_addr == l.bitmap_paddrs[c]
        &&& bits_set(l.chunk_bitmap(c), e.block_count as int) == e.block_count - e.free_count
    } by {
        lemma_with_chunks(l, head, n, c);
        lemma_chunk(l, c);
        lemma_free_range(l.used_ranges, l.chunk_start(c), l.chunk_end(c));
        lemma_bits_set(
            l.block_size as nat,
            l.used_ranges,
            l.chunk_start(c),
            l.chunk_end(c),
            l.chunk_end(c) - l.chunk_start(c),
        );
        assert(chunk_info(l.cib(), c) == chunk_info(p, c)) by {
            broadcast use bytes::group_fields;

        }
    }
    assert forall|c: int, i: int|
        #![trigger bit(l.chunk_bitmap(c), i)]
        0 <= c < n && 0 <= i < l.bpc() implies bit(l.chunk_bitmap(c), i) == marked(
        l.used_ranges,
        l.chunk_start(c),
        l.chunk_end(c),
        i,
    ) by {
        lemma_bitmap_bit(
            l.block_size as nat,
            l.used_ranges,
            l.chunk_start(c),
            l.chunk_end(c),
            i,
        );
    }
    if n > 0 {
        lemma_free_sum(l, n);
        lemma_chunk(l, n - 1);
    } else {
        assert(0 * l.bpc() == 0) by (nonlinear_arith);
    }
}

proof fn lemma_free_sum(l: Layout, n: int)
    requires
        l.block_size <= 0x1_0000,
        l.block_size > 0,
        0 < n <= l.chunks(),
        forall|c: int|
            0 <= c < l.chunks() ==> (#[trigger] chunk_info(l.cib(), c)).free_count
                == l.chunk_free(c),
    ensures
        free_sum(l.cib(), n) == free_in(l.used_ranges, 0, l.chunk_end(n - 1)),
    decreases n,
{
    lemma_chunk(l, n - 1);
    assert(chunk_info(l.cib(), n - 1).free_count == l.chunk_free(n - 1));
    if n > 1 {
        lemma_free_sum(l, n - 1);
        lemma_chunk(l, n - 2);
        lemma_free_split(l.used_ranges, 0, l.chunk_start(n - 1), l.chunk_end(n - 1));
    } else {
        assert(0 * l.bpc() == 0) by (nonlinear_arith);
        assert(free_sum(l.cib(), 0) == 0);
    }
}

} // verus!
