//! Walking the filesystem tree of a volume.
//!
//! The tree is virtual: its child links are object ids that the volume's object
//! map resolves to block addresses. Keys are ordered by object id, then record
//! kind, then by a tail that depends on the kind.

use core::cmp::Ordering;

use vstd::prelude::*;
use vstd::slice::slice_subrange;

use crate::apfs::btree::{self, BTreeNode, NodeCache};
use crate::apfs::jrec::{
    self, split_obj_id, APFS_TYPE_DIR_REC, APFS_TYPE_FILE_EXTENT, APFS_TYPE_XATTR,
};
use crate::apfs::omap::{self, fetch_block, lookup_with_cache, OmapKey};
use crate::block::{self, MemoryBackend};
use crate::bytes::{self, copy_range, get_u16, get_u32, get_u64, le_u16, le_u32, le_u64, push_all};
use crate::error::{self, Error, Result};
use crate::order::{self, order_bytes, order_u64, Order};
use crate::text;

verus! {

/// Layout of directory keys; a volume uses one of them throughout.
#[derive(Clone, Copy, Debug, PartialEq, Eq, Structural)]
pub enum DrecKeyLayout {
    /// Keys carry a hash of the name.
    Hashed,
    /// Keys carry the name alone.
    Plain,
}

/// A tree key with its object id and record kind.
#[derive(Clone, Copy, Debug)]
pub struct FsKey<'a> {
    pub oid: u64,
    pub kind: u8,
    /// All the bytes of the key.
    pub raw: &'a [u8],
}

impl<'a> FsKey<'a> {
    /// Whether id and kind are those of the key bytes.
    pub open spec fn wf(self) -> bool {
        &&& self.raw@.len() >= 8
        &&& self.oid == jrec::key_oid(self.raw@)
        &&& self.kind == jrec::key_kind(self.raw@)
    }

    /// Parse a tree key.
    pub fn decode(raw: &'a [u8]) -> (r: Result<Self>)
        ensures
            match r {
                Ok(k) => k.wf() && k.raw@ == raw@,
                Err(e) => raw@.len() < 8 && e == Error::InvalidImage,
            },
    {
        if raw.len() < 8 {
            return Err(Error::InvalidImage);
        }
        let (kind, oid) = split_obj_id(get_u64(raw, 0));
        Ok(FsKey { oid, kind, raw })
    }
}

/// What a search looks for. An empty tail stands before every key of its id
/// and kind.
#[derive(Clone, Copy, Debug)]
pub struct FsKeyTarget<'a> {
    pub oid: u64,
    pub kind: u8,
    /// The bytes that follow the key word.
    pub tail: &'a [u8],
    /// Layout of directory keys in this volume.
    pub drec_layout: DrecKeyLayout,
}

/// A search target as a mathematical value.
#[verifier::ext_equal]
pub struct Target {
    pub oid: u64,
    pub kind: u8,
    pub tail: Seq<u8>,
    pub layout: DrecKeyLayout,
}

impl<'a> View for FsKeyTarget<'a> {
    type V = Target;

    open spec fn view(&self) -> Target {
        Target { oid: self.oid, kind: self.kind, tail: self.tail@, layout: self.drec_layout }
    }
}

/// The name part of a tail: `n` bytes behind the `at`-byte length field, or as
/// many as there are.
pub open spec fn tail_name(tail: Seq<u8>, at: int, n: int) -> Seq<u8> {
    tail.subrange(at, if at + n < tail.len() { at + n } else { tail.len() as int })
}

/// Order of two tails that start with a 16-bit name length: by name.
pub open spec fn order_named(s: Seq<u8>, t: Seq<u8>) -> Order {
    if s.len() < 2 || t.len() < 2 {
        order::lex(s, t)
    } else {
        order::lex(
            tail_name(s, 2, bytes::get16(s, 0) as int),
            tail_name(t, 2, bytes::get16(t, 0) as int),
        )
    }
}

/// Order of two hashed directory tails: by hash (the high 22 bits of the first
/// word), then by name.
pub open spec fn order_hashed(s: Seq<u8>, t: Seq<u8>) -> Order {
    if s.len() < 4 || t.len() < 4 {
        order::lex(s, t)
    } else {
        let a = bytes::get32(s, 0);
        let b = bytes::get32(t, 0);
        if a / 0x400 != b / 0x400 {
            order::order_int((a / 0x400) as int, (b / 0x400) as int)
        } else {
            order::lex(tail_name(s, 4, (a % 0x400) as int), tail_name(t, 4, (b % 0x400) as int))
        }
    }
}

/// Order of two tails that are a 64-bit number.
pub open spec fn order_number(s: Seq<u8>, t: Seq<u8>) -> Order {
    if s.len() < 8 || t.len() < 8 {
        order::lex(s, t)
    } else {
        order::order_int(bytes::get64(s, 0) as int, bytes::get64(t, 0) as int)
    }
}

/// Order of the tail `s` of a stored key of kind `kind` against that of a
/// target.
pub open spec fn order_tail(kind: u8, s: Seq<u8>, t: Seq<u8>, layout: DrecKeyLayout) -> Order {
    if t.len() == 0 {
        if s.len() == 0 {
            Order::Equal
        } else {
            Order::Greater
        }
    } else if kind == APFS_TYPE_DIR_REC {
        if layout == DrecKeyLayout::Hashed {
            order_hashed(s, t)
        } else {
            order_named(s, t)
        }
    } else if kind == APFS_TYPE_FILE_EXTENT {
        order_number(s, t)
    } else if kind == APFS_TYPE_XATTR {
        order_named(s, t)
    } else {
        order::lex(s, t)
    }
}

/// Order of the stored key `k` against the target `t`.
pub open spec fn order_key(k: Seq<u8>, t: Target) -> Order {
    if jrec::key_oid(k) != t.oid {
        order::order_int(jrec::key_oid(k) as int, t.oid as int)
    } else if jrec::key_kind(k) != t.kind {
        order::order_int(jrec::key_kind(k) as int, t.kind as int)
    } else {
        order_tail(t.kind, k.subrange(8, k.len() as int), t.tail, t.layout)
    }
}

fn name_part(tail: &[u8], at: usize, n: usize) -> (r: &[u8])
    requires
        at <= tail@.len(),
        at <= 4,
        n <= 0xffff,
    ensures
        r@ == tail_name(tail@, at as int, n as int),
{
    let end: usize = if at + n < tail.len() {
        at + n
    } else {
        tail.len()
    };
    slice_subrange(tail, at, end)
}

fn order_named_tail(s: &[u8], t: &[u8]) -> (r: Order)
    ensures
        r == order_named(s@, t@),
{
    if s.len() < 2 || t.len() < 2 {
        return order_bytes(s, t);
    }
    let sn: usize = get_u16(s, 0) as usize;
    let tn: usize = get_u16(t, 0) as usize;
    order_bytes(name_part(s, 2, sn), name_part(t, 2, tn))
}

fn order_hashed_tail(s: &[u8], t: &[u8]) -> (r: Order)
    ensures
        r == order_hashed(s@, t@),
{
    if s.len() < 4 || t.len() < 4 {
        return order_bytes(s, t);
    }
    let a: u32 = get_u32(s, 0);
    let b: u32 = get_u32(t, 0);
    if a / 0x400 != b / 0x400 {
        return order_u64((a / 0x400) as u64, (b / 0x400) as u64);
    }
    order_bytes(
        name_part(s, 4, (a % 0x400) as usize),
        name_part(t, 4, (b % 0x400) as usize),
    )
}

fn order_number_tail(s: &[u8], t: &[u8]) -> (r: Order)
    ensures
        r == order_number(s@, t@),
{
    if s.len() < 8 || t.len() < 8 {
        return order_bytes(s, t);
    }
    order_u64(get_u64(s, 0), get_u64(t, 0))
}

/// Order of a stored key against a target.
pub fn order_fs_key(key: &FsKey<'_>, target: &FsKeyTarget<'_>) -> (r: Order)
    requires
        key.wf(),
    ensures
        r == order_key(key.raw@, target@),
{
    if key.oid != target.oid {
        return order_u64(key.oid, target.oid);
    }
    if key.kind != target.kind {
        return order_u64(key.kind as u64, target.kind as u64);
    }
    let kt = slice_subrange(key.raw, 8, key.raw.len());
    if target.tail.len() == 0 {
        return if kt.len() == 0 {
            Order::Equal
        } else {
            Order::Greater
        };
    }
    if key.kind == APFS_TYPE_DIR_REC {
        match target.drec_layout {
            DrecKeyLayout::Hashed => order_hashed_tail(kt, target.tail),
            DrecKeyLayout::Plain => order_named_tail(kt, target.tail),
        }
    } else if key.kind == APFS_TYPE_FILE_EXTENT {
        order_number_tail(kt, target.tail)
    } else if key.kind == APFS_TYPE_XATTR {
        order_named_tail(kt, target.tail)
    } else {
        order_bytes(kt, target.tail)
    }
}

/// [`order_fs_key`] as a standard ordering.
pub fn cmp_fs_key(key: &FsKey<'_>, target: &FsKeyTarget<'_>) -> (r: Ordering)
    requires
        key.wf(),
    ensures
        r is Less <==> order_key(key.raw@, target@) == Order::Less,
        r is Equal <==> order_key(key.raw@, target@) == Order::Equal,
        r is Greater <==> order_key(key.raw@, target@) == Order::Greater,
{
    match order_fs_key(key, target) {
        Order::Less => Ordering::Less,
        Order::Equal => Ordering::Equal,
        Order::Greater => Ordering::Greater,
    }
}

/// Where the nodes of a filesystem tree are found: the device, the root node of
/// the volume's object map, the transaction to read at, and the block size.
pub struct Vol {
    pub img: Seq<u8>,
    pub omap: Seq<u8>,
    pub xid: u64,
    pub bs: int,
}

/// Address of the block that holds object `vid`.
pub open spec fn paddr_of_vid(v: Vol, vid: u64) -> Result<u64> {
    match omap::find(v.img, v.omap, OmapKey { oid: vid, xid: v.xid }) {
        Err(e) => Err(e),
        Ok(None) => Err(Error::InvalidImage),
        Ok(Some(val)) => Ok(val.paddr),
    }
}

/// The block that holds object `vid`.
pub open spec fn block_of_vid(v: Vol, vid: u64) -> Result<Seq<u8>> {
    match paddr_of_vid(v, vid) {
        Err(e) => Err(e),
        Ok(p) => block::block_at(v.img, v.bs, p),
    }
}

/// All that a walk of the tree needs, with caches for the nodes it meets.
pub struct FsTreeCtx {
    /// Root node of the volume's object map.
    pub omap_root: Vec<u8>,
    /// Transaction to read at.
    pub target_xid: u64,
    /// Block size in bytes.
    pub block_size: usize,
    /// Nodes of the object map.
    pub omap_cache: NodeCache,
    /// Nodes of the filesystem tree.
    pub fs_cache: NodeCache,
}

impl FsTreeCtx {
    /// Where this context finds the nodes on the device `img`.
    pub open spec fn vol(self, img: Seq<u8>) -> Vol {
        Vol { img, omap: self.omap_root@, xid: self.target_xid, bs: self.block_size as int }
    }

    /// Whether the cached nodes are those of the device `img`.
    pub open spec fn wf(self, img: Seq<u8>) -> bool {
        &&& self.omap_cache.coherent(
            |p: u64| block::block_at(img, self.omap_root@.len() as int, p),
        )
        &&& self.fs_cache.coherent(|p: u64| block::block_at(img, self.block_size as int, p))
    }

    /// A context with empty caches.
    pub fn new(omap_root: Vec<u8>, target_xid: u64, block_size: usize) -> (r: Self)
        ensures
            forall|img: Seq<u8>| #[trigger] r.wf(img),
            r.omap_root == omap_root,
            r.target_xid == target_xid,
            r.block_size == block_size,
    {
        FsTreeCtx {
            omap_root,
            target_xid,
            block_size,
            omap_cache: NodeCache::new(NodeCache::DEFAULT_CAP),
            fs_cache: NodeCache::new(NodeCache::DEFAULT_CAP),
        }
    }

    /// Resolve an object id to a block address.
    pub fn resolve_vid(&mut self, vid: u64, dev: &MemoryBackend) -> (r: Result<u64>)
        requires
            old(self).wf(dev@),
        ensures
            final(self).wf(dev@),
            final(self).vol(dev@) == old(self).vol(dev@),
            r == paddr_of_vid(old(self).vol(dev@), vid),
    {
        let val = lookup_with_cache(
            self.omap_root.as_slice(),
            vid,
            self.target_xid,
            dev,
            &mut self.omap_cache,
        )?;
        match val {
            Some(v) => Ok(v.paddr),
            None => Err(Error::InvalidImage),
        }
    }

    /// Load the tree node that holds object `vid`.
    pub fn load_vid(&mut self, vid: u64, dev: &MemoryBackend) -> (r: Result<Vec<u8>>)
        requires
            old(self).wf(dev@),
        ensures
            final(self).wf(dev@),
            final(self).vol(dev@) == old(self).vol(dev@),
            error::view_of(r) == block_of_vid(old(self).vol(dev@), vid),
    {
        let paddr: u64 = self.resolve_vid(vid, dev)?;
        self.fetch_fs_block(paddr, dev)
    }

    /// Load a tree node through the cache.
    fn fetch_fs_block(&mut self, paddr: u64, dev: &MemoryBackend) -> (r: Result<Vec<u8>>)
        requires
            old(self).wf(dev@),
        ensures
            final(self).wf(dev@),
            final(self).vol(dev@) == old(self).vol(dev@),
            error::view_of(r) == block::block_at(dev@, old(self).block_size as int, paddr),
    {
        fetch_block(paddr, self.block_size, dev, &mut self.fs_cache)
    }
}

/// Most levels a descent goes through.
pub const MAX_BTREE_DEPTH: usize = 64;

/// Fixed key size recorded in the root `b`; zero where it records none.
pub open spec fn root_klen(b: Seq<u8>) -> int {
    if btree::is_node(b) {
        match btree::fixed_sizes(b) {
            Some(p) => p.0,
            None => 0,
        }
    } else {
        0
    }
}

pub(crate) fn read_root_kv_sizes(root_block: &[u8]) -> (r: usize)
    ensures
        r == root_klen(root_block@),
{
    match BTreeNode::decode(root_block) {
        Ok(root) => match root.fixed_kv_size() {
            Some((k, _)) => k,
            None => 0,
        },
        Err(_) => 0,
    }
}

/// Halving search in the internal node `b` for the last entry whose key is not
/// above `t`, among the entries `lo..=hi`; `best` where there is none.
#[verifier::opaque]
pub open spec fn child_search(
    b: Seq<u8>,
    klen: int,
    t: Target,
    lo: int,
    hi: int,
    best: int,
) -> Result<int>
    decreases hi - lo + 1,
{
    if lo > hi {
        Ok(best)
    } else {
        let mid = (lo + hi) / 2;
        match btree::child_entry(b, mid, klen) {
            Err(e) => Err(e),
            Ok((k, _)) => if k.len() < 8 {
                Err(Error::InvalidImage)
            } else if order_key(k, t) != Order::Greater {
                child_search(b, klen, t, mid + 1, hi, mid)
            } else {
                child_search(b, klen, t, lo, mid - 1, best)
            },
        }
    }
}

/// Index of the child of the internal node `b` in which `t` belongs.
pub open spec fn child_index(b: Seq<u8>, klen: int, t: Target) -> Result<int> {
    if btree::node_nkeys(b) == 0 {
        Err(Error::InvalidImage)
    } else {
        child_search(b, klen, t, 0, btree::node_nkeys(b) - 1, 0)
    }
}

pub(crate) fn find_child_idx(node: &BTreeNode<'_>, fixed_klen: usize, target: &FsKeyTarget<'_>) -> (r: Result<
    u32,
>)
    requires
        node.wf(),
    ensures
        match r {
            Ok(i) => i < node.nkeys && child_index(node.block@, fixed_klen as int, target@) == Ok::<
                int,
                Error,
            >(i as int),
            Err(e) => child_index(node.block@, fixed_klen as int, target@) == Err::<int, Error>(e),
        },
{
    if node.nkeys == 0 {
        return Err(Error::InvalidImage);
    }
    let ghost b = node.block@;
    let mut lo: i64 = 0;
    let mut hi: i64 = node.nkeys as i64 - 1;
    let mut best: i64 = 0;
    while lo <= hi
        invariant
            node.wf(),
            b == node.block@,
            node.nkeys > 0,
            0 <= lo <= node.nkeys,
            -1 <= hi < node.nkeys,
            0 <= best < node.nkeys,
            child_search(b, fixed_klen as int, target@, lo as int, hi as int, best as int)
                == child_index(b, fixed_klen as int, target@),
        decreases hi - lo + 1,
    {
        reveal(child_search);
        let mid: i64 = (lo + hi) / 2;
        let (kb, _) = node.child_entry_at(mid as u32, fixed_klen)?;
        let key = FsKey::decode(kb)?;
        match order_fs_key(&key, target) {
            Order::Greater => {
                hi = mid - 1;
            },
            _ => {
                best = mid;
                lo = mid + 1;
            },
        }
    }
    reveal(child_search);
    Ok(best as u32)
}

/// Value of the first entry from `i` on of the leaf `b` whose key compares equal
/// to `t`.
pub open spec fn leaf_exact(b: Seq<u8>, klen: int, t: Target, i: int) -> Result<Option<Seq<u8>>>
    decreases btree::node_nkeys(b) - i,
{
    if i >= btree::node_nkeys(b) {
        Ok(None)
    } else {
        match btree::entry(b, i, klen, 0) {
            Err(e) => Err(e),
            Ok((k, v)) => if k.len() < 8 {
                Err(Error::InvalidImage)
            } else if order_key(k, t) == Order::Equal {
                Ok(Some(v))
            } else {
                leaf_exact(b, klen, t, i + 1)
            },
        }
    }
}

/// The view of a fallible optional byte buffer.
pub open spec fn opt_bytes(r: Result<Option<Vec<u8>>>) -> Result<Option<Seq<u8>>> {
    match r {
        Ok(Some(v)) => Ok(Some(v@)),
        Ok(None) => Ok(None),
        Err(e) => Err(e),
    }
}

fn scan_leaf_for_exact(node: &BTreeNode<'_>, fixed_klen: usize, target: &FsKeyTarget<'_>) -> (r:
    Result<Option<Vec<u8>>>)
    requires
        node.wf(),
    ensures
        opt_bytes(r) == leaf_exact(node.block@, fixed_klen as int, target@, 0),
{
    let ghost b = node.block@;
    let mut i: u32 = 0;
    while i < node.nkeys
        invariant
            node.wf(),
            b == node.block@,
            i <= node.nkeys,
            leaf_exact(b, fixed_klen as int, target@, i as int) == leaf_exact(
                b,
                fixed_klen as int,
                target@,
                0,
            ),
        decreases node.nkeys - i,
    {
        let (kb, vb) = node.entry_at(i, fixed_klen, 0)?;
        let key = FsKey::decode(kb)?;
        if order_fs_key(&key, target) == Order::Equal {
            let v = copy_range(vb, 0, vb.len());
            assert(v@ =~= vb@);
            return Ok(Some(v));
        }
        i = i + 1;
    }
    Ok(None)
}

/// Value stored for `t` in the subtree of node `b`, whose level must lie below
/// `level`, through at most `fuel` nodes.
pub open spec fn find_from(v: Vol, b: Seq<u8>, klen: int, level: int, t: Target, fuel: nat) -> Result<
    Option<Seq<u8>>,
>
    decreases fuel,
{
    if fuel == 0 || !btree::is_node(b) || btree::node_level(b) >= level {
        Err(Error::InvalidImage)
    } else if btree::node_is_leaf(b) {
        leaf_exact(b, klen, t, 0)
    } else {
        match child_index(b, klen, t) {
            Err(e) => Err(e),
            Ok(i) => match btree::child_entry(b, i, klen) {
                Err(e) => Err(e),
                Ok((_, vid)) => match block_of_vid(v, vid) {
                    Err(e) => Err(e),
                    Ok(c) => find_from(
                        v,
                        c,
                        klen,
                        btree::node_level(b) as int,
                        t,
                        (fuel - 1) as nat,
                    ),
                },
            },
        }
    }
}

/// Look up one record by object id, kind and tail.
pub fn lookup(
    fsroot_block: &[u8],
    target: &FsKeyTarget<'_>,
    ctx: &mut FsTreeCtx,
    dev: &MemoryBackend,
) -> (r: Result<Option<Vec<u8>>>)
    requires
        old(ctx).wf(dev@),
    ensures
        final(ctx).wf(dev@),
        final(ctx).vol(dev@) == old(ctx).vol(dev@),
        opt_bytes(r) == find_from(
            old(ctx).vol(dev@),
            fsroot_block@,
            root_klen(fsroot_block@),
            0x1_0000,
            target@,
            65,
        ),
{
    let fixed_klen: usize = read_root_kv_sizes(fsroot_block);
    let ghost v = ctx.vol(dev@);
    let mut cur: Vec<u8> = copy_range(fsroot_block, 0, fsroot_block.len());
    proof {
        assert(cur@ =~= fsroot_block@);
    }
    let mut level: u32 = 0x1_0000;
    let mut left: usize = MAX_BTREE_DEPTH + 1;
    while left > 0
        invariant
            ctx.wf(dev@),
            ctx.vol(dev@) == v,
            v == old(ctx).vol(dev@),
            fixed_klen == root_klen(fsroot_block@),
            find_from(v, cur@, fixed_klen as int, level as int, target@, left as nat)
                == find_from(
                v,
                fsroot_block@,
                root_klen(fsroot_block@),
                0x1_0000,
                target@,
                65,
            ),
        decreases left,
    {
        reveal_with_fuel(find_from, 2);
        let node = BTreeNode::decode(cur.as_slice())?;
        if node.level as u32 >= level {
            return Err(Error::InvalidImage);
        }
        level = node.level as u32;
        if node.is_leaf() {
            return scan_leaf_for_exact(&node, fixed_klen, target);
        }
        let idx: u32 = find_child_idx(&node, fixed_klen, target)?;
        let (_, child_vid) = node.child_entry_at(idx, fixed_klen)?;
        cur = ctx.load_vid(child_vid, dev)?;
        left = left - 1;
    }
    Err(Error::InvalidImage)
}

/// The tail of a directory key for `name`. The hash bits of a hashed tail are
/// zero, so it serves to start a scan, not to find one record.
pub open spec fn drec_tail(name: Seq<char>, layout: DrecKeyLayout) -> Seq<u8> {
    let b = text::utf8(name);
    match layout {
        DrecKeyLayout::Plain => bytes::le16(((b.len() + 1) % 0x1_0000) as u16) + b + seq![0u8],
        DrecKeyLayout::Hashed => bytes::le32(((b.len() + 1) % 0x400) as u32) + b + seq![0u8],
    }
}

/// Build the tail of a directory key for `name`.
pub fn make_drec_target_tail(name: &str, layout: DrecKeyLayout) -> (r: Vec<u8>)
    ensures
        r@ == drec_tail(name@, layout),
{
    let b = name.as_bytes();
    let n: u64 = b.len() as u64;
    let mut out: Vec<u8> = match layout {
        DrecKeyLayout::Plain => le_u16(((n % 0x1_0000 + 1) % 0x1_0000) as u16),
        DrecKeyLayout::Hashed => le_u32(((n % 0x400 + 1) % 0x400) as u32),
    };
    push_all(&mut out, b);
    out.push(0);
    proof {
        assert(out@ =~= drec_tail(name@, layout));
    }
    out
}

/// The tail of a file-extent key for `logical_addr`.
pub fn make_file_extent_tail(logical_addr: u64) -> (r: Vec<u8>)
    ensures
        r@ == bytes::le64(logical_addr),
{
    le_u64(logical_addr)
}

} // verus!
