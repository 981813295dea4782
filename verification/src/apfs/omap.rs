//! Object maps: from virtual object ids to block addresses.
//!
//! An object map is a B-tree of 16-byte keys (object id, transaction id) and
//! 16-byte values (flags, size, block address). A lookup picks the entry of the
//! object with the largest transaction id that is not above the target.

use vstd::prelude::*;

use crate::apfs::btree::{self, BTreeNode, NodeCache};
use crate::apfs::obj::{self, ObjPhys, OBJECT_TYPE_OMAP};
use crate::block::{self, MemoryBackend};
use crate::bytes::{self, get_u32, get_u64};
use crate::error::{self, Error, Result};

verus! {

/// Header of an object map.
///
/// ```text
///   32   om_flags            u32
///   36   om_snap_count       u32
///   40   om_tree_type        u32
///   48   om_tree_oid         u64   block of the B-tree root
/// ```
#[derive(Clone, Copy, Debug)]
pub struct OmapPhys {
    pub obj: ObjPhys,
    pub flags: u32,
    pub snap_count: u32,
    pub tree_type: u32,
    pub tree_oid: u64,
}

/// Whether `b` is an object-map header.
pub open spec fn is_omap(b: Seq<u8>) -> bool {
    &&& b.len() >= 88
    &&& obj::type_of(b) == OBJECT_TYPE_OMAP
}

/// The object-map header stored in `b`.
pub open spec fn omap_phys(b: Seq<u8>) -> Result<OmapPhys> {
    if is_omap(b) {
        Ok(
            OmapPhys {
                obj: obj::header(b),
                flags: bytes::get32(b, 32),
                snap_count: bytes::get32(b, 36),
                tree_type: bytes::get32(b, 40),
                tree_oid: bytes::get64(b, 48),
            },
        )
    } else {
        Err(Error::InvalidImage)
    }
}

impl OmapPhys {
    /// Bytes needed to decode the header.
    pub const MIN_SIZE: usize = 88;

    /// Decode an object-map header.
    pub fn decode(buf: &[u8]) -> (r: Result<Self>)
        ensures
            r == omap_phys(buf@),
    {
        if buf.len() < 88 {
            return Err(Error::InvalidImage);
        }
        let obj = ObjPhys::decode(buf)?;
        if obj.obj_type() != OBJECT_TYPE_OMAP {
            return Err(Error::InvalidImage);
        }
        Ok(
            OmapPhys {
                obj,
                flags: get_u32(buf, 32),
                snap_count: get_u32(buf, 36),
                tree_type: get_u32(buf, 40),
                tree_oid: get_u64(buf, 48),
            },
        )
    }
}

/// A key of an object map.
#[derive(Clone, Copy, Debug, PartialEq, Eq, Structural)]
pub struct OmapKey {
    pub oid: u64,
    pub xid: u64,
}

/// The object-map key stored in `b`.
pub open spec fn omap_key(b: Seq<u8>) -> Result<OmapKey> {
    if b.len() < 16 {
        Err(Error::InvalidImage)
    } else {
        Ok(OmapKey { oid: bytes::get64(b, 0), xid: bytes::get64(b, 8) })
    }
}

impl OmapKey {
    /// Size of a key.
    pub const SIZE: usize = 16;

    /// Decode a key.
    pub fn decode(buf: &[u8]) -> (r: Result<Self>)
        ensures
            r == omap_key(buf@),
    {
        if buf.len() < 16 {
            return Err(Error::InvalidImage);
        }
        Ok(OmapKey { oid: get_u64(buf, 0), xid: get_u64(buf, 8) })
    }
}

/// A value of an object map.
#[derive(Clone, Copy, Debug, PartialEq, Eq, Structural)]
pub struct OmapVal {
    pub flags: u32,
    pub size: u32,
    pub paddr: u64,
}

/// The object-map value stored in `b`.
pub open spec fn omap_val(b: Seq<u8>) -> Result<OmapVal> {
    if b.len() < 16 {
        Err(Error::InvalidImage)
    } else {
        Ok(
            OmapVal {
                flags: bytes::get32(b, 0),
                size: bytes::get32(b, 4),
                paddr: bytes::get64(b, 8),
            },
        )
    }
}

impl OmapVal {
    /// Size of a value.
    pub const SIZE: usize = 16;

    /// Decode a value.
    pub fn decode(buf: &[u8]) -> (r: Result<Self>)
        ensures
            r == omap_val(buf@),
    {
        if buf.len() < 16 {
            return Err(Error::InvalidImage);
        }
        Ok(OmapVal { flags: get_u32(buf, 0), size: get_u32(buf, 4), paddr: get_u64(buf, 8) })
    }
}

/// Key order: by object id, then by transaction id.
pub open spec fn key_le(a: OmapKey, b: OmapKey) -> bool {
    a.oid < b.oid || (a.oid == b.oid && a.xid <= b.xid)
}

fn key_not_above(a: &OmapKey, b: &OmapKey) -> (r: bool)
    ensures
        r == key_le(*a, *b),
{
    a.oid < b.oid || (a.oid == b.oid && a.xid <= b.xid)
}

/// Most levels a descent goes through.
pub const MAX_BTREE_DEPTH: usize = 64;

/// Among the first `n` entries of the leaf `b`: the entry of object `t.oid` with
/// the largest transaction id that is at most `t.xid`, the first of equal ones.
#[verifier::opaque]
pub open spec fn leaf_best(b: Seq<u8>, t: OmapKey, n: nat) -> Result<Option<(u64, OmapVal)>>
    decreases n,
{
    if n == 0 {
        Ok(None)
    } else {
        match leaf_best(b, t, (n - 1) as nat) {
            Err(e) => Err(e),
            Ok(best) => match btree::entry(b, n - 1, 16, 16) {
                Err(e) => Err(e),
                Ok((kb, vb)) => match omap_key(kb) {
                    Err(e) => Err(e),
                    Ok(k) => if k.oid != t.oid || k.xid > t.xid || (best matches Some(p) && k.xid
                        <= p.0) {
                        Ok(best)
                    } else {
                        match omap_val(vb) {
                            Err(e) => Err(e),
                            Ok(v) => Ok(Some((k.xid, v))),
                        }
                    },
                },
            },
        }
    }
}

/// What a lookup of `t` finds in the leaf `b`.
pub open spec fn leaf_lookup(b: Seq<u8>, t: OmapKey) -> Result<Option<OmapVal>> {
    match leaf_best(b, t, btree::node_nkeys(b) as nat) {
        Err(e) => Err(e),
        Ok(None) => Ok(None),
        Ok(Some(p)) => Ok(Some(p.1)),
    }
}

/// Halving search in the internal node `b` for the last entry whose key is at
/// most `t`, among the entries `lo..=hi`; `best` where there is none.
#[verifier::opaque]
pub open spec fn child_search(b: Seq<u8>, t: OmapKey, lo: int, hi: int, best: int) -> Result<int>
    decreases hi - lo + 1,
{
    if lo > hi {
        Ok(best)
    } else {
        let mid = (lo + hi) / 2;
        match btree::child_entry(b, mid, 16) {
            Err(e) => Err(e),
            Ok((kb, _)) => match omap_key(kb) {
                Err(e) => Err(e),
                Ok(k) => if key_le(k, t) {
                    child_search(b, t, mid + 1, hi, mid)
                } else {
                    child_search(b, t, lo, mid - 1, best)
                },
            },
        }
    }
}

/// Address of the child of the internal node `b` in which `t` belongs.
pub open spec fn child_for(b: Seq<u8>, t: OmapKey) -> Result<u64> {
    if btree::node_nkeys(b) == 0 {
        Err(Error::InvalidImage)
    } else {
        match child_search(b, t, 0, btree::node_nkeys(b) - 1, 0) {
            Err(e) => Err(e),
            Ok(i) => match btree::child_entry(b, i, 16) {
                Err(e) => Err(e),
                Ok((_, p)) => Ok(p),
            },
        }
    }
}

/// Lookup of `t` in the subtree at block `paddr` of the device `img`, whose
/// level must lie below `level`, through at most `fuel` nodes.
pub open spec fn descend(img: Seq<u8>, bs: int, paddr: u64, level: int, t: OmapKey, fuel: nat) -> Result<
    Option<OmapVal>,
>
    decreases fuel,
{
    match block::block_at(img, bs, paddr) {
        Err(e) => Err(e),
        Ok(b) => if fuel == 0 || !btree::is_node(b) || btree::node_level(b) >= level {
            Err(Error::InvalidImage)
        } else if btree::node_is_leaf(b) {
            leaf_lookup(b, t)
        } else {
            match child_for(b, t) {
                Err(e) => Err(e),
                Ok(p) => descend(img, bs, p, btree::node_level(b) as int, t, (fuel - 1) as nat),
            }
        },
    }
}

/// Nodes below the root that a lookup goes through at most.
pub open spec fn depth_limit(root: Seq<u8>) -> nat {
    if btree::node_level(root) < 64 {
        (btree::node_level(root) + 1) as nat
    } else {
        65
    }
}

/// What a lookup of `t` finds in the map whose root node is `root`; the other
/// nodes lie on the device `img`, in blocks as long as the root.
pub open spec fn find(img: Seq<u8>, root: Seq<u8>, t: OmapKey) -> Result<Option<OmapVal>> {
    if !btree::is_node(root) || btree::fixed_sizes(root) != Some((16int, 16int)) {
        Err(Error::InvalidImage)
    } else if btree::node_is_leaf(root) {
        leaf_lookup(root, t)
    } else {
        match child_for(root, t) {
            Err(e) => Err(e),
            Ok(p) => descend(
                img,
                root.len() as int,
                p,
                btree::node_level(root) as int,
                t,
                depth_limit(root),
            ),
        }
    }
}

/// Locate the child of an internal node in whose subtree `target` belongs: the
/// last one whose key is not above it, or the first.
fn find_child_for_key(node: &BTreeNode<'_>, target: &OmapKey) -> (r: Result<u32>)
    requires
        node.wf(),
    ensures
        match r {
            Ok(i) => node.nkeys > 0 && child_search(
                node.block@,
                *target,
                0,
                node.nkeys - 1,
                0,
            ) == Ok::<int, Error>(i as int),
            Err(e) => if node.nkeys == 0 {
                e == Error::InvalidImage
            } else {
                child_search(node.block@, *target, 0, node.nkeys - 1, 0) == Err::<int, Error>(e)
            },
        },
{
    if node.nkeys == 0 {
        return Err(Error::InvalidImage);
    }
    reveal(child_search);
    let mut lo: i64 = 0;
    let mut hi: i64 = node.nkeys as i64 - 1;
    let mut best: i64 = 0;
    while lo <= hi
        invariant
            node.wf(),
            node.nkeys > 0,
            0 <= lo <= node.nkeys,
            -1 <= hi < node.nkeys,
            0 <= best < node.nkeys,
            child_search(node.block@, *target, lo as int, hi as int, best as int) == child_search(
                node.block@,
                *target,
                0,
                node.nkeys - 1,
                0,
            ),
        decreases hi - lo + 1,
    {
        reveal(child_search);
        let mid: i64 = (lo + hi) / 2;
        let (kb, _) = node.child_entry_at(mid as u32, OmapKey::SIZE)?;
        let k = OmapKey::decode(kb)?;
        if key_not_above(&k, target) {
            best = mid;
            lo = mid + 1;
        } else {
            hi = mid - 1;
        }
    }
    Ok(best as u32)
}

/// Scan a leaf for the entry of the target object with the largest transaction
/// id that is not above the target.
fn scan_leaf_for_best(node: &BTreeNode<'_>, target: &OmapKey) -> (r: Result<Option<OmapVal>>)
    requires
        node.wf(),
    ensures
        r == leaf_lookup(node.block@, *target),
{
    reveal(leaf_best);
    let ghost b = node.block@;
    let mut best: Option<(u64, OmapVal)> = None;
    let mut i: u32 = 0;
    while i < node.nkeys
        invariant
            node.wf(),
            b == node.block@,
            i <= node.nkeys,
            leaf_best(b, *target, i as nat) == Ok::<Option<(u64, OmapVal)>, Error>(best),
        decreases node.nkeys - i,
    {
        proof {
            reveal(leaf_best);
            lemma_leaf_best_err(b, *target, (i + 1) as nat, node.nkeys as nat);
        }
        let (kb, vb) = node.entry_at(i, OmapKey::SIZE, OmapVal::SIZE)?;
        let k = OmapKey::decode(kb)?;
        let skip: bool = match best {
            Some(p) => k.xid <= p.0,
            None => false,
        };
        if k.oid == target.oid && k.xid <= target.xid && !skip {
            let v = OmapVal::decode(vb)?;
            best = Some((k.xid, v));
        }
        i = i + 1;
    }
    match best {
        Some(p) => Ok(Some(p.1)),
        None => Ok(None),
    }
}

proof fn lemma_leaf_best_err(b: Seq<u8>, t: OmapKey, i: nat, n: nat)
    requires
        i <= n,
    ensures
        leaf_best(b, t, i) is Err ==> leaf_best(b, t, n) == leaf_best(b, t, i),
    decreases n - i,
{
    reveal(leaf_best);
    if i < n {
        lemma_leaf_best_err(b, t, i, (n - 1) as nat);
    }
}

/// Load the block at `paddr` through the cache.
pub(crate) fn fetch_block(
    paddr: u64,
    block_size: usize,
    dev: &MemoryBackend,
    cache: &mut NodeCache,
) -> (r: Result<Vec<u8>>)
    requires
        old(cache).coherent(|p: u64| block::block_at(dev@, block_size as int, p)),
    ensures
        error::view_of(r) == block::block_at(dev@, block_size as int, paddr),
        final(cache).coherent(|p: u64| block::block_at(dev@, block_size as int, p)),
{
    let ghost f = |p: u64| block::block_at(dev@, block_size as int, p);
    let ghost c0 = cache@;
    match cache.get(paddr) {
        Some(b) => {
            proof {
                let i = choose|i: int|
                    0 <= i < c0.len() && #[trigger] c0[i] == (paddr, b@) && cache@ == c0.remove(
                        i,
                    ).push((paddr, b@));
                assert(f(c0[i].0) == Ok::<Seq<u8>, Error>(c0[i].1));
                assert forall|k: int| 0 <= k < cache@.len() implies f((#[trigger] cache@[k]).0)
                    == Ok::<Seq<u8>, Error>(cache@[k].1) by {
                    if k < i {
                        assert(cache@[k] == c0[k]);
                    } else if k < c0.len() - 1 {
                        assert(cache@[k] == c0[k + 1]);
                    }
                }
            }
            Ok(b)
        },
        None => {
            let buf = dev.read_block(paddr, block_size)?;
            let copy = bytes::copy_range(buf.as_slice(), 0, buf.len());
            proof {
                assert(copy@ =~= buf@);
            }
            cache.put(paddr, copy);
            proof {
                assert forall|k: int| 0 <= k < cache@.len() implies f((#[trigger] cache@[k]).0)
                    == Ok::<Seq<u8>, Error>(cache@[k].1) by {
                    if cache@ == c0 {
                    } else if cache@ == c0.push((paddr, copy@)) {
                        if k < c0.len() {
                            assert(cache@[k] == c0[k]);
                        }
                    } else {
                        if k < c0.len() - 1 {
                            assert(cache@[k] == c0[k + 1]);
                        }
                    }
                }
            }
            Ok(buf)
        },
    }
}

/// Search an object map of any depth for the entry of `target_oid` with the
/// largest transaction id that is at most `target_xid`.
pub fn lookup(root_block: &[u8], target_oid: u64, target_xid: u64, dev: &MemoryBackend) -> (r:
    Result<Option<OmapVal>>)
    ensures
        r == find(dev@, root_block@, (OmapKey { oid: target_oid, xid: target_xid })),
{
    let mut cache = NodeCache::new(NodeCache::DEFAULT_CAP);
    lookup_with_cache(root_block, target_oid, target_xid, dev, &mut cache)
}

/// [`lookup`] with a cache that repeated lookups share.
pub fn lookup_with_cache(
    root_block: &[u8],
    target_oid: u64,
    target_xid: u64,
    dev: &MemoryBackend,
    cache: &mut NodeCache,
) -> (r: Result<Option<OmapVal>>)
    requires
        old(cache).coherent(|p: u64| block::block_at(dev@, root_block@.len() as int, p)),
    ensures
        r == find(dev@, root_block@, (OmapKey { oid: target_oid, xid: target_xid })),
        final(cache).coherent(|p: u64| block::block_at(dev@, root_block@.len() as int, p)),
{
    let target = OmapKey { oid: target_oid, xid: target_xid };
    let block_size: usize = root_block.len();
    let root = BTreeNode::decode(root_block)?;
    match root.fixed_kv_size() {
        Some((klen, vlen)) => {
            if klen != OmapKey::SIZE || vlen != OmapVal::SIZE {
                return Err(Error::InvalidImage);
            }
        },
        None => {
            return Err(Error::InvalidImage);
        },
    }
    if root.is_leaf() {
        return scan_leaf_for_best(&root, &target);
    }
    let mut left: usize = if (root.level as usize) < MAX_BTREE_DEPTH {
        root.level as usize + 1
    } else {
        MAX_BTREE_DEPTH + 1
    };
    let mut prev_level: u16 = root.level;
    let child_idx: u32 = find_child_for_key(&root, &target)?;
    let (_, child) = root.child_entry_at(child_idx, OmapKey::SIZE)?;
    let mut child_paddr: u64 = child;
    let mut cur = fetch_block(child_paddr, block_size, dev, cache)?;
    while left > 0
        invariant
            block_size == root_block@.len(),
            target == (OmapKey { oid: target_oid, xid: target_xid }),
            block::block_at(dev@, block_size as int, child_paddr) == Ok::<Seq<u8>, Error>(cur@),
            cache.coherent(|p: u64| block::block_at(dev@, root_block@.len() as int, p)),
            descend(
                dev@,
                block_size as int,
                child_paddr,
                prev_level as int,
                target,
                left as nat,
            ) == find(dev@, root_block@, target),
        decreases left,
    {
        reveal_with_fuel(descend, 2);
        let node = BTreeNode::decode(cur.as_slice())?;
        if node.level >= prev_level {
            return Err(Error::InvalidImage);
        }
        prev_level = node.level;
        if node.is_leaf() {
            return scan_leaf_for_best(&node, &target);
        }
        let idx: u32 = find_child_for_key(&node, &target)?;
        let (_, next) = node.child_entry_at(idx, OmapKey::SIZE)?;
        child_paddr = next;
        cur = fetch_block(child_paddr, block_size, dev, cache)?;
        left = left - 1;
    }
    Err(Error::InvalidImage)
}

} // verus!
