//! B-tree nodes.
//!
//! ```text
//!    0   object header       32 bytes
//!   32   btn_flags           u16
//!   34   btn_level           u16     0 = leaf
//!   36   btn_nkeys           u32
//!   40   btn_table_space     u16 off, u16 len: table of contents
//!   56   btn_data[]
//! ```
//!
//! The table of contents lies at `btn_table_space.off` inside the data area;
//! its entries are 8 bytes (key offset, key length, value offset, value length)
//! or, with [`BTNODE_FIXED_KV_SIZE`], 4 bytes (key offset, value offset). Keys
//! follow it; key offsets count forward from there. Value offsets count
//! backward from the end of the data area, which in a root node ends 40 bytes
//! before the block does. A value offset of 0xFFFF means "no value".

use vstd::prelude::*;
use vstd::slice::slice_subrange;

use crate::apfs::obj::{self, ObjPhys, OBJECT_TYPE_BTREE, OBJECT_TYPE_BTREE_NODE};
use crate::bytes::{self, get_u16, get_u32, get_u64};
use crate::error::{Error, Result};

verus! {

/// Set on the root node of a tree.
pub const BTNODE_ROOT: u16 = 0x0001;

/// Set on leaf nodes.
pub const BTNODE_LEAF: u16 = 0x0002;

/// Set when all keys and all values have one size.
pub const BTNODE_FIXED_KV_SIZE: u16 = 0x0004;

/// Size of the information block at the end of every root node.
pub const BTREE_INFO_SIZE: usize = 40;

/// Value offset of a key without a value.
pub const BTOFF_INVALID: u16 = 0xFFFF;

/// Whether the node `b` is the root of its tree.
pub open spec fn node_is_root(b: Seq<u8>) -> bool {
    bytes::get16(b, 32) % 2 == 1
}

/// Whether the node `b` is a leaf.
pub open spec fn node_is_leaf(b: Seq<u8>) -> bool {
    bytes::get16(b, 32) / 2 % 2 == 1
}

/// Whether keys and values of the node `b` have one size.
pub open spec fn node_is_fixed(b: Seq<u8>) -> bool {
    bytes::get16(b, 32) / 4 % 2 == 1
}

/// Level of the node `b` above the leaves.
pub open spec fn node_level(b: Seq<u8>) -> u16 {
    bytes::get16(b, 34)
}

/// Number of entries of the node `b`.
pub open spec fn node_nkeys(b: Seq<u8>) -> u32 {
    bytes::get32(b, 36)
}

/// Start of the key area of the node `b`.
pub open spec fn node_keys_start(b: Seq<u8>) -> int {
    56 + bytes::get16(b, 40) + bytes::get16(b, 42)
}

/// End of the value area of the node `b`.
pub open spec fn node_vals_end(b: Seq<u8>) -> int {
    if node_is_root(b) {
        b.len() - 40
    } else {
        b.len() as int
    }
}

/// Whether `b` is a B-tree node.
pub open spec fn is_node(b: Seq<u8>) -> bool {
    &&& b.len() >= 56
    &&& obj::type_of(b) == OBJECT_TYPE_BTREE_NODE || obj::type_of(b) == OBJECT_TYPE_BTREE
    &&& node_keys_start(b) <= node_vals_end(b)
}

/// A raw entry of the table of contents; in a fixed-size node it carries no
/// lengths.
#[derive(Clone, Copy, Debug, PartialEq, Eq, Structural)]
pub struct RawEntry {
    pub key_off: u16,
    pub key_len: Option<u16>,
    pub val_off: u16,
    pub val_len: Option<u16>,
}

/// Entry `i` of the table of contents of the node `b`.
pub open spec fn toc_entry(b: Seq<u8>, i: int) -> Result<RawEntry> {
    let base = 56 + bytes::get16(b, 40);
    if i >= node_nkeys(b) {
        Err(Error::InvalidImage)
    } else if node_is_fixed(b) {
        let o = base + 4 * i;
        if o + 4 > b.len() {
            Err(Error::InvalidImage)
        } else {
            Ok(
                RawEntry {
                    key_off: bytes::get16(b, o),
                    key_len: None,
                    val_off: bytes::get16(b, o + 2),
                    val_len: None,
                },
            )
        }
    } else {
        let o = base + 8 * i;
        if o + 8 > b.len() {
            Err(Error::InvalidImage)
        } else {
            Ok(
                RawEntry {
                    key_off: bytes::get16(b, o),
                    key_len: Some(bytes::get16(b, o + 2)),
                    val_off: bytes::get16(b, o + 4),
                    val_len: Some(bytes::get16(b, o + 6)),
                },
            )
        }
    }
}

/// Length given in the table of contents, or else the fixed one.
pub open spec fn len_or(l: Option<u16>, fixed: int) -> int {
    match l {
        Some(n) => n as int,
        None => fixed,
    }
}

/// Key and value that the table entry `e` of the node `b` points at.
pub open spec fn entry_bytes(b: Seq<u8>, e: RawEntry, klen: int, vlen: int) -> Result<
    (Seq<u8>, Seq<u8>),
> {
    let ks = node_keys_start(b) + e.key_off;
    let ke = ks + len_or(e.key_len, klen);
    let vs = node_vals_end(b) - e.val_off;
    let ve = vs + len_or(e.val_len, vlen);
    if ke > node_vals_end(b) {
        Err(Error::InvalidImage)
    } else if e.val_off == BTOFF_INVALID {
        Ok((b.subrange(ks, ke), Seq::empty()))
    } else if vs < node_keys_start(b) || ve > node_vals_end(b) {
        Err(Error::InvalidImage)
    } else {
        Ok((b.subrange(ks, ke), b.subrange(vs, ve)))
    }
}

/// Key and value of entry `i` of the node `b`. In a fixed-size node keys are
/// `klen` and values `vlen` bytes long.
pub open spec fn entry(b: Seq<u8>, i: int, klen: int, vlen: int) -> Result<(Seq<u8>, Seq<u8>)> {
    match toc_entry(b, i) {
        Err(e) => Err(e),
        Ok(t) => entry_bytes(b, t, klen, vlen),
    }
}

/// Key and child pointer of entry `i` of the internal node `b`: the pointer is
/// the first 8 bytes of the value.
pub open spec fn child_entry(b: Seq<u8>, i: int, klen: int) -> Result<(Seq<u8>, u64)> {
    match entry(b, i, klen, 8) {
        Err(e) => Err(e),
        Ok((k, v)) => if v.len() < 8 {
            Err(Error::InvalidImage)
        } else {
            Ok((k, bytes::get64(v, 0)))
        },
    }
}

/// Key and value sizes recorded in the information block of the root `b`.
pub open spec fn fixed_sizes(b: Seq<u8>) -> Option<(int, int)> {
    if node_is_root(b) {
        Some((bytes::get32(b, b.len() - 32) as int, bytes::get32(b, b.len() - 28) as int))
    } else {
        None
    }
}

/// The view of a fallible key/value pair.
pub open spec fn pair_of(r: Result<(&[u8], &[u8])>) -> Result<(Seq<u8>, Seq<u8>)> {
    match r {
        Ok(p) => Ok((p.0@, p.1@)),
        Err(e) => Err(e),
    }
}

/// A B-tree node over the block that holds it.
#[derive(Debug)]
pub struct BTreeNode<'a> {
    /// The block.
    pub block: &'a [u8],
    pub obj: ObjPhys,
    pub flags: u16,
    pub level: u16,
    pub nkeys: u32,
    /// Offset of the table of contents inside the data area.
    pub toc_off: u16,
    pub toc_len: u16,
    /// Whether keys and values have one size.
    pub fixed_kv: bool,
    /// Whether this is the root of its tree.
    pub is_root: bool,
    /// Start of the key area inside the block.
    pub keys_start: usize,
    /// End of the value area inside the block.
    pub vals_end: usize,
}

impl<'a> BTreeNode<'a> {
    /// Whether every field is the one stored in the block, and the block is a
    /// node.
    pub open spec fn wf(self) -> bool {
        let b = self.block@;
        &&& is_node(b)
        &&& self.obj == obj::header(b)
        &&& self.flags == bytes::get16(b, 32)
        &&& self.level == node_level(b)
        &&& self.nkeys == node_nkeys(b)
        &&& self.toc_off == bytes::get16(b, 40)
        &&& self.toc_len == bytes::get16(b, 42)
        &&& self.fixed_kv == node_is_fixed(b)
        &&& self.is_root == node_is_root(b)
        &&& self.keys_start == node_keys_start(b)
        &&& self.vals_end == node_vals_end(b)
    }

    /// Parse a node from a full block.
    pub fn decode(block: &'a [u8]) -> (r: Result<Self>)
        ensures
            match r {
                Ok(n) => n.wf() && n.block@ == block@,
                Err(e) => !is_node(block@) && e == Error::InvalidImage,
            },
    {
        if block.len() < 56 {
            return Err(Error::InvalidImage);
        }
        let obj = ObjPhys::decode(block)?;
        let t: u32 = obj.obj_type();
        if t != OBJECT_TYPE_BTREE_NODE && t != OBJECT_TYPE_BTREE {
            return Err(Error::InvalidImage);
        }
        let flags: u16 = get_u16(block, 32);
        let toc_off: u16 = get_u16(block, 40);
        let toc_len: u16 = get_u16(block, 42);
        let is_root: bool = flags % 2 == 1;
        let fixed_kv: bool = flags / 4 % 2 == 1;
        let keys_start: usize = 56 + toc_off as usize + toc_len as usize;
        let vals_end: usize = if is_root {
            block.len() - BTREE_INFO_SIZE
        } else {
            block.len()
        };
        if keys_start > vals_end {
            return Err(Error::InvalidImage);
        }
        Ok(
            BTreeNode {
                block,
                obj,
                flags,
                level: get_u16(block, 34),
                nkeys: get_u32(block, 36),
                toc_off,
                toc_len,
                fixed_kv,
                is_root,
                keys_start,
                vals_end,
            },
        )
    }

    /// Whether this node is a leaf.
    pub fn is_leaf(&self) -> (r: bool)
        ensures
            r == (self.flags / 2 % 2 == 1),
    {
        self.flags / 2 % 2 == 1
    }

    /// Read entry `index` of the table of contents.
    fn raw_entry(&self, index: u32) -> (r: Result<RawEntry>)
        requires
            self.wf(),
        ensures
            r == toc_entry(self.block@, index as int),
    {
        if index >= self.nkeys {
            return Err(Error::InvalidImage);
        }
        let len: u64 = self.block.len() as u64;
        let base: u64 = 56 + self.toc_off as u64;
        if self.fixed_kv {
            let at: u64 = base + (index as u64) * 4;
            if at + 4 > len {
                return Err(Error::InvalidImage);
            }
            let off: usize = at as usize;
            Ok(
                RawEntry {
                    key_off: get_u16(self.block, off),
                    key_len: None,
                    val_off: get_u16(self.block, off + 2),
                    val_len: None,
                },
            )
        } else {
            let at: u64 = base + (index as u64) * 8;
            if at + 8 > len {
                return Err(Error::InvalidImage);
            }
            let off: usize = at as usize;
            Ok(
                RawEntry {
                    key_off: get_u16(self.block, off),
                    key_len: Some(get_u16(self.block, off + 2)),
                    val_off: get_u16(self.block, off + 4),
                    val_len: Some(get_u16(self.block, off + 6)),
                },
            )
        }
    }

    /// Key and value bytes of entry `index`. The fixed sizes are used only in a
    /// fixed-size node. A key without a value has an empty one.
    pub fn entry_at(&self, index: u32, fixed_klen: usize, fixed_vlen: usize) -> (r: Result<
        (&'a [u8], &'a [u8]),
    >)
        requires
            self.wf(),
        ensures
            pair_of(r) == entry(self.block@, index as int, fixed_klen as int, fixed_vlen as int),
    {
        let e = self.raw_entry(index)?;
        let klen: usize = match e.key_len {
            Some(n) => n as usize,
            None => fixed_klen,
        };
        let kstart: usize = self.keys_start + e.key_off as usize;
        if kstart > self.vals_end || klen > self.vals_end - kstart {
            return Err(Error::InvalidImage);
        }
        let key: &'a [u8] = slice_subrange(self.block, kstart, kstart + klen);
        if e.val_off == BTOFF_INVALID {
            let val: &'a [u8] = slice_subrange(self.block, 0, 0);
            assert(val@ =~= Seq::<u8>::empty());
            return Ok((key, val));
        }
        let vlen: usize = match e.val_len {
            Some(n) => n as usize,
            None => fixed_vlen,
        };
        if (e.val_off as usize) > self.vals_end {
            return Err(Error::InvalidImage);
        }
        let vstart: usize = self.vals_end - e.val_off as usize;
        if vstart < self.keys_start || vlen > self.vals_end - vstart {
            return Err(Error::InvalidImage);
        }
        let val: &'a [u8] = slice_subrange(self.block, vstart, vstart + vlen);
        Ok((key, val))
    }

    /// All entries, in order.
    pub fn entries(&self, fixed_klen: usize, fixed_vlen: usize) -> (r: Vec<
        Result<(&'a [u8], &'a [u8])>,
    >)
        requires
            self.wf(),
        ensures
            r@.len() == self.nkeys,
            forall|i: int|
                0 <= i < r@.len() ==> #[trigger] pair_of(r@[i]) == entry(
                    self.block@,
                    i,
                    fixed_klen as int,
                    fixed_vlen as int,
                ),
    {
        let mut out: Vec<Result<(&'a [u8], &'a [u8])>> = Vec::new();
        let mut i: u32 = 0;
        while i < self.nkeys
            invariant
                self.wf(),
                i <= self.nkeys,
                out@.len() == i,
                forall|k: int|
                    0 <= k < out@.len() ==> #[trigger] pair_of(out@[k]) == entry(
                        self.block@,
                        k,
                        fixed_klen as int,
                        fixed_vlen as int,
                    ),
            decreases self.nkeys - i,
        {
            out.push(self.entry_at(i, fixed_klen, fixed_vlen));
            i = i + 1;
        }
        out
    }

    /// Key bytes and child pointer of entry `index` of an internal node.
    pub fn child_entry_at(&self, index: u32, fixed_klen: usize) -> (r: Result<(&'a [u8], u64)>)
        requires
            self.wf(),
        ensures
            match r {
                Ok(p) => child_entry(self.block@, index as int, fixed_klen as int) == Ok::<
                    (Seq<u8>, u64),
                    Error,
                >((p.0@, p.1)),
                Err(e) => child_entry(self.block@, index as int, fixed_klen as int) == Err::<
                    (Seq<u8>, u64),
                    Error,
                >(e),
            },
    {
        let (k, v) = self.entry_at(index, fixed_klen, 8)?;
        if v.len() < 8 {
            return Err(Error::InvalidImage);
        }
        Ok((k, get_u64(v, 0)))
    }

    /// Key and value size from the information block; only a root has one.
    pub fn fixed_kv_size(&self) -> (r: Option<(usize, usize)>)
        requires
            self.wf(),
        ensures
            match r {
                Some(p) => fixed_sizes(self.block@) == Some((p.0 as int, p.1 as int)),
                None => fixed_sizes(self.block@) is None,
            },
    {
        if !self.is_root {
            return None;
        }
        let off: usize = self.block.len() - BTREE_INFO_SIZE;
        let k: usize = get_u32(self.block, off + 8) as usize;
        let v: usize = get_u32(self.block, off + 12) as usize;
        Some((k, v))
    }
}

/// A bounded cache of blocks by address. When it is full, storing a block drops
/// the one that was used least recently.
pub struct NodeCache {
    cap: usize,
    slots: Vec<(u64, Vec<u8>)>,
}

impl View for NodeCache {
    type V = Seq<(u64, Seq<u8>)>;

    /// Cached blocks with their addresses, the one used last at the end.
    closed spec fn view(&self) -> Seq<(u64, Seq<u8>)> {
        Seq::new(self.slots@.len(), |i: int| (self.slots@[i].0, self.slots@[i].1@))
    }
}

impl NodeCache {
    /// Capacity used where the caller has no reason for another.
    pub const DEFAULT_CAP: usize = 16;

    /// The most blocks the cache holds.
    pub closed spec fn capacity(&self) -> nat {
        self.cap as nat
    }

    /// Whether the cache respects its capacity and every cached block is the
    /// one that `f` gives for its address.
    pub open spec fn coherent(&self, f: spec_fn(u64) -> Result<Seq<u8>>) -> bool {
        &&& self@.len() <= self.capacity()
        &&& forall|i: int|
            0 <= i < self@.len() ==> f((#[trigger] self@[i]).0) == Ok::<Seq<u8>, Error>(self@[i].1)
    }

    /// An empty cache for `cap` blocks.
    pub fn new(cap: usize) -> (r: Self)
        ensures
            r@ == Seq::<(u64, Seq<u8>)>::empty(),
            r.capacity() == cap,
    {
        let r = NodeCache { cap, slots: Vec::new() };
        assert(r@ =~= Seq::<(u64, Seq<u8>)>::empty());
        r
    }

    /// The block cached for `paddr`, which thereby becomes the one used last.
    pub fn get(&mut self, paddr: u64) -> (r: Option<Vec<u8>>)
        ensures
            final(self).capacity() == old(self).capacity(),
            match r {
                Some(b) => exists|i: int|
                    0 <= i < old(self)@.len() && #[trigger] old(self)@[i] == (paddr, b@)
                        && final(self)@ == old(self)@.remove(i).push((paddr, b@)),
                None => final(self)@ == old(self)@ && forall|i: int|
                    0 <= i < old(self)@.len() ==> (#[trigger] old(self)@[i]).0 != paddr,
            },
    {
        let ghost start = self@;
        let mut i: usize = 0;
        while i < self.slots.len()
            invariant
                self@ == start,
                start == old(self)@,
                self.capacity() == old(self).capacity(),
                i <= self.slots@.len(),
                forall|j: int| 0 <= j < i ==> (#[trigger] start[j]).0 != paddr,
            decreases self.slots@.len() - i,
        {
            assert(start[i as int] == (self.slots@[i as int].0, self.slots@[i as int].1@));
            if self.slots[i].0 == paddr {
                let slot = self.slots.remove(i);
                let out = crate::bytes::copy_range(slot.1.as_slice(), 0, slot.1.len());
                assert(out@ =~= slot.1@);
                self.slots.push(slot);
                assert(self@ =~= start.remove(i as int).push((paddr, out@)));
                assert(start[i as int] == (paddr, out@));
                return Some(out);
            }
            i = i + 1;
        }
        None
    }

    /// Cache `block` for `paddr` as the one used last.
    pub fn put(&mut self, paddr: u64, block: Vec<u8>)
        ensures
            final(self).capacity() == old(self).capacity(),
            final(self)@ == if old(self).capacity() == 0 {
                old(self)@
            } else if old(self)@.len() >= old(self).capacity() {
                old(self)@.remove(0).push((paddr, block@))
            } else {
                old(self)@.push((paddr, block@))
            },
    {
        let ghost start = self@;
        if self.cap == 0 {
            return ;
        }
        if self.slots.len() >= self.cap {
            self.slots.remove(0);
            assert(self@ =~= start.remove(0));
        }
        let ghost mid = self@;
        self.slots.push((paddr, block));
        assert(self@ =~= mid.push((paddr, block@)));
    }
}

} // verus!
