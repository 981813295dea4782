//! Scanning the filesystem tree in key order.
//!
//! A scan stands somewhere in the tree; what lies ahead of it is a sequence of
//! records that ends early, with the error, where the tree cannot be read.

use vstd::prelude::*;

use crate::apfs::btree::{self, BTreeNode};
use crate::apfs::fstree::{self, FsKey, FsKeyTarget, FsTreeCtx, MAX_BTREE_DEPTH};
use crate::apfs::jrec;
use crate::block::MemoryBackend;
use crate::bytes::copy_range;
use crate::error::{Error, Result};
use crate::order::Order;

verus! {

/// `w` followed by `r`, unless `w` ends with an error.
pub open spec fn chain(w: Seq<Result<(Seq<u8>, Seq<u8>)>>, r: Seq<Result<(Seq<u8>, Seq<u8>)>>) -> Seq<
    Result<(Seq<u8>, Seq<u8>)>,
> {
    if w.len() > 0 && w.last() is Err {
        w
    } else {
        w + r
    }
}

/// The sequence that is just an error.
pub open spec fn failed(e: Error) -> Seq<Result<(Seq<u8>, Seq<u8>)>> {
    seq![Err(e)]
}

/// Records of the leaf `b` from entry `i` on.
pub open spec fn leaf_items(b: Seq<u8>, klen: int, i: int) -> Seq<Result<(Seq<u8>, Seq<u8>)>>
    decreases btree::node_nkeys(b) - i,
{
    if i >= btree::node_nkeys(b) {
        Seq::empty()
    } else {
        match btree::entry(b, i, klen, 0) {
            Err(e) => failed(e),
            Ok(p) => if p.0.len() < 8 {
                failed(Error::InvalidImage)
            } else {
                seq![Ok(p)] + leaf_items(b, klen, i + 1)
            },
        }
    }
}

/// Records of the subtree of node `b`, which stands `depth` levels below the
/// root and whose level must lie below `level`.
pub open spec fn walk(v: fstree::Vol, b: Seq<u8>, klen: int, level: int, depth: int) -> Seq<
    Result<(Seq<u8>, Seq<u8>)>,
>
    decreases level, 0int,
{
    if depth > MAX_BTREE_DEPTH || !btree::is_node(b) || btree::node_level(b) >= level {
        failed(Error::InvalidImage)
    } else if btree::node_is_leaf(b) {
        leaf_items(b, klen, 0)
    } else if btree::node_nkeys(b) == 0 {
        failed(Error::InvalidImage)
    } else {
        kids(v, b, klen, depth + 1, 0)
    }
}

/// Records of the children of the internal node `b` from entry `i` on; the
/// children stand `depth` levels below the root.
pub open spec fn kids(v: fstree::Vol, b: Seq<u8>, klen: int, depth: int, i: int) -> Seq<
    Result<(Seq<u8>, Seq<u8>)>,
>
    decreases btree::node_level(b) as int, btree::node_nkeys(b) - i,
{
    if i >= btree::node_nkeys(b) {
        Seq::empty()
    } else {
        match btree::child_entry(b, i, klen) {
            Err(e) => failed(e),
            Ok((_, vid)) => match fstree::block_of_vid(v, vid) {
                Err(e) => failed(e),
                Ok(c) => chain(
                    walk(v, c, klen, btree::node_level(b) as int, depth),
                    kids(v, b, klen, depth, i + 1),
                ),
            },
        }
    }
}

/// Index of the first entry from `i` on of the leaf `b` whose key is not below
/// `t`.
pub open spec fn first_from(b: Seq<u8>, klen: int, t: fstree::Target, i: int) -> Result<int>
    decreases btree::node_nkeys(b) - i,
{
    if i >= btree::node_nkeys(b) {
        Ok(btree::node_nkeys(b) as int)
    } else {
        match btree::entry(b, i, klen, 0) {
            Err(e) => Err(e),
            Ok(p) => if p.0.len() < 8 {
                Err(Error::InvalidImage)
            } else if fstree::order_key(p.0, t) != Order::Less {
                Ok(i)
            } else {
                first_from(b, klen, t, i + 1)
            },
        }
    }
}

/// What lies ahead of a scan of the subtree of node `b` that starts at `t`.
pub open spec fn seek(
    v: fstree::Vol,
    b: Seq<u8>,
    klen: int,
    level: int,
    depth: int,
    t: fstree::Target,
) -> Result<Seq<Result<(Seq<u8>, Seq<u8>)>>>
    decreases level,
{
    if depth > MAX_BTREE_DEPTH || !btree::is_node(b) || btree::node_level(b) >= level {
        Err(Error::InvalidImage)
    } else if btree::node_is_leaf(b) {
        match first_from(b, klen, t, 0) {
            Err(e) => Err(e),
            Ok(i) => Ok(leaf_items(b, klen, i)),
        }
    } else {
        match fstree::child_index(b, klen, t) {
            Err(e) => Err(e),
            Ok(i) => match btree::child_entry(b, i, klen) {
                Err(e) => Err(e),
                Ok((_, vid)) => match fstree::block_of_vid(v, vid) {
                    Err(e) => Err(e),
                    Ok(c) => match seek(v, c, klen, btree::node_level(b) as int, depth + 1, t) {
                        Err(e) => Err(e),
                        Ok(s) => Ok(chain(s, kids(v, b, klen, depth + 1, i + 1))),
                    },
                },
            },
        }
    }
}

/// What lies ahead of a scan of the tree with root `root` that starts at `t`.
pub open spec fn ahead(v: fstree::Vol, root: Seq<u8>, t: fstree::Target) -> Result<
    Seq<Result<(Seq<u8>, Seq<u8>)>>,
> {
    seek(v, root, fstree::root_klen(root), 0x1_0000, 0, t)
}

/// What lies behind the entries that the internal nodes of `s` point at, the
/// innermost node first.
pub open spec fn above(v: fstree::Vol, klen: int, s: Seq<(Seq<u8>, int)>) -> Seq<
    Result<(Seq<u8>, Seq<u8>)>,
>
    decreases s.len(),
{
    if s.len() == 0 {
        Seq::empty()
    } else {
        chain(
            kids(v, s.last().0, klen, s.len() as int, s.last().1 + 1),
            above(v, klen, s.drop_last()),
        )
    }
}

/// Number of nodes in the subtree of node `b`, without itself.
spec fn walk_size(v: fstree::Vol, b: Seq<u8>, klen: int, level: int, depth: int) -> nat
    decreases level, 0int,
{
    if depth > MAX_BTREE_DEPTH || !btree::is_node(b) || btree::node_level(b) >= level
        || btree::node_is_leaf(b) {
        0
    } else {
        kids_size(v, b, klen, depth + 1, 0)
    }
}

/// Number of nodes in the subtrees of the children of `b` from entry `i` on.
spec fn kids_size(v: fstree::Vol, b: Seq<u8>, klen: int, depth: int, i: int) -> nat
    decreases btree::node_level(b) as int, btree::node_nkeys(b) - i,
{
    if i >= btree::node_nkeys(b) {
        0
    } else {
        let own = match btree::child_entry(b, i, klen) {
            Err(e) => 0,
            Ok((_, vid)) => match fstree::block_of_vid(v, vid) {
                Err(e) => 0,
                Ok(c) => walk_size(v, c, klen, btree::node_level(b) as int, depth),
            },
        };
        1 + own + kids_size(v, b, klen, depth, i + 1)
    }
}

spec fn above_size(v: fstree::Vol, klen: int, s: Seq<(Seq<u8>, int)>) -> nat
    decreases s.len(),
{
    if s.len() == 0 {
        0
    } else {
        kids_size(v, s.last().0, klen, s.len() as int, s.last().1 + 1) + above_size(
            v,
            klen,
            s.drop_last(),
        )
    }
}

/// Chaining is associative.
pub proof fn lemma_chain_assoc(
    a: Seq<Result<(Seq<u8>, Seq<u8>)>>,
    b: Seq<Result<(Seq<u8>, Seq<u8>)>>,
    c: Seq<Result<(Seq<u8>, Seq<u8>)>>,
)
    ensures
        chain(chain(a, b), c) == chain(a, chain(b, c)),
{
    assert(chain(chain(a, b), c) =~= chain(a, chain(b, c)));
}

/// A scan of the tree records that share the object id and kind of its start.
pub struct RangeScan {
    /// The nodes from the root to the current leaf. The number in an internal
    /// node is the entry last descended into, that in the leaf the next entry.
    stack: Vec<(Vec<u8>, u32)>,
    fixed_klen: usize,
    stop_oid: u64,
    stop_kind: u8,
}

impl View for RangeScan {
    type V = Seq<(Seq<u8>, int)>;

    closed spec fn view(&self) -> Seq<(Seq<u8>, int)> {
        Seq::new(self.stack@.len(), |i: int| (self.stack@[i].0@, self.stack@[i].1 as int))
    }
}

/// Whether `s` is a path of internal nodes.
spec fn is_path(s: Seq<(Seq<u8>, int)>) -> bool {
    forall|i: int|
        0 <= i < s.len() ==> {
            &&& btree::is_node((#[trigger] s[i]).0)
            &&& !btree::node_is_leaf(s[i].0)
            &&& 0 <= s[i].1 < btree::node_nkeys(s[i].0)
        }
}

impl RangeScan {
    /// Whether the scan stands at a leaf below a path of internal nodes, or is
    /// done.
    pub closed spec fn wf(self) -> bool {
        let s = self@;
        s.len() > 0 ==> {
            &&& is_path(s.drop_last())
            &&& btree::is_node(s.last().0)
            &&& btree::node_is_leaf(s.last().0)
            &&& 0 <= s.last().1 <= btree::node_nkeys(s.last().0)
        }
    }

    /// Object id and kind that the scan keeps to.
    pub closed spec fn prefix(self) -> (u64, u8) {
        (self.stop_oid, self.stop_kind)
    }

    pub closed spec fn klen(self) -> int {
        self.fixed_klen as int
    }

    /// What lies ahead of the scan.
    pub closed spec fn rest(self, v: fstree::Vol) -> Seq<Result<(Seq<u8>, Seq<u8>)>> {
        let s = self@;
        if s.len() == 0 {
            Seq::empty()
        } else {
            chain(
                leaf_items(s.last().0, self.klen(), s.last().1),
                above(v, self.klen(), s.drop_last()),
            )
        }
    }

    /// A scan that stands at the first key that is not below `start`.
    pub fn start(
        fsroot_block: &[u8],
        start: &FsKeyTarget<'_>,
        ctx: &mut FsTreeCtx,
        dev: &MemoryBackend,
    ) -> (r: Result<Self>)
        requires
            old(ctx).wf(dev@),
        ensures
            final(ctx).wf(dev@),
            final(ctx).vol(dev@) == old(ctx).vol(dev@),
            match r {
                Ok(s) => {
                    &&& s.wf()
                    &&& s.prefix() == (start.oid, start.kind)
                    &&& ahead(old(ctx).vol(dev@), fsroot_block@, start@) == Ok::<
                        Seq<Result<(Seq<u8>, Seq<u8>)>>,
                        Error,
                    >(s.rest(old(ctx).vol(dev@)))
                },
                Err(e) => ahead(old(ctx).vol(dev@), fsroot_block@, start@) == Err::<
                    Seq<Result<(Seq<u8>, Seq<u8>)>>,
                    Error,
                >(e),
            },
    {
        let ghost v = ctx.vol(dev@);
        let fixed_klen: usize = fstree::read_root_kv_sizes(fsroot_block);
        let ghost klen = fixed_klen as int;
        let ghost goal = ahead(v, fsroot_block@, start@);
        let mut scan = RangeScan {
            stack: Vec::new(),
            fixed_klen,
            stop_oid: start.oid,
            stop_kind: start.kind,
        };
        let mut cur = copy_range(fsroot_block, 0, fsroot_block.len());
        let mut level: u32 = 0x1_0000;
        proof {
            assert(cur@ =~= fsroot_block@);
            assert(above(v, klen, scan@) =~= Seq::empty());
            match seek(v, cur@, klen, level as int, 0, start@) {
                Ok(s) => {
                    assert(chain(s, above(v, klen, scan@)) =~= s);
                },
                Err(_) => {},
            }
        }
        loop
            invariant
                ctx.wf(dev@),
                ctx.vol(dev@) == v,
                v == old(ctx).vol(dev@),
                klen == fixed_klen,
                klen == scan.klen(),
                scan.prefix() == (start.oid, start.kind),
                is_path(scan@),
                goal == ahead(v, fsroot_block@, start@),
                goal == match seek(v, cur@, klen, level as int, scan@.len() as int, start@) {
                    Err(e) => Err::<Seq<Result<(Seq<u8>, Seq<u8>)>>, Error>(e),
                    Ok(s) => Ok(chain(s, above(v, klen, scan@))),
                },
            decreases level,
        {
            if scan.stack.len() > MAX_BTREE_DEPTH {
                return Err(Error::InvalidImage);
            }
            let node = BTreeNode::decode(cur.as_slice())?;
            if node.level as u32 >= level {
                return Err(Error::InvalidImage);
            }
            let ghost s0 = scan@;
            if node.is_leaf() {
                let first: u32 = first_at_least(&node, fixed_klen, start)?;
                let ghost b = cur@;
                scan.stack.push((cur, first));
                proof {
                    assert(scan@ =~= s0.push((b, first as int)));
                    assert(scan@.drop_last() =~= s0);
                }
                return Ok(scan);
            }
            let idx: u32 = fstree::find_child_idx(&node, fixed_klen, start)?;
            let (_, child_vid) = node.child_entry_at(idx, fixed_klen)?;
            let next = ctx.load_vid(child_vid, dev)?;
            let lower: u32 = node.level as u32;
            let ghost b = cur@;
            scan.stack.push((cur, idx));
            cur = next;
            level = lower;
            proof {
                let s1 = scan@;
                assert(s1 =~= s0.push((b, idx as int)));
                assert(s1.drop_last() =~= s0);
                match seek(v, cur@, klen, level as int, s1.len() as int, start@) {
                    Ok(s) => {
                        lemma_chain_assoc(
                            s,
                            kids(v, b, klen, s1.len() as int, idx + 1),
                            above(v, klen, s0),
                        );
                    },
                    Err(_) => {},
                }
            }
        }
    }

    /// The next record, or `None` where the next one has another object id or
    /// kind, or there is none.
    pub fn next(&mut self, ctx: &mut FsTreeCtx, dev: &MemoryBackend) -> (r: Result<
        Option<(Vec<u8>, Vec<u8>)>,
    >)
        requires
            old(self).wf(),
            old(ctx).wf(dev@),
        ensures
            final(ctx).wf(dev@),
            final(ctx).vol(dev@) == old(ctx).vol(dev@),
            final(self).prefix() == old(self).prefix(),
            ({
                let v = old(ctx).vol(dev@);
                let rest = old(self).rest(v);
                match r {
                    Ok(Some(p)) => {
                        &&& rest.len() > 0
                        &&& rest[0] == Ok::<(Seq<u8>, Seq<u8>), Error>((p.0@, p.1@))
                        &&& p.0@.len() >= 8
                        &&& (jrec::key_oid(p.0@), jrec::key_kind(p.0@)) == old(self).prefix()
                        &&& final(self).wf()
                        &&& final(self).rest(v) == rest.drop_first()
                    },
                    Ok(None) => {
                        &&& rest.len() > 0 ==> {
                            &&& rest[0] matches Ok(p)
                            &&& (jrec::key_oid(p.0), jrec::key_kind(p.0)) != old(self).prefix()
                        }
                        &&& final(self).wf()
                        &&& final(self).rest(v) == rest
                    },
                    Err(e) => rest.len() > 0 && rest[0] == Err::<(Seq<u8>, Seq<u8>), Error>(e),
                }
            }),
    {
        let ghost v = ctx.vol(dev@);
        let ghost klen = self.klen();
        let ghost rest = self.rest(v);
        loop
            invariant
                self.wf(),
                self.klen() == klen,
                self.prefix() == old(self).prefix(),
                ctx.wf(dev@),
                ctx.vol(dev@) == v,
                v == old(ctx).vol(dev@),
                rest == old(self).rest(v),
                self.rest(v) == rest,
            decreases
                    if self@.len() > 0 {
                        above_size(v, klen, self@.drop_last()) + 1
                    } else {
                        0
                    },
        {
            if self.stack.len() == 0 {
                return Ok(None);
            }
            let top: usize = self.stack.len() - 1;
            let ghost s0 = self@;
            let cursor: u32 = self.stack[top].1;
            let leaf = copy_range(self.stack[top].0.as_slice(), 0, self.stack[top].0.len());
            proof {
                assert(leaf@ =~= s0.last().0);
            }
            let node = BTreeNode::decode(leaf.as_slice())?;
            if cursor < node.nkeys {
                let (kb, vb) = node.entry_at(cursor, self.fixed_klen, 0)?;
                let key = FsKey::decode(kb)?;
                if key.oid != self.stop_oid || key.kind != self.stop_kind {
                    return Ok(None);
                }
                let k = copy_range(kb, 0, kb.len());
                let val = copy_range(vb, 0, vb.len());
                let taken = self.stack.pop();
                match taken {
                    Some((block, _)) => {
                        self.stack.push((block, cursor + 1));
                    },
                    None => {},
                }
                proof {
                    assert(k@ =~= kb@);
                    assert(val@ =~= vb@);
                    assert(self@ =~= s0.drop_last().push((s0.last().0, cursor + 1)));
                    assert(self@.drop_last() =~= s0.drop_last());
                    let more = leaf_items(leaf@, klen, cursor + 1);
                    let up = above(v, klen, s0.drop_last());
                    let now = seq![Ok::<(Seq<u8>, Seq<u8>), Error>((k@, val@))] + more;
                    assert(leaf_items(leaf@, klen, cursor as int) == now);
                    if more.len() > 0 {
                        assert(now.last() == more.last());
                    }
                    assert(chain(now, up).drop_first() =~= chain(more, up));
                }
                return Ok(Some((k, val)));
            }
            let _ = self.stack.pop();
            proof {
                assert(self@ =~= s0.drop_last());
                assert(leaf_items(s0.last().0, klen, s0.last().1) =~= Seq::empty());
                assert(rest =~= above(v, klen, self@));
            }
            if self.stack.len() == 0 {
                return Ok(None);
            }
            self.descend_next(ctx, dev)?;
        }
    }

    /// Having left a leaf, move on to the next one: advance the innermost node
    /// that has a further entry and go down along first entries. The scan ends
    /// up empty where there is none.
    fn descend_next(&mut self, ctx: &mut FsTreeCtx, dev: &MemoryBackend) -> (r: Result<()>)
        requires
            is_path(old(self)@),
            old(self)@.len() > 0,
            old(ctx).wf(dev@),
        ensures
            final(ctx).wf(dev@),
            final(ctx).vol(dev@) == old(ctx).vol(dev@),
            final(self).prefix() == old(self).prefix(),
            final(self).klen() == old(self).klen(),
            ({
                let v = old(ctx).vol(dev@);
                let up = above(v, old(self).klen(), old(self)@);
                match r {
                    Ok(_) => {
                        &&& final(self).wf()
                        &&& final(self).rest(v) == up
                        &&& final(self)@.len() > 0 ==> above_size(
                            v,
                            old(self).klen(),
                            final(self)@.drop_last(),
                        ) < above_size(v, old(self).klen(), old(self)@)
                    },
                    Err(e) => up.len() > 0 && up[0] == Err::<(Seq<u8>, Seq<u8>), Error>(e),
                }
            }),
    {
        let ghost v = ctx.vol(dev@);
        let ghost klen = self.klen();
        let ghost up = above(v, klen, self@);
        let ghost size = above_size(v, klen, self@);
        loop
            invariant
                is_path(self@),
                self@.len() > 0,
                self.klen() == klen,
                klen == old(self).klen(),
                self.prefix() == old(self).prefix(),
                ctx.wf(dev@),
                ctx.vol(dev@) == v,
                v == old(ctx).vol(dev@),
                up == above(v, klen, old(self)@),
                size == above_size(v, klen, old(self)@),
                above(v, klen, self@) == up,
                above_size(v, klen, self@) <= size,
            decreases self@.len(),
        {
            let ghost s0 = self@;
            let top: usize = self.stack.len() - 1;
            let cursor: u32 = self.stack[top].1;
            let block = copy_range(self.stack[top].0.as_slice(), 0, self.stack[top].0.len());
            proof {
                assert(block@ =~= s0.last().0);
                assert(s0[top as int] == s0.last());
            }
            let parent = BTreeNode::decode(block.as_slice())?;
            let next_idx: u32 = cursor + 1;
            let _ = self.stack.pop();
            proof {
                assert(self@ =~= s0.drop_last());
            }
            if next_idx >= parent.nkeys {
                proof {
                    assert(kids(v, block@, klen, s0.len() as int, next_idx as int)
                        =~= Seq::empty());
                    assert(up =~= above(v, klen, self@));
                }
                if self.stack.len() == 0 {
                    return Ok(());
                }
                continue ;
            }
            let (_, child_vid) = parent.child_entry_at(next_idx, self.fixed_klen)?;
            let mut child = ctx.load_vid(child_vid, dev)?;
            let mut level: u16 = parent.level;
            let ghost b = block@;
            self.stack.push((block, next_idx));
            proof {
                let s1 = self@;
                assert(s1 =~= s0.drop_last().push((b, next_idx as int)));
                assert(s1.drop_last() =~= s0.drop_last());
                lemma_chain_assoc(
                    walk(v, child@, klen, level as int, s0.len() as int),
                    kids(v, b, klen, s0.len() as int, next_idx + 1),
                    above(v, klen, s0.drop_last()),
                );
            }
            loop
                invariant
                    is_path(self@),
                    self@.len() > 0,
                    self.klen() == klen,
                    klen == old(self).klen(),
                    self.prefix() == old(self).prefix(),
                    ctx.wf(dev@),
                    ctx.vol(dev@) == v,
                    v == old(ctx).vol(dev@),
                    up == above(v, klen, old(self)@),
                    size == above_size(v, klen, old(self)@),
                    up == chain(
                        walk(v, child@, klen, level as int, self@.len() as int),
                        above(v, klen, self@),
                    ),
                    walk_size(v, child@, klen, level as int, self@.len() as int) + above_size(
                        v,
                        klen,
                        self@,
                    ) < size,
                decreases level,
            {
                let ghost s2 = self@;
                if self.stack.len() > MAX_BTREE_DEPTH {
                    return Err(Error::InvalidImage);
                }
                let cn = BTreeNode::decode(child.as_slice())?;
                if cn.level >= level {
                    return Err(Error::InvalidImage);
                }
                if cn.is_leaf() {
                    let ghost c = child@;
                    self.stack.push((child, 0));
                    proof {
                        assert(self@ =~= s2.push((c, 0)));
                        assert(self@.drop_last() =~= s2);
                    }
                    return Ok(());
                }
                let (_, vid) = cn.child_entry_at(0, self.fixed_klen)?;
                let next = ctx.load_vid(vid, dev)?;
                let lower: u16 = cn.level;
                let ghost c = child@;
                let ghost outer = level as int;
                self.stack.push((child, 0));
                child = next;
                level = lower;
                proof {
                    let s3 = self@;
                    assert(s3 =~= s2.push((c, 0)));
                    assert(s3.drop_last() =~= s2);
                    lemma_chain_assoc(
                        walk(v, child@, klen, level as int, s3.len() as int),
                        kids(v, c, klen, s3.len() as int, 1),
                        above(v, klen, s2),
                    );
                    assert(walk(v, c, klen, outer, s2.len() as int) == kids(
                        v,
                        c,
                        klen,
                        s3.len() as int,
                        0,
                    ));
                }
            }
        }
    }
}

/// Index of the first entry of a leaf whose key is not below `start`.
fn first_at_least(node: &BTreeNode<'_>, fixed_klen: usize, start: &FsKeyTarget<'_>) -> (r: Result<
    u32,
>)
    requires
        node.wf(),
    ensures
        match r {
            Ok(i) => i <= node.nkeys && first_from(node.block@, fixed_klen as int, start@, 0)
                == Ok::<int, Error>(i as int),
            Err(e) => first_from(node.block@, fixed_klen as int, start@, 0) == Err::<int, Error>(e),
        },
{
    let mut i: u32 = 0;
    while i < node.nkeys
        invariant
            node.wf(),
            i <= node.nkeys,
            first_from(node.block@, fixed_klen as int, start@, i as int) == first_from(
                node.block@,
                fixed_klen as int,
                start@,
                0,
            ),
        decreases node.nkeys - i,
    {
        let (kb, _) = node.entry_at(i, fixed_klen, 0)?;
        let key = FsKey::decode(kb)?;
        if fstree::order_fs_key(&key, start) != Order::Less {
            return Ok(i);
        }
        i = i + 1;
    }
    Ok(i)
}

} // verus!
