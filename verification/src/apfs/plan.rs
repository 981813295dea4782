//! Laying out whole trees: which node goes to which block.

use vstd::prelude::*;

use crate::apfs::node::{
    self, build_fs_internal_root, build_fs_leaf, build_omap_internal_root, build_omap_leaf_node,
};
use crate::apfs::pack::{self, pack_omap_into_leaves, pack_records_into_leaves, Rec};
use crate::apfs::record::{self, FsRecord};
use crate::bytes::copy_range;
use crate::error::{Error, Result};

verus! {

/// Object id of the root of the filesystem tree.
pub const FSROOT_VID: u64 = 2;

/// First object id of the leaves of a filesystem tree of several leaves.
pub const FS_LEAF_VID_BASE: u64 = 0x1_0000;

/// A block address and what goes there.
pub type Placed = (u64, Seq<u8>);

/// The views of placed blocks.
pub open spec fn placed(s: Seq<(u64, Vec<u8>)>) -> Seq<Placed> {
    Seq::new(s.len(), |i: int| (s[i].0, s[i].1@))
}

/// A tree laid out: the address of its root, the first block behind it, and its
/// nodes.
#[verifier::ext_equal]
pub struct Tree {
    pub root: u64,
    pub next: int,
    pub blocks: Seq<Placed>,
}

/// A tree laid out.
pub struct PlannedTree {
    pub root: u64,
    pub next: u64,
    pub blocks: Vec<(u64, Vec<u8>)>,
}

impl View for PlannedTree {
    type V = Tree;

    open spec fn view(&self) -> Tree {
        Tree { root: self.root, next: self.next as int, blocks: placed(self.blocks@) }
    }
}

/// The leaves of an object map of several leaves, from block `next` on.
pub open spec fn omap_leaves(gs: Seq<Seq<(u64, u64, u64)>>, bs: nat, next: int, xid: u64) -> Seq<
    Placed,
> {
    Seq::new(gs.len(), |i: int| ((next + i) as u64, node::omap_leaf(bs, gs[i], false, xid)))
}

/// The root's entries above those leaves.
pub open spec fn omap_seps(gs: Seq<Seq<(u64, u64, u64)>>, next: int) -> Seq<(u64, u64, u64)> {
    Seq::new(gs.len(), |i: int| (gs[i][0].0, gs[i][0].1, (next + i) as u64))
}

/// An object map of the entries `es` laid out from block `next` on, in a
/// container of `total` blocks.
pub open spec fn omap_tree(
    es: Seq<(u64, u64, u64)>,
    bs: nat,
    next: int,
    total: int,
    xid: u64,
) -> Result<Tree> {
    let gs = pack::omap_groups(es, pack::omap_per_leaf(bs as int));
    let k = gs.len() as int;
    if k == 1 {
        if next + 1 > total {
            Err(Error::InvalidArgument)
        } else {
            Ok(
                Tree {
                    root: next as u64,
                    next: next + 1,
                    blocks: seq![(next as u64, node::omap_leaf(bs, gs[0], true, xid))],
                },
            )
        }
    } else if next + k + 1 > total {
        Err(Error::InvalidArgument)
    } else if !node::omap_fits(k, false, bs as int, true) {
        Err(Error::Unsupported)
    } else {
        Ok(
            Tree {
                root: (next + k) as u64,
                next: next + k + 1,
                blocks: omap_leaves(gs, bs, next, xid).push(
                    ((next + k) as u64, node::omap_internal_root(bs, omap_seps(gs, next), xid)),
                ),
            },
        )
    }
}

/// A filesystem tree laid out, with the entries that its object map needs.
#[verifier::ext_equal]
pub struct FsTree {
    pub tree: Tree,
    pub entries: Seq<(u64, u64, u64)>,
}

/// The leaves of a filesystem tree of several leaves, from block `next` on.
pub open spec fn fs_leaves(ls: Seq<Seq<Rec>>, bs: nat, next: int, xid: u64) -> Seq<Placed> {
    Seq::new(
        ls.len(),
        |i: int|
            (
                (next + i) as u64,
                node::fs_leaf(ls[i], bs, (FS_LEAF_VID_BASE + i) as u64, false, xid),
            ),
    )
}

/// The root's entries above those leaves.
pub open spec fn fs_seps(ls: Seq<Seq<Rec>>) -> Seq<(Seq<u8>, u64)> {
    Seq::new(ls.len(), |i: int| (ls[i][0].0, (FS_LEAF_VID_BASE + i) as u64))
}

/// What the object map of a filesystem tree of several leaves holds.
pub open spec fn fs_entries(k: nat, next: int, xid: u64) -> Seq<(u64, u64, u64)> {
    seq![(FSROOT_VID, xid, (next + k) as u64)] + Seq::new(
        k,
        |i: int| ((FS_LEAF_VID_BASE + i) as u64, xid, (next + i) as u64),
    )
}

/// A filesystem tree of the ordered records `rs` laid out from block `next` on,
/// in a container of `total` blocks: one leaf that is the root, or leaves below
/// one root.
pub open spec fn fs_tree(rs: Seq<Rec>, bs: nat, next: int, total: int, xid: u64) -> Result<FsTree> {
    match pack::pack(rs, bs - 96) {
        Err(e) => Err(e),
        Ok(ls) => {
            let k = ls.len() as int;
            if k == 1 {
                if next + 1 > total {
                    Err(Error::InvalidArgument)
                } else {
                    Ok(
                        FsTree {
                            tree: Tree {
                                root: next as u64,
                                next: next + 1,
                                blocks: seq![
                                    (
                                        next as u64,
                                        node::fs_leaf(ls[0], bs, FSROOT_VID, true, xid),
                                    ),
                                ],
                            },
                            entries: seq![(FSROOT_VID, xid, next as u64)],
                        },
                    )
                }
            } else if next + k + 1 > total {
                Err(Error::InvalidArgument)
            } else if !node::fits(node::child_recs(fs_seps(ls)), bs as int, false, true) {
                Err(Error::Unsupported)
            } else {
                Ok(
                    FsTree {
                        tree: Tree {
                            root: (next + k) as u64,
                            next: next + k + 1,
                            blocks: fs_leaves(ls, bs, next, xid).push(
                                (
                                    (next + k) as u64,
                                    node::fs_internal_root(fs_seps(ls), bs, FSROOT_VID, xid),
                                ),
                            ),
                        },
                        entries: fs_entries(ls.len(), next, xid),
                    },
                )
            }
        },
    }
}

/// The sizes that packing counts are those that a leaf needs.
pub proof fn lemma_needs(s: Seq<Rec>, i: int)
    requires
        0 <= i <= s.len(),
    ensures
        pack::needs(s.take(i)) == 8 * i + node::keys_len(s, i) + node::vals_len(s, i),
    decreases i,
{
    if i > 0 {
        lemma_needs(s, i - 1);
        assert(s.take(i).drop_last() =~= s.take(i - 1));
        assert(s.take(i).last() == s[i - 1]);
    } else {
        assert(s.take(0) =~= Seq::empty());
    }
}

/// What packing put in one leaf fits in a leaf, root or not.
pub proof fn lemma_leaf_fits(s: Seq<Rec>, bs: int, root: bool)
    requires
        pack::needs(s) <= bs - 96,
    ensures
        node::fits(s, bs, false, root),
{
    lemma_needs(s, s.len() as int);
    assert(s.take(s.len() as int) =~= s);
}

/// A run of object-map entries fits in a leaf, root or not.
pub proof fn lemma_group_fits(es: Seq<(u64, u64, u64)>, bs: int, i: int, root: bool)
    requires
        132 <= bs,
        0 <= i < pack::omap_leaf_count(es.len() as int, pack::omap_per_leaf(bs)),
    ensures
        node::omap_fits(
            pack::omap_groups(es, pack::omap_per_leaf(bs))[i].len() as int,
            true,
            bs,
            root,
        ),
        es.len() > 0 ==> pack::omap_groups(es, pack::omap_per_leaf(bs))[i].len() > 0,
{
    pack::lemma_omap_group(es.len() as int, pack::omap_per_leaf(bs), i);
}

/// Lay out an object map from block `next` on.
pub fn plan_omap_tree(
    entries: &Vec<(u64, u64, u64)>,
    bs: usize,
    next: u64,
    total: u64,
    xid: u64,
) -> (r: Result<PlannedTree>)
    requires
        512 <= bs <= 0x1_0000,
    ensures
        match r {
            Ok(t) => omap_tree(entries@, bs as nat, next as int, total as int, xid) == Ok::<
                Tree,
                Error,
            >(t@) && t.next <= total,
            Err(e) => omap_tree(entries@, bs as nat, next as int, total as int, xid) == Err::<
                Tree,
                Error,
            >(e),
        },
{
    let groups = pack_omap_into_leaves(entries, bs);
    let ghost gs = pack::omap_groups(entries@, pack::omap_per_leaf(bs as int));
    let k: usize = groups.len();
    assert(gs.len() == k);
    assert(forall|i: int| 0 <= i < k ==> (#[trigger] groups@[i])@ == gs[i]);
    if k == 1 {
        if next >= total {
            return Err(Error::InvalidArgument);
        }
        proof {
            lemma_group_fits(entries@, bs as int, 0, true);
        }
        assert(groups@[0]@ == gs[0]);
        let b = build_omap_leaf_node(bs, &groups[0], true, xid)?;
        let mut blocks: Vec<(u64, Vec<u8>)> = Vec::new();
        blocks.push((next, b));
        proof {
            assert(placed(blocks@) =~= seq![
                (next, node::omap_leaf(bs as nat, gs[0], true, xid)),
            ]);
        }
        return Ok(PlannedTree { root: next, next: next + 1, blocks });
    }
    if next > total || (k as u64) >= total - next {
        return Err(Error::InvalidArgument);
    }
    let mut blocks: Vec<(u64, Vec<u8>)> = Vec::new();
    let mut seps: Vec<(u64, u64, u64)> = Vec::new();
    let mut i: usize = 0;
    proof {
        if entries@.len() > 0 {
            crate::num::lemma_div_up(entries@.len() as int, pack::omap_per_leaf(bs as int));
        }
    }
    while i < k
        invariant
            i <= k,
            k == groups@.len(),
            k == gs.len(),
            k != 1,
            gs == pack::omap_groups(entries@, pack::omap_per_leaf(bs as int)),
            forall|j: int| 0 <= j < k ==> (#[trigger] groups@[j])@ == gs[j],
            512 <= bs <= 0x1_0000,
            next + k + 1 <= total,
            placed(blocks@) =~= omap_leaves(gs, bs as nat, next as int, xid).take(i as int),
            seps@ =~= omap_seps(gs, next as int).take(i as int),
        decreases k - i,
    {
        proof {
            lemma_group_fits(entries@, bs as int, i as int, false);
        }
        assert(groups@[i as int]@ == gs[i as int]);
        let b = build_omap_leaf_node(bs, &groups[i], false, xid)?;
        let p: u64 = next + i as u64;
        seps.push((groups[i][0].0, groups[i][0].1, p));
        let ghost before = blocks@;
        let ghost bv = b@;
        blocks.push((p, b));
        proof {
            assert(placed(blocks@) =~= placed(before).push((p, bv)));
        }
        i = i + 1;
    }
    let root: u64 = next + k as u64;
    proof {
        assert(seps@ =~= omap_seps(gs, next as int));
    }
    let b = build_omap_internal_root(bs, &seps, xid)?;
    let ghost before = blocks@;
    let ghost bv = b@;
    blocks.push((root, b));
    proof {
        assert(placed(before) =~= omap_leaves(gs, bs as nat, next as int, xid));
        assert(placed(blocks@) =~= placed(before).push((root, bv)));
    }
    Ok(PlannedTree { root, next: root + 1, blocks })
}

/// Lay out a filesystem tree of ordered records from block `next` on; returned
/// with the entries that its object map needs.
pub fn plan_fs_tree(
    records: &Vec<FsRecord>,
    bs: usize,
    next: u64,
    total: u64,
    xid: u64,
) -> (r: Result<(PlannedTree, Vec<(u64, u64, u64)>)>)
    requires
        512 <= bs <= 0x1_0000,
        records@.len() + FS_LEAF_VID_BASE + 2 <= u64::MAX,
    ensures
        match r {
            Ok((t, es)) => fs_tree(
                record::recs(records@),
                bs as nat,
                next as int,
                total as int,
                xid,
            ) == Ok::<FsTree, Error>(FsTree { tree: t@, entries: es@ }) && t.next <= total,
            Err(e) => fs_tree(
                record::recs(records@),
                bs as nat,
                next as int,
                total as int,
                xid,
            ) == Err::<FsTree, Error>(e),
        },
{
    let ghost rs = record::recs(records@);
    let leaves = pack_records_into_leaves(records, bs - 96)?;
    let ghost ls = pack::leaf_views(leaves@);
    let k: usize = leaves.len();
    proof {
        pack::lemma_pack(rs, bs - 96);
        lemma_leaf_count(ls);
        assert(ls.len() == k);
        assert(forall|i: int| 0 <= i < k ==> record::recs((#[trigger] leaves@[i])@) == ls[i]);
    }
    if k == 1 {
        if next >= total {
            return Err(Error::InvalidArgument);
        }
        proof {
            assert(record::recs(leaves@[0]@) == ls[0]);
            lemma_leaf_fits(ls[0], bs as int, true);
        }
        let b = build_fs_leaf(&leaves[0], bs, FSROOT_VID, true, xid)?;
        let mut blocks: Vec<(u64, Vec<u8>)> = Vec::new();
        blocks.push((next, b));
        let mut entries: Vec<(u64, u64, u64)> = Vec::new();
        entries.push((FSROOT_VID, xid, next));
        proof {
            assert(placed(blocks@) =~= seq![
                (next, node::fs_leaf(ls[0], bs as nat, FSROOT_VID, true, xid)),
            ]);
            assert(entries@ =~= seq![(FSROOT_VID, xid, next)]);
        }
        return Ok((PlannedTree { root: next, next: next + 1, blocks }, entries));
    }
    if next > total || (k as u64) >= total - next {
        return Err(Error::InvalidArgument);
    }
    let root: u64 = next + k as u64;
    let mut blocks: Vec<(u64, Vec<u8>)> = Vec::new();
    let mut seps: Vec<(Vec<u8>, u64)> = Vec::new();
    let mut entries: Vec<(u64, u64, u64)> = Vec::new();
    entries.push((FSROOT_VID, xid, root));
    let mut i: usize = 0;
    proof {
        assert(entries@ =~= fs_entries(k as nat, next as int, xid).take(1));
    }
    while i < k
        invariant
            i <= k,
            k == leaves@.len(),
            k == ls.len(),
            k <= rs.len() + 1,
            rs.len() == records@.len(),
            records@.len() + FS_LEAF_VID_BASE + 2 <= u64::MAX,
            forall|j: int| 0 <= j < k ==> record::recs((#[trigger] leaves@[j])@) == ls[j],
            forall|j: int| 0 <= j < k ==> pack::needs(#[trigger] ls[j]) <= bs - 96,
            forall|j: int| 0 <= j < k ==> (#[trigger] ls[j]).len() > 0,
            512 <= bs <= 0x1_0000,
            next + k + 1 <= total,
            placed(blocks@) =~= fs_leaves(ls, bs as nat, next as int, xid).take(i as int),
            node::child_views(seps@) =~= fs_seps(ls).take(i as int),
            entries@ =~= fs_entries(k as nat, next as int, xid).take(i + 1),
        decreases k - i,
    {
        let vid: u64 = FS_LEAF_VID_BASE + i as u64;
        proof {
            assert(record::recs(leaves@[i as int]@) == ls[i as int]);
            lemma_leaf_fits(ls[i as int], bs as int, false);
            assert(ls[i as int].len() > 0);
        }
        let b = build_fs_leaf(&leaves[i], bs, vid, false, xid)?;
        let p: u64 = next + i as u64;
        let first = &leaves[i][0];
        let key = copy_range(first.key.as_slice(), 0, first.key.len());
        proof {
            assert(ls[i as int][0] == leaves@[i as int]@[0]@);
            assert(key@ =~= ls[i as int][0].0);
        }
        let ghost kv = key@;
        let ghost seps_before = seps@;
        seps.push((key, vid));
        let ghost before = blocks@;
        let ghost bv = b@;
        blocks.push((p, b));
        entries.push((vid, xid, p));
        proof {
            assert(placed(blocks@) =~= placed(before).push((p, bv)));
            assert(node::child_views(seps@) =~= node::child_views(seps_before).push((kv, vid)));
        }
        i = i + 1;
    }
    proof {
        assert(node::child_views(seps@) =~= fs_seps(ls));
        assert(entries@ =~= fs_entries(k as nat, next as int, xid));
    }
    let b = build_fs_internal_root(&seps, bs, FSROOT_VID, xid)?;
    let ghost before = blocks@;
    let ghost bv = b@;
    blocks.push((root, b));
    proof {
        assert(placed(before) =~= fs_leaves(ls, bs as nat, next as int, xid));
        assert(placed(blocks@) =~= placed(before).push((root, bv)));
    }
    Ok((PlannedTree { root, next: root + 1, blocks }, entries))
}

/// There are at most as many non-empty leaves as records.
proof fn lemma_leaf_count(ls: Seq<Seq<Rec>>)
    ensures
        (forall|k: int| 0 <= k < ls.len() ==> (#[trigger] ls[k]).len() > 0) ==> ls.len()
            <= pack::concat(ls).len(),
    decreases ls.len(),
{
    if ls.len() > 0 && (forall|k: int| 0 <= k < ls.len() ==> (#[trigger] ls[k]).len() > 0) {
        let d = ls.drop_last();
        assert forall|k: int| 0 <= k < d.len() implies (#[trigger] d[k]).len() > 0 by {
            assert(d[k] == ls[k]);
        }
        lemma_leaf_count(d);
        assert(ls.last() == ls[ls.len() - 1]);
    }
}

} // verus!
