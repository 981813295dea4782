//! Scanning what was laid out in a filesystem tree.

use vstd::prelude::*;

use crate::apfs::btree;
use crate::apfs::fstree;
use crate::apfs::jrec;
use crate::apfs::node;
use crate::apfs::pack::{self, Rec};
use crate::apfs::plan;
use crate::apfs::rangescan;
use crate::apfs::rw;
use crate::apfs::volume;
use crate::bytes;
use crate::error::{Error, Result};
use crate::order::{self, Order};

verus! {

/// Object id and kind of a record.
pub open spec fn owner(r: Rec) -> (u64, u8) {
    (jrec::key_oid(r.0), jrec::key_kind(r.0))
}

/// The records of object id and kind `p` among `rs`, in order.
pub open spec fn those(rs: Seq<Rec>, p: (u64, u8)) -> Seq<Rec>
    decreases rs.len(),
{
    if rs.len() == 0 {
        Seq::empty()
    } else if owner(rs[0]) == p {
        seq![rs[0]] + those(rs.drop_first(), p)
    } else {
        those(rs.drop_first(), p)
    }
}

/// Whether no two of the records `rs` have the same key of a key word alone.
pub open spec fn unrepeated(rs: Seq<Rec>) -> bool {
    forall|i: int, j: int|
        #![trigger rs[i], rs[j]]
        0 <= i < j < rs.len() && rs[i].0.len() == 8 && rs[j].0.len() == 8 ==> owner(rs[i])
            != owner(rs[j])
}

/// The search target in front of all records of object id and kind `p`.
pub open spec fn front(p: (u64, u8), layout: fstree::DrecKeyLayout) -> fstree::Target {
    fstree::Target { oid: p.0, kind: p.1, tail: Seq::empty(), layout }
}

/// The records `rs` as a scan without errors hands them out.
pub open spec fn oks(rs: Seq<Rec>) -> Seq<Result<Rec>> {
    Seq::new(rs.len(), |i: int| Ok(rs[i]))
}

/// The records of the leaves `ls` from leaf `i` on.
pub open spec fn onward(ls: Seq<Seq<Rec>>, i: int) -> Seq<Rec>
    decreases ls.len() - i,
{
    if i >= ls.len() {
        Seq::empty()
    } else {
        ls[i] + onward(ls, i + 1)
    }
}

/// Whether the tree with root node `root` has the leaves `ls`.
pub open spec fn grown(v: fstree::Vol, root: Seq<u8>, ls: Seq<Seq<Rec>>, bs: nat, xid: u64) -> bool {
    &&& 512 <= bs <= 0x1_0000
    &&& ls.len() > 0
    &&& forall|i: int| 0 <= i < ls.len() ==> pack::needs(#[trigger] ls[i]) <= bs - 96
    &&& forall|i: int| 0 <= i < ls.len() ==> pack::keyed(#[trigger] ls[i])
    &&& ls.len() == 1 ==> root == node::fs_leaf(ls[0], bs, plan::FSROOT_VID, true, xid)
    &&& ls.len() > 1 ==> {
        &&& root == node::fs_internal_root(plan::fs_seps(ls), bs, plan::FSROOT_VID, xid)
        &&& node::fits(node::child_recs(plan::fs_seps(ls)), bs as int, false, true)
        &&& forall|i: int| 0 <= i < ls.len() ==> (#[trigger] ls[i]).len() > 0
        &&& forall|i: int|
            #![trigger ls[i]]
            0 <= i < ls.len() ==> fstree::block_of_vid(
                v,
                (plan::FS_LEAF_VID_BASE + i) as u64,
            ) == Ok::<Seq<u8>, Error>(
                node::fs_leaf(ls[i], bs, (plan::FS_LEAF_VID_BASE + i) as u64, false, xid),
            )
    }
}

/// What the fields and entries of a leaf of the filesystem tree read as.
pub proof fn lemma_leaf(rs: Seq<Rec>, bs: nat, vid: u64, root: bool, xid: u64, klen: int, vlen: int)
    requires
        512 <= bs <= 0x1_0000,
        pack::needs(rs) <= bs - 96,
    ensures
        ({
            let b = node::fs_leaf(rs, bs, vid, root, xid);
            &&& b.len() == bs
            &&& btree::is_node(b)
            &&& btree::node_is_root(b) == root
            &&& btree::node_is_leaf(b)
            &&& btree::node_level(b) == 0
            &&& btree::node_nkeys(b) == rs.len()
            &&& root ==> btree::fixed_sizes(b) == Some((0int, 0int))
            &&& forall|j: int|
                0 <= j < rs.len() ==> #[trigger] btree::entry(b, j, klen, vlen) == Ok::<
                    Rec,
                    Error,
                >(rs[j])
        }),
{
    plan::lemma_leaf_fits(rs, bs as int, root);
    node::lemma_node(bs, node::fs_leaf_shape(vid, root, xid), rs, klen, vlen);
}

/// What the fields and entries of a root above leaves read as.
pub proof fn lemma_internal(es: Seq<(Seq<u8>, u64)>, bs: nat, vid: u64, xid: u64, klen: int)
    requires
        512 <= bs <= 0x1_0000,
        node::fits(node::child_recs(es), bs as int, false, true),
    ensures
        ({
            let b = node::fs_internal_root(es, bs, vid, xid);
            &&& b.len() == bs
            &&& btree::is_node(b)
            &&& btree::node_is_root(b)
            &&& !btree::node_is_leaf(b)
            &&& btree::node_level(b) == 1
            &&& btree::node_nkeys(b) == es.len()
            &&& btree::fixed_sizes(b) == Some((0int, 0int))
            &&& forall|j: int|
                0 <= j < es.len() ==> #[trigger] btree::child_entry(b, j, klen) == Ok::<
                    (Seq<u8>, u64),
                    Error,
                >(es[j])
        }),
{
    let b = node::fs_internal_root(es, bs, vid, xid);
    bytes::lemma_le_lens();
    node::lemma_node(bs, node::fs_root_shape(vid, xid), node::child_recs(es), klen, 8);
    assert forall|j: int| 0 <= j < es.len() implies #[trigger] btree::child_entry(b, j, klen)
        == Ok::<(Seq<u8>, u64), Error>(es[j]) by {
        bytes::lemma_get_le(0, 0, es[j].1);
        assert(btree::entry(b, j, klen, 8) == Ok::<Rec, Error>(node::child_recs(es)[j]));
    }
}

/// A scan of a leaf hands out its records.
proof fn lemma_items(rs: Seq<Rec>, bs: nat, vid: u64, root: bool, xid: u64, klen: int, i: int)
    requires
        512 <= bs <= 0x1_0000,
        pack::needs(rs) <= bs - 96,
        pack::keyed(rs),
        0 <= i <= rs.len(),
    ensures
        rangescan::leaf_items(node::fs_leaf(rs, bs, vid, root, xid), klen, i) == oks(rs.skip(i)),
    decreases rs.len() - i,
{
    let b = node::fs_leaf(rs, bs, vid, root, xid);
    lemma_leaf(rs, bs, vid, root, xid, klen, 0);
    if i < rs.len() {
        lemma_items(rs, bs, vid, root, xid, klen, i + 1);
        assert(btree::entry(b, i, klen, 0) == Ok::<Rec, Error>(rs[i]));
        assert(seq![Ok::<Rec, Error>(rs[i])] + oks(rs.skip(i + 1)) =~= oks(rs.skip(i)));
    } else {
        assert(oks(rs.skip(i)) =~= Seq::empty());
    }
}

proof fn lemma_chain(a: Seq<Rec>, b: Seq<Rec>)
    ensures
        rangescan::chain(oks(a), oks(b)) == oks(a + b),
{
    assert(oks(a) + oks(b) =~= oks(a + b));
}

/// A scan of the children of the root hands out the records of the leaves.
proof fn lemma_kids(
    v: fstree::Vol,
    root: Seq<u8>,
    ls: Seq<Seq<Rec>>,
    bs: nat,
    xid: u64,
    klen: int,
    i: int,
)
    requires
        grown(v, root, ls, bs, xid),
        ls.len() > 1,
        0 <= i <= ls.len(),
    ensures
        rangescan::kids(v, root, klen, 1, i) == oks(onward(ls, i)),
    decreases ls.len() - i,
{
    let seps = plan::fs_seps(ls);
    lemma_internal(seps, bs, plan::FSROOT_VID, xid, klen);
    if i < ls.len() {
        lemma_kids(v, root, ls, bs, xid, klen, i + 1);
        let vid = (plan::FS_LEAF_VID_BASE + i) as u64;
        let c = node::fs_leaf(ls[i], bs, vid, false, xid);
        assert(btree::child_entry(root, i, klen) == Ok::<(Seq<u8>, u64), Error>(seps[i]));
        assert(fstree::block_of_vid(v, vid) == Ok::<Seq<u8>, Error>(c));
        lemma_leaf(ls[i], bs, vid, false, xid, klen, 0);
        lemma_items(ls[i], bs, vid, false, xid, klen, 0);
        assert(ls[i].skip(0) =~= ls[i]);
        assert(rangescan::walk(v, c, klen, 1, 1) == oks(ls[i]));
        lemma_chain(ls[i], onward(ls, i + 1));
    } else {
        assert(oks(onward(ls, i)) =~= Seq::empty());
    }
}

/// The leaves before and from leaf `i` on hold all the records.
proof fn lemma_onward(ls: Seq<Seq<Rec>>, i: int)
    requires
        0 <= i <= ls.len(),
    ensures
        pack::concat(ls) == pack::concat(ls.take(i)) + onward(ls, i),
        i < ls.len() ==> pack::concat(ls.take(i + 1)) == pack::concat(ls.take(i)) + ls[i],
    decreases ls.len() - i,
{
    if i < ls.len() {
        lemma_onward(ls, i + 1);
        assert(ls.take(i + 1).drop_last() =~= ls.take(i));
        assert(pack::concat(ls.take(i)) + ls[i] + onward(ls, i + 1) =~= pack::concat(ls.take(i)) + (
        ls[i] + onward(ls, i + 1)));
    } else {
        assert(ls.take(i) =~= ls);
        assert(pack::concat(ls) + Seq::<Rec>::empty() =~= pack::concat(ls));
    }
}

proof fn lemma_lex_empty(a: Seq<u8>)
    ensures
        order::lex(a, Seq::empty()) != Order::Greater <==> a.len() == 0,
{
}

/// How two records in order compare with a target in front of an object's
/// records.
proof fn lemma_sides(a: Seq<u8>, b: Seq<u8>, p: (u64, u8), layout: fstree::DrecKeyLayout)
    requires
        a.len() >= 8,
        b.len() >= 8,
        pack::order_keys(a, b) != Order::Greater,
    ensures
        fstree::order_key(b, front(p, layout)) == Order::Less ==> fstree::order_key(
            a,
            front(p, layout),
        ) == Order::Less,
        fstree::order_key(b, front(p, layout)) == Order::Equal ==> fstree::order_key(
            a,
            front(p, layout),
        ) == Order::Less || ((jrec::key_oid(a), jrec::key_kind(a)) == p && a.len() == 8
            && (jrec::key_oid(b), jrec::key_kind(b)) == p && b.len() == 8),
{
    if (jrec::key_oid(a), jrec::key_kind(a)) == (jrec::key_oid(b), jrec::key_kind(b)) {
        if b.len() == 8 {
            assert(b.skip(8) =~= Seq::empty());
            lemma_lex_empty(a.skip(8));
        }
    }
}

/// The halving search ends at a child such that the next one lies above the
/// target, and itself does not unless it is the first.
proof fn lemma_search(
    es: Seq<(Seq<u8>, u64)>,
    bs: nat,
    vid: u64,
    xid: u64,
    klen: int,
    t: fstree::Target,
    lo: int,
    hi: int,
    best: int,
) -> (g: int)
    requires
        512 <= bs <= 0x1_0000,
        node::fits(node::child_recs(es), bs as int, false, true),
        forall|i: int| 0 <= i < es.len() ==> (#[trigger] es[i]).0.len() >= 8,
        0 <= lo <= hi + 1 <= es.len(),
        es.len() > 0,
        if lo == 0 {
            best == 0
        } else {
            best == lo - 1 && fstree::order_key(es[best].0, t) != Order::Greater
        },
        hi + 1 < es.len() ==> fstree::order_key(es[hi + 1].0, t) == Order::Greater,
    ensures
        fstree::child_search(
            node::fs_internal_root(es, bs, vid, xid),
            klen,
            t,
            lo,
            hi,
            best,
        ) == Ok::<int, Error>(g),
        0 <= g < es.len(),
        g > 0 ==> fstree::order_key(es[g].0, t) != Order::Greater,
        g + 1 < es.len() ==> fstree::order_key(es[g + 1].0, t) == Order::Greater || (g == 0
            && fstree::order_key(es[0].0, t) == Order::Greater),
    decreases hi - lo + 1,
{
    reveal(fstree::child_search);
    let b = node::fs_internal_root(es, bs, vid, xid);
    if lo > hi {
        best
    } else {
        let mid = (lo + hi) / 2;
        lemma_internal(es, bs, vid, xid, klen);
        assert(btree::child_entry(b, mid, klen) == Ok::<(Seq<u8>, u64), Error>(es[mid]));
        if fstree::order_key(es[mid].0, t) != Order::Greater {
            lemma_search(es, bs, vid, xid, klen, t, mid + 1, hi, mid)
        } else {
            lemma_search(es, bs, vid, xid, klen, t, lo, mid - 1, best)
        }
    }
}

/// Where a scan of a leaf starts.
proof fn lemma_first(
    rs: Seq<Rec>,
    bs: nat,
    vid: u64,
    root: bool,
    xid: u64,
    klen: int,
    t: fstree::Target,
    i: int,
) -> (q: int)
    requires
        512 <= bs <= 0x1_0000,
        pack::needs(rs) <= bs - 96,
        pack::keyed(rs),
        0 <= i <= rs.len(),
    ensures
        rangescan::first_from(node::fs_leaf(rs, bs, vid, root, xid), klen, t, i) == Ok::<
            int,
            Error,
        >(q),
        i <= q <= rs.len(),
        forall|j: int|
            i <= j < q ==> fstree::order_key((#[trigger] rs[j]).0, t) == Order::Less,
        q < rs.len() ==> fstree::order_key(rs[q].0, t) != Order::Less,
    decreases rs.len() - i,
{
    let b = node::fs_leaf(rs, bs, vid, root, xid);
    lemma_leaf(rs, bs, vid, root, xid, klen, 0);
    if i >= rs.len() {
        i
    } else {
        assert(btree::entry(b, i, klen, 0) == Ok::<Rec, Error>(rs[i]));
        if fstree::order_key(rs[i].0, t) != Order::Less {
            i
        } else {
            lemma_first(rs, bs, vid, root, xid, klen, t, i + 1)
        }
    }
}

/// Where a scan of a tree of several leaves starts: at record `q` of leaf `g`.
proof fn lemma_seek(
    v: fstree::Vol,
    root: Seq<u8>,
    ls: Seq<Seq<Rec>>,
    bs: nat,
    xid: u64,
    t: fstree::Target,
) -> (at: (int, int))
    requires
        grown(v, root, ls, bs, xid),
        ls.len() > 1,
    ensures
        ({
            let (g, q) = at;
            &&& 0 <= g < ls.len()
            &&& 0 <= q <= ls[g].len()
            &&& rangescan::ahead(v, root, t) == Ok::<Seq<Result<Rec>>, Error>(
                oks(ls[g].skip(q) + onward(ls, g + 1)),
            )
            &&& forall|j: int|
                0 <= j < q ==> fstree::order_key((#[trigger] ls[g][j]).0, t) == Order::Less
            &&& q < ls[g].len() ==> fstree::order_key(ls[g][q].0, t) != Order::Less
            &&& g > 0 ==> fstree::order_key(ls[g][0].0, t) != Order::Greater
            &&& g + 1 < ls.len() ==> fstree::order_key(ls[g + 1][0].0, t) == Order::Greater || (g
                == 0 && fstree::order_key(ls[0][0].0, t) == Order::Greater)
        }),
{
    let seps = plan::fs_seps(ls);
    assert forall|i: int| 0 <= i < seps.len() implies (#[trigger] seps[i]).0.len() >= 8 by {
        assert(pack::keyed(ls[i]));
        assert(ls[i].len() > 0);
        assert(ls[i][0].0.len() >= 8);
    }
    lemma_internal(seps, bs, plan::FSROOT_VID, xid, 0);
    let g = lemma_search(seps, bs, plan::FSROOT_VID, xid, 0, t, 0, ls.len() - 1, 0);
    let vid = (plan::FS_LEAF_VID_BASE + g) as u64;
    let c = node::fs_leaf(ls[g], bs, vid, false, xid);
    assert(btree::child_entry(root, g, 0) == Ok::<(Seq<u8>, u64), Error>(seps[g]));
    assert(fstree::block_of_vid(v, vid) == Ok::<Seq<u8>, Error>(c));
    lemma_leaf(ls[g], bs, vid, false, xid, 0, 0);
    let q = lemma_first(ls[g], bs, vid, false, xid, 0, t, 0);
    lemma_items(ls[g], bs, vid, false, xid, 0, q);
    lemma_kids(v, root, ls, bs, xid, 0, g + 1);
    lemma_chain(ls[g].skip(q), onward(ls, g + 1));
    assert(rangescan::seek(v, c, 0, 1, 1, t) == Ok::<Seq<Result<Rec>>, Error>(
        oks(ls[g].skip(q)),
    ));
    if g + 1 < ls.len() {
        assert(seps[g + 1].0 == ls[g + 1][0].0);
    }
    (g, q)
}

/// A scan of a tree from in front of an object's records hands out the records
/// that are not below.
proof fn lemma_ahead(
    v: fstree::Vol,
    root: Seq<u8>,
    ls: Seq<Seq<Rec>>,
    rs: Seq<Rec>,
    bs: nat,
    xid: u64,
    p: (u64, u8),
    layout: fstree::DrecKeyLayout,
) -> (n: int)
    requires
        grown(v, root, ls, bs, xid),
        rs == pack::concat(ls),
        pack::ordered(rs),
        pack::keyed(rs),
        unrepeated(rs),
    ensures
        0 <= n <= rs.len(),
        rangescan::ahead(v, root, front(p, layout)) == Ok::<Seq<Result<Rec>>, Error>(
            oks(rs.skip(n)),
        ),
        forall|j: int|
            0 <= j < n ==> fstree::order_key((#[trigger] rs[j]).0, front(p, layout))
                == Order::Less,
        n < rs.len() ==> fstree::order_key(rs[n].0, front(p, layout)) != Order::Less,
{
    let t = front(p, layout);
    if ls.len() == 1 {
        lemma_onward(ls, 0);
        assert(ls.take(0) =~= Seq::empty());
        reveal_with_fuel(onward, 2);
        assert(rs =~= ls[0]);
        lemma_leaf(rs, bs, plan::FSROOT_VID, true, xid, 0, 0);
        let q = lemma_first(rs, bs, plan::FSROOT_VID, true, xid, 0, t, 0);
        lemma_items(rs, bs, plan::FSROOT_VID, true, xid, 0, q);
        q
    } else {
        let (g, q) = lemma_seek(v, root, ls, bs, xid, t);
        lemma_before(ls, rs, p, layout, g, q)
    }
}

/// The records before record `q` of leaf `g` lie below the target, and the next
/// one does not.
proof fn lemma_before(
    ls: Seq<Seq<Rec>>,
    rs: Seq<Rec>,
    p: (u64, u8),
    layout: fstree::DrecKeyLayout,
    g: int,
    q: int,
) -> (n: int)
    requires
        rs == pack::concat(ls),
        pack::ordered(rs),
        pack::keyed(rs),
        unrepeated(rs),
        forall|i: int| 0 <= i < ls.len() ==> (#[trigger] ls[i]).len() > 0,
        0 <= g < ls.len(),
        0 <= q <= ls[g].len(),
        forall|j: int|
            0 <= j < q ==> fstree::order_key((#[trigger] ls[g][j]).0, front(p, layout))
                == Order::Less,
        q < ls[g].len() ==> fstree::order_key(ls[g][q].0, front(p, layout)) != Order::Less,
        g > 0 ==> fstree::order_key(ls[g][0].0, front(p, layout)) != Order::Greater,
        g + 1 < ls.len() ==> fstree::order_key(ls[g + 1][0].0, front(p, layout))
            == Order::Greater || (g == 0 && fstree::order_key(ls[0][0].0, front(p, layout))
            == Order::Greater),
    ensures
        0 <= n <= rs.len(),
        ls[g].skip(q) + onward(ls, g + 1) == rs.skip(n),
        forall|j: int|
            0 <= j < n ==> fstree::order_key((#[trigger] rs[j]).0, front(p, layout))
                == Order::Less,
        n < rs.len() ==> fstree::order_key(rs[n].0, front(p, layout)) != Order::Less,
{
    let t = front(p, layout);
    lemma_onward(ls, g);
    lemma_onward(ls, g + 1);
    let w = pack::concat(ls.take(g));
    let wl = w.len() as int;
    let n = wl + q;
    let rest = onward(ls, g + 1);
    assert(rs =~= w + ls[g] + rest);
    assert(rs.skip(n) =~= ls[g].skip(q) + rest);
    assert(rs[wl] == ls[g][0]);
    if g == 0 {
        assert(ls.take(0) =~= Seq::empty());
    }
    assert forall|j: int| 0 <= j < n implies fstree::order_key((#[trigger] rs[j]).0, t)
        == Order::Less by {
        if j >= wl {
            assert(rs[j] == ls[g][j - wl]);
        } else {
            lemma_sides(rs[j].0, rs[wl].0, p, layout);
        }
    }
    if n < rs.len() {
        if q < ls[g].len() {
            assert(rs[n] == ls[g][q]);
        } else {
            if g + 1 >= ls.len() {
                assert(rest =~= Seq::empty());
            }
            assert(rest == ls[g + 1] + onward(ls, g + 2));
            assert(rest[0] == ls[g + 1][0]);
            assert(rs[n] == rest[0]);
            if fstree::order_key(rs[n].0, t) == Order::Less {
                lemma_sides(rs[wl].0, rs[n].0, p, layout);
            }
        }
    }
    n
}

proof fn lemma_none(rs: Seq<Rec>, p: (u64, u8))
    requires
        forall|i: int| 0 <= i < rs.len() ==> owner(#[trigger] rs[i]) != p,
    ensures
        those(rs, p) == Seq::<Rec>::empty(),
    decreases rs.len(),
{
    if rs.len() > 0 {
        assert forall|i: int| 0 <= i < rs.drop_first().len() implies owner(
            #[trigger] rs.drop_first()[i],
        ) != p by {
            assert(rs.drop_first()[i] == rs[i + 1]);
        }
        lemma_none(rs.drop_first(), p);
    }
}

/// Records in front that belong to others do not count.
proof fn lemma_skip(rs: Seq<Rec>, p: (u64, u8), n: int)
    requires
        0 <= n <= rs.len(),
        forall|i: int| 0 <= i < n ==> owner(#[trigger] rs[i]) != p,
    ensures
        those(rs.skip(n), p) == those(rs, p),
    decreases n,
{
    if n == 0 {
        assert(rs.skip(0) =~= rs);
    } else {
        let d = rs.drop_first();
        assert forall|i: int| 0 <= i < n - 1 implies owner(#[trigger] d[i]) != p by {
            assert(d[i] == rs[i + 1]);
        }
        lemma_skip(d, p, n - 1);
        assert(d.skip(n - 1) =~= rs.skip(n));
        assert(owner(rs[0]) != p);
    }
}

/// Gathering from in front of an object's records takes just these.
proof fn lemma_gather(rs: Seq<Rec>, p: (u64, u8), layout: fstree::DrecKeyLayout)
    requires
        pack::ordered(rs),
        pack::keyed(rs),
        rs.len() > 0 ==> fstree::order_key(rs[0].0, front(p, layout)) != Order::Less,
    ensures
        volume::gather(oks(rs), p) == (volume::Found { recs: those(rs, p), err: None }),
    decreases rs.len(),
{
    if rs.len() > 0 {
        let d = rs.drop_first();
        if owner(rs[0]) == p {
            assert(oks(rs).drop_first() =~= oks(d));
            assert forall|i: int, j: int|
                #![trigger d[i], d[j]]
                0 <= i < j < d.len() implies pack::order_keys(d[i].0, d[j].0)
                != Order::Greater by {
                assert(d[i] == rs[i + 1] && d[j] == rs[j + 1]);
            }
            assert forall|i: int| 0 <= i < d.len() implies (#[trigger] d[i]).0.len() >= 8 by {
                assert(d[i] == rs[i + 1]);
            }
            if d.len() > 0 {
                assert(d[0] == rs[1]);
                lemma_sides(rs[0].0, rs[1].0, p, layout);
            }
            lemma_gather(d, p, layout);
        } else {
            assert forall|i: int| 0 <= i < rs.len() implies owner(#[trigger] rs[i]) != p by {
                if i > 0 {
                    assert(pack::order_keys(rs[0].0, rs[i].0) != Order::Greater);
                }
            }
            lemma_none(rs, p);
        }
    }
}

/// A scan of a tree for the records of one object and kind finds just these.
pub proof fn lemma_found(
    m: volume::Mounted,
    img: Seq<u8>,
    ls: Seq<Seq<Rec>>,
    rs: Seq<Rec>,
    bs: nat,
    xid: u64,
    p: (u64, u8),
)
    requires
        grown(m.vol(img), m.root, ls, bs, xid),
        rs == pack::concat(ls),
        pack::ordered(rs),
        pack::keyed(rs),
        unrepeated(rs),
    ensures
        volume::found(m, img, p.0, p.1) == (volume::Found { recs: those(rs, p), err: None }),
{
    let n = lemma_ahead(m.vol(img), m.root, ls, rs, bs, xid, p, m.layout);
    let d = rs.skip(n);
    assert forall|i: int, j: int|
        #![trigger d[i], d[j]]
        0 <= i < j < d.len() implies pack::order_keys(d[i].0, d[j].0) != Order::Greater by {
        assert(d[i] == rs[i + n] && d[j] == rs[j + n]);
    }
    assert forall|i: int| 0 <= i < d.len() implies (#[trigger] d[i]).0.len() >= 8 by {
        assert(d[i] == rs[i + n]);
    }
    lemma_gather(d, p, m.layout);
    assert forall|i: int| 0 <= i < n implies owner(#[trigger] rs[i]) != p by {
        assert(fstree::order_key(rs[i].0, front(p, m.layout)) == Order::Less);
    }
    lemma_skip(rs, p, n);
    assert(front(p, m.layout) == (fstree::Target {
        oid: p.0,
        kind: p.1,
        tail: Seq::empty(),
        layout: m.layout,
    }));
}

/// Sorting what is in order changes nothing.
pub proof fn lemma_sorted(rs: Seq<Rec>)
    requires
        pack::ordered(rs),
    ensures
        pack::sort(rs) == rs,
    decreases rs.len(),
{
    if rs.len() > 0 {
        let d = rs.drop_last();
        lemma_sorted(d);
        assert(rs =~= d.push(rs.last()));
        if d.len() > 0 {
            assert(d.last() == rs[rs.len() - 2]);
            assert(rs.last() == rs[rs.len() - 1]);
        }
    }
}

proof fn lemma_leaf_recs(rs: Seq<Rec>, bs: nat, vid: u64, root: bool, xid: u64, i: int)
    requires
        512 <= bs <= 0x1_0000,
        pack::needs(rs) <= bs - 96,
        pack::keyed(rs),
        0 <= i <= rs.len(),
    ensures
        rw::leaf_recs(node::fs_leaf(rs, bs, vid, root, xid), i) == Ok::<Seq<Rec>, Error>(
            rs.take(i),
        ),
    decreases i,
{
    let b = node::fs_leaf(rs, bs, vid, root, xid);
    if i > 0 {
        lemma_leaf_recs(rs, bs, vid, root, xid, i - 1);
        lemma_leaf(rs, bs, vid, root, xid, 0, 0);
        assert(btree::entry(b, i - 1, 0, 0) == Ok::<Rec, Error>(rs[i - 1]));
        assert(rs.take(i - 1).push(rs[i - 1]) =~= rs.take(i));
    } else {
        assert(rs.take(i) =~= Seq::empty());
    }
}

/// The leaf blocks of a tree of several leaves.
spec fn leaf_blocks(ls: Seq<Seq<Rec>>, bs: nat, xid: u64) -> Seq<Seq<u8>> {
    Seq::new(
        ls.len(),
        |i: int| node::fs_leaf(ls[i], bs, (plan::FS_LEAF_VID_BASE + i) as u64, false, xid),
    )
}

proof fn lemma_leaves_upto(
    v: fstree::Vol,
    root: Seq<u8>,
    ls: Seq<Seq<Rec>>,
    bs: nat,
    xid: u64,
    i: int,
)
    requires
        grown(v, root, ls, bs, xid),
        ls.len() > 1,
        0 <= i <= ls.len(),
    ensures
        rw::leaves_upto(v, root, i) == Ok::<Seq<Seq<u8>>, Error>(
            leaf_blocks(ls, bs, xid).take(i),
        ),
    decreases i,
{
    let cs = leaf_blocks(ls, bs, xid);
    if i > 0 {
        lemma_leaves_upto(v, root, ls, bs, xid, i - 1);
        let seps = plan::fs_seps(ls);
        bytes::lemma_le_lens();
        node::lemma_node(
            bs,
            node::fs_root_shape(plan::FSROOT_VID, xid),
            node::child_recs(seps),
            0,
            8,
        );
        assert(btree::entry(root, i - 1, 0, 8) == Ok::<Rec, Error>(
            node::child_recs(seps)[i - 1],
        ));
        let vid = (plan::FS_LEAF_VID_BASE + (i - 1)) as u64;
        bytes::lemma_get_le(0, 0, vid);
        assert(fstree::block_of_vid(v, vid) == Ok::<Seq<u8>, Error>(
            node::fs_leaf(ls[i - 1], bs, vid, false, xid),
        ));
        lemma_leaf(ls[i - 1], bs, vid, false, xid, 0, 0);
        assert(cs.take(i - 1).push(cs[i - 1]) =~= cs.take(i));
    } else {
        assert(cs.take(i) =~= Seq::empty());
    }
}

proof fn lemma_recs_upto(ls: Seq<Seq<Rec>>, bs: nat, xid: u64, i: int)
    requires
        512 <= bs <= 0x1_0000,
        forall|j: int| 0 <= j < ls.len() ==> pack::needs(#[trigger] ls[j]) <= bs - 96,
        forall|j: int| 0 <= j < ls.len() ==> pack::keyed(#[trigger] ls[j]),
        0 <= i <= ls.len(),
    ensures
        rw::recs_upto(leaf_blocks(ls, bs, xid), i) == Ok::<Seq<Rec>, Error>(
            pack::concat(ls.take(i)),
        ),
    decreases i,
{
    if i > 0 {
        lemma_recs_upto(ls, bs, xid, i - 1);
        let vid = (plan::FS_LEAF_VID_BASE + (i - 1)) as u64;
        lemma_leaf(ls[i - 1], bs, vid, false, xid, 0, 0);
        lemma_leaf_recs(ls[i - 1], bs, vid, false, xid, ls[i - 1].len() as int);
        assert(ls[i - 1].take(ls[i - 1].len() as int) =~= ls[i - 1]);
        lemma_onward(ls, i - 1);
    } else {
        assert(ls.take(i) =~= Seq::empty());
    }
}

/// Reading all the records of a tree gives those laid out in it.
pub proof fn lemma_all_records(
    m: volume::Mounted,
    img: Seq<u8>,
    ls: Seq<Seq<Rec>>,
    rs: Seq<Rec>,
    bs: nat,
    xid: u64,
)
    requires
        grown(m.vol(img), m.root, ls, bs, xid),
        rs == pack::concat(ls),
        pack::ordered(rs),
    ensures
        rw::all_records(m, img) == Ok::<Seq<Rec>, Error>(rs),
{
    let v = m.vol(img);
    let k = ls.len() as int;
    lemma_sorted(rs);
    if k == 1 {
        lemma_onward(ls, 0);
        assert(ls.take(0) =~= Seq::empty());
        reveal_with_fuel(onward, 2);
        assert(rs =~= ls[0]);
        lemma_leaf(rs, bs, plan::FSROOT_VID, true, xid, 0, 0);
        lemma_leaf_recs(rs, bs, plan::FSROOT_VID, true, xid, rs.len() as int);
        assert(rs.take(rs.len() as int) =~= rs);
        reveal_with_fuel(rw::recs_upto, 2);
        assert(Seq::<Rec>::empty() + rs =~= rs);
    } else {
        lemma_internal(plan::fs_seps(ls), bs, plan::FSROOT_VID, xid, 0);
        lemma_leaves_upto(v, m.root, ls, bs, xid, k);
        lemma_recs_upto(ls, bs, xid, k);
        assert(leaf_blocks(ls, bs, xid).take(k) =~= leaf_blocks(ls, bs, xid));
        assert(ls.take(k) =~= ls);
    }
}

} // verus!
