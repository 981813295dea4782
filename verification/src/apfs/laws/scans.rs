//! Scanning any sound tree, whoever built it, of whatever depth.

use vstd::prelude::*;

use crate::apfs::btree;
use crate::apfs::fstree;
use crate::apfs::jrec;
use crate::apfs::pack::Rec;
use crate::apfs::rangescan;
use crate::apfs::volume;
use crate::error::{Error, Result};
use crate::order::Order;

use super::tree;

verus! {

/// Object id and kind of a key.
pub open spec fn prefix(k: Seq<u8>) -> (u64, u8) {
    (jrec::key_oid(k), jrec::key_kind(k))
}

/// Whether the object id and kind `a` come before `b`.
pub open spec fn lower(a: (u64, u8), b: (u64, u8)) -> bool {
    a.0 < b.0 || (a.0 == b.0 && a.1 < b.1)
}

/// Whether the key `a` can stand before the key `b`: its object id and kind come
/// before, or they are the same and `b` is not a key word alone, which is the
/// first key of its object id and kind.
pub open spec fn precedes(a: Seq<u8>, b: Seq<u8>) -> bool {
    lower(prefix(a), prefix(b)) || (prefix(a) == prefix(b) && b.len() > 8)
}

/// The key of entry `i` of the internal node `b`.
pub open spec fn separator(b: Seq<u8>, klen: int, i: int) -> Seq<u8> {
    btree::child_entry(b, i, klen)->Ok_0.0
}

/// The child at entry `i` of the internal node `b`.
pub open spec fn child(v: fstree::Vol, b: Seq<u8>, klen: int, i: int) -> Seq<u8> {
    fstree::block_of_vid(v, btree::child_entry(b, i, klen)->Ok_0.1)->Ok_0
}

/// The records that were read.
pub open spec fn records_of(s: Seq<Result<Rec>>) -> Seq<Rec> {
    Seq::new(s.len(), |i: int| s[i]->Ok_0)
}

/// The records of the children of the node `b` from entry `i` on.
pub open spec fn kids_records(v: fstree::Vol, b: Seq<u8>, klen: int, depth: int, i: int) -> Seq<
    Rec,
> {
    records_of(rangescan::kids(v, b, klen, depth, i))
}

/// The records of the child at entry `i` of the node `b`.
pub open spec fn child_records(v: fstree::Vol, b: Seq<u8>, klen: int, depth: int, i: int) -> Seq<
    Rec,
> {
    records_of(
        rangescan::walk(v, child(v, b, klen, i), klen, btree::node_level(b) as int, depth),
    )
}

/// Whether all entries of the leaf `b` can be read.
pub open spec fn leaf_sound(b: Seq<u8>, klen: int) -> bool {
    forall|j: int|
        0 <= j < btree::node_nkeys(b) ==> {
            &&& #[trigger] btree::entry(b, j, klen, 0) is Ok
            &&& btree::entry(b, j, klen, 0)->Ok_0.0.len() >= 8
        }
}

/// Whether every node of the subtree of `b` can be read and lies below its parent.
pub open spec fn readable(v: fstree::Vol, b: Seq<u8>, klen: int, level: int, depth: int) -> bool
    decreases level, 0int,
{
    &&& depth <= fstree::MAX_BTREE_DEPTH
    &&& btree::is_node(b)
    &&& btree::node_level(b) < level
    &&& if btree::node_is_leaf(b) {
        leaf_sound(b, klen)
    } else {
        btree::node_nkeys(b) > 0 && kids_readable(v, b, klen, depth + 1, 0)
    }
}

/// Whether the children of node `b` from entry `i` on can be read, with all that
/// lies below them.
pub open spec fn kids_readable(v: fstree::Vol, b: Seq<u8>, klen: int, depth: int, i: int) -> bool
    decreases btree::node_level(b) as int, btree::node_nkeys(b) - i,
{
    i >= btree::node_nkeys(b) || {
        &&& btree::child_entry(b, i, klen) is Ok
        &&& separator(b, klen, i).len() >= 8
        &&& fstree::block_of_vid(v, btree::child_entry(b, i, klen)->Ok_0.1) is Ok
        &&& readable(v, child(v, b, klen, i), klen, btree::node_level(b) as int, depth)
        &&& kids_readable(v, b, klen, depth, i + 1)
    }
}

/// Whether the subtree of node `b` is sound: every node can be read and lies
/// below its parent, and the keys in internal nodes part the records.
pub open spec fn sound(v: fstree::Vol, b: Seq<u8>, klen: int, level: int, depth: int) -> bool
    decreases level, 0int,
{
    &&& depth <= fstree::MAX_BTREE_DEPTH
    &&& btree::is_node(b)
    &&& btree::node_level(b) < level
    &&& if btree::node_is_leaf(b) {
        leaf_sound(b, klen)
    } else {
        btree::node_nkeys(b) > 0 && kids_sound(v, b, klen, depth + 1, 0)
    }
}

/// Whether the children of node `b` from entry `i` on are sound, and their keys
/// part the records: none in a child lies before the key of the child, and all
/// of them lie before the key of the next one.
pub open spec fn kids_sound(v: fstree::Vol, b: Seq<u8>, klen: int, depth: int, i: int) -> bool
    decreases btree::node_level(b) as int, btree::node_nkeys(b) - i,
{
    i >= btree::node_nkeys(b) || {
        &&& btree::child_entry(b, i, klen) is Ok
        &&& separator(b, klen, i).len() >= 8
        &&& fstree::block_of_vid(v, btree::child_entry(b, i, klen)->Ok_0.1) is Ok
        &&& sound(v, child(v, b, klen, i), klen, btree::node_level(b) as int, depth)
        &&& forall|r: Rec| #[trigger]
            child_records(v, b, klen, depth, i).contains(r) ==> !lower(
                prefix(r.0),
                prefix(separator(b, klen, i)),
            )
        &&& i + 1 < btree::node_nkeys(b) ==> {
            &&& precedes(separator(b, klen, i), separator(b, klen, i + 1))
            &&& forall|r: Rec| #[trigger]
                child_records(v, b, klen, depth, i).contains(r) ==> precedes(
                    r.0,
                    separator(b, klen, i + 1),
                )
        }
        &&& kids_sound(v, b, klen, depth, i + 1)
    }
}

/// All records of the tree with the root `root`, in the order of the tree.
pub open spec fn all_of(v: fstree::Vol, root: Seq<u8>) -> Seq<Rec> {
    records_of(rangescan::walk(v, root, fstree::root_klen(root), 0x1_0000, 0))
}

/// Whether the records `rs` stand in the order of their object ids and kinds.
pub open spec fn in_order(rs: Seq<Rec>) -> bool {
    forall|i: int, j: int|
        #![trigger rs[i], rs[j]]
        0 <= i < j < rs.len() ==> !lower(prefix(rs[j].0), prefix(rs[i].0))
}

/// Whether the tree with the root `root` is sound and in order.
pub open spec fn well_formed(v: fstree::Vol, root: Seq<u8>) -> bool {
    &&& sound(v, root, fstree::root_klen(root), 0x1_0000, 0)
    &&& in_order(all_of(v, root))
}

/// How a key compares with a target in front of the records of `p`.
proof fn lemma_side(k: Seq<u8>, p: (u64, u8), layout: fstree::DrecKeyLayout)
    requires
        k.len() >= 8,
    ensures
        fstree::order_key(k, tree::front(p, layout)) == Order::Less <==> lower(prefix(k), p),
        fstree::order_key(k, tree::front(p, layout)) == Order::Greater <==> lower(p, prefix(k)) || (
        prefix(k) == p && k.len() > 8),
{
}

proof fn lemma_oks(rs: Seq<Rec>)
    ensures
        records_of(tree::oks(rs)) == rs,
{
    assert(records_of(tree::oks(rs)) =~= rs);
}

/// What a scan of a sound leaf hands out, and where it starts.
proof fn lemma_leaf(b: Seq<u8>, klen: int, t: fstree::Target, i: int) -> (q: int)
    requires
        leaf_sound(b, klen),
        0 <= i <= btree::node_nkeys(b),
    ensures
        ({
            let rs = records_of(rangescan::leaf_items(b, klen, i));
            &&& rangescan::leaf_items(b, klen, i) == tree::oks(rs)
            &&& forall|j: int| 0 <= j < rs.len() ==> (#[trigger] rs[j]).0.len() >= 8
            &&& rangescan::first_from(b, klen, t, i) == Ok::<int, Error>(i + q)
            &&& 0 <= q <= rs.len()
            &&& rangescan::leaf_items(b, klen, i + q) == tree::oks(rs.skip(q))
            &&& forall|j: int|
                0 <= j < q ==> fstree::order_key((#[trigger] rs[j]).0, t) == Order::Less
            &&& q < rs.len() ==> fstree::order_key(rs[q].0, t) != Order::Less
        }),
    decreases btree::node_nkeys(b) - i,
{
    let s = rangescan::leaf_items(b, klen, i);
    let rs = records_of(s);
    if i >= btree::node_nkeys(b) {
        assert(s =~= tree::oks(rs));
        assert(rs.skip(0) =~= rs);
        0
    } else {
        let e = btree::entry(b, i, klen, 0)->Ok_0;
        assert(btree::entry(b, i, klen, 0) is Ok);
        let q = lemma_leaf(b, klen, t, i + 1);
        let more = records_of(rangescan::leaf_items(b, klen, i + 1));
        assert(s =~= tree::oks(seq![e] + more));
        lemma_oks(seq![e] + more);
        assert(rs == seq![e] + more);
        if fstree::order_key(e.0, t) != Order::Less {
            assert(rs.skip(0) =~= rs);
            0
        } else {
            assert(rs.skip(q + 1) =~= more.skip(q));
            assert forall|j: int| 0 <= j < q + 1 implies fstree::order_key(
                (#[trigger] rs[j]).0,
                t,
            ) == Order::Less by {
                if j > 0 {
                    assert(rs[j] == more[j - 1]);
                }
            }
            q + 1
        }
    }
}

/// The halving search ends at a child such that the next one lies above the
/// target, and itself does not unless it is the first.
pub proof fn lemma_search(
    b: Seq<u8>,
    klen: int,
    t: fstree::Target,
    lo: int,
    hi: int,
    best: int,
) -> (g: int)
    requires
        ({
            let n = btree::node_nkeys(b) as int;
            &&& n > 0
            &&& forall|j: int|
                #![trigger btree::child_entry(b, j, klen)]
                0 <= j < n ==> btree::child_entry(b, j, klen) is Ok && separator(b, klen, j).len()
                    >= 8
            &&& 0 <= lo <= hi + 1 <= n
            &&& if lo == 0 {
                best == 0
            } else {
                best == lo - 1 && fstree::order_key(separator(b, klen, best), t) != Order::Greater
            }
            &&& hi + 1 < n ==> fstree::order_key(separator(b, klen, hi + 1), t) == Order::Greater
        }),
    ensures
        fstree::child_search(b, klen, t, lo, hi, best) == Ok::<int, Error>(g),
        0 <= g < btree::node_nkeys(b),
        g > 0 ==> fstree::order_key(separator(b, klen, g), t) != Order::Greater,
        g + 1 < btree::node_nkeys(b) ==> fstree::order_key(separator(b, klen, g + 1), t)
            == Order::Greater || (g == 0 && fstree::order_key(separator(b, klen, 0), t)
            == Order::Greater),
    decreases hi - lo + 1,
{
    reveal(fstree::child_search);
    if lo > hi {
        best
    } else {
        let mid = (lo + hi) / 2;
        assert(btree::child_entry(b, mid, klen) is Ok);
        if fstree::order_key(separator(b, klen, mid), t) != Order::Greater {
            lemma_search(b, klen, t, mid + 1, hi, mid)
        } else {
            lemma_search(b, klen, t, lo, mid - 1, best)
        }
    }
}

/// The children from entry `g` on are sound where those from `i` on are, and no
/// key is lower than one before it.
proof fn lemma_kids_at(v: fstree::Vol, b: Seq<u8>, klen: int, depth: int, i: int, g: int)
    requires
        kids_sound(v, b, klen, depth, i),
        0 <= i <= g <= btree::node_nkeys(b),
    ensures
        kids_sound(v, b, klen, depth, g),
        g < btree::node_nkeys(b) ==> {
            &&& btree::child_entry(b, g, klen) is Ok
            &&& separator(b, klen, g).len() >= 8
            &&& !lower(prefix(separator(b, klen, g)), prefix(separator(b, klen, i)))
        },
    decreases g - i,
{
    if i < g {
        lemma_kids_at(v, b, klen, depth, i + 1, g);
    }
}

/// A sound subtree is readable.
proof fn lemma_readable(v: fstree::Vol, b: Seq<u8>, klen: int, level: int, depth: int)
    requires
        sound(v, b, klen, level, depth),
    ensures
        readable(v, b, klen, level, depth),
    decreases level, 0int,
{
    if !btree::node_is_leaf(b) {
        lemma_kids_readable(v, b, klen, depth + 1, 0);
    }
}

proof fn lemma_kids_readable(v: fstree::Vol, b: Seq<u8>, klen: int, depth: int, i: int)
    requires
        kids_sound(v, b, klen, depth, i),
    ensures
        kids_readable(v, b, klen, depth, i),
    decreases btree::node_level(b) as int, btree::node_nkeys(b) - i,
{
    if i < btree::node_nkeys(b) {
        lemma_readable(v, child(v, b, klen, i), klen, btree::node_level(b) as int, depth);
        lemma_kids_readable(v, b, klen, depth, i + 1);
    }
}

/// What a walk of a readable subtree hands out are records alone, each with a key
/// word.
pub proof fn lemma_walk(v: fstree::Vol, b: Seq<u8>, klen: int, level: int, depth: int)
    requires
        readable(v, b, klen, level, depth),
    ensures
        ({
            let rs = records_of(rangescan::walk(v, b, klen, level, depth));
            &&& rangescan::walk(v, b, klen, level, depth) == tree::oks(rs)
            &&& forall|j: int| 0 <= j < rs.len() ==> (#[trigger] rs[j]).0.len() >= 8
        }),
    decreases level, 0int,
{
    if btree::node_is_leaf(b) {
        let q = lemma_leaf(
            b,
            klen,
            tree::front((0, 0), fstree::DrecKeyLayout::Plain),
            0,
        );
    } else {
        lemma_kids(v, b, klen, depth + 1, 0);
    }
}

pub proof fn lemma_kids(v: fstree::Vol, b: Seq<u8>, klen: int, depth: int, i: int)
    requires
        kids_readable(v, b, klen, depth, i),
        0 <= i <= btree::node_nkeys(b),
    ensures
        ({
            let rs = kids_records(v, b, klen, depth, i);
            &&& rangescan::kids(v, b, klen, depth, i) == tree::oks(rs)
            &&& forall|j: int| 0 <= j < rs.len() ==> (#[trigger] rs[j]).0.len() >= 8
            &&& i < btree::node_nkeys(b) ==> rs == child_records(v, b, klen, depth, i)
                + kids_records(v, b, klen, depth, i + 1)
        }),
    decreases btree::node_level(b) as int, btree::node_nkeys(b) - i,
{
    let s = rangescan::kids(v, b, klen, depth, i);
    let rs = records_of(s);
    if i >= btree::node_nkeys(b) {
        assert(s =~= tree::oks(rs));
    } else {
        lemma_walk(v, child(v, b, klen, i), klen, btree::node_level(b) as int, depth);
        lemma_kids(v, b, klen, depth, i + 1);
        let own = child_records(v, b, klen, depth, i);
        let more = kids_records(v, b, klen, depth, i + 1);
        assert(tree::oks(own) + tree::oks(more) =~= tree::oks(own + more));
        assert(s == tree::oks(own + more));
        lemma_oks(own + more);
        assert forall|j: int| 0 <= j < rs.len() implies (#[trigger] rs[j]).0.len() >= 8 by {
            if j < own.len() {
                assert(rs[j] == own[j]);
            } else {
                assert(rs[j] == more[j - own.len()]);
            }
        }
    }
}

/// The records in front of the child at entry `g` lie before its key.
proof fn lemma_front(v: fstree::Vol, b: Seq<u8>, klen: int, depth: int, i: int, g: int) -> (w: Seq<
    Rec,
>)
    requires
        kids_sound(v, b, klen, depth, i),
        0 <= i <= g < btree::node_nkeys(b),
    ensures
        kids_records(v, b, klen, depth, i) == w + kids_records(v, b, klen, depth, g),
        forall|j: int| 0 <= j < w.len() ==> precedes((#[trigger] w[j]).0, separator(b, klen, g)),
        i < g ==> precedes(separator(b, klen, i), separator(b, klen, g)),
    decreases g - i,
{
    if i == g {
        let w = Seq::<Rec>::empty();
        assert(w + kids_records(v, b, klen, depth, g) =~= kids_records(v, b, klen, depth, g));
        w
    } else {
        lemma_kids_readable(v, b, klen, depth, i);
        lemma_kids(v, b, klen, depth, i);
        let x = lemma_front(v, b, klen, depth, i + 1, g);
        let own = child_records(v, b, klen, depth, i);
        let w = own + x;
        assert(own + (x + kids_records(v, b, klen, depth, g)) =~= w + kids_records(
            v,
            b,
            klen,
            depth,
            g,
        ));
        assert forall|j: int| 0 <= j < w.len() implies precedes(
            (#[trigger] w[j]).0,
            separator(b, klen, g),
        ) by {
            if j < own.len() {
                assert(own.contains(own[j]));
                assert(w[j] == own[j]);
            } else {
                assert(w[j] == x[j - own.len()]);
            }
        }
        w
    }
}

/// No record of the children from entry `i` on is lower than the key of entry
/// `i`.
proof fn lemma_behind(v: fstree::Vol, b: Seq<u8>, klen: int, depth: int, i: int)
    requires
        kids_sound(v, b, klen, depth, i),
        0 <= i < btree::node_nkeys(b),
    ensures
        forall|j: int|
            0 <= j < kids_records(v, b, klen, depth, i).len() ==> !lower(
                prefix((#[trigger] kids_records(v, b, klen, depth, i)[j]).0),
                prefix(separator(b, klen, i)),
            ),
    decreases btree::node_nkeys(b) - i,
{
    let rs = kids_records(v, b, klen, depth, i);
    lemma_kids_readable(v, b, klen, depth, i);
    lemma_kids(v, b, klen, depth, i);
    let own = child_records(v, b, klen, depth, i);
    let more = kids_records(v, b, klen, depth, i + 1);
    if i + 1 < btree::node_nkeys(b) {
        lemma_behind(v, b, klen, depth, i + 1);
    } else {
        assert(more =~= Seq::empty());
    }
    assert forall|j: int| 0 <= j < rs.len() implies !lower(
        prefix((#[trigger] rs[j]).0),
        prefix(separator(b, klen, i)),
    ) by {
        if j < own.len() {
            assert(own.contains(own[j]));
            assert(rs[j] == own[j]);
        } else {
            assert(rs[j] == more[j - own.len()]);
        }
    }
}

/// Records of which the first ones are lower than `p` and the next one is not, put
/// together from three runs.
proof fn lemma_join(w: Seq<Rec>, own: Seq<Rec>, more: Seq<Rec>, q: int, p: (u64, u8))
    requires
        0 <= q <= own.len(),
        forall|j: int| 0 <= j < w.len() ==> lower(prefix((#[trigger] w[j]).0), p),
        forall|j: int| 0 <= j < q ==> lower(prefix((#[trigger] own[j]).0), p),
        q < own.len() ==> !lower(prefix(own[q].0), p),
        q == own.len() && more.len() > 0 ==> !lower(prefix(more[0].0), p),
    ensures
        ({
            let rs = w + (own + more);
            let n = w.len() + q;
            &&& 0 <= n <= rs.len()
            &&& rangescan::chain(tree::oks(own.skip(q)), tree::oks(more)) == tree::oks(rs.skip(n))
            &&& forall|j: int| 0 <= j < n ==> lower(prefix((#[trigger] rs[j]).0), p)
            &&& n < rs.len() ==> !lower(prefix(rs[n].0), p)
        }),
{
    let rs = w + (own + more);
    let n = w.len() + q;
    assert(tree::oks(own.skip(q)) + tree::oks(more) =~= tree::oks(own.skip(q) + more));
    assert(own.skip(q) + more =~= rs.skip(n));
    assert forall|j: int| 0 <= j < n implies lower(prefix((#[trigger] rs[j]).0), p) by {
        if j < w.len() {
            assert(rs[j] == w[j]);
        } else {
            assert(rs[j] == own[j - w.len()]);
        }
    }
    if n < rs.len() {
        if q < own.len() {
            assert(rs[n] == own[q]);
        } else {
            assert(rs[n] == more[0]);
        }
    }
}

/// The child `g` of a sound node in which a target in front of the records of `p`
/// belongs: the records in front of it, which are lower, and that none behind it
/// is.
proof fn lemma_child(
    v: fstree::Vol,
    b: Seq<u8>,
    klen: int,
    at: int,
    p: (u64, u8),
    layout: fstree::DrecKeyLayout,
) -> (r: (int, Seq<Rec>))
    requires
        kids_sound(v, b, klen, at, 0),
        btree::node_nkeys(b) > 0,
    ensures
        fstree::child_index(b, klen, tree::front(p, layout)) == Ok::<int, Error>(r.0),
        0 <= r.0 < btree::node_nkeys(b),
        kids_sound(v, b, klen, at, r.0),
        kids_records(v, b, klen, at, 0) == r.1 + kids_records(v, b, klen, at, r.0),
        forall|j: int| 0 <= j < r.1.len() ==> lower(prefix((#[trigger] r.1[j]).0), p),
        ({
            let more = kids_records(v, b, klen, at, r.0 + 1);
            more.len() > 0 ==> !lower(prefix(more[0].0), p)
        }),
{
    let t = tree::front(p, layout);
    let m = btree::node_nkeys(b) as int;
    assert forall|j: int|
        #![trigger btree::child_entry(b, j, klen)]
        0 <= j < m implies btree::child_entry(b, j, klen) is Ok && separator(b, klen, j).len()
        >= 8 by {
        lemma_kids_at(v, b, klen, at, 0, j);
    }
    let g = lemma_search(b, klen, t, 0, m - 1, 0);
    lemma_kids_at(v, b, klen, at, 0, g);
    let w = lemma_front(v, b, klen, at, 0, g);
    lemma_side(separator(b, klen, g), p, layout);
    assert forall|j: int| 0 <= j < w.len() implies lower(prefix((#[trigger] w[j]).0), p) by {
        assert(precedes(w[j].0, separator(b, klen, g)));
        if g == 0 {
            assert(w.len() == 0) by {
                assert(kids_records(v, b, klen, at, 0).len() == w.len() + kids_records(
                    v,
                    b,
                    klen,
                    at,
                    0,
                ).len());
            }
        }
    }
    let more = kids_records(v, b, klen, at, g + 1);
    if more.len() > 0 {
        if g + 1 >= m {
            lemma_kids_at(v, b, klen, at, 0, m);
            assert(rangescan::kids(v, b, klen, at, m) =~= Seq::empty());
        }
        lemma_kids_at(v, b, klen, at, 0, g + 1);
        lemma_behind(v, b, klen, at, g + 1);
        lemma_side(separator(b, klen, g + 1), p, layout);
        lemma_side(separator(b, klen, 0), p, layout);
        assert(!lower(prefix(separator(b, klen, g + 1)), p));
    }
    (g, w)
}

/// A scan of a sound subtree from in front of the records of `p` hands out its
/// records but for those that are lower.
proof fn lemma_seek(
    v: fstree::Vol,
    b: Seq<u8>,
    klen: int,
    level: int,
    depth: int,
    p: (u64, u8),
    layout: fstree::DrecKeyLayout,
) -> (n: int)
    requires
        sound(v, b, klen, level, depth),
    ensures
        ({
            let rs = records_of(rangescan::walk(v, b, klen, level, depth));
            let t = tree::front(p, layout);
            &&& 0 <= n <= rs.len()
            &&& rangescan::seek(v, b, klen, level, depth, t) == Ok::<Seq<Result<Rec>>, Error>(
                tree::oks(rs.skip(n)),
            )
            &&& forall|j: int| 0 <= j < n ==> lower(prefix((#[trigger] rs[j]).0), p)
            &&& n < rs.len() ==> !lower(prefix(rs[n].0), p)
        }),
    decreases level,
{
    let rs = records_of(rangescan::walk(v, b, klen, level, depth));
    let t = tree::front(p, layout);
    lemma_readable(v, b, klen, level, depth);
    lemma_walk(v, b, klen, level, depth);
    if btree::node_is_leaf(b) {
        let q = lemma_leaf(b, klen, t, 0);
        assert forall|j: int| 0 <= j < q implies lower(prefix((#[trigger] rs[j]).0), p) by {
            lemma_side(rs[j].0, p, layout);
        }
        if q < rs.len() {
            lemma_side(rs[q].0, p, layout);
        }
        q
    } else {
        let at = depth + 1;
        let lvl = btree::node_level(b) as int;
        let (g, w) = lemma_child(v, b, klen, at, p, layout);
        let q = lemma_seek(v, child(v, b, klen, g), klen, lvl, at, p, layout);
        lemma_kids_readable(v, b, klen, at, g);
        lemma_kids(v, b, klen, at, g);
        lemma_kids(v, b, klen, at, g + 1);
        let own = child_records(v, b, klen, at, g);
        let more = kids_records(v, b, klen, at, g + 1);
        assert(rs == w + (own + more));
        lemma_join(w, own, more, q, p);
        w.len() + q
    }
}

proof fn lemma_none(rs: Seq<Rec>, p: (u64, u8))
    requires
        forall|i: int| 0 <= i < rs.len() ==> tree::owner(#[trigger] rs[i]) != p,
    ensures
        tree::those(rs, p) == Seq::<Rec>::empty(),
    decreases rs.len(),
{
    if rs.len() > 0 {
        let d = rs.drop_first();
        assert forall|i: int| 0 <= i < d.len() implies tree::owner(#[trigger] d[i]) != p by {
            assert(d[i] == rs[i + 1]);
        }
        lemma_none(d, p);
    }
}

/// Records in front that belong to others do not count.
proof fn lemma_skip(rs: Seq<Rec>, p: (u64, u8), n: int)
    requires
        0 <= n <= rs.len(),
        forall|i: int| 0 <= i < n ==> tree::owner(#[trigger] rs[i]) != p,
    ensures
        tree::those(rs.skip(n), p) == tree::those(rs, p),
    decreases n,
{
    if n == 0 {
        assert(rs.skip(0) =~= rs);
    } else {
        let d = rs.drop_first();
        assert forall|i: int| 0 <= i < n - 1 implies tree::owner(#[trigger] d[i]) != p by {
            assert(d[i] == rs[i + 1]);
        }
        lemma_skip(d, p, n - 1);
        assert(d.skip(n - 1) =~= rs.skip(n));
        assert(tree::owner(rs[0]) != p);
    }
}

/// Gathering from in front of the records of `p` takes just these.
proof fn lemma_gather(rs: Seq<Rec>, p: (u64, u8))
    requires
        in_order(rs),
        rs.len() > 0 ==> !lower(prefix(rs[0].0), p),
    ensures
        volume::gather(tree::oks(rs), p) == (volume::Found {
            recs: tree::those(rs, p),
            err: None,
        }),
    decreases rs.len(),
{
    if rs.len() > 0 {
        let d = rs.drop_first();
        if tree::owner(rs[0]) == p {
            assert(tree::oks(rs).drop_first() =~= tree::oks(d));
            assert forall|i: int, j: int|
                #![trigger d[i], d[j]]
                0 <= i < j < d.len() implies !lower(prefix(d[j].0), prefix(d[i].0)) by {
                assert(d[i] == rs[i + 1] && d[j] == rs[j + 1]);
            }
            if d.len() > 0 {
                assert(d[0] == rs[1]);
            }
            lemma_gather(d, p);
        } else {
            assert forall|i: int| 0 <= i < rs.len() implies tree::owner(#[trigger] rs[i]) != p by {
                if i > 0 {
                    assert(!lower(prefix(rs[i].0), prefix(rs[0].0)));
                }
            }
            lemma_none(rs, p);
        }
    }
}

/// On any well-formed tree a scan for one object id and kind finds just the
/// records of that object id and kind, each once, in the order of the tree.
pub proof fn lemma_scan(m: volume::Mounted, img: Seq<u8>, oid: u64, kind: u8)
    requires
        well_formed(m.vol(img), m.root),
    ensures
        volume::found(m, img, oid, kind) == (volume::Found {
            recs: tree::those(all_of(m.vol(img), m.root), (oid, kind)),
            err: None,
        }),
{
    let v = m.vol(img);
    let klen = fstree::root_klen(m.root);
    let p = (oid, kind);
    let rs = all_of(v, m.root);
    let n = lemma_seek(v, m.root, klen, 0x1_0000, 0, p, m.layout);
    let d = rs.skip(n);
    assert forall|i: int, j: int|
        #![trigger d[i], d[j]]
        0 <= i < j < d.len() implies !lower(prefix(d[j].0), prefix(d[i].0)) by {
        assert(d[i] == rs[i + n] && d[j] == rs[j + n]);
    }
    lemma_gather(d, p);
    assert forall|i: int| 0 <= i < n implies tree::owner(#[trigger] rs[i]) != p by {
        assert(lower(prefix(rs[i].0), p));
    }
    lemma_skip(rs, p, n);
    assert(tree::front(p, m.layout) == (fstree::Target {
        oid,
        kind,
        tail: Seq::empty(),
        layout: m.layout,
    }));
}

/// Records in order, none of them lower than `p`: those of `p` stand in front.
proof fn lemma_run(rs: Seq<Rec>, p: (u64, u8))
    requires
        in_order(rs),
        rs.len() > 0 ==> !lower(prefix(rs[0].0), p),
    ensures
        ({
            let n = tree::those(rs, p).len() as int;
            &&& n <= rs.len()
            &&& rs.take(n) == tree::those(rs, p)
            &&& n < rs.len() ==> prefix(rs[n].0) != p
        }),
    decreases rs.len(),
{
    let a = tree::those(rs, p);
    if rs.len() > 0 {
        let d = rs.drop_first();
        if tree::owner(rs[0]) == p {
            assert forall|i: int, j: int|
                #![trigger d[i], d[j]]
                0 <= i < j < d.len() implies !lower(prefix(d[j].0), prefix(d[i].0)) by {
                assert(d[i] == rs[i + 1] && d[j] == rs[j + 1]);
            }
            if d.len() > 0 {
                assert(d[0] == rs[1]);
            }
            lemma_run(d, p);
            let m = tree::those(d, p).len() as int;
            assert(a =~= seq![rs[0]] + tree::those(d, p));
            assert(rs.take(m + 1) =~= seq![rs[0]] + d.take(m));
            if m < d.len() {
                assert(rs[m + 1] == d[m]);
            }
        } else {
            assert forall|i: int| 0 <= i < rs.len() implies tree::owner(#[trigger] rs[i]) != p by {
                if i > 0 {
                    assert(!lower(prefix(rs[i].0), prefix(rs[0].0)));
                }
            }
            lemma_none(rs, p);
            assert(rs.take(0) =~= a);
            assert(tree::owner(rs[0]) != p);
        }
    } else {
        assert(rs.take(0) =~= a);
    }
}

/// The steps of a scan on any well-formed tree: what lies ahead of a scan for one
/// object id and kind, once `k` records were handed out, starts with record `k` of
/// that object id and kind; and once all were, it is empty or starts with a record
/// of another. So each is handed out once, in the order of the tree, and then no
/// more, however often one asks.
pub proof fn lemma_steps(
    v: fstree::Vol,
    root: Seq<u8>,
    p: (u64, u8),
    layout: fstree::DrecKeyLayout,
    k: int,
)
    requires
        well_formed(v, root),
        0 <= k <= tree::those(all_of(v, root), p).len(),
    ensures
        ({
            let own = tree::those(all_of(v, root), p);
            let a = rangescan::ahead(v, root, tree::front(p, layout));
            &&& a is Ok
            &&& k <= a->Ok_0.len()
            &&& k < own.len() ==> k < a->Ok_0.len() && a->Ok_0.skip(k)[0] == Ok::<Rec, Error>(own[k])
                && prefix(own[k].0) == p
            &&& k == own.len() && k < a->Ok_0.len() ==> (a->Ok_0.skip(k)[0] matches Ok(r) && prefix(
                r.0,
            ) != p)
        }),
{
    let rs = all_of(v, root);
    let n = lemma_seek(v, root, fstree::root_klen(root), 0x1_0000, 0, p, layout);
    let d = rs.skip(n);
    assert forall|i: int, j: int|
        #![trigger d[i], d[j]]
        0 <= i < j < d.len() implies !lower(prefix(d[j].0), prefix(d[i].0)) by {
        assert(d[i] == rs[i + n] && d[j] == rs[j + n]);
    }
    assert forall|i: int| 0 <= i < n implies tree::owner(#[trigger] rs[i]) != p by {
        assert(lower(prefix(rs[i].0), p));
    }
    lemma_skip(rs, p, n);
    lemma_run(d, p);
    let own = tree::those(rs, p);
    if k < own.len() {
        assert(own[k] == d.take(own.len() as int)[k]);
        lemma_owned(rs, p, k);
    }
}

/// What is picked out for `p` belongs to it.
proof fn lemma_owned(rs: Seq<Rec>, p: (u64, u8), k: int)
    requires
        0 <= k < tree::those(rs, p).len(),
    ensures
        prefix(tree::those(rs, p)[k].0) == p,
    decreases rs.len(),
{
    if rs.len() > 0 {
        let d = rs.drop_first();
        if tree::owner(rs[0]) == p {
            assert(tree::those(rs, p) =~= seq![rs[0]] + tree::those(d, p));
            if k > 0 {
                lemma_owned(d, p, k - 1);
            }
        } else {
            lemma_owned(d, p, k);
        }
    }
}

} // verus!
