//! Looking up the version of an object in any sound object map, whoever built it,
//! of whatever depth.

use vstd::prelude::*;

use crate::apfs::btree;
use crate::apfs::omap::{self, OmapKey, OmapVal};
use crate::block;
use crate::error::Error;

verus! {

/// Whether the version `k` is one of the object `t.oid`, no later than `t.xid`.
pub open spec fn fits(k: OmapKey, t: OmapKey) -> bool {
    k.oid == t.oid && k.xid <= t.xid
}

/// Whether entry `i` of `es` is the latest version that fits `t`.
pub open spec fn latest_at(es: Seq<(OmapKey, OmapVal)>, t: OmapKey, i: int) -> bool {
    &&& 0 <= i < es.len()
    &&& fits(es[i].0, t)
    &&& forall|j: int|
        0 <= j < es.len() && fits((#[trigger] es[j]).0, t) ==> es[j].0.xid <= es[i].0.xid
}

/// Whether `r` is the latest version among `es` that fits `t`, or none of them
/// does.
pub open spec fn latest(es: Seq<(OmapKey, OmapVal)>, t: OmapKey, r: Option<OmapVal>) -> bool {
    match r {
        Some(x) => exists|i: int| #[trigger] latest_at(es, t, i) && es[i].1 == x,
        None => forall|i: int| 0 <= i < es.len() ==> !fits((#[trigger] es[i]).0, t),
    }
}

/// The entries of the leaf `b`.
pub open spec fn leaf_entries(b: Seq<u8>) -> Seq<(OmapKey, OmapVal)> {
    Seq::new(
        btree::node_nkeys(b) as nat,
        |j: int|
            {
                let e = btree::entry(b, j, 16, 16)->Ok_0;
                (omap::omap_key(e.0)->Ok_0, omap::omap_val(e.1)->Ok_0)
            },
    )
}

/// Whether all entries of the leaf `b` can be read.
pub open spec fn leaf_sound(b: Seq<u8>) -> bool {
    forall|j: int|
        0 <= j < btree::node_nkeys(b) ==> {
            &&& #[trigger] btree::entry(b, j, 16, 16) is Ok
            &&& omap::omap_key(btree::entry(b, j, 16, 16)->Ok_0.0) is Ok
            &&& omap::omap_val(btree::entry(b, j, 16, 16)->Ok_0.1) is Ok
        }
}

/// The key of entry `i` of the internal node `b`.
pub open spec fn separator(b: Seq<u8>, i: int) -> OmapKey {
    omap::omap_key(btree::child_entry(b, i, 16)->Ok_0.0)->Ok_0
}

/// The child at entry `i` of the internal node `b`.
pub open spec fn child(img: Seq<u8>, bs: int, b: Seq<u8>, i: int) -> Seq<u8> {
    block::block_at(img, bs, btree::child_entry(b, i, 16)->Ok_0.1)->Ok_0
}

/// The entries in the subtree of node `b`, whose level lies below `level`, in the
/// order of the tree.
pub open spec fn entries(img: Seq<u8>, bs: int, b: Seq<u8>, level: int) -> Seq<(OmapKey, OmapVal)>
    decreases level, 0int,
{
    if btree::node_level(b) >= level {
        Seq::empty()
    } else if btree::node_is_leaf(b) {
        leaf_entries(b)
    } else {
        kids_entries(img, bs, b, 0)
    }
}

/// The entries below node `b` from its entry `i` on.
pub open spec fn kids_entries(img: Seq<u8>, bs: int, b: Seq<u8>, i: int) -> Seq<(OmapKey, OmapVal)>
    decreases btree::node_level(b) as int, btree::node_nkeys(b) - i,
{
    if i >= btree::node_nkeys(b) {
        Seq::empty()
    } else {
        entries(img, bs, child(img, bs, b, i), btree::node_level(b) as int) + kids_entries(
            img,
            bs,
            b,
            i + 1,
        )
    }
}

/// Whether the subtree of node `b` is sound and no deeper than `fuel` nodes: every
/// node can be read and lies below its parent, and the keys in internal nodes part
/// the entries.
pub open spec fn sound(img: Seq<u8>, bs: int, b: Seq<u8>, level: int, fuel: int) -> bool
    decreases level, 0int,
{
    &&& fuel > 0
    &&& btree::is_node(b)
    &&& btree::node_level(b) < level
    &&& if btree::node_is_leaf(b) {
        leaf_sound(b)
    } else {
        btree::node_nkeys(b) > 0 && kids_sound(img, bs, b, fuel - 1, 0)
    }
}

/// Whether the children of node `b` from entry `i` on are sound, and their keys
/// part the entries: the key of a child is the first in it, and all keys in it
/// come before that of the next child.
pub open spec fn kids_sound(img: Seq<u8>, bs: int, b: Seq<u8>, fuel: int, i: int) -> bool
    decreases btree::node_level(b) as int, btree::node_nkeys(b) - i,
{
    i >= btree::node_nkeys(b) || {
        let own = entries(img, bs, child(img, bs, b, i), btree::node_level(b) as int);
        &&& btree::child_entry(b, i, 16) is Ok
        &&& omap::omap_key(btree::child_entry(b, i, 16)->Ok_0.0) is Ok
        &&& block::block_at(img, bs, btree::child_entry(b, i, 16)->Ok_0.1) is Ok
        &&& sound(img, bs, child(img, bs, b, i), btree::node_level(b) as int, fuel)
        &&& own.len() > 0
        &&& own[0].0 == separator(b, i)
        &&& forall|j: int|
            0 <= j < own.len() ==> omap::key_le(separator(b, i), (#[trigger] own[j]).0)
        &&& i + 1 < btree::node_nkeys(b) ==> forall|j: int|
            0 <= j < own.len() ==> !omap::key_le(separator(b, i + 1), (#[trigger] own[j]).0)
        &&& kids_sound(img, bs, b, fuel, i + 1)
    }
}

/// Whether the map with the root `root` is sound; the other nodes lie on the
/// device `img`.
pub open spec fn well_formed(img: Seq<u8>, root: Seq<u8>) -> bool {
    &&& btree::is_node(root)
    &&& btree::fixed_sizes(root) == Some((16int, 16int))
    &&& if btree::node_is_leaf(root) {
        leaf_sound(root)
    } else {
        btree::node_nkeys(root) > 0 && kids_sound(
            img,
            root.len() as int,
            root,
            omap::depth_limit(root) as int,
            0,
        )
    }
}

/// All entries of the map with the root `root`.
pub open spec fn all_of(img: Seq<u8>, root: Seq<u8>) -> Seq<(OmapKey, OmapVal)> {
    entries(img, root.len() as int, root, 0x1_0000)
}

/// What a scan of the first `n` entries of a leaf finds.
proof fn lemma_leaf_best(b: Seq<u8>, t: OmapKey, n: int)
    requires
        leaf_sound(b),
        0 <= n <= btree::node_nkeys(b),
    ensures
        ({
            let es = leaf_entries(b).take(n);
            match omap::leaf_best(b, t, n as nat) {
                Err(_) => false,
                Ok(None) => forall|i: int| 0 <= i < n ==> !fits((#[trigger] es[i]).0, t),
                Ok(Some((x, v))) => exists|i: int| #[trigger]
                    latest_at(es, t, i) && es[i] == (OmapKey { oid: t.oid, xid: x }, v),
            }
        }),
    decreases n,
{
    reveal(omap::leaf_best);
    if n > 0 {
        let all = leaf_entries(b);
        let before = all.take(n - 1);
        let es = all.take(n);
        lemma_leaf_best(b, t, n - 1);
        assert(btree::entry(b, n - 1, 16, 16) is Ok);
        let k = es[n - 1].0;
        assert forall|i: int| 0 <= i < n - 1 implies #[trigger] es[i] == before[i] by {}
        match omap::leaf_best(b, t, (n - 1) as nat) {
            Err(_) => {},
            Ok(None) => {
                assert forall|i: int| 0 <= i < n - 1 implies !fits((#[trigger] es[i]).0, t) by {
                    assert(es[i] == before[i]);
                }
                if fits(k, t) {
                    assert(latest_at(es, t, n - 1));
                }
            },
            Ok(Some((x, v))) => {
                let i = choose|i: int| #[trigger]
                    latest_at(before, t, i) && before[i] == (OmapKey { oid: t.oid, xid: x }, v);
                assert forall|j: int| 0 <= j < n - 1 && fits((#[trigger] es[j]).0, t) implies es[j].0.xid
                    <= x by {
                    assert(es[j] == before[j]);
                }
                if fits(k, t) && k.xid > x {
                    assert(latest_at(es, t, n - 1));
                } else {
                    assert(es[i] == before[i]);
                    assert(latest_at(es, t, i));
                }
            },
        }
    }
}

/// What a lookup finds in a sound leaf.
proof fn lemma_leaf(b: Seq<u8>, t: OmapKey)
    requires
        leaf_sound(b),
    ensures
        omap::leaf_lookup(b, t) is Ok,
        latest(leaf_entries(b), t, omap::leaf_lookup(b, t)->Ok_0),
{
    let n = btree::node_nkeys(b) as int;
    let es = leaf_entries(b);
    lemma_leaf_best(b, t, n);
    assert(es.take(n) =~= es);
}

/// The children from entry `g` on are sound where those from `i` on are.
proof fn lemma_kids_at(img: Seq<u8>, bs: int, b: Seq<u8>, fuel: int, i: int, g: int)
    requires
        kids_sound(img, bs, b, fuel, i),
        0 <= i <= g <= btree::node_nkeys(b),
    ensures
        kids_sound(img, bs, b, fuel, g),
    decreases g - i,
{
    if i < g {
        lemma_kids_at(img, bs, b, fuel, i + 1, g);
    }
}

/// Keys are in order.
proof fn lemma_rising(img: Seq<u8>, bs: int, b: Seq<u8>, fuel: int, i: int, g: int)
    requires
        kids_sound(img, bs, b, fuel, i),
        0 <= i < g < btree::node_nkeys(b),
    ensures
        !omap::key_le(separator(b, g), separator(b, i)),
    decreases g - i,
{
    let own = entries(img, bs, child(img, bs, b, i), btree::node_level(b) as int);
    assert(own[0].0 == separator(b, i));
    assert(!omap::key_le(separator(b, i + 1), own[0].0));
    if i + 1 < g {
        lemma_rising(img, bs, b, fuel, i + 1, g);
    }
}

/// The halving search ends at the last child whose key is not above the target,
/// or at the first.
proof fn lemma_search(b: Seq<u8>, t: OmapKey, lo: int, hi: int, best: int) -> (g: int)
    requires
        ({
            let n = btree::node_nkeys(b) as int;
            &&& n > 0
            &&& forall|j: int|
                #![trigger btree::child_entry(b, j, 16)]
                0 <= j < n ==> btree::child_entry(b, j, 16) is Ok && omap::omap_key(
                    btree::child_entry(b, j, 16)->Ok_0.0,
                ) is Ok
            &&& 0 <= lo <= hi + 1 <= n
            &&& if lo == 0 {
                best == 0
            } else {
                best == lo - 1 && omap::key_le(separator(b, best), t)
            }
            &&& hi + 1 < n ==> !omap::key_le(separator(b, hi + 1), t)
        }),
    ensures
        omap::child_search(b, t, lo, hi, best) == Ok::<int, Error>(g),
        0 <= g < btree::node_nkeys(b),
        g > 0 ==> omap::key_le(separator(b, g), t),
        g + 1 < btree::node_nkeys(b) ==> !omap::key_le(separator(b, g + 1), t) || (g == 0
            && !omap::key_le(separator(b, 0), t)),
    decreases hi - lo + 1,
{
    reveal(omap::child_search);
    if lo > hi {
        best
    } else {
        let mid = (lo + hi) / 2;
        assert(btree::child_entry(b, mid, 16) is Ok);
        if omap::key_le(separator(b, mid), t) {
            lemma_search(b, t, mid + 1, hi, mid)
        } else {
            lemma_search(b, t, lo, mid - 1, best)
        }
    }
}

/// The entries in front of the child at entry `g` come before its key.
proof fn lemma_front(img: Seq<u8>, bs: int, b: Seq<u8>, fuel: int, i: int, g: int) -> (w: Seq<
    (OmapKey, OmapVal),
>)
    requires
        kids_sound(img, bs, b, fuel, i),
        0 <= i <= g < btree::node_nkeys(b),
    ensures
        kids_entries(img, bs, b, i) == w + kids_entries(img, bs, b, g),
        forall|j: int| 0 <= j < w.len() ==> !omap::key_le(separator(b, g), (#[trigger] w[j]).0),
        i == g ==> w.len() == 0,
    decreases g - i,
{
    if i == g {
        let w = Seq::<(OmapKey, OmapVal)>::empty();
        assert(w + kids_entries(img, bs, b, g) =~= kids_entries(img, bs, b, g));
        w
    } else {
        let own = entries(img, bs, child(img, bs, b, i), btree::node_level(b) as int);
        let x = lemma_front(img, bs, b, fuel, i + 1, g);
        let w = own + x;
        assert(own + (x + kids_entries(img, bs, b, g)) =~= w + kids_entries(img, bs, b, g));
        assert forall|j: int| 0 <= j < w.len() implies !omap::key_le(
            separator(b, g),
            (#[trigger] w[j]).0,
        ) by {
            if j < own.len() {
                assert(w[j] == own[j]);
                if i + 1 < g {
                    lemma_rising(img, bs, b, fuel, i + 1, g);
                }
            } else {
                assert(w[j] == x[j - own.len()]);
            }
        }
        w
    }
}

/// No entry of the children from entry `i` on comes before the key of entry `i`.
proof fn lemma_behind(img: Seq<u8>, bs: int, b: Seq<u8>, fuel: int, i: int)
    requires
        kids_sound(img, bs, b, fuel, i),
        0 <= i < btree::node_nkeys(b),
    ensures
        forall|j: int|
            0 <= j < kids_entries(img, bs, b, i).len() ==> omap::key_le(
                separator(b, i),
                (#[trigger] kids_entries(img, bs, b, i)[j]).0,
            ),
    decreases btree::node_nkeys(b) - i,
{
    let es = kids_entries(img, bs, b, i);
    let own = entries(img, bs, child(img, bs, b, i), btree::node_level(b) as int);
    let more = kids_entries(img, bs, b, i + 1);
    if i + 1 < btree::node_nkeys(b) {
        lemma_behind(img, bs, b, fuel, i + 1);
        lemma_rising(img, bs, b, fuel, i, i + 1);
    }
    assert forall|j: int| 0 <= j < es.len() implies omap::key_le(
        separator(b, i),
        (#[trigger] es[j]).0,
    ) by {
        if j < own.len() {
            assert(es[j] == own[j]);
        } else {
            assert(es[j] == more[j - own.len()]);
        }
    }
}

/// The latest version in the middle is the latest of all, where none in front is
/// later and none behind fits.
proof fn lemma_join(
    w: Seq<(OmapKey, OmapVal)>,
    own: Seq<(OmapKey, OmapVal)>,
    more: Seq<(OmapKey, OmapVal)>,
    t: OmapKey,
    r: Option<OmapVal>,
)
    requires
        latest(own, t, r),
        forall|j: int|
            0 <= j < w.len() && fits((#[trigger] w[j]).0, t) ==> exists|i: int|
                0 <= i < own.len() && fits((#[trigger] own[i]).0, t) && w[j].0.xid <= own[i].0.xid,
        forall|j: int| 0 <= j < more.len() ==> !fits((#[trigger] more[j]).0, t),
    ensures
        latest(w + (own + more), t, r),
{
    let es = w + (own + more);
    match r {
        Some(x) => {
            let i = choose|i: int| #[trigger] latest_at(own, t, i) && own[i].1 == x;
            let k = w.len() + i;
            assert(es[k] == own[i]);
            assert forall|j: int| 0 <= j < es.len() && fits((#[trigger] es[j]).0, t) implies es[j].0.xid
                <= es[k].0.xid by {
                if j < w.len() {
                    assert(es[j] == w[j]);
                } else if j < w.len() + own.len() {
                    assert(es[j] == own[j - w.len()]);
                } else {
                    assert(es[j] == more[j - w.len() - own.len()]);
                }
            }
            assert(latest_at(es, t, k));
        },
        None => {
            assert forall|j: int| 0 <= j < es.len() implies !fits((#[trigger] es[j]).0, t) by {
                if j < w.len() {
                    assert(es[j] == w[j]);
                } else if j < w.len() + own.len() {
                    assert(es[j] == own[j - w.len()]);
                } else {
                    assert(es[j] == more[j - w.len() - own.len()]);
                }
            }
        },
    }
}

/// Lookup in the children of a sound node: `g` is the child in which the target
/// belongs, and what is the latest there is the latest of all.
proof fn lemma_child(img: Seq<u8>, bs: int, b: Seq<u8>, fuel: int, t: OmapKey) -> (g: int)
    requires
        kids_sound(img, bs, b, fuel, 0),
        btree::node_nkeys(b) > 0,
    ensures
        0 <= g < btree::node_nkeys(b),
        kids_sound(img, bs, b, fuel, g),
        omap::child_for(b, t) == Ok::<u64, Error>(btree::child_entry(b, g, 16)->Ok_0.1),
        forall|r: Option<OmapVal>| #[trigger]
            latest(
                entries(img, bs, child(img, bs, b, g), btree::node_level(b) as int),
                t,
                r,
            ) ==> latest(kids_entries(img, bs, b, 0), t, r),
{
    let n = btree::node_nkeys(b) as int;
    assert forall|j: int|
        #![trigger btree::child_entry(b, j, 16)]
        0 <= j < n implies btree::child_entry(b, j, 16) is Ok && omap::omap_key(
        btree::child_entry(b, j, 16)->Ok_0.0,
    ) is Ok by {
        lemma_kids_at(img, bs, b, fuel, 0, j);
    }
    let g = lemma_search(b, t, 0, n - 1, 0);
    lemma_kids_at(img, bs, b, fuel, 0, g);
    let w = lemma_front(img, bs, b, fuel, 0, g);
    let own = entries(img, bs, child(img, bs, b, g), btree::node_level(b) as int);
    let more = kids_entries(img, bs, b, g + 1);
    assert(own[0].0 == separator(b, g));
    assert forall|j: int| 0 <= j < w.len() && fits((#[trigger] w[j]).0, t) implies exists|i: int|
        0 <= i < own.len() && fits((#[trigger] own[i]).0, t) && w[j].0.xid <= own[i].0.xid by {
        assert(!omap::key_le(separator(b, g), w[j].0));
        assert(fits(own[0].0, t));
    }
    assert forall|j: int| 0 <= j < more.len() implies !fits((#[trigger] more[j]).0, t) by {
        if g + 1 < n {
            lemma_kids_at(img, bs, b, fuel, 0, g + 1);
            lemma_behind(img, bs, b, fuel, g + 1);
            lemma_rising(img, bs, b, fuel, 0, g + 1);
            assert(omap::key_le(separator(b, g + 1), more[j].0));
        }
    }
    assert forall|r: Option<OmapVal>| #[trigger] latest(own, t, r) implies latest(
        kids_entries(img, bs, b, 0),
        t,
        r,
    ) by {
        lemma_join(w, own, more, t, r);
    }
    g
}

/// What a lookup finds in the subtree at block `p`.
proof fn lemma_descend(img: Seq<u8>, bs: int, p: u64, level: int, t: OmapKey, fuel: nat)
    requires
        block::block_at(img, bs, p) is Ok,
        sound(img, bs, block::block_at(img, bs, p)->Ok_0, level, fuel as int),
    ensures
        omap::descend(img, bs, p, level, t, fuel) is Ok,
        latest(
            entries(img, bs, block::block_at(img, bs, p)->Ok_0, level),
            t,
            omap::descend(img, bs, p, level, t, fuel)->Ok_0,
        ),
    decreases level,
{
    let b = block::block_at(img, bs, p)->Ok_0;
    if btree::node_is_leaf(b) {
        lemma_leaf(b, t);
    } else {
        let g = lemma_child(img, bs, b, fuel - 1, t);
        let q = btree::child_entry(b, g, 16)->Ok_0.1;
        lemma_descend(img, bs, q, btree::node_level(b) as int, t, (fuel - 1) as nat);
    }
}

/// A lookup in any sound object map: it finds the entry of the object with the
/// largest transaction id that is at most the one asked for, if the map holds one,
/// and nothing if it does not.
pub proof fn lemma_lookup(img: Seq<u8>, root: Seq<u8>, t: OmapKey)
    requires
        well_formed(img, root),
    ensures
        omap::find(img, root, t) is Ok,
        latest(all_of(img, root), t, omap::find(img, root, t)->Ok_0),
{
    let bs = root.len() as int;
    if btree::node_is_leaf(root) {
        lemma_leaf(root, t);
    } else {
        let fuel = omap::depth_limit(root);
        let g = lemma_child(img, bs, root, fuel as int, t);
        let q = btree::child_entry(root, g, 16)->Ok_0.1;
        lemma_descend(img, bs, q, btree::node_level(root) as int, t, fuel);
    }
}

} // verus!
