//! Looking up what was laid out in an object map.

use vstd::prelude::*;

use crate::apfs::btree;
use crate::apfs::node;
use crate::apfs::omap::{self, OmapKey, OmapVal};
use crate::apfs::pack;
use crate::apfs::plan::{self, Tree};
use crate::block;
use crate::bytes;
use crate::error::Error;

use super::stored;

verus! {

/// Whether the object ids of the entries `es` rise.
pub open spec fn rising(es: Seq<(u64, u64, u64)>) -> bool {
    forall|i: int, j: int|
        0 <= i < j < es.len() ==> (#[trigger] es[i]).0 < (#[trigger] es[j]).0
}

/// The key bytes of an entry read back as its key.
proof fn lemma_key(oid: u64, xid: u64)
    ensures
        omap::omap_key(node::omap_key_bytes(oid, xid)) == Ok::<OmapKey, Error>(
            (OmapKey { oid, xid }),
        ),
{
    let b = node::omap_key_bytes(oid, xid);
    bytes::lemma_le_lens();
    bytes::lemma_get_le(0, 0, oid);
    bytes::lemma_get_le(0, 0, xid);
    assert(b.subrange(0, 8) =~= bytes::le64(oid).subrange(0, 8));
    assert(b.subrange(8, 16) =~= bytes::le64(xid).subrange(0, 8));
    bytes::lemma_get_agree(b, 0, bytes::le64(oid), 0);
    bytes::lemma_get_agree(b, 8, bytes::le64(xid), 0);
}

/// The value bytes of a leaf entry read back as its address.
proof fn lemma_val(paddr: u64)
    ensures
        omap::omap_val(bytes::le64(0) + bytes::le64(paddr)) == Ok::<OmapVal, Error>(
            (OmapVal { flags: 0, size: 0, paddr }),
        ),
{
    let b = bytes::le64(0) + bytes::le64(paddr);
    bytes::lemma_le_lens();
    bytes::lemma_halves(0);
    bytes::lemma_get_le(0, 0, paddr);
    assert(b.subrange(0, 4) =~= bytes::le64(0).subrange(0, 4));
    assert(b.subrange(4, 8) =~= bytes::le64(0).subrange(4, 8));
    assert(b.subrange(8, 16) =~= bytes::le64(paddr).subrange(0, 8));
    bytes::lemma_get_agree(b, 0, bytes::le64(0), 0);
    bytes::lemma_get_agree(b, 4, bytes::le64(0), 4);
    bytes::lemma_get_agree(b, 8, bytes::le64(paddr), 0);
}

/// What the fields and entries of an object-map leaf read as.
pub proof fn lemma_leaf(bs: nat, es: Seq<(u64, u64, u64)>, root: bool, xid: u64)
    requires
        96 <= bs <= 0x1_0000,
        node::omap_fits(es.len() as int, true, bs as int, root),
    ensures
        ({
            let b = node::omap_leaf(bs, es, root, xid);
            &&& b.len() == bs
            &&& btree::is_node(b)
            &&& btree::node_is_root(b) == root
            &&& btree::node_is_leaf(b)
            &&& btree::node_level(b) == 0
            &&& btree::node_nkeys(b) == es.len()
            &&& root ==> btree::fixed_sizes(b) == Some((16int, 16int))
            &&& forall|j: int|
                0 <= j < es.len() ==> #[trigger] btree::entry(b, j, 16, 16) == Ok::<
                    (Seq<u8>, Seq<u8>),
                    Error,
                >(
                    (
                        node::omap_key_bytes(es[j].0, es[j].1),
                        bytes::le64(0) + bytes::le64(es[j].2),
                    ),
                )
        }),
{
    bytes::lemma_le_lens();
    node::lemma_omap_lens(es, true, es.len() as int);
    node::lemma_node(bs, node::omap_shape(true, root, xid), node::omap_recs(es, true), 16, 16);
}

/// What the fields and entries of an object-map root above leaves read as.
pub proof fn lemma_internal(bs: nat, es: Seq<(u64, u64, u64)>, xid: u64)
    requires
        96 <= bs <= 0x1_0000,
        node::omap_fits(es.len() as int, false, bs as int, true),
    ensures
        ({
            let b = node::omap_internal_root(bs, es, xid);
            &&& b.len() == bs
            &&& btree::is_node(b)
            &&& btree::node_is_root(b)
            &&& !btree::node_is_leaf(b)
            &&& btree::node_level(b) == 1
            &&& btree::node_nkeys(b) == es.len()
            &&& btree::fixed_sizes(b) == Some((16int, 16int))
            &&& forall|j: int|
                0 <= j < es.len() ==> #[trigger] btree::child_entry(b, j, 16) == Ok::<
                    (Seq<u8>, u64),
                    Error,
                >((node::omap_key_bytes(es[j].0, es[j].1), es[j].2))
        }),
{
    bytes::lemma_le_lens();
    node::lemma_omap_lens(es, false, es.len() as int);
    node::lemma_node(bs, node::omap_shape(false, true, xid), node::omap_recs(es, false), 16, 8);
    let b = node::omap_internal_root(bs, es, xid);
    assert forall|j: int| 0 <= j < es.len() implies #[trigger] btree::child_entry(b, j, 16) == Ok::<
        (Seq<u8>, u64),
        Error,
    >((node::omap_key_bytes(es[j].0, es[j].1), es[j].2)) by {
        bytes::lemma_get_le(0, 0, es[j].2);
        assert(btree::entry(b, j, 16, 8) == Ok::<(Seq<u8>, Seq<u8>), Error>(
            node::omap_recs(es, false)[j],
        ));
    }
}

/// What the leaf holds of object `es[i].0` among its first `n` entries.
proof fn lemma_best(
    bs: nat,
    es: Seq<(u64, u64, u64)>,
    root: bool,
    xid: u64,
    i: int,
    t: OmapKey,
    n: nat,
)
    requires
        96 <= bs <= 0x1_0000,
        node::omap_fits(es.len() as int, true, bs as int, root),
        rising(es),
        0 <= i < es.len(),
        n <= es.len(),
        t.oid == es[i].0,
        es[i].1 <= t.xid,
    ensures
        omap::leaf_best(node::omap_leaf(bs, es, root, xid), t, n) == Ok::<
            Option<(u64, OmapVal)>,
            Error,
        >(
            if i < n {
                Some((es[i].1, (OmapVal { flags: 0, size: 0, paddr: es[i].2 })))
            } else {
                None
            },
        ),
    decreases n,
{
    reveal(omap::leaf_best);
    let b = node::omap_leaf(bs, es, root, xid);
    if n > 0 {
        lemma_best(bs, es, root, xid, i, t, (n - 1) as nat);
        lemma_leaf(bs, es, root, xid);
        lemma_key(es[n - 1].0, es[n - 1].1);
        lemma_val(es[n - 1].2);
        assert(btree::entry(b, n - 1, 16, 16) == Ok::<(Seq<u8>, Seq<u8>), Error>(
            (
                node::omap_key_bytes(es[n - 1].0, es[n - 1].1),
                bytes::le64(0) + bytes::le64(es[n - 1].2),
            ),
        ));
        if n - 1 < i {
            assert(es[n - 1].0 < es[i].0);
        } else if n - 1 > i {
            assert(es[i].0 < es[n - 1].0);
        }
    }
}

/// Whether entry `g` is the last of the rising entries `es` whose key is not
/// above `t`.
spec fn last_below(es: Seq<(u64, u64, u64)>, t: OmapKey, g: int) -> bool {
    &&& 0 <= g < es.len()
    &&& es[g].0 < t.oid || (es[g].0 == t.oid && es[g].1 <= t.xid)
    &&& g + 1 < es.len() ==> es[g + 1].0 > t.oid
}

/// The halving search ends at the last child not above `t`.
proof fn lemma_search(
    bs: nat,
    es: Seq<(u64, u64, u64)>,
    xid: u64,
    t: OmapKey,
    g: int,
    lo: int,
    hi: int,
    best: int,
)
    requires
        96 <= bs <= 0x1_0000,
        node::omap_fits(es.len() as int, false, bs as int, true),
        rising(es),
        last_below(es, t, g),
        0 <= lo,
        hi < es.len(),
        lo <= g <= hi || (best == g && g < lo),
    ensures
        omap::child_search(node::omap_internal_root(bs, es, xid), t, lo, hi, best) == Ok::<
            int,
            Error,
        >(g),
    decreases hi - lo + 1,
{
    reveal(omap::child_search);
    let b = node::omap_internal_root(bs, es, xid);
    if lo <= hi {
        let mid = (lo + hi) / 2;
        lemma_internal(bs, es, xid);
        lemma_key(es[mid].0, es[mid].1);
        assert(btree::child_entry(b, mid, 16) == Ok::<(Seq<u8>, u64), Error>(
            (node::omap_key_bytes(es[mid].0, es[mid].1), es[mid].2),
        ));
        if mid <= g {
            if mid < g {
                assert(es[mid].0 < es[g].0);
            }
            lemma_search(bs, es, xid, t, g, mid + 1, hi, mid);
        } else {
            assert(es[g + 1].0 <= es[mid].0);
            lemma_search(bs, es, xid, t, g, lo, mid - 1, best);
        }
    }
}

/// The groups of rising entries: where entry `i` stands, and that the entries
/// above the groups rise too.
proof fn lemma_groups(es: Seq<(u64, u64, u64)>, m: int, next: int, i: int) -> (g: int)
    requires
        0 < m,
        rising(es),
        0 <= i < es.len(),
    ensures
        ({
            let gs = pack::omap_groups(es, m);
            let seps = plan::omap_seps(gs, next);
            &&& 0 <= g < gs.len()
            &&& 0 <= i - g * m < gs[g].len()
            &&& gs[g][i - g * m] == es[i]
            &&& rising(gs[g])
            &&& rising(seps)
            &&& seps.len() == gs.len()
            &&& seps[g].0 < es[i].0 || (g * m == i && seps[g].0 == es[i].0 && seps[g].1
                == es[i].1)
            &&& g + 1 < gs.len() ==> seps[g + 1].0 > es[i].0
        }),
{
    let n = es.len() as int;
    let gs = pack::omap_groups(es, m);
    let seps = plan::omap_seps(gs, next);
    let g = i / m;
    vstd::arithmetic::div_mod::lemma_fundamental_div_mod(i, m);
    vstd::arithmetic::div_mod::lemma_mod_bound(i, m);
    assert(m * g == g * m) by (nonlinear_arith);
    assert(g * m <= i < g * m + m);
    assert(0 <= g) by {
        vstd::arithmetic::div_mod::lemma_div_pos_is_pos(i, m);
    }
    crate::num::lemma_div_up(n, m);
    let k = pack::omap_leaf_count(n, m);
    assert(g < k) by {
        if g >= k {
            crate::num::lemma_mono(k, g, m);
        }
    }
    pack::lemma_omap_group(n, m, g);
    assert forall|a: int, c: int| 0 <= a < c < seps.len() implies (#[trigger] seps[a]).0 < (
    #[trigger] seps[c]).0 by {
        pack::lemma_omap_group(n, m, a);
        pack::lemma_omap_group(n, m, c);
        crate::num::lemma_mono(a + 1, c, m);
        assert(gs[a][0] == es[a * m]);
        assert(gs[c][0] == es[c * m]);
    }
    assert(gs[g][0] == es[g * m]);
    if g + 1 < k {
        pack::lemma_omap_group(n, m, g + 1);
        assert(gs[g + 1][0] == es[(g + 1) * m]);
    }
    g
}

/// An object map laid out and written finds each of its entries: a lookup of an
/// object as of any transaction from the entry's own on gives the entry's
/// address.
pub proof fn lemma_omap_find(
    img: Seq<u8>,
    bs: nat,
    es: Seq<(u64, u64, u64)>,
    next: int,
    total: int,
    xid: u64,
    t: Tree,
    i: int,
    key: OmapKey,
)
    requires
        512 <= bs <= 0x1_0000,
        rising(es),
        0 <= i < es.len(),
        0 <= next,
        total <= u64::MAX,
        plan::omap_tree(es, bs, next, total, xid) == Ok::<Tree, Error>(t),
        stored::holds(img, bs as int, t.blocks),
        key.oid == es[i].0,
        es[i].1 <= key.xid,
    ensures
        block::block_at(img, bs as int, t.root) is Ok,
        omap::find(img, block::block_at(img, bs as int, t.root)->Ok_0, key) == Ok::<
            Option<OmapVal>,
            Error,
        >(Some((OmapVal { flags: 0, size: 0, paddr: es[i].2 }))),
{
    let m = pack::omap_per_leaf(bs as int);
    let gs = pack::omap_groups(es, m);
    let k = gs.len() as int;
    let g = lemma_groups(es, m, next, i);
    plan::lemma_group_fits(es, bs as int, g, k == 1);
    if k == 1 {
        let b = node::omap_leaf(bs, gs[0], true, xid);
        assert(t.blocks[0] == (next as u64, b));
        lemma_leaf(bs, gs[0], true, xid);
        lemma_best(bs, gs[0], true, xid, i - g * m, key, gs[0].len());
    } else {
        let seps = plan::omap_seps(gs, next);
        let rb = node::omap_internal_root(bs, seps, xid);
        let lb = node::omap_leaf(bs, gs[g], false, xid);
        assert(t.blocks[k] == ((next + k) as u64, rb));
        assert(t.blocks[g] == ((next + g) as u64, lb));
        lemma_internal(bs, seps, xid);
        lemma_search(bs, seps, xid, key, g, 0, k - 1, 0);
        assert(btree::child_entry(rb, g, 16) == Ok::<(Seq<u8>, u64), Error>(
            (node::omap_key_bytes(seps[g].0, seps[g].1), seps[g].2),
        ));
        assert(omap::child_for(rb, key) == Ok::<u64, Error>((next + g) as u64));
        lemma_leaf(bs, gs[g], false, xid);
        lemma_best(bs, gs[g], false, xid, i - g * m, key, gs[g].len());
        assert(block::block_at(img, bs as int, (next + g) as u64) == Ok::<Seq<u8>, Error>(lb));
        assert(omap::descend(img, bs as int, (next + g) as u64, 1, key, 2)
            == omap::leaf_lookup(lb, key));
    }
}

} // verus!
