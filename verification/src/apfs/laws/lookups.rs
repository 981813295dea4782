//! Looking up one record in any tree that is in order, whoever built it, of
//! whatever depth.

use vstd::prelude::*;

use crate::apfs::btree;
use crate::apfs::fstree::{self, Target};
use crate::apfs::pack::Rec;
use crate::apfs::rangescan;
use crate::error::Error;
use crate::order::Order;

use super::scans::{self, child, child_records, kids_records, separator};

verus! {

/// How the key of `r` compares with the target `t`.
pub open spec fn side(r: Rec, t: Target) -> Order {
    fstree::order_key(r.0, t)
}

/// Whether all of the records `rs` are on the side `o` of the target `t`.
pub open spec fn all_on(rs: Seq<Rec>, t: Target, o: Order) -> bool {
    forall|i: int| 0 <= i < rs.len() ==> side(#[trigger] rs[i], t) == o
}

/// Whether the key of entry `i` of the internal node `b` is above `t`.
pub open spec fn above(b: Seq<u8>, klen: int, i: int, t: Target) -> bool {
    fstree::order_key(separator(b, klen, i), t) == Order::Greater
}

/// Whether the subtree of node `b` is in order, as seen from the target `t`.
pub open spec fn parted(v: fstree::Vol, b: Seq<u8>, klen: int, level: int, depth: int, t: Target) -> bool
    decreases level, 0int,
{
    btree::node_level(b) < level && (btree::node_is_leaf(b) || kids_parted(
        v,
        b,
        klen,
        depth + 1,
        0,
        t,
    ))
}

/// Whether the children of node `b` from entry `i` on are in order, as seen from
/// the target `t`: behind a key above `t` all records and keys are above it, and
/// in front of a key that is not, all records are below it, and no key is above.
pub open spec fn kids_parted(
    v: fstree::Vol,
    b: Seq<u8>,
    klen: int,
    depth: int,
    i: int,
    t: Target,
) -> bool
    decreases btree::node_level(b) as int, btree::node_nkeys(b) - i,
{
    i >= btree::node_nkeys(b) || {
        let rs = child_records(v, b, klen, depth, i);
        &&& parted(v, child(v, b, klen, i), klen, btree::node_level(b) as int, depth, t)
        &&& above(b, klen, i, t) ==> all_on(rs, t, Order::Greater)
        &&& i + 1 < btree::node_nkeys(b) ==> {
            &&& above(b, klen, i, t) ==> above(b, klen, i + 1, t)
            &&& !above(b, klen, i + 1, t) ==> all_on(rs, t, Order::Less)
        }
        &&& kids_parted(v, b, klen, depth, i + 1, t)
    }
}

/// Whether every node of the tree with the root `root` can be read, and the tree
/// is in order as seen from the target `t`.
pub open spec fn searchable(v: fstree::Vol, root: Seq<u8>, t: Target) -> bool {
    let klen = fstree::root_klen(root);
    scans::readable(v, root, klen, 0x1_0000, 0) && parted(v, root, klen, 0x1_0000, 0, t)
}

/// The value of the first of the records `rs` whose key compares equal to `t`.
pub open spec fn held(rs: Seq<Rec>, t: Target) -> Option<Seq<u8>>
    decreases rs.len(),
{
    if rs.len() == 0 {
        None
    } else if side(rs[0], t) == Order::Equal {
        Some(rs[0].1)
    } else {
        held(rs.drop_first(), t)
    }
}

/// Where `held` finds a record, and that it finds one where there is one.
pub proof fn lemma_held(rs: Seq<Rec>, t: Target)
    ensures
        held(rs, t) is None <==> forall|i: int|
            0 <= i < rs.len() ==> side(#[trigger] rs[i], t) != Order::Equal,
        held(rs, t) matches Some(x) ==> exists|i: int|
            0 <= i < rs.len() && side(#[trigger] rs[i], t) == Order::Equal && rs[i].1 == x,
    decreases rs.len(),
{
    if rs.len() > 0 {
        let d = rs.drop_first();
        lemma_held(d, t);
        if side(rs[0], t) != Order::Equal {
            if held(d, t) is None {
                assert forall|i: int| 0 <= i < rs.len() implies side(#[trigger] rs[i], t)
                    != Order::Equal by {
                    if i > 0 {
                        assert(rs[i] == d[i - 1]);
                    }
                }
            } else {
                let i = choose|i: int|
                    0 <= i < d.len() && side(#[trigger] d[i], t) == Order::Equal && d[i].1 == held(
                        d,
                        t,
                    )->Some_0;
                assert(rs[i + 1] == d[i]);
            }
        }
    }
}

/// Records in front and behind that do not compare equal do not count.
proof fn lemma_between(a: Seq<Rec>, rs: Seq<Rec>, b: Seq<Rec>, t: Target)
    requires
        all_on(a, t, Order::Less),
        all_on(b, t, Order::Greater),
    ensures
        held(a + (rs + b), t) == held(rs, t),
    decreases a.len() + rs.len(),
{
    let s = a + (rs + b);
    if a.len() > 0 {
        let d = a.drop_first();
        assert forall|i: int| 0 <= i < d.len() implies side(#[trigger] d[i], t) == Order::Less by {
            assert(d[i] == a[i + 1]);
        }
        assert(s[0] == a[0]);
        assert(s.drop_first() =~= d + (rs + b));
        lemma_between(d, rs, b, t);
    } else if rs.len() > 0 {
        let d = rs.drop_first();
        assert(s[0] == rs[0]);
        assert(s.drop_first() =~= a + (d + b));
        lemma_between(a, d, b, t);
    } else {
        assert(s =~= b);
        lemma_held(b, t);
    }
}

/// What a scan of a leaf for one record finds.
proof fn lemma_leaf(b: Seq<u8>, klen: int, t: Target, i: int)
    requires
        scans::leaf_sound(b, klen),
        0 <= i <= btree::node_nkeys(b),
    ensures
        fstree::leaf_exact(b, klen, t, i) == Ok::<Option<Seq<u8>>, Error>(
            held(scans::records_of(rangescan::leaf_items(b, klen, i)), t),
        ),
    decreases btree::node_nkeys(b) - i,
{
    let s = rangescan::leaf_items(b, klen, i);
    let rs = scans::records_of(s);
    if i < btree::node_nkeys(b) {
        assert(btree::entry(b, i, klen, 0) is Ok);
        let e = btree::entry(b, i, klen, 0)->Ok_0;
        let more = rangescan::leaf_items(b, klen, i + 1);
        lemma_leaf(b, klen, t, i + 1);
        assert(s[0] == Ok::<Rec, Error>(e));
        assert(rs[0] == e);
        assert(rs.drop_first() =~= scans::records_of(more));
    }
}

/// The children in front of entry `g`, whose key is not above `t`, hold records
/// below `t` alone.
proof fn lemma_before(
    v: fstree::Vol,
    b: Seq<u8>,
    klen: int,
    depth: int,
    i: int,
    g: int,
    t: Target,
) -> (w: Seq<Rec>)
    requires
        scans::kids_readable(v, b, klen, depth, i),
        kids_parted(v, b, klen, depth, i, t),
        0 <= i <= g < btree::node_nkeys(b),
        i < g ==> !above(b, klen, g, t),
    ensures
        kids_records(v, b, klen, depth, i) == w + kids_records(v, b, klen, depth, g),
        all_on(w, t, Order::Less),
        scans::kids_readable(v, b, klen, depth, g),
        kids_parted(v, b, klen, depth, g, t),
        i < g ==> !above(b, klen, i, t),
    decreases g - i,
{
    if i == g {
        let w = Seq::<Rec>::empty();
        assert(w + kids_records(v, b, klen, depth, g) =~= kids_records(v, b, klen, depth, g));
        w
    } else {
        scans::lemma_kids(v, b, klen, depth, i);
        let x = lemma_before(v, b, klen, depth, i + 1, g, t);
        let own = child_records(v, b, klen, depth, i);
        let w = own + x;
        assert(!above(b, klen, i + 1, t));
        assert(own + (x + kids_records(v, b, klen, depth, g)) =~= w + kids_records(
            v,
            b,
            klen,
            depth,
            g,
        ));
        assert forall|j: int| 0 <= j < w.len() implies side(#[trigger] w[j], t) == Order::Less by {
            if j < own.len() {
                assert(w[j] == own[j]);
            } else {
                assert(w[j] == x[j - own.len()]);
            }
        }
        w
    }
}

/// The children from entry `i` on, whose key is above `t`, hold records above `t`
/// alone.
proof fn lemma_after(v: fstree::Vol, b: Seq<u8>, klen: int, depth: int, i: int, t: Target)
    requires
        scans::kids_readable(v, b, klen, depth, i),
        kids_parted(v, b, klen, depth, i, t),
        0 <= i <= btree::node_nkeys(b),
        i < btree::node_nkeys(b) ==> above(b, klen, i, t),
    ensures
        all_on(kids_records(v, b, klen, depth, i), t, Order::Greater),
    decreases btree::node_nkeys(b) - i,
{
    let rs = kids_records(v, b, klen, depth, i);
    scans::lemma_kids(v, b, klen, depth, i);
    if i < btree::node_nkeys(b) {
        let own = child_records(v, b, klen, depth, i);
        let more = kids_records(v, b, klen, depth, i + 1);
        lemma_after(v, b, klen, depth, i + 1, t);
        assert forall|j: int| 0 <= j < rs.len() implies side(#[trigger] rs[j], t)
            == Order::Greater by {
            if j < own.len() {
                assert(rs[j] == own[j]);
            } else {
                assert(rs[j] == more[j - own.len()]);
            }
        }
    } else {
        assert(rangescan::kids(v, b, klen, depth, i) =~= Seq::empty());
    }
}

/// Every child can be read where all can.
proof fn lemma_kids_at(v: fstree::Vol, b: Seq<u8>, klen: int, depth: int, i: int, j: int)
    requires
        scans::kids_readable(v, b, klen, depth, i),
        0 <= i <= j < btree::node_nkeys(b),
    ensures
        btree::child_entry(b, j, klen) is Ok,
        separator(b, klen, j).len() >= 8,
    decreases j - i,
{
    if i < j {
        lemma_kids_at(v, b, klen, depth, i + 1, j);
    }
}

/// The child `r.0` of a node in which `t` belongs, the records in front of it,
/// which are below `t`, and that those behind it are above.
proof fn lemma_child(v: fstree::Vol, b: Seq<u8>, klen: int, depth: int, t: Target) -> (r: (
    int,
    Seq<Rec>,
))
    requires
        scans::kids_readable(v, b, klen, depth, 0),
        kids_parted(v, b, klen, depth, 0, t),
        btree::node_nkeys(b) > 0,
    ensures
        fstree::child_index(b, klen, t) == Ok::<int, Error>(r.0),
        0 <= r.0 < btree::node_nkeys(b),
        scans::kids_readable(v, b, klen, depth, r.0),
        kids_parted(v, b, klen, depth, r.0, t),
        all_on(r.1, t, Order::Less),
        all_on(kids_records(v, b, klen, depth, r.0 + 1), t, Order::Greater),
        kids_records(v, b, klen, depth, 0) == r.1 + (child_records(v, b, klen, depth, r.0)
            + kids_records(v, b, klen, depth, r.0 + 1)),
{
    let n = btree::node_nkeys(b) as int;
    assert forall|j: int|
        #![trigger btree::child_entry(b, j, klen)]
        0 <= j < n implies btree::child_entry(b, j, klen) is Ok && separator(b, klen, j).len()
        >= 8 by {
        lemma_kids_at(v, b, klen, depth, 0, j);
    }
    let g = scans::lemma_search(b, klen, t, 0, n - 1, 0);
    let w = lemma_before(v, b, klen, depth, 0, g, t);
    scans::lemma_kids(v, b, klen, depth, g);
    lemma_after(v, b, klen, depth, g + 1, t);
    (g, w)
}

/// What a lookup finds in the subtree of node `b`.
proof fn lemma_find(
    v: fstree::Vol,
    b: Seq<u8>,
    klen: int,
    level: int,
    depth: int,
    t: Target,
    fuel: nat,
)
    requires
        scans::readable(v, b, klen, level, depth),
        parted(v, b, klen, level, depth, t),
        fuel == 65 - depth,
    ensures
        fstree::find_from(v, b, klen, level, t, fuel) == Ok::<Option<Seq<u8>>, Error>(
            held(scans::records_of(rangescan::walk(v, b, klen, level, depth)), t),
        ),
    decreases level,
{
    if btree::node_is_leaf(b) {
        lemma_leaf(b, klen, t, 0);
    } else {
        let at = depth + 1;
        let lvl = btree::node_level(b) as int;
        let (g, w) = lemma_child(v, b, klen, at, t);
        let own = child_records(v, b, klen, at, g);
        let more = kids_records(v, b, klen, at, g + 1);
        lemma_find(v, child(v, b, klen, g), klen, lvl, at, t, (fuel - 1) as nat);
        lemma_between(w, own, more, t);
    }
}

/// A lookup in any tree that can be read and is in order, as seen from the target:
/// it finds the value of the record whose key compares equal to the target, if the
/// tree holds one, of several the first; and nothing if the tree holds none.
pub proof fn lemma_lookup(v: fstree::Vol, root: Seq<u8>, t: Target)
    requires
        searchable(v, root, t),
    ensures
        ({
            let rs = scans::all_of(v, root);
            let r = fstree::find_from(v, root, fstree::root_klen(root), 0x1_0000, t, 65);
            &&& r == Ok::<Option<Seq<u8>>, Error>(held(rs, t))
            &&& r->Ok_0 is None <==> forall|i: int|
                0 <= i < rs.len() ==> side(#[trigger] rs[i], t) != Order::Equal
            &&& r->Ok_0 matches Some(x) ==> exists|i: int|
                0 <= i < rs.len() && side(#[trigger] rs[i], t) == Order::Equal && rs[i].1 == x
        }),
{
    lemma_find(v, root, fstree::root_klen(root), 0x1_0000, 0, t, 65);
    lemma_held(scans::all_of(v, root), t);
}

} // verus!
