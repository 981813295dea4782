//! Every block of an image has a place of its own.

use vstd::prelude::*;

use crate::apfs::checksum;
use crate::apfs::pack;
use crate::apfs::plan::{self, FsTree, Placed, Tree};
use crate::apfs::spaceman;
use crate::apfs::write::Draft;
use crate::bytes;
use crate::error::Error;
use crate::num;

use super::{maps, stored, tree};

verus! {

/// Whether each of the blocks `bl` lies in `lo..hi` or is one of `few`.
pub open spec fn spread(bl: Seq<Placed>, lo: int, hi: int, few: Set<u64>) -> bool {
    forall|i: int|
        0 <= i < bl.len() ==> lo <= (#[trigger] bl[i]).0 < hi || few.contains(bl[i].0)
}

/// Blocks behind those so far, or single ones before them, keep apart.
proof fn lemma_more(
    x: Seq<Placed>,
    y: Seq<Placed>,
    bs: int,
    lo: int,
    mid: int,
    hi: int,
    few: Set<u64>,
    more: Set<u64>,
)
    requires
        stored::apart(x, bs),
        spread(x, lo, mid, few),
        stored::apart(y, bs),
        spread(y, mid, hi, more),
        lo <= mid <= hi,
        forall|a: u64| #[trigger] more.contains(a) ==> a < lo && !few.contains(a),
        forall|a: u64| #[trigger] few.contains(a) ==> a < lo,
    ensures
        stored::apart(x + y, bs),
        spread(x + y, lo, hi, few.union(more)),
{
    assert forall|i: int| 0 <= i < y.len() implies stored::absent(x, (#[trigger] y[i]).0) by {
        assert forall|j: int| 0 <= j < x.len() implies (#[trigger] x[j]).0 != y[i].0 by {}
    }
    stored::lemma_apart_add(x, y, bs);
    let z = x + y;
    assert forall|i: int| 0 <= i < z.len() implies lo <= (#[trigger] z[i]).0 < hi || few.union(
        more,
    ).contains(z[i].0) by {
        if i < x.len() {
            assert(z[i] == x[i]);
        } else {
            assert(z[i] == y[i - x.len()]);
        }
    }
}

/// The nodes of an object map take the blocks from `next` on, one each.
pub proof fn lemma_omap_tree(
    es: Seq<(u64, u64, u64)>,
    bs: nat,
    next: int,
    total: int,
    xid: u64,
    t: Tree,
)
    requires
        512 <= bs <= 0x1_0000,
        0 <= next,
        total <= u64::MAX,
        plan::omap_tree(es, bs, next, total, xid) == Ok::<Tree, Error>(t),
    ensures
        stored::apart(t.blocks, bs as int),
        spread(t.blocks, next, t.next, Set::empty()),
        next <= t.root < t.next <= total,
{
    let m = pack::omap_per_leaf(bs as int);
    let gs = pack::omap_groups(es, m);
    let k = gs.len() as int;
    let n = es.len() as int;
    if n > 0 {
        num::lemma_div_up(n, m);
    }
    assert forall|i: int| 0 <= i < t.blocks.len() implies (#[trigger] t.blocks[i]).1.len()
        == bs by {
        if i < k {
            plan::lemma_group_fits(es, bs as int, i, k == 1);
            maps::lemma_leaf(bs, gs[i], k == 1, xid);
        } else {
            maps::lemma_internal(bs, plan::omap_seps(gs, next), xid);
        }
    }
}

/// The nodes of a filesystem tree take the blocks from `next` on, one each.
pub proof fn lemma_fs_tree(
    rs: Seq<pack::Rec>,
    bs: nat,
    next: int,
    total: int,
    xid: u64,
    f: FsTree,
)
    requires
        512 <= bs <= 0x1_0000,
        0 <= next,
        total <= u64::MAX,
        plan::fs_tree(rs, bs, next, total, xid) == Ok::<FsTree, Error>(f),
    ensures
        stored::apart(f.tree.blocks, bs as int),
        spread(f.tree.blocks, next, f.tree.next, Set::empty()),
        next <= f.tree.root < f.tree.next <= total,
{
    let ls = pack::pack(rs, bs - 96).unwrap();
    let k = ls.len() as int;
    pack::lemma_pack(rs, bs - 96);
    let bl = f.tree.blocks;
    assert forall|i: int| 0 <= i < bl.len() implies (#[trigger] bl[i]).1.len() == bs by {
        if k == 1 {
            tree::lemma_leaf(ls[0], bs, plan::FSROOT_VID, true, xid, 0, 0);
        } else if i < k {
            tree::lemma_leaf(ls[i], bs, (plan::FS_LEAF_VID_BASE + i) as u64, false, xid, 0, 0);
        } else {
            tree::lemma_internal(plan::fs_seps(ls), bs, plan::FSROOT_VID, xid, 0);
        }
    }
}

/// Single blocks are as long as a block.
proof fn lemma_lens(d: Draft, paddr: u64, other: u64)
    requires
        d.wf(),
    ensures
        d.apsb(paddr, other).len() == d.block_size,
        d.nxsb(paddr, other).len() == d.block_size,
        crate::apfs::write::omap_header(d.block_size as nat, paddr, other, d.xid).len() == d.block_size,
        crate::apfs::write::chkmap(d.block_size as nat, d.xid).len() == d.block_size,
        spaceman::free_queue_root(d.block_size as nat, paddr, d.xid).len() == d.block_size,
        bytes::zeros(d.block_size as nat).len() == d.block_size,
{
    broadcast use {bytes::lemma_put_len, bytes::lemma_zeros_len};

}

/// Trees one behind another, and single blocks before them, keep apart.
proof fn lemma_five(
    a: Seq<Placed>,
    b: Seq<Placed>,
    p: Placed,
    q: Placed,
    c: Seq<Placed>,
    r: Placed,
    bs: int,
    at: (int, int, int, int),
)
    requires
        stored::apart(a, bs),
        stored::apart(b, bs),
        stored::apart(c, bs),
        at.0 <= at.1 <= at.2 <= at.3,
        spread(a, at.0, at.1, Set::empty()),
        spread(b, at.1, at.2, Set::empty()),
        spread(c, at.2, at.3, Set::empty()),
        p.1.len() == bs,
        q.1.len() == bs,
        r.1.len() == bs,
        p.0 < at.0,
        q.0 < at.0,
        r.0 < at.0,
        p.0 != q.0,
        p.0 != r.0,
        q.0 != r.0,
    ensures
        stored::apart(a + b + seq![p, q] + c + seq![r], bs),
        spread(a + b + seq![p, q] + c + seq![r], at.0, at.3, set![r.0, q.0, p.0]),
{
    let none = Set::<u64>::empty();
    let two = set![p.0, q.0];
    lemma_more(a, b, bs, at.0, at.1, at.2, none, none);
    assert(none.union(none) =~= none);
    lemma_more(a + b, seq![p, q], bs, at.0, at.2, at.2, none, two);
    assert(none.union(two) =~= two);
    lemma_more(a + b + seq![p, q], c, bs, at.0, at.2, at.3, two, none);
    assert(two.union(none) =~= two);
    lemma_more(a + b + seq![p, q] + c, seq![r], bs, at.0, at.3, at.3, two, set![r.0]);
    assert(two.union(set![r.0]) =~= set![r.0, q.0, p.0]);
}

/// The trees of an image take one run of blocks after another.
proof fn lemma_trees(d: Draft, t: (FsTree, Tree, Tree))
    requires
        d.wf(),
        d.trees() == Ok::<(FsTree, Tree, Tree), Error>(t),
    ensures
        stored::apart(t.0.tree.blocks, d.block_size as int),
        stored::apart(t.1.blocks, d.block_size as int),
        stored::apart(t.2.blocks, d.block_size as int),
        spread(t.0.tree.blocks, d.base(), t.0.tree.next, Set::empty()),
        spread(t.1.blocks, t.0.tree.next, t.1.next, Set::empty()),
        spread(t.2.blocks, t.1.next, t.2.next, Set::empty()),
        d.base() < t.0.tree.next < t.1.next < t.2.next <= d.total_blocks,
{
    let bs = d.block_size as nat;
    let total = d.total_blocks as int;
    lemma_fs_tree(pack::sort(d.records), bs, d.base(), total, d.xid, t.0);
    lemma_omap_tree(t.0.entries, bs, t.0.tree.next, total, d.xid, t.1);
    let own = seq![(crate::apfs::write::VOLUME_VID, d.xid, d.places().1)];
    lemma_omap_tree(own, bs, t.1.next, total, d.xid, t.2);
}

/// The blocks of the trees, object maps and volume superblock keep apart.
pub proof fn lemma_volume_blocks(d: Draft, t: (FsTree, Tree, Tree))
    requires
        d.wf(),
        d.trees() == Ok::<(FsTree, Tree, Tree), Error>(t),
    ensures
        stored::apart(d.volume_blocks(t), d.block_size as int),
        spread(
            d.volume_blocks(t),
            d.base(),
            t.2.next,
            set![d.places().0, d.places().1, d.places().2],
        ),
        d.base() < t.0.tree.next < t.1.next < t.2.next <= d.total_blocks,
{
    let bs = d.block_size as nat;
    let (cont, apsb, vol) = d.places();
    lemma_trees(d, t);
    lemma_lens(d, vol, t.1.root);
    lemma_lens(d, apsb, vol);
    lemma_lens(d, cont, t.2.root);
    lemma_five(
        t.0.tree.blocks,
        t.1.blocks,
        (vol, crate::apfs::write::omap_header(bs, vol, t.1.root, d.xid)),
        (apsb, d.apsb(apsb, vol)),
        t.2.blocks,
        (cont, crate::apfs::write::omap_header(bs, cont, t.2.root, d.xid)),
        bs as int,
        (d.base(), t.0.tree.next, t.1.next, t.2.next),
    );
}

/// Address of block `i` of a space manager of `c` chunks with its data from
/// block `next` on.
spec fn manager_at(next: int, c: int, i: int) -> int {
    if i == 0 {
        17
    } else if i == 1 {
        next + 20
    } else if i < 2 + c {
        next + 21 + (i - 2)
    } else if i == 2 + c {
        next
    } else {
        next + 17 + (i - 3 - c)
    }
}

/// Those addresses are distinct.
proof fn lemma_manager_at(m: Seq<Placed>, bs: int, next: int, c: int)
    requires
        0 <= c,
        21 <= next,
        m.len() == 6 + c,
        forall|i: int|
            0 <= i < m.len() ==> (#[trigger] m[i]).0 == manager_at(next, c, i) && m[i].1.len()
                == bs,
    ensures
        stored::apart(m, bs),
        spread(m, next, next + 21 + c, set![crate::apfs::write::SPACEMAN_PADDR]),
{
}

/// The blocks of the space manager are as long as a block.
proof fn lemma_manager_lens(d: Draft, next: int)
    requires
        d.wf(),
        d.manager_layout(next).refused() is None,
    ensures
        d.manager_layout(next).manager().len() == d.block_size,
        d.manager_layout(next).cib().len() == d.block_size,
        forall|i: int| (#[trigger] d.manager_layout(next).chunk_bitmap(i)).len() == d.block_size,
{
    let l = d.manager_layout(next);
    let c = l.chunks();
    assert(l.manager().len() == d.block_size && l.cib_head().len() == d.block_size) by {
        broadcast use {bytes::lemma_put_len, bytes::lemma_zeros_len};

    }
    spaceman::lemma_with_chunks_head(l, l.cib_head(), c);
    let w = l.with_chunks(l.cib_head(), c);
    bytes::lemma_put_len(w, 0, bytes::le64(checksum::block_cksum(w) as u64));
}

/// The blocks of the space manager keep apart.
proof fn lemma_manager_blocks(d: Draft, next: int, m: Seq<Placed>)
    requires
        d.wf(),
        crate::apfs::write::BUMP_BLOCK_START <= next,
        d.manager_blocks(next) == Ok::<Seq<Placed>, Error>(m),
    ensures
        stored::apart(m, d.block_size as int),
        spread(
            m,
            next,
            next + 21 + d.manager_layout(next).chunks(),
            set![crate::apfs::write::SPACEMAN_PADDR],
        ),
        next + 21 + d.manager_layout(next).chunks() <= d.total_blocks,
        0 <= d.manager_layout(next).chunks(),
{
    let l = d.manager_layout(next);
    let bs = d.block_size as nat;
    let c = l.chunks();
    num::lemma_div_up(d.total_blocks as int, 8 * d.block_size as int);
    lemma_manager_lens(d, next);
    let a = l.free_queue_paddrs;
    lemma_lens(d, a[0], 0);
    lemma_lens(d, a[1], 0);
    lemma_lens(d, a[2], 0);
    let maps = Seq::new(c as nat, |i: int| (l.bitmap_paddrs[i], l.chunk_bitmap(i)));
    let few = seq![
        (l.ip_bm_base, bytes::zeros(bs)),
        (a[0], spaceman::free_queue_root(bs, a[0], d.xid)),
        (a[1], spaceman::free_queue_root(bs, a[1], d.xid)),
        (a[2], spaceman::free_queue_root(bs, a[2], d.xid)),
    ];
    assert(m == seq![(crate::apfs::write::SPACEMAN_PADDR, l.manager()), (l.cib_paddr, l.cib())]
        + maps + few);
    assert forall|i: int| 0 <= i < m.len() implies (#[trigger] m[i]).0 == manager_at(next, c, i)
        && m[i].1.len() == bs by {
        if 2 <= i < 2 + c {
            assert(m[i] == maps[i - 2]);
        } else if i >= 2 + c {
            assert(m[i] == few[i - 2 - c]);
        }
    }
    lemma_manager_at(m, bs as int, next, c);
}

/// The fixed blocks of a new container besides those of the volume.
pub open spec fn fixed() -> Set<u64> {
    set![
        crate::apfs::write::CONT_OMAP_PADDR,
        crate::apfs::write::APSB_PADDR,
        crate::apfs::write::VOL_OMAP_PADDR,
        crate::apfs::write::SPACEMAN_PADDR,
        crate::apfs::write::CHKMAP_PADDR,
        0u64,
    ]
}

/// First block behind all that the image takes.
pub open spec fn end(d: Draft) -> int {
    let next = d.trees()->Ok_0.2.next;
    if d.fresh {
        next + 21 + d.manager_layout(next).chunks()
    } else {
        next
    }
}

/// No two blocks of an image have one address, and all are whole blocks. A new
/// container writes its fixed blocks, its superblock and blocks from the next
/// free one on; a later checkpoint nothing but its superblock and blocks from
/// the next free one on.
pub proof fn lemma_plan_apart(d: Draft, bl: Seq<Placed>)
    requires
        d.wf(),
        d.plan() == Ok::<Seq<Placed>, Error>(bl),
    ensures
        stored::apart(bl, d.block_size as int),
        spread(
            bl,
            d.next_block as int,
            end(d),
            if d.fresh {
                fixed().insert(d.nxsb_paddr)
            } else {
                set![d.nxsb_paddr]
            },
        ),
        d.next_block < end(d) <= d.total_blocks,
{
    let t = d.trees().unwrap();
    let bs = d.block_size as int;
    let (cont, apsb, vol) = d.places();
    let total = d.total_blocks as int;
    let x = d.volume_blocks(t);
    let few = set![cont, apsb, vol];
    lemma_volume_blocks(d, t);
    lemma_lens(d, d.nxsb_paddr, cont);
    lemma_lens(d, 0, cont);
    let nx = d.nxsb_paddr;
    if d.fresh {
        let m = d.manager_blocks(t.2.next).unwrap();
        lemma_manager_blocks(d, t.2.next, m);
        let p = (crate::apfs::write::CHKMAP_PADDR, crate::apfs::write::chkmap(
            d.block_size as nat,
            d.xid,
        ));
        lemma_whole(
            x,
            m,
            p,
            (nx, d.nxsb(nx, cont)),
            (0u64, d.nxsb(0, cont)),
            bs,
            (d.next_block as int, t.2.next, end(d)),
        );
    } else {
        lemma_checkpoint(x, (nx, d.nxsb(nx, cont)), bs, (d.next_block, d.base(), t.2.next, end(d)));
    }
}

/// The blocks of a new container from those of its parts.
proof fn lemma_whole(
    x: Seq<Placed>,
    m: Seq<Placed>,
    p: Placed,
    q: Placed,
    r: Placed,
    bs: int,
    at: (int, int, int),
)
    requires
        stored::apart(x, bs),
        stored::apart(m, bs),
        crate::apfs::write::BUMP_BLOCK_START <= at.0 <= at.1 <= at.2,
        spread(
            x,
            at.0,
            at.1,
            set![
                crate::apfs::write::CONT_OMAP_PADDR,
                crate::apfs::write::APSB_PADDR,
                crate::apfs::write::VOL_OMAP_PADDR,
            ],
        ),
        spread(m, at.1, at.2, set![crate::apfs::write::SPACEMAN_PADDR]),
        p.0 == crate::apfs::write::CHKMAP_PADDR,
        2 <= q.0 <= 16,
        r.0 == 0,
        p.1.len() == bs,
        q.1.len() == bs,
        r.1.len() == bs,
    ensures
        stored::apart(x + m + seq![p, q, r], bs),
        spread(x + m + seq![p, q, r], at.0, at.2, fixed().insert(q.0)),
{
    let few = set![
        crate::apfs::write::CONT_OMAP_PADDR,
        crate::apfs::write::APSB_PADDR,
        crate::apfs::write::VOL_OMAP_PADDR,
    ];
    let sm = set![crate::apfs::write::SPACEMAN_PADDR];
    let tail = set![p.0, q.0, r.0];
    lemma_more(x, m, bs, at.0, at.1, at.2, few, sm);
    lemma_more(x + m, seq![p, q, r], bs, at.0, at.2, at.2, few.union(sm), tail);
    assert(few.union(sm).union(tail) =~= fixed().insert(q.0));
}

/// The blocks of a later checkpoint from those of its parts.
proof fn lemma_checkpoint(x: Seq<Placed>, q: Placed, bs: int, at: (u64, int, int, int))
    requires
        stored::apart(x, bs),
        crate::apfs::write::BUMP_BLOCK_START <= at.0,
        at.1 == at.0 + 3,
        at.1 <= at.2 <= at.3 <= u64::MAX,
        spread(x, at.1, at.2, set![at.0, (at.0 + 1) as u64, (at.0 + 2) as u64]),
        2 <= q.0 <= 16,
        q.1.len() == bs,
    ensures
        stored::apart(x + seq![q], bs),
        spread(x + seq![q], at.0 as int, at.3, set![q.0]),
{
    assert(spread(x, at.0 as int, at.2, Set::empty()));
    lemma_more(x, seq![q], bs, at.0 as int, at.2, at.3, Set::empty(), set![q.0]);
    assert(Set::<u64>::empty().union(set![q.0]) =~= set![q.0]);
}

} // verus!
