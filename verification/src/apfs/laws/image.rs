//! Opening an image that was written.

use vstd::prelude::*;

use crate::apfs::checksum;
use crate::apfs::container;
use crate::apfs::fstree::{self, DrecKeyLayout};
use crate::apfs::node;
use crate::apfs::obj;
use crate::apfs::omap::{self, OmapKey};
use crate::apfs::pack::{self, Rec};
use crate::apfs::plan::{self, Placed};
use crate::apfs::rw;
use crate::apfs::superblock;
use crate::apfs::volume;
use crate::apfs::write::Draft;
use crate::block;
use crate::bytes;
use crate::error::Error;
use crate::num;
use crate::text;

use super::{layout, maps, stored, tree};

verus! {

/// Whether no superblock that the device `img` holds is as late as that of `d`,
/// besides those that `d` overwrites; and, for a later checkpoint, whether the
/// superblock of block 0 describes the same container.
pub open spec fn ready(img: Seq<u8>, d: Draft) -> bool {
    &&& forall|i: int|
        0 <= i < 16 && 1 + i != d.nxsb_paddr && !(d.fresh && i == 0) ==> #[trigger] older(
            img,
            d.block_size as int,
            (1 + i) as u64,
            d.xid,
        )
    &&& !d.fresh ==> labelled(img, d)
}

/// Whether the writer `d` can finish, and did on the device `img`.
pub open spec fn written(img: Seq<u8>, d: Draft, bl: Seq<Placed>) -> bool {
    &&& d.wf()
    &&& d.block_size >= 1024
    &&& d.next_oid <= u64::MAX - 1024
    &&& d.xid < u64::MAX
    &&& d.records.len() + 0x2_0000 <= u64::MAX
    &&& d.plan() == Ok::<Seq<Placed>, Error>(bl)
    &&& block::store_all(img, d.block_size as int, bl).1
}

/// Whether the device `img` holds the checkpoint of the writer `d`, all its
/// blocks `bl`, as the live one.
pub open spec fn sealed(img: Seq<u8>, d: Draft, bl: Seq<Placed>) -> bool {
    let bs = d.block_size as int;
    &&& d.wf()
    &&& d.block_size >= 1024
    &&& d.next_oid <= u64::MAX - 1024
    &&& d.xid < u64::MAX
    &&& d.records.len() + 0x2_0000 <= u64::MAX
    &&& d.plan() == Ok::<Seq<Placed>, Error>(bl)
    &&& stored::holds(img, bs, bl)
    &&& labelled(img, d)
    &&& forall|i: int|
        0 <= i < 16 && 1 + i != d.nxsb_paddr ==> #[trigger] older(img, bs, (1 + i) as u64, d.xid)
}

/// Whether the device `img` opens, whoever wrote it, and holds just the records
/// of `d`: reading them all gives them in order, and a scan for one object and
/// kind gives those of that object and kind.
pub open spec fn reads(img: Seq<u8>, d: Draft) -> bool {
    let m = rw::first_open(img);
    &&& m is Ok
    &&& 0 < m->Ok_0.bs == d.block_size
    &&& m->Ok_0.xid == d.xid
    &&& m->Ok_0.layout == DrecKeyLayout::Plain
    &&& rw::all_records(m->Ok_0, img) == Ok::<Seq<Rec>, Error>(pack::sort(d.records))
    &&& tree::unrepeated(pack::sort(d.records)) ==> forall|oid: u64, kind: u8| #[trigger]
        volume::found(m->Ok_0, img, oid, kind) == (volume::Found {
            recs: tree::those(pack::sort(d.records), (oid, kind)),
            err: None,
        })
}

/// Whether block `a` of the device `img` holds no container superblock, a torn
/// one, or one of a transaction before `xid`.
pub open spec fn older(img: Seq<u8>, bs: int, a: u64, xid: u64) -> bool {
    match block::block_at(img, bs, a) {
        Err(_) => true,
        Ok(b) => superblock::is_nx(b) && !container::torn(b) ==> container::sb_xid(b) < xid,
    }
}

/// Whether the superblock in block 0 of the device `img` describes the container
/// of the writer `d`.
pub open spec fn labelled(img: Seq<u8>, d: Draft) -> bool {
    &&& container::label(img) is Ok
    &&& container::label(img)->Ok_0.len() == d.block_size
    &&& bytes::get64(container::label(img)->Ok_0, 112) == 1
    &&& bytes::get32(container::label(img)->Ok_0, 104) == 16
    &&& container::sb_xid(container::label(img)->Ok_0) <= d.xid
}

/// What was signed is not torn.
proof fn lemma_signed_whole(b: Seq<u8>)
    requires
        b.len() >= 8,
        b.len() % 4 == 0,
    ensures
        !container::torn(checksum::signed(b)),
{
    reveal(container::torn);
    let c = checksum::block_cksum(b);
    checksum::lemma_cksum_range(b.subrange(8, b.len() as int));
    if c == u64::MAX {
        bytes::lemma_get64_put_same(b, 0, c as u64);
    } else {
        checksum::lemma_signed_verifies(b);
    }
}

/// The fields of a container superblock that opening reads.
pub proof fn lemma_nxsb(d: Draft, paddr: u64, omap: u64)
    requires
        d.wf(),
        d.block_size >= 1024,
    ensures
        ({
            let b = d.nxsb(paddr, omap);
            &&& b.len() == d.block_size
            &&& superblock::is_nx(b)
            &&& !container::torn(b)
            &&& bytes::get64(b, 16) == d.xid
            &&& bytes::get32(b, 32) == superblock::NX_MAGIC
            &&& bytes::get32(b, 36) == d.block_size
            &&& bytes::get64(b, 40) == d.total_blocks
            &&& bytes::get32(b, 104) == 16
            &&& bytes::get64(b, 112) == 1
            &&& bytes::get64(b, 160) == omap
            &&& bytes::get64(b, 184) == crate::apfs::write::VOLUME_VID
        }),
{
    broadcast use bytes::group_fields;

    let n = d.block_size as int;
    reveal_with_fuel(num::is_pow2, 3);
    assert(n % 4 == 0);
    assert(d.nxsb_fields(paddr, omap).len() == n);
    lemma_signed_whole(d.nxsb_fields(paddr, omap));
}

/// The fields of a volume superblock that opening reads.
pub proof fn lemma_apsb(d: Draft, paddr: u64, omap: u64)
    requires
        d.wf(),
        d.block_size >= 1024,
    ensures
        ({
            let b = d.apsb(paddr, omap);
            &&& b.len() == d.block_size
            &&& superblock::is_apsb(b)
            &&& bytes::get64(b, 16) == d.xid
            &&& bytes::get64(b, 56) == 0
            &&& bytes::get64(b, 128) == omap
            &&& bytes::get64(b, 136) == plan::FSROOT_VID
            &&& bytes::get64(b, 152) == 0
            &&& bytes::get64(b, 264) == 1
        }),
{
    broadcast use bytes::group_fields;

}

/// An object-map header tells where its tree is.
proof fn lemma_header(img: Seq<u8>, bs: nat, paddr: u64, tree: u64, xid: u64)
    requires
        512 <= bs,
        block::block_at(img, bs as int, paddr) == Ok::<Seq<u8>, Error>(
            crate::apfs::write::omap_header(bs, paddr, tree, xid),
        ),
    ensures
        container::omap_at(img, bs as int, paddr) == Ok::<u64, Error>(tree),
{
    broadcast use bytes::group_fields;

}

/// The checkpoint map is no container superblock.
proof fn lemma_chkmap(bs: nat, xid: u64)
    requires
        512 <= bs,
    ensures
        !superblock::is_nx(crate::apfs::write::chkmap(bs, xid)),
{
    broadcast use bytes::group_fields;

}

/// The first `n` descriptor slots of an image in which the superblock `sb` at
/// slot `own` is the latest.
proof fn lemma_latest(img: Seq<u8>, lab: Seq<u8>, sb: Seq<u8>, own: int, n: int)
    requires
        lab.len() > 0,
        bytes::get64(lab, 112) == 1,
        0 <= n <= 16,
        0 <= own < 16,
        container::sb_xid(lab) <= container::sb_xid(sb),
        container::slot_sb(img, lab, own) == Some(sb),
        forall|i: int|
            0 <= i < 16 && i != own ==> match #[trigger] container::slot_sb(img, lab, i) {
                None => true,
                Some(b) => container::sb_xid(b) < container::sb_xid(sb),
            },
    ensures
        match container::latest(img, lab, n) {
            None => n <= own,
            Some((b, i)) => if n <= own {
                container::sb_xid(b) < container::sb_xid(sb)
            } else {
                b == sb && i == own
            },
        },
    decreases n,
{
    if n > 0 {
        lemma_latest(img, lab, sb, own, n - 1);
    }
}

/// A slot of the descriptor area is a block.
proof fn lemma_slot(img: Seq<u8>, lab: Seq<u8>, i: int)
    requires
        bytes::get64(lab, 112) == 1,
        0 <= i < 16,
    ensures
        container::slot_sb(img, lab, i) == match block::block_at(
            img,
            lab.len() as int,
            (1 + i) as u64,
        ) {
            Err(_) => None,
            Ok(b) => if superblock::is_nx(b) && !container::torn(b) {
                Some(b)
            } else {
                None
            },
        },
{
}

/// The superblock in block 0 once the image is written.
proof fn lemma_label(img: Seq<u8>, d: Draft, bl: Seq<Placed>)
    requires
        written(img, d, bl),
        ready(img, d),
    ensures
        labelled(block::store_all(img, d.block_size as int, bl).0, d),
{
    let bs = d.block_size as int;
    let out = block::store_all(img, bs, bl).0;
    layout::lemma_plan_apart(d, bl);
    stored::lemma_store_all(img, bs, bl);
    if d.fresh {
        let cont = d.places().0;
        let b = d.nxsb(0, cont);
        let t = d.trees().unwrap();
        let m = d.manager_blocks(t.2.next).unwrap();
        assert(bl[bl.len() - 1] == (0u64, b));
        lemma_nxsb(d, 0, cont);
        assert(0 * bs == 0) by (nonlinear_arith);
        assert(out.subrange(0, bs) =~= b);
        assert(out.len() >= 4096) by {
            let a = t.0.tree.blocks[0].0;
            layout::lemma_fs_tree(
                pack::sort(d.records),
                bs as nat,
                d.base(),
                d.total_blocks as int,
                d.xid,
                t.0,
            );
            assert(t.0.tree.blocks.len() > 0);
            assert(bl[0] == t.0.tree.blocks[0]);
            assert(block::block_at(out, bs, a) is Ok);
            assert(a * bs + bs >= 4096) by (nonlinear_arith)
                requires
                    a >= 21,
                    bs >= 1024,
            ;
        }
        let head = out.subrange(0, 4096);
        if bs <= 4096 {
            assert(b =~= head.subrange(0, bs));
            bytes::lemma_get_sub(head, 0, bs, 24);
            bytes::lemma_get_sub(head, 0, bs, 32);
            bytes::lemma_get_sub(head, 0, bs, 36);
        } else {
            assert(head =~= b.subrange(0, 4096));
            bytes::lemma_get_sub(b, 0, 4096, 24);
            bytes::lemma_get_sub(b, 0, 4096, 32);
            bytes::lemma_get_sub(b, 0, 4096, 36);
        }
    } else {
        lemma_front_kept(img, d, bl);
    }
}

/// A later checkpoint leaves block 0 as it is, and what is read with it.
proof fn lemma_front_kept(img: Seq<u8>, d: Draft, bl: Seq<Placed>)
    requires
        written(img, d, bl),
        ready(img, d),
        !d.fresh,
    ensures
        ({
            let out = block::store_all(img, d.block_size as int, bl).0;
            &&& container::label(out) is Ok
            &&& container::label(out)->Ok_0 == container::label(img)->Ok_0
        }),
{
    let bs = d.block_size as int;
    let out = block::store_all(img, bs, bl).0;
    layout::lemma_plan_apart(d, bl);
    stored::lemma_store_all(img, bs, bl);
    assert forall|p: int| 0 <= p < bs implies out[p] == img[p] by {
        assert forall|i: int| 0 <= i < bl.len() implies !((#[trigger] bl[i]).0 * bs <= p < bl[i].0
            * bs + bs) by {
            assert(bl[i].0 >= 1);
            let a = bl[i].0;
            assert(a * bs >= bs) by (nonlinear_arith)
                requires
                    a >= 1,
                    bs >= 0,
            ;
        }
        assert(stored::outside(bl, bs, p));
    }
    let lab = container::label(img)->Ok_0;
    assert(out.subrange(0, bs) =~= lab);
    let old_head = img.subrange(0, 4096);
    let head = out.subrange(0, 4096);
    if bs <= 4096 {
        assert(head.subrange(0, bs) =~= old_head.subrange(0, bs));
        bytes::lemma_get_sub(head, 0, bs, 24);
        bytes::lemma_get_sub(head, 0, bs, 32);
        bytes::lemma_get_sub(head, 0, bs, 36);
        bytes::lemma_get_sub(old_head, 0, bs, 24);
        bytes::lemma_get_sub(old_head, 0, bs, 32);
        bytes::lemma_get_sub(old_head, 0, bs, 36);
    } else {
        assert(head =~= old_head);
    }
}

/// Writing an image makes its checkpoint the live one.
pub proof fn lemma_sealed(img: Seq<u8>, d: Draft, bl: Seq<Placed>)
    requires
        written(img, d, bl),
        ready(img, d),
    ensures
        sealed(block::store_all(img, d.block_size as int, bl).0, d, bl),
{
    let bs = d.block_size as int;
    let out = block::store_all(img, bs, bl).0;
    layout::lemma_plan_apart(d, bl);
    stored::lemma_store_all(img, bs, bl);
    lemma_label(img, d, bl);
    assert forall|i: int| 0 <= i < 16 && 1 + i != d.nxsb_paddr implies #[trigger] older(
        out,
        bs,
        (1 + i) as u64,
        d.xid,
    ) by {
        let a = (1 + i) as u64;
        if d.fresh && i == 0 {
            assert(bl[bl.len() - 3] == (a, crate::apfs::write::chkmap(bs as nat, d.xid)));
            lemma_chkmap(bs as nat, d.xid);
            assert(block::block_at(out, bs, bl[bl.len() - 3].0) is Ok);
        } else {
            assert forall|j: int| 0 <= j < bl.len() implies (#[trigger] bl[j]).0 != a by {}
            stored::lemma_other_block(img, bs, bl, a);
            assert(older(img, bs, a, d.xid));
        }
    }
}

/// The container that opening a sealed image finds.
pub proof fn lemma_container(out: Seq<u8>, d: Draft, bl: Seq<Placed>)
    requires
        sealed(out, d, bl),
    ensures
        ({
            let bs = d.block_size as int;
            let t = d.trees()->Ok_0;
            let c = container::container(out);
            &&& c is Ok
            &&& c->Ok_0.sb == d.nxsb(d.nxsb_paddr, d.places().0)
            &&& c->Ok_0.slot == Some(d.nxsb_paddr - 1)
            &&& c->Ok_0.omap_tree == t.2.root
            &&& block::block_at(out, bs, t.2.root) == Ok::<Seq<u8>, Error>(c->Ok_0.omap)
        }),
{
    let bs = d.block_size as int;
    let t = d.trees()->Ok_0;
    let (cont, apsb, vol) = d.places();
    let own = d.nxsb_paddr - 1;
    let sb = d.nxsb(d.nxsb_paddr, cont);
    let lab = container::label(out)->Ok_0;
    lemma_nxsb(d, d.nxsb_paddr, cont);
    let at = if d.fresh {
        bl.len() - 2
    } else {
        bl.len() - 1
    };
    assert(bl[at] == (d.nxsb_paddr, sb));
    assert(block::block_at(out, bs, d.nxsb_paddr) == Ok::<Seq<u8>, Error>(sb));
    lemma_slot(out, lab, own);
    assert((1 + own) as u64 == d.nxsb_paddr);
    assert forall|i: int| 0 <= i < 16 && i != own implies match #[trigger] container::slot_sb(
        out,
        lab,
        i,
    ) {
        None => true,
        Some(b) => container::sb_xid(b) < container::sb_xid(sb),
    } by {
        lemma_slot(out, lab, i);
        assert(older(out, bs, (1 + i) as u64, d.xid));
    }
    lemma_latest(out, lab, sb, own, 16);
    let x = d.volume_blocks(t);
    assert(x[x.len() - 1] == (
        cont,
        crate::apfs::write::omap_header(bs as nat, cont, t.2.root, d.xid),
    ));
    assert(bl[x.len() - 1] == x[x.len() - 1]);
    lemma_header(out, bs as nat, cont, t.2.root, d.xid);
    lemma_parts(d, bl, out);
    let own_entry = seq![(crate::apfs::write::VOLUME_VID, d.xid, apsb)];
    layout::lemma_volume_blocks(d, t);
    maps::lemma_omap_find(
        out,
        bs as nat,
        own_entry,
        t.1.next,
        d.total_blocks as int,
        d.xid,
        t.2,
        0,
        OmapKey { oid: crate::apfs::write::VOLUME_VID, xid: d.xid },
    );
}

/// An image holds the nodes of each of its trees.
proof fn lemma_parts(d: Draft, bl: Seq<Placed>, out: Seq<u8>)
    requires
        d.wf(),
        d.plan() == Ok::<Seq<Placed>, Error>(bl),
        stored::holds(out, d.block_size as int, bl),
    ensures
        ({
            let bs = d.block_size as int;
            let t = d.trees()->Ok_0;
            let (cont, apsb, vol) = d.places();
            &&& stored::holds(out, bs, t.0.tree.blocks)
            &&& stored::holds(out, bs, t.1.blocks)
            &&& stored::holds(out, bs, t.2.blocks)
            &&& block::block_at(out, bs, vol) == Ok::<Seq<u8>, Error>(
                crate::apfs::write::omap_header(bs as nat, vol, t.1.root, d.xid),
            )
            &&& block::block_at(out, bs, apsb) == Ok::<Seq<u8>, Error>(d.apsb(apsb, vol))
        }),
{
    let bs = d.block_size as int;
    let t = d.trees()->Ok_0;
    let (cont, apsb, vol) = d.places();
    let x = d.volume_blocks(t);
    let a = t.0.tree.blocks;
    let b = t.1.blocks;
    let c = t.2.blocks;
    assert forall|i: int| 0 <= i < x.len() implies bl[i] == x[i] by {}
    let na = a.len() as int;
    let nb = na + b.len();
    assert forall|i: int| 0 <= i < a.len() implies block::block_at(out, bs, (#[trigger] a[i]).0)
        == Ok::<Seq<u8>, Error>(a[i].1) by {
        assert(x[i] == a[i]);
        assert(bl[i] == a[i]);
    }
    assert forall|i: int| 0 <= i < b.len() implies block::block_at(out, bs, (#[trigger] b[i]).0)
        == Ok::<Seq<u8>, Error>(b[i].1) by {
        assert(x[na + i] == b[i]);
        assert(bl[na + i] == b[i]);
    }
    assert forall|i: int| 0 <= i < c.len() implies block::block_at(out, bs, (#[trigger] c[i]).0)
        == Ok::<Seq<u8>, Error>(c[i].1) by {
        assert(x[nb + 2 + i] == c[i]);
        assert(bl[nb + 2 + i] == c[i]);
    }
    assert(x[nb] == (vol, crate::apfs::write::omap_header(bs as nat, vol, t.1.root, d.xid)));
    assert(x[nb + 1] == (apsb, d.apsb(apsb, vol)));
    assert(bl[nb] == x[nb]);
    assert(bl[nb + 1] == x[nb + 1]);
}

/// Leaves that each hold a record are no more than the records.
proof fn lemma_leaf_count(ls: Seq<Seq<Rec>>)
    requires
        forall|i: int| 0 <= i < ls.len() ==> (#[trigger] ls[i]).len() > 0,
    ensures
        ls.len() <= pack::concat(ls).len(),
    decreases ls.len(),
{
    if ls.len() > 0 {
        let d = ls.drop_last();
        assert forall|i: int| 0 <= i < d.len() implies (#[trigger] d[i]).len() > 0 by {
            assert(d[i] == ls[i]);
        }
        lemma_leaf_count(d);
        assert(ls.last() == ls[ls.len() - 1]);
    }
}

/// The leaves that the records of `d` are packed into.
pub open spec fn leaves(d: Draft) -> Seq<Seq<Rec>> {
    pack::pack(pack::sort(d.records), d.block_size - 96)->Ok_0
}

/// The entries of the volume's object map rise, and find the nodes of the tree.
proof fn lemma_entries(d: Draft)
    requires
        d.wf(),
        d.records.len() + 0x2_0000 <= u64::MAX,
        d.trees() is Ok,
    ensures
        ({
            let t = d.trees()->Ok_0;
            let es = t.0.entries;
            let ls = leaves(d);
            &&& maps::rising(es)
            &&& es.len() > 0
            &&& es[0] == (plan::FSROOT_VID, d.xid, t.0.tree.root)
            &&& ls.len() > 1 ==> {
                &&& es.len() == ls.len() + 1
                &&& forall|i: int|
                    0 <= i < ls.len() ==> #[trigger] es[i + 1] == (
                        (plan::FS_LEAF_VID_BASE + i) as u64,
                        d.xid,
                        t.0.tree.blocks[i].0,
                    )
            }
            &&& ls.len() < u64::MAX - 0x1_0000
        }),
{
    let rs = pack::sort(d.records);
    let ls = leaves(d);
    pack::lemma_sort(d.records);
    pack::lemma_pack(rs, d.block_size - 96);
    if rs.len() > 0 {
        lemma_leaf_count(ls);
    }
}

/// The volume superblock that opening a sealed image finds.
pub proof fn lemma_apsb_at(out: Seq<u8>, d: Draft, bl: Seq<Placed>)
    requires
        sealed(out, d, bl),
    ensures
        container::container(out) is Ok,
        ({
            let c = container::container(out)->Ok_0;
            let (cont, apsb, vol) = d.places();
            &&& superblock::nx_fs_oid(c.sb)[0] == crate::apfs::write::VOLUME_VID
            &&& container::first_volume(superblock::nx_fs_oid(c.sb), 0) == Some(0int)
            &&& volume::apsb_at(out, c, crate::apfs::write::VOLUME_VID, None) == Ok::<u64, Error>(
                apsb,
            )
            &&& block::block_at(out, d.block_size as int, apsb) == Ok::<Seq<u8>, Error>(
                d.apsb(apsb, vol),
            )
        }),
{
    let bs = d.block_size as int;
    let t = d.trees()->Ok_0;
    let (cont, apsb, vol) = d.places();
    layout::lemma_volume_blocks(d, t);
    lemma_container(out, d, bl);
    lemma_parts(d, bl, out);
    lemma_nxsb(d, d.nxsb_paddr, cont);
    let own = seq![(crate::apfs::write::VOLUME_VID, d.xid, apsb)];
    maps::lemma_omap_find(
        out,
        bs as nat,
        own,
        t.1.next,
        d.total_blocks as int,
        d.xid,
        t.2,
        0,
        OmapKey { oid: crate::apfs::write::VOLUME_VID, xid: d.xid },
    );
}

/// The volume that opening a sealed image finds, and that its tree has the
/// leaves that were laid out.
pub proof fn lemma_volume(out: Seq<u8>, d: Draft, bl: Seq<Placed>)
    requires
        sealed(out, d, bl),
    ensures
        ({
            let bs = d.block_size as int;
            let m = rw::first_open(out);
            &&& m is Ok
            &&& m->Ok_0.bs == d.block_size
            &&& m->Ok_0.xid == d.xid
            &&& m->Ok_0.layout == DrecKeyLayout::Plain
            &&& m->Ok_0.snap_meta == 0
            &&& m->Ok_0.name == text::text_of(
                superblock::volname_bytes(d.apsb(d.places().1, d.places().2)),
            )
            &&& m->Ok_0.index == 0
            &&& tree::grown(m->Ok_0.vol(out), m->Ok_0.root, leaves(d), bs as nat, d.xid)
        }),
{
    let bs = d.block_size as int;
    let t = d.trees()->Ok_0;
    let (cont, apsb, vol) = d.places();
    let total = d.total_blocks as int;
    layout::lemma_volume_blocks(d, t);
    lemma_container(out, d, bl);
    lemma_parts(d, bl, out);
    lemma_nxsb(d, d.nxsb_paddr, cont);
    lemma_apsb(d, apsb, vol);
    lemma_entries(d);
    let c = container::container(out)->Ok_0;
    lemma_apsb_at(out, d, bl);
    assert(0u64 / 8 % 2 == 0 && 0u64 / 0x80 % 2 == 0 && 1u64 / 1 % 2 == 1);
    assert(volume::plain_apsb(out, bs, apsb) == Ok::<Seq<u8>, Error>(d.apsb(apsb, vol)));
    lemma_header(out, bs as nat, vol, t.1.root, d.xid);
    maps::lemma_omap_find(
        out,
        bs as nat,
        t.0.entries,
        t.0.tree.next,
        total,
        d.xid,
        t.1,
        0,
        OmapKey { oid: plan::FSROOT_VID, xid: d.xid },
    );
    let omap = block::block_at(out, bs, t.1.root)->Ok_0;
    let v = fstree::Vol { img: out, omap, xid: d.xid, bs };
    lemma_grown(d, out, v);
}

/// The tree of a written image has the leaves that were laid out.
proof fn lemma_grown(d: Draft, out: Seq<u8>, v: fstree::Vol)
    requires
        d.wf(),
        d.records.len() + 0x2_0000 <= u64::MAX,
        d.trees() is Ok,
        stored::holds(out, d.block_size as int, d.trees()->Ok_0.0.tree.blocks),
        stored::holds(out, d.block_size as int, d.trees()->Ok_0.1.blocks),
        v.img == out,
        block::block_at(out, d.block_size as int, d.trees()->Ok_0.1.root) == Ok::<
            Seq<u8>,
            Error,
        >(v.omap),
        v.xid == d.xid,
        v.bs == d.block_size,
    ensures
        ({
            let b = block::block_at(out, d.block_size as int, d.trees()->Ok_0.0.tree.root);
            &&& b is Ok
            &&& obj::type_of(b->Ok_0) == obj::OBJECT_TYPE_BTREE || obj::type_of(b->Ok_0)
                == obj::OBJECT_TYPE_BTREE_NODE
            &&& tree::grown(v, b->Ok_0, leaves(d), d.block_size as nat, d.xid)
        }),
{
    let bs = d.block_size as nat;
    let t = d.trees()->Ok_0;
    let ls = leaves(d);
    let k = ls.len() as int;
    let rs = pack::sort(d.records);
    let bl = t.0.tree.blocks;
    pack::lemma_sort(d.records);
    pack::lemma_pack(rs, bs - 96);
    lemma_entries(d);
    layout::lemma_volume_blocks(d, t);
    assert forall|i: int| 0 <= i < k implies pack::keyed(#[trigger] ls[i]) by {
        lemma_keyed(ls, i);
    }
    if k == 1 {
        let b = node::fs_leaf(ls[0], bs, plan::FSROOT_VID, true, d.xid);
        assert(bl[0] == (t.0.tree.root, b));
        tree::lemma_leaf(ls[0], bs, plan::FSROOT_VID, true, d.xid, 0, 0);
    } else {
        let b = node::fs_internal_root(plan::fs_seps(ls), bs, plan::FSROOT_VID, d.xid);
        assert(bl[k] == (t.0.tree.root, b));
        tree::lemma_internal(plan::fs_seps(ls), bs, plan::FSROOT_VID, d.xid, 0);
        assert forall|i: int|
            #![trigger ls[i]]
            0 <= i < k implies fstree::block_of_vid(v, (plan::FS_LEAF_VID_BASE + i) as u64)
            == Ok::<Seq<u8>, Error>(
            node::fs_leaf(ls[i], bs, (plan::FS_LEAF_VID_BASE + i) as u64, false, d.xid),
        ) by {
            let vid = (plan::FS_LEAF_VID_BASE + i) as u64;
            assert(t.0.entries[i + 1] == (vid, d.xid, bl[i].0));
            maps::lemma_omap_find(
                out,
                bs,
                t.0.entries,
                t.0.tree.next,
                d.total_blocks as int,
                d.xid,
                t.1,
                i + 1,
                OmapKey { oid: vid, xid: d.xid },
            );
            assert(block::block_at(out, bs as int, bl[i].0) == Ok::<Seq<u8>, Error>(bl[i].1));
        }
    }
}

/// The records of one leaf are among all of them.
proof fn lemma_keyed(ls: Seq<Seq<Rec>>, i: int)
    requires
        0 <= i < ls.len(),
        pack::keyed(pack::concat(ls)),
    ensures
        pack::keyed(ls[i]),
    decreases ls.len(),
{
    let d = ls.drop_last();
    let a = pack::concat(d);
    let all = pack::concat(ls);
    assert(all == a + ls.last());
    if i < ls.len() - 1 {
        assert forall|j: int| 0 <= j < a.len() implies (#[trigger] a[j]).0.len() >= 8 by {
            assert(all[j] == a[j]);
        }
        lemma_keyed(d, i);
    } else {
        assert forall|j: int| 0 <= j < ls[i].len() implies (#[trigger] ls[i][j]).0.len() >= 8 by {
            assert(all[a.len() + j] == ls[i][j]);
        }
    }
}

/// A sealed image holds just the records that were laid out.
pub proof fn lemma_read_back(out: Seq<u8>, d: Draft, bl: Seq<Placed>)
    requires
        sealed(out, d, bl),
    ensures
        reads(out, d),
{
    let rs = pack::sort(d.records);
    let ls = leaves(d);
    lemma_volume(out, d, bl);
    pack::lemma_sort(d.records);
    pack::lemma_pack(rs, d.block_size - 96);
    let m = rw::first_open(out)->Ok_0;
    tree::lemma_all_records(m, out, ls, rs, d.block_size as nat, d.xid);
    if tree::unrepeated(rs) {
        assert forall|oid: u64, kind: u8| #[trigger] volume::found(m, out, oid, kind) == (
        volume::Found { recs: tree::those(rs, (oid, kind)), err: None }) by {
            tree::lemma_found(m, out, ls, rs, d.block_size as nat, d.xid, (oid, kind));
        }
    }
}

} // verus!
