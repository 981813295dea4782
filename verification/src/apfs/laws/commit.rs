//! Checkpoints: an interrupted commit leaves the volume as it was, also if its
//! superblock is torn; a finished one leaves what the checkpoint before holds in
//! place.

use vstd::prelude::*;

use crate::apfs::container;
use crate::apfs::pack::{self, Rec};
use crate::apfs::plan::{self, Placed};
use crate::apfs::rw::{self, Edit, Live};
use crate::apfs::spaceman;
use crate::apfs::superblock;
use crate::apfs::volume;
use crate::apfs::write::Draft;
use crate::block;
use crate::bytes;
use crate::error::Error;
use crate::num;

use super::{image, layout, stored};

verus! {

/// Whether two devices of one size hold the same bytes before block `n`.
pub open spec fn same_before(a: Seq<u8>, b: Seq<u8>, n: int, bs: int) -> bool {
    &&& a.len() == b.len()
    &&& forall|p: int| 0 <= p < n * bs && p < a.len() ==> #[trigger] b[p] == a[p]
}

/// A block before the end reads the same.
pub proof fn lemma_block_before(a: Seq<u8>, b: Seq<u8>, n: int, bs: int, at: u64)
    requires
        same_before(a, b, n, bs),
        bs > 0,
        at < n,
    ensures
        block::block_at(b, bs, at) == block::block_at(a, bs, at),
{
    num::lemma_mono(at + 1, n, bs);
    num::lemma_step(at as int, bs);
    num::lemma_mono(0, at as int, bs);
    assert(0 * bs == 0) by (nonlinear_arith);
    let lo = at * bs;
    if lo + bs <= a.len() {
        assert(b.subrange(lo, lo + bs) =~= a.subrange(lo, lo + bs));
    }
}

/// Every block of an image lies before its end.
proof fn lemma_before_end(d: Draft, bl: Seq<Placed>, i: int)
    requires
        d.wf(),
        d.plan() == Ok::<Seq<Placed>, Error>(bl),
        0 <= i < bl.len(),
    ensures
        bl[i].0 < layout::end(d),
{
    layout::lemma_plan_apart(d, bl);
    assert(layout::end(d) > 21);
}

/// A device that differs from a sealed one only behind the end of the image is
/// sealed too.
pub proof fn lemma_sealed_agree(a: Seq<u8>, b: Seq<u8>, d: Draft, bl: Seq<Placed>)
    requires
        image::sealed(a, d, bl),
        same_before(a, b, layout::end(d), d.block_size as int),
    ensures
        image::sealed(b, d, bl),
{
    let bs = d.block_size as int;
    let n = layout::end(d);
    layout::lemma_plan_apart(d, bl);
    assert forall|i: int| 0 <= i < bl.len() implies block::block_at(b, bs, (#[trigger] bl[i]).0)
        == Ok::<Seq<u8>, Error>(bl[i].1) by {
        lemma_before_end(d, bl, i);
        lemma_block_before(a, b, n, bs, bl[i].0);
    }
    assert forall|i: int| 0 <= i < 16 && 1 + i != d.nxsb_paddr implies #[trigger] image::older(
        b,
        bs,
        (1 + i) as u64,
        d.xid,
    ) by {
        lemma_block_before(a, b, n, bs, (1 + i) as u64);
        assert(image::older(a, bs, (1 + i) as u64, d.xid));
    }
    lemma_label_agree(a, b, n, bs);
}

/// The first superblock reads the same.
proof fn lemma_label_agree(a: Seq<u8>, b: Seq<u8>, n: int, bs: int)
    requires
        same_before(a, b, n, bs),
        n >= 21,
        bs >= 1024,
        container::label(a) is Ok,
        container::label(a)->Ok_0.len() == bs,
    ensures
        container::label(b) == container::label(a),
{
    num::lemma_mono(21, n, bs);
    assert(b.subrange(0, 4096) =~= a.subrange(0, 4096));
    assert(b.subrange(0, bs) =~= a.subrange(0, bs));
}

/// Writing blocks behind the end leaves what lies before.
proof fn lemma_store_behind(img: Seq<u8>, bs: int, bl: Seq<Placed>, n: int)
    requires
        bs > 0,
        stored::apart(bl, bs),
        block::store_all(img, bs, bl).1,
        forall|i: int| 0 <= i < bl.len() ==> (#[trigger] bl[i]).0 >= n,
    ensures
        same_before(img, block::store_all(img, bs, bl).0, n, bs),
{
    let out = block::store_all(img, bs, bl).0;
    stored::lemma_store_all(img, bs, bl);
    assert forall|p: int| 0 <= p < n * bs && p < img.len() implies #[trigger] out[p]
        == img[p] by {
        assert forall|i: int| 0 <= i < bl.len() implies !((#[trigger] bl[i]).0 * bs <= p < bl[i].0
            * bs + bs) by {
            num::lemma_mono(n, bl[i].0 as int, bs);
        }
        assert(stored::outside(bl, bs, p));
    }
}

/// Writing that ends early wrote a first part of the blocks.
pub proof fn lemma_partial(img: Seq<u8>, bs: int, bl: Seq<Placed>) -> (k: int)
    requires
        !block::store_all(img, bs, bl).1,
    ensures
        0 <= k < bl.len(),
        block::store_all(img, bs, bl.take(k)) == (block::store_all(img, bs, bl).0, true),
    decreases bl.len(),
{
    if bl[0].0 * bs + bl[0].1.len() <= img.len() {
        let one = bytes::put(img, bl[0].0 * bs, bl[0].1);
        let rest = bl.skip(1);
        let k = lemma_partial(one, bs, rest);
        let part = bl.take(k + 1);
        assert(part.skip(1) =~= rest.take(k));
        assert(part[0] == bl[0]);
        k + 1
    } else {
        assert(bl.take(0) =~= Seq::empty());
        0
    }
}

// ---- opening for changes ----

/// The fields of a volume superblock that a later change starts from.
proof fn lemma_apsb_counts(d: Draft, paddr: u64, omap: u64)
    requires
        d.wf(),
        d.block_size >= 1024,
    ensures
        ({
            let b = d.apsb(paddr, omap);
            &&& bytes::get64(b, 176) == d.next_oid
            &&& bytes::get64(b, 184) == d.num_files
            &&& bytes::get64(b, 192) == d.num_directories
            &&& bytes::get64(b, 200) == d.num_symlinks
            &&& b.subrange(240, 256) == d.volume_uuid
        }),
{
    broadcast use bytes::group_fields;

    assert(d.volname().len() <= 255);
}

proof fn lemma_nxsb_uuid(d: Draft, paddr: u64, omap: u64)
    requires
        d.wf(),
        d.block_size >= 1024,
    ensures
        d.nxsb(paddr, omap).subrange(72, 88) == d.container_uuid,
{
    broadcast use bytes::group_fields;

}

/// The fields of the space manager's block that tell what is in use.
proof fn lemma_manager_counts(l: spaceman::Layout)
    requires
        512 <= l.block_size,
    ensures
        bytes::get32(l.manager(), 24) % 0x1_0000 == spaceman::OBJECT_TYPE_SPACEMAN,
        bytes::get64(l.manager(), 48) == l.total_blocks,
        bytes::get64(l.manager(), 72) == l.free_total() as u64,
{
    broadcast use bytes::group_fields;

}

/// The container's object map takes one block, the last of the trees.
proof fn lemma_one_entry(d: Draft)
    requires
        d.wf(),
        d.trees() is Ok,
    ensures
        d.trees()->Ok_0.2.root + 1 == d.trees()->Ok_0.2.next,
{
    let t = d.trees()->Ok_0;
    let bs = d.block_size as nat;
    let es = seq![(crate::apfs::write::VOLUME_VID, d.xid, d.places().1)];
    let m = pack::omap_per_leaf(bs as int);
    layout::lemma_volume_blocks(d, t);
    num::lemma_div_up(1, m);
    let q = num::div_up(1, m);
    assert(q == 1) by (nonlinear_arith)
        requires
            q * m >= 1,
            (q - 1) * m < 1,
            m >= 1,
    ;
}

/// What a later change allocates from lies behind the image.
#[verifier::spinoff_prover]
#[verifier::rlimit(40)]
proof fn lemma_high_water(out: Seq<u8>, d: Draft, bl: Seq<Placed>)
    requires
        image::sealed(out, d, bl),
    ensures
        container::container(out) is Ok,
        rw::high_water(out, container::container(out)->Ok_0) >= layout::end(d),
{
    let bs = d.block_size as int;
    let t = d.trees()->Ok_0;
    image::lemma_container(out, d, bl);
    layout::lemma_plan_apart(d, bl);
    layout::lemma_volume_blocks(d, t);
    lemma_one_entry(d);
    let c = container::container(out)->Ok_0;
    image::lemma_nxsb(d, d.nxsb_paddr, d.places().0);
    if d.fresh {
        let next = t.2.next;
        let l = d.manager_layout(next);
        let n = (next + 21 + l.chunks()) as u64;
        let x = d.volume_blocks(t);
        let m = d.manager_blocks(next)->Ok_0;
        assert(m[0] == (crate::apfs::write::SPACEMAN_PADDR, l.manager()));
        assert(bl[x.len() as int] == m[0]);
        lemma_manager_counts(l);
        assert(l.used_ranges =~= seq![(0u64, n)]);
        spaceman::lemma_free_front(n, d.total_blocks as int);
        assert(container::used_blocks(out, bs) == Some(n));
    }
}

/// Opening for changes, from what opening for reading finds.
proof fn lemma_writable(out: Seq<u8>, c: container::Cont, m: volume::Mounted, p: u64, b: Seq<u8>)
    requires
        container::container(out) == Ok::<container::Cont, Error>(c),
        rw::first_open(out) == Ok::<volume::Mounted, Error>(m),
        m.index == 0,
        volume::apsb_at(out, c, superblock::nx_fs_oid(c.sb)[0], None) == Ok::<u64, Error>(p),
        block::block_at(out, c.bs(), p) == Ok::<Seq<u8>, Error>(b),
        bytes::get64(b, 56) == 0,
        bytes::get32(c.sb, 104) == 16,
        bytes::get64(c.sb, 112) == 1,
        c.slot matches Some(o) && 1 <= o <= 15,
    ensures
        rw::writable(out) == Ok::<Live, Error>(
            (Live {
                m,
                container_uuid: c.sb.subrange(72, 88),
                volume_uuid: b.subrange(240, 256),
                total_blocks: bytes::get64(c.sb, 40),
                next_oid: bytes::get64(b, 176),
                num_files: bytes::get64(b, 184),
                num_directories: bytes::get64(b, 192),
                num_symlinks: bytes::get64(b, 200),
                xid: c.xid(),
                slot: rw::next_slot(c) as u64,
                bump: rw::high_water(out, c),
            }),
        ),
        2 <= rw::next_slot(c) <= 16,
        rw::next_slot(c) != c.slot.unwrap() + 1,
{
    let o = c.slot.unwrap();
    assert(o == 15 ==> o % 15 == 0);
    assert(o < 15 ==> o % 15 == o);
    assert(rw::next_slot(c) == 1 + (o % 15 + 1));
    assert(0u64 / 8 % 2 == 0);
}

/// A sealed image opens for changes with what its writer had: counters,
/// identifiers and records; the next checkpoint goes to another slot, and to
/// blocks behind the image.
pub proof fn lemma_reopen(out: Seq<u8>, d: Draft, bl: Seq<Placed>)
    requires
        image::sealed(out, d, bl),
    ensures
        ({
            let w = rw::writable(out);
            &&& w is Ok
            &&& ({
                let l = w->Ok_0;
                &&& rw::first_open(out) == Ok::<volume::Mounted, Error>(l.m)
                &&& l.m.bs == d.block_size
                &&& l.container_uuid == d.container_uuid
                &&& l.volume_uuid == d.volume_uuid
                &&& l.total_blocks == d.total_blocks
                &&& l.next_oid == d.next_oid
                &&& l.num_files == d.num_files
                &&& l.num_directories == d.num_directories
                &&& l.num_symlinks == d.num_symlinks
                &&& l.xid == d.xid
                &&& 2 <= l.slot <= 16
                &&& l.slot != d.nxsb_paddr
                &&& l.bump >= layout::end(d)
                &&& rw::all_records(l.m, out) == Ok::<Seq<Rec>, Error>(pack::sort(d.records))
            })
        }),
{
    let bs = d.block_size as int;
    let (cont, apsb, vol) = d.places();
    image::lemma_container(out, d, bl);
    image::lemma_volume(out, d, bl);
    image::lemma_read_back(out, d, bl);
    image::lemma_nxsb(d, d.nxsb_paddr, cont);
    image::lemma_apsb(d, apsb, vol);
    image::lemma_apsb_at(out, d, bl);
    lemma_apsb_counts(d, apsb, vol);
    lemma_nxsb_uuid(d, d.nxsb_paddr, cont);
    lemma_high_water(out, d, bl);
    let c = container::container(out)->Ok_0;
    lemma_writable(out, c, rw::first_open(out)->Ok_0, apsb, d.apsb(apsb, vol));
}

// ---- any container ----

/// Whether the device `img` opens for changes with what the writer `d` has,
/// whoever wrote it: its volume reads as the records of `d`; the counters,
/// identifiers and transaction are those of `d`; no superblock is of a later
/// transaction; and a change allocates from block `mark` on, or behind it.
pub open spec fn opens_as(img: Seq<u8>, d: Draft, mark: int) -> bool {
    &&& image::reads(img, d)
    &&& image::labelled(img, d)
    &&& forall|i: int|
        0 <= i < 16 ==> #[trigger] image::older(
            img,
            d.block_size as int,
            (1 + i) as u64,
            (d.xid + 1) as u64,
        )
    &&& rw::writable(img) matches Ok(l)
    &&& rw::first_open(img) == Ok::<volume::Mounted, Error>(l.m)
    &&& l.container_uuid == d.container_uuid
    &&& l.volume_uuid == d.volume_uuid
    &&& l.total_blocks == d.total_blocks
    &&& l.next_oid == d.next_oid
    &&& l.num_files == d.num_files
    &&& l.num_directories == d.num_directories
    &&& l.num_symlinks == d.num_symlinks
    &&& l.xid == d.xid
    &&& l.bump >= mark
}

/// Whether the device `img` opens for changes with what the writer `d` has, and
/// all that is in use lies before block `mark`: what is written behind it makes
/// no difference. That is so of every device that this library wrote, and of any
/// other container with descriptors in blocks 1 to 16, a sound tree, and a count
/// of blocks in use that covers all of them.
pub open spec fn settled(img: Seq<u8>, d: Draft, mark: int) -> bool {
    &&& d.wf()
    &&& d.block_size >= 1024
    &&& d.xid < u64::MAX
    &&& d.next_block <= mark
    &&& 21 <= mark
    &&& opens_anyway(img, d, mark)
}

/// Whether the device `img` opens for changes with what the writer `d` has,
/// whatever is written behind block `mark`.
#[verifier::opaque]
pub open spec fn opens_anyway(img: Seq<u8>, d: Draft, mark: int) -> bool {
    forall|now: Seq<u8>| #[trigger]
        same_before(img, now, mark, d.block_size as int) ==> opens_as(now, d, mark)
}

/// What a settled device opens as, also once something was written behind the
/// mark.
pub proof fn lemma_settled(img: Seq<u8>, d: Draft, mark: int, now: Seq<u8>)
    requires
        settled(img, d, mark),
        same_before(img, now, mark, d.block_size as int),
    ensures
        opens_as(img, d, mark),
        opens_as(now, d, mark),
        settled(now, d, mark),
{
    reveal(opens_anyway);
    let bs = d.block_size as int;
    assert(same_before(img, img, mark, bs));
    assert forall|next: Seq<u8>| #[trigger] same_before(now, next, mark, bs) implies opens_as(
        next,
        d,
        mark,
    ) by {
        assert forall|p: int| 0 <= p < mark * bs && p < img.len() implies #[trigger] next[p]
            == img[p] by {
            assert(now[p] == img[p]);
        }
        assert(same_before(img, next, mark, bs));
    }
}

/// What a settled device opens as.
pub proof fn lemma_now(img: Seq<u8>, d: Draft, mark: int)
    requires
        settled(img, d, mark),
    ensures
        opens_as(img, d, mark),
{
    assert(same_before(img, img, mark, d.block_size as int));
    lemma_settled(img, d, mark, img);
}

/// A device that this library wrote is settled: all that is in use lies before
/// the end of the image.
pub proof fn lemma_sealed_settled(img: Seq<u8>, d: Draft, bl: Seq<Placed>)
    requires
        image::sealed(img, d, bl),
    ensures
        settled(img, d, layout::end(d)),
        opens_as(img, d, layout::end(d)),
{
    reveal(opens_anyway);
    let bs = d.block_size as int;
    let n = layout::end(d);
    layout::lemma_plan_apart(d, bl);
    assert forall|now: Seq<u8>| #[trigger] same_before(img, now, n, bs) implies opens_as(
        now,
        d,
        n,
    ) by {
        lemma_sealed_agree(img, now, d, bl);
        lemma_reopen(now, d, bl);
        image::lemma_read_back(now, d, bl);
        lemma_none_later(now, d, bl);
    }
    assert(same_before(img, img, n, bs));
}

/// No superblock of a sealed device is later than the live one.
proof fn lemma_none_later(img: Seq<u8>, d: Draft, bl: Seq<Placed>)
    requires
        image::sealed(img, d, bl),
    ensures
        forall|i: int|
            0 <= i < 16 ==> #[trigger] image::older(
                img,
                d.block_size as int,
                (1 + i) as u64,
                (d.xid + 1) as u64,
            ),
{
    let bs = d.block_size as int;
    let cont = d.places().0;
    let sb = d.nxsb(d.nxsb_paddr, cont);
    let at = if d.fresh {
        bl.len() - 2
    } else {
        bl.len() - 1
    };
    assert(bl[at] == (d.nxsb_paddr, sb));
    image::lemma_nxsb(d, d.nxsb_paddr, cont);
    assert forall|i: int| 0 <= i < 16 implies #[trigger] image::older(
        img,
        bs,
        (1 + i) as u64,
        (d.xid + 1) as u64,
    ) by {
        let a = (1 + i) as u64;
        if a == d.nxsb_paddr {
            assert(block::block_at(img, bs, bl[at].0) == Ok::<Seq<u8>, Error>(sb));
        } else {
            assert(image::older(img, bs, a, d.xid));
        }
    }
}

/// The writer of the next checkpoint can write it.
proof fn lemma_checkpoint_ready(img: Seq<u8>, d: Draft, mark: int, l: Live, e: Edit)
    requires
        opens_as(img, d, mark),
        d.xid < u64::MAX,
        d.block_size >= 1024,
        l.wf(),
        l.m.bs == d.block_size,
        l.xid == d.xid,
        pack::keyed(e.recs),
        l.checkpoint(e) is Ok,
    ensures
        l.checkpoint(e)->Ok_0.wf(),
        image::ready(img, l.checkpoint(e)->Ok_0),
{
    let c = l.checkpoint(e)->Ok_0;
    assert(c.xid == d.xid + 1);
    assert(image::labelled(img, c));
    assert forall|i: int| 0 <= i < 16 && 1 + i != c.nxsb_paddr && !(c.fresh && i == 0) implies
        #[trigger] image::older(img, c.block_size as int, (1 + i) as u64, c.xid) by {
        assert(image::older(img, d.block_size as int, (1 + i) as u64, (d.xid + 1) as u64));
    }
}

/// All blocks of a checkpoint but the last lie behind all that was allocated
/// before it; the last is its superblock.
proof fn lemma_checkpoint_blocks(c: Draft, bl: Seq<Placed>)
    requires
        c.wf(),
        !c.fresh,
        c.plan() == Ok::<Seq<Placed>, Error>(bl),
    ensures
        stored::apart(bl, c.block_size as int),
        bl.len() > 0,
        bl.last().0 == c.nxsb_paddr,
        forall|i: int| 0 <= i < bl.len() - 1 ==> (#[trigger] bl[i]).0 >= c.next_block,
{
    layout::lemma_plan_apart(c, bl);
    let last = bl.len() - 1;
    assert(bl[last].0 == c.nxsb_paddr);
    assert forall|i: int| 0 <= i < bl.len() - 1 implies (#[trigger] bl[i]).0 >= c.next_block by {
        assert(bl[i].0 != bl[last].0);
    }
}

/// The first blocks of a list are apart where all are.
proof fn lemma_apart_take(bl: Seq<Placed>, bs: int, k: int)
    requires
        stored::apart(bl, bs),
        0 <= k <= bl.len(),
    ensures
        stored::apart(bl.take(k), bs),
{
    let part = bl.take(k);
    assert forall|i: int| 0 <= i < part.len() implies (#[trigger] part[i]).1.len() == bs by {
        assert(part[i] == bl[i]);
    }
    assert forall|i: int, j: int| 0 <= i < j < part.len() implies (#[trigger] part[i]).0 != (
    #[trigger] part[j]).0 by {
        assert(part[i] == bl[i] && part[j] == bl[j]);
    }
}

/// An interrupted commit to any settled container: as long as the last block, the
/// superblock, is not written, the device opens as it did before.
pub proof fn lemma_interrupted(
    img: Seq<u8>,
    d: Draft,
    mark: int,
    c: Draft,
    bl: Seq<Placed>,
    k: int,
)
    requires
        settled(img, d, mark),
        c.wf(),
        !c.fresh,
        c.block_size == d.block_size,
        c.next_block >= mark,
        c.plan() == Ok::<Seq<Placed>, Error>(bl),
        0 <= k < bl.len(),
        block::store_all(img, c.block_size as int, bl.take(k)).1,
    ensures
        settled(block::store_all(img, c.block_size as int, bl.take(k)).0, d, mark),
        same_before(
            img,
            block::store_all(img, c.block_size as int, bl.take(k)).0,
            mark,
            c.block_size as int,
        ),
{
    let bs = c.block_size as int;
    let part = bl.take(k);
    lemma_checkpoint_blocks(c, bl);
    lemma_apart_take(bl, bs, k);
    assert forall|i: int| 0 <= i < part.len() implies (#[trigger] part[i]).0 >= mark by {
        assert(part[i] == bl[i]);
    }
    lemma_store_behind(img, bs, part, mark);
    lemma_settled(img, d, mark, block::store_all(img, bs, part).0);
}

/// Writing a superblock and blocks behind block `n` changes no other byte before
/// block `n`.
proof fn lemma_store_with_slot(img: Seq<u8>, bs: int, bl: Seq<Placed>, n: int, slot: u64)
    requires
        bs > 0,
        stored::apart(bl, bs),
        block::store_all(img, bs, bl).1,
        bl.len() > 0,
        bl.last().0 == slot,
        forall|i: int| 0 <= i < bl.len() - 1 ==> (#[trigger] bl[i]).0 >= n,
    ensures
        block::store_all(img, bs, bl).0.len() == img.len(),
        forall|p: int|
            0 <= p < n * bs && p < img.len() && !(slot * bs <= p < slot * bs + bs)
                ==> #[trigger] block::store_all(img, bs, bl).0[p] == img[p],
{
    let out = block::store_all(img, bs, bl).0;
    stored::lemma_store_all(img, bs, bl);
    assert forall|p: int|
        0 <= p < n * bs && p < img.len() && !(slot * bs <= p < slot * bs
            + bs) implies #[trigger] out[p] == img[p] by {
        assert forall|i: int| 0 <= i < bl.len() implies !((#[trigger] bl[i]).0 * bs <= p < bl[i].0
            * bs + bs) by {
            if i < bl.len() - 1 {
                num::lemma_mono(n, bl[i].0 as int, bs);
            }
        }
        assert(stored::outside(bl, bs, p));
    }
}

/// Writing the first blocks of a checkpoint, but not its superblock, changes no
/// byte before what it allocates.
proof fn lemma_store_partly(img: Seq<u8>, c: Draft, bl: Seq<Placed>)
    requires
        c.wf(),
        !c.fresh,
        c.plan() == Ok::<Seq<Placed>, Error>(bl),
        !block::store_all(img, c.block_size as int, bl).1,
    ensures
        same_before(
            img,
            block::store_all(img, c.block_size as int, bl).0,
            c.next_block as int,
            c.block_size as int,
        ),
{
    let bs = c.block_size as int;
    lemma_checkpoint_blocks(c, bl);
    let k = lemma_partial(img, bs, bl);
    let part = bl.take(k);
    lemma_apart_take(bl, bs, k);
    assert forall|i: int| 0 <= i < part.len() implies (#[trigger] part[i]).0 >= c.next_block by {
        assert(part[i] == bl[i]);
    }
    lemma_store_behind(img, bs, part, c.next_block as int);
}

/// Whether there is room for the checkpoint that `e` makes on the device `now`.
pub open spec fn fits(l: Live, e: Edit, now: Seq<u8>) -> bool {
    &&& l.checkpoint(e) is Ok
    &&& l.checkpoint(e)->Ok_0.plan() is Ok
    &&& block::store_all(now, l.m.bs as int, l.checkpoint(e)->Ok_0.plan()->Ok_0).1
}

/// Copy on write, in any container that is open for changes, whoever wrote it: a
/// commit changes no byte before the blocks that it allocates, but those of the
/// superblock slot that it takes, and those only where all blocks were written;
/// the superblock then is one transaction on. Block 0 and the live superblock are
/// among what stays, and so is every block in use before the high-water mark.
pub proof fn lemma_copy_on_write(l: Live, e: Edit, now: Seq<u8>)
    requires
        l.wf(),
        pack::keyed(e.recs),
    ensures
        ({
            let (out, r) = l.committed(e, now);
            let bs = l.m.bs as int;
            &&& out.len() == now.len()
            &&& !fits(l, e, now) ==> same_before(now, out, e.bump as int, bs)
            &&& forall|p: int|
                0 <= p < e.bump * bs && p < now.len() && !(l.slot * bs <= p < l.slot * bs + bs)
                    ==> #[trigger] out[p] == now[p]
            &&& r is Ok ==> fits(l, e, now)
            &&& fits(l, e, now) ==> l.checkpoint(e)->Ok_0.xid == l.xid + 1
        }),
{
    let bs = l.m.bs as int;
    if let Ok(c) = l.checkpoint(e) {
        assert(c.wf());
        if let Ok(bl) = c.plan() {
            if block::store_all(now, bs, bl).1 {
                lemma_checkpoint_blocks(c, bl);
                lemma_store_with_slot(now, bs, bl, e.bump as int, l.slot);
            } else {
                lemma_store_partly(now, c, bl);
            }
        }
    }
}

/// Committing a change to any settled container, whoever wrote it: where it
/// succeeds, the device holds the changed records as the live checkpoint; where
/// it fails, it is settled as before. The device may have got contents behind
/// all blocks in use meanwhile.
pub proof fn lemma_commit_settled(
    img: Seq<u8>,
    d: Draft,
    mark: int,
    now: Seq<u8>,
    l: Live,
    e: Edit,
)
    requires
        settled(img, d, mark),
        rw::writable(img) == Ok::<Live, Error>(l),
        l.wf(),
        same_before(img, now, l.bump as int, l.m.bs as int),
        e.bump >= l.bump,
        pack::keyed(e.recs),
    ensures
        ({
            let (out, r) = l.committed(e, now);
            &&& r is Ok ==> {
                let c = l.checkpoint(e)->Ok_0;
                let nb = c.plan()->Ok_0;
                &&& l.checkpoint(e) is Ok
                &&& c.plan() is Ok
                &&& image::written(now, c, nb)
                &&& out == block::store_all(now, c.block_size as int, nb).0
                &&& image::sealed(out, c, nb)
                &&& settled(out, c, layout::end(c))
            }
            &&& r is Err ==> {
                &&& settled(out, d, mark)
                &&& same_before(img, out, mark, l.m.bs as int)
            }
        }),
{
    let bs = d.block_size as int;
    let (out, r) = l.committed(e, now);
    lemma_now(img, d, mark);
    num::lemma_mono(mark, l.bump as int, bs);
    assert(same_before(img, now, mark, bs));
    lemma_settled(img, d, mark, now);
    lemma_copy_on_write(l, e, now);
    if fits(l, e, now) {
        let c = l.checkpoint(e)->Ok_0;
        let nb = c.plan()->Ok_0;
        lemma_checkpoint_ready(now, d, mark, l, e);
        image::lemma_sealed(now, c, nb);
        lemma_sealed_settled(out, c, nb);
    } else {
        num::lemma_mono(mark, e.bump as int, bs);
        assert forall|p: int| 0 <= p < mark * bs && p < img.len() implies #[trigger] out[p]
            == img[p] by {
            assert(now[p] == img[p]);
        }
        assert(same_before(img, out, mark, bs));
        lemma_settled(img, d, mark, out);
    }
}

/// Committing a change: where it succeeds, the device opens with the changed
/// records and the counters of the change, under the next transaction; where it
/// fails, with the records and the counters from before.
pub proof fn lemma_committed(
    img: Seq<u8>,
    d: Draft,
    mark: int,
    now: Seq<u8>,
    l: Live,
    e: Edit,
)
    requires
        settled(img, d, mark),
        rw::writable(img) == Ok::<Live, Error>(l),
        l.wf(),
        same_before(img, now, l.bump as int, l.m.bs as int),
        e.bump >= l.bump,
        pack::keyed(e.recs),
    ensures
        ({
            let (out, r) = l.committed(e, now);
            let w = rw::writable(out);
            &&& w is Ok
            &&& match r {
                Ok(n) => {
                    &&& w == Ok::<Live, Error>(n)
                    &&& rw::all_records(n.m, out) == Ok::<Seq<Rec>, Error>(pack::sort(e.recs))
                    &&& n.xid == l.xid + 1
                    &&& n.next_oid == e.next_oid
                    &&& n.num_files == e.num_files
                    &&& n.num_directories == e.num_directories
                    &&& n.num_symlinks == e.num_symlinks
                    &&& n.container_uuid == l.container_uuid
                    &&& n.volume_uuid == l.volume_uuid
                    &&& n.total_blocks == l.total_blocks
                },
                Err(_) => {
                    &&& rw::all_records(w->Ok_0.m, out) == rw::all_records(l.m, img)
                    &&& w->Ok_0.xid == l.xid
                    &&& w->Ok_0.next_oid == l.next_oid
                },
            }
        }),
{
    let (out, r) = l.committed(e, now);
    lemma_now(img, d, mark);
    lemma_commit_settled(img, d, mark, now, l, e);
    match r {
        Ok(n) => {
            let c = l.checkpoint(e)->Ok_0;
            lemma_now(out, c, layout::end(c));
        },
        Err(_) => {
            lemma_now(out, d, mark);
        },
    }
}

/// The first superblock reads the same where the bytes of its block do.
proof fn lemma_first_bytes(a: Seq<u8>, b: Seq<u8>, bs: int)
    requires
        a.len() == b.len(),
        bs >= 1024,
        container::label(a) is Ok,
        container::label(a)->Ok_0.len() == bs,
        b.subrange(0, bs) == a.subrange(0, bs),
    ensures
        container::label(b) == container::label(a),
{
    let head = a.subrange(0, 4096);
    let next = b.subrange(0, 4096);
    assert forall|i: int| 0 <= i < 1024 implies #[trigger] next[i] == head[i] by {
        assert(b.subrange(0, bs)[i] == a.subrange(0, bs)[i]);
    }
    assert(next.subrange(0, 1024) =~= head.subrange(0, 1024));
    assert forall|o: int| 0 <= o <= 1020 implies #[trigger] bytes::get32(next, o)
        == bytes::get32(head, o) by {
        bytes::lemma_get_sub(next, 0, 1024, o);
        bytes::lemma_get_sub(head, 0, 1024, o);
    }
    assert(bytes::get32(next, 36) == bytes::get32(head, 36));
    assert(superblock::is_nx(next) == superblock::is_nx(head));
}

/// A sealed image stays one where what is behind its end changes, and a slot of
/// the descriptor area that is not the live one, as long as no whole superblock
/// is there.
proof fn lemma_other_slot(img: Seq<u8>, d: Draft, bl: Seq<Placed>, t: Seq<u8>, slot: u64)
    requires
        image::sealed(img, d, bl),
        2 <= slot <= 16,
        slot != d.nxsb_paddr,
        t.len() == img.len(),
        forall|p: int|
            0 <= p < layout::end(d) * d.block_size && p < img.len() && !(slot * d.block_size <= p
                < slot * d.block_size + d.block_size) ==> #[trigger] t[p] == img[p],
        image::older(t, d.block_size as int, slot, d.xid),
    ensures
        image::sealed(t, d, bl),
{
    let bs = d.block_size as int;
    let n = layout::end(d);
    layout::lemma_plan_apart(d, bl);
    assert forall|a: u64| a < n && a != slot implies #[trigger] block::block_at(t, bs, a)
        == block::block_at(img, bs, a) by {
        num::lemma_mono(a + 1, n, bs);
        num::lemma_step(a as int, bs);
        num::lemma_mono(0, a as int, bs);
        assert(0 * bs == 0) by (nonlinear_arith);
        let lo = a * bs;
        if lo + bs <= img.len() {
            assert forall|p: int| lo <= p < lo + bs implies t[p] == img[p] by {
                stored::lemma_blocks_apart(a as int, slot as int, bs, p);
            }
            assert(t.subrange(lo, lo + bs) =~= img.subrange(lo, lo + bs));
        }
    }
    assert forall|i: int| 0 <= i < bl.len() implies block::block_at(t, bs, (#[trigger] bl[i]).0)
        == Ok::<Seq<u8>, Error>(bl[i].1) by {
        lemma_before_end(d, bl, i);
        assert(bl[i].0 != slot);
    }
    assert forall|i: int| 0 <= i < 16 && 1 + i != d.nxsb_paddr implies #[trigger] image::older(
        t,
        bs,
        (1 + i) as u64,
        d.xid,
    ) by {
        let a = (1 + i) as u64;
        if a != slot {
            assert(block::block_at(t, bs, a) == block::block_at(img, bs, a));
            assert(image::older(img, bs, a, d.xid));
        }
    }
    num::lemma_mono(21, n, bs);
    num::lemma_mono(2, slot as int, bs);
    assert forall|p: int| 0 <= p < 2 * bs && p < img.len() implies t[p] == img[p] by {}
    assert(t.subrange(0, bs) =~= img.subrange(0, bs));
    lemma_first_bytes(img, t, bs);
}

/// In any container, whoever wrote it, a slot without a whole superblock does not
/// count: the live superblock is the one it was, if that is in another slot.
pub proof fn lemma_torn_slot(img: Seq<u8>, t: Seq<u8>, lab: Seq<u8>, n: int, at: int)
    requires
        container::slot_sb(t, lab, at) is None,
        forall|i: int|
            0 <= i < n && i != at ==> #[trigger] container::slot_sb(t, lab, i)
                == container::slot_sb(img, lab, i),
    ensures
        match container::latest(img, lab, n) {
            Some((b, i)) => if i != at {
                container::latest(t, lab, n) == Some((b, i))
            } else {
                container::latest(t, lab, n) matches Some((o, _)) ==> container::sb_xid(o)
                    <= container::sb_xid(b)
            },
            None => container::latest(t, lab, n) is None,
        },
        container::latest(img, lab, n) matches Some((b, _)) ==> container::sb_xid(b)
            >= container::sb_xid(lab),
    decreases n,
{
    if n > 0 {
        lemma_torn_slot(img, t, lab, n - 1, at);
        if n - 1 != at {
            assert(container::slot_sb(t, lab, n - 1) == container::slot_sb(img, lab, n - 1));
        }
    }
}

/// A torn superblock does not count: where all blocks of a commit reached the
/// device, but of the superblock only some bytes did, so that its checksum does
/// not hold, the device opens as it did before.
pub proof fn lemma_torn(
    img: Seq<u8>,
    d: Draft,
    bl: Seq<Placed>,
    now: Seq<u8>,
    l: Live,
    e: Edit,
    t: Seq<u8>,
)
    requires
        image::sealed(img, d, bl),
        rw::writable(img) == Ok::<Live, Error>(l),
        l.wf(),
        same_before(img, now, l.bump as int, l.m.bs as int),
        e.bump >= l.bump,
        pack::keyed(e.recs),
        t.len() == now.len(),
        forall|p: int|
            0 <= p < now.len() && !(l.slot * l.m.bs <= p < l.slot * l.m.bs + l.m.bs)
                ==> #[trigger] t[p] == l.committed(e, now).0[p],
        block::block_at(t, l.m.bs as int, l.slot) matches Ok(b) ==> superblock::is_nx(b)
            ==> container::torn(b),
    ensures
        image::sealed(t, d, bl),
        settled(t, d, layout::end(d)),
{
    let bs = d.block_size as int;
    let n = layout::end(d);
    let out = l.committed(e, now).0;
    lemma_reopen(img, d, bl);
    lemma_copy_on_write(l, e, now);
    num::lemma_mono(n, l.bump as int, bs);
    num::lemma_mono(n, e.bump as int, bs);
    assert forall|p: int|
        0 <= p < n * bs && p < img.len() && !(l.slot * bs <= p < l.slot * bs
            + bs) implies #[trigger] t[p] == img[p] by {
        assert(out[p] == now[p]);
        assert(now[p] == img[p]);
    }
    lemma_other_slot(img, d, bl, t, l.slot);
    lemma_sealed_settled(t, d, bl);
}

/// A device of zeros is ready for a new container.
pub proof fn lemma_zeros_ready(n: nat, d: Draft)
    requires
        d.fresh,
        d.block_size >= 1024,
    ensures
        image::ready(bytes::zeros(n), d),
{
    let img = bytes::zeros(n);
    let bs = d.block_size as int;
    bytes::lemma_zeros_len(n);
    assert forall|i: int| 0 <= i < 16 && 1 + i != d.nxsb_paddr && !(d.fresh && i == 0) implies
        #[trigger] image::older(img, bs, (1 + i) as u64, d.xid) by {
        let at = (1 + i) * bs;
        assert(at >= 0) by (nonlinear_arith)
            requires
                i >= 0,
                bs >= 0,
                at == (1 + i) * bs,
        ;
        if at + bs <= n {
            bytes::lemma_get_sub(img, at, at + bs, 32);
            bytes::lemma_get32_zeros(n, at + 32);
        }
    }
}

} // verus!
