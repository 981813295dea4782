//! Contents, names and attributes read back from a written image.

use vstd::prelude::*;

use crate::apfs::content;
use crate::apfs::jrec::{self, FileExtentVal, APFS_TYPE_FILE_EXTENT, APFS_TYPE_INODE, KIND_UNIT};
use crate::apfs::pack::Rec;
use crate::apfs::plan::Placed;
use crate::apfs::record;
use crate::apfs::rw;
use crate::apfs::volume;
use crate::apfs::write::Draft;
use crate::block;
use crate::bytes;
use crate::error::Error;
use crate::num;
use crate::text;

use super::{fields, files, image, layout, records, stored, tree};

verus! {

/// Where an object's contents are, and what its inode says.
pub struct Placement {
    pub oid: u64,
    pub parent: u64,
    pub mode: u16,
    pub time: u64,
    /// First block of the contents.
    pub paddr: u64,
}

/// Whether the writer `d`, on the device `img`, has the contents `data` of object
/// `oid`, in one run of blocks from `paddr` on.
pub open spec fn body(img: Seq<u8>, d: Draft, oid: u64, paddr: u64, data: Seq<u8>) -> bool {
    let bs = d.block_size;
    let n = data.len() as u64;
    &&& data.len() <= u64::MAX
    &&& tree::those(d.records, (oid, APFS_TYPE_FILE_EXTENT)) == if n == 0 {
        Seq::<Rec>::empty()
    } else {
        seq![(record::extent_record_key(oid, 0), record::extent_record_value(n, paddr, bs))]
    }
    &&& n > 0 ==> {
        &&& crate::apfs::write::BUMP_BLOCK_START <= paddr
        &&& paddr + num::div_up(n as int, bs as int) <= d.next_block
        &&& num::div_up(n as int, bs as int) * bs < 0x0100_0000_0000_0000
        &&& paddr * bs + n <= img.len()
        &&& img.subrange(paddr * bs, paddr * bs + n) == data
    }
}

/// Whether the records `rs` give object `oid` the inode `v`, and no other.
pub open spec fn described(rs: Seq<Rec>, oid: u64, v: Seq<u8>) -> bool {
    tree::those(rs, (oid, APFS_TYPE_INODE)) == seq![(record::inode_key(oid), v)]
}

/// Whether `v` is the inode of a file or symbolic link that holds `n` bytes
/// itself, as object `oid`.
pub open spec fn streams(v: Seq<u8>, oid: u64, n: u64) -> bool {
    let t = record::type_bits(bytes::get16(v, 80));
    &&& v.len() >= 92
    &&& t == 0x8000 || t == 0xa000
    &&& bytes::get64(v, 8) == oid || bytes::get64(v, 8) == 0
    &&& volume::inode_size(v) == n
}

/// Whether the writer `d`, on the device `img`, has the file or symbolic link
/// `o` with the contents `data`.
pub open spec fn stores(img: Seq<u8>, d: Draft, o: Placement, data: Seq<u8>) -> bool {
    &&& o.oid < d.next_oid
    &&& o.oid != 0
    &&& record::type_bits(o.mode) == 0x8000 || record::type_bits(o.mode) == 0xa000
    &&& described(
        d.records,
        o.oid,
        record::inode_value(o.oid, o.parent, o.mode, data.len() as u64, d.block_size, o.time),
    )
    &&& body(img, d, o.oid, o.paddr, data)
}

pub proof fn lemma_none_own(rs: Seq<Rec>, p: (u64, u8))
    requires
        forall|i: int| 0 <= i < rs.len() ==> tree::owner(#[trigger] rs[i]) != p,
    ensures
        tree::those(rs, p) == Seq::<Rec>::empty(),
{
    let t = tree::those(rs, p);
    if t.len() > 0 {
        assert(t.contains(t[0]));
        records::lemma_those_in(rs, p, t[0]);
        let i = choose|i: int| 0 <= i < rs.len() && rs[i] == t[0];
        assert(tree::owner(rs[i]) == p);
    }
    assert(t =~= Seq::<Rec>::empty());
}

/// No record describes an object that was not given out.
pub proof fn lemma_not_yet(d: Draft, k: u8)
    requires
        files::tidy(d),
        files::own_kind(k),
    ensures
        tree::those(d.records, (d.next_oid, k)) == Seq::<Rec>::empty(),
{
    assert forall|i: int| 0 <= i < d.records.len() implies tree::owner(#[trigger] d.records[i]) != (
        d.next_oid,
        k,
    ) by {
        if tree::owner(d.records[i]).1 == k {
            assert(files::own(d.records[i]));
        }
    }
    lemma_none_own(d.records, (d.next_oid, k));
}

/// Picking from the records of a new object with contents.
pub proof fn lemma_pick_four(rs: Seq<Rec>, p: (u64, u8), at: int)
    requires
        rs.len() == 4,
        0 <= at < 4,
        tree::owner(rs[at]) == p,
        forall|i: int| 0 <= i < 4 && i != at ==> tree::owner(#[trigger] rs[i]) != p,
    ensures
        tree::those(rs, p) == seq![rs[at]],
{
    records::lemma_those_one(rs[0], p);
    records::lemma_those_one(rs[1], p);
    records::lemma_those_one(rs[2], p);
    records::lemma_those_one(rs[3], p);
    records::lemma_those_add(seq![rs[0]], seq![rs[1]], p);
    records::lemma_those_add(seq![rs[0]] + seq![rs[1]], seq![rs[2]], p);
    records::lemma_those_add(seq![rs[0]] + seq![rs[1]] + seq![rs[2]], seq![rs[3]], p);
    assert(rs =~= seq![rs[0]] + seq![rs[1]] + seq![rs[2]] + seq![rs[3]]);
    assert(tree::those(rs, p) =~= seq![rs[at]]);
}

/// Contents just stored are on the device.
proof fn lemma_just_stored(img: Seq<u8>, d: Draft, data: Seq<u8>, size: u64)
    requires
        d.wf(),
        d.within(img),
        d.has_room(size),
    ensures
        ({
            let bs = d.block_size;
            let out = crate::apfs::write::stored(
                img,
                bs,
                d.next_block,
                data,
                size,
                d.blocks_for(size),
            );
            &&& d.next_block * bs + size <= out.len()
            &&& out.subrange(d.next_block * bs, d.next_block * bs + size)
                == crate::apfs::write::padded(data, size as int, size as int)
        }),
{
    let bs = d.block_size as int;
    let n = d.blocks_for(size);
    let at = d.next_block * bs;
    let b = crate::apfs::write::padded(data, size as int, n * bs);
    let out = crate::apfs::write::stored(img, d.block_size, d.next_block, data, size, n);
    num::lemma_div_up(size as int, bs);
    bytes::lemma_put_len(img, at, b);
    num::lemma_mono(d.next_block + n, d.total_blocks as int, bs);
    assert((d.next_block + n) * bs == d.next_block * bs + n * bs) by (nonlinear_arith);
    assert(at >= 0) by {
        num::lemma_mono(0, d.next_block as int, bs);
        assert(0 * bs == 0) by (nonlinear_arith);
    }
    let want = crate::apfs::write::padded(data, size as int, size as int);
    assert forall|i: int| 0 <= i < size implies out[at + i] == want[i] by {
        bytes::lemma_put_index(img, at, b, at + i);
    }
    assert(out.subrange(at, at + size) =~= want);
}

/// The placement of the next object.
pub open spec fn next_placement(d: Draft, parent: u64, mode: u16, time: u64) -> Placement {
    Placement { oid: d.next_oid, parent, mode, time, paddr: d.next_block }
}

/// An object just added with contents has them.
proof fn lemma_stream_stored(
    img: Seq<u8>,
    d: Draft,
    parent: u64,
    name: Seq<char>,
    dtype: u16,
    mode: u16,
    data: Seq<u8>,
    size: u64,
    time: u64,
)
    requires
        d.wf(),
        d.within(img),
        files::tidy(d),
        d.next_oid != 0,
        d.next_oid + 1 < KIND_UNIT,
        record::type_bits(mode) == 0x8000 || record::type_bits(mode) == 0xa000,
        d.stream_added(parent, name, dtype, mode, size, time).1 is Ok,
        num::div_up(size as int, d.block_size as int) * d.block_size < 0x0100_0000_0000_0000,
    ensures
        ({
            let (e, r) = d.stream_added(parent, name, dtype, mode, size, time);
            stores(
                files::stream_image(img, d, data, size, r),
                e,
                next_placement(d, parent, mode, time),
                crate::apfs::write::padded(data, size as int, size as int),
            )
        }),
{
    let (e, r) = d.stream_added(parent, name, dtype, mode, size, time);
    let more = files::stream_records(d, parent, name, dtype, mode, size, time);
    let v = d.inode(parent, mode, size, time).1;
    files::lemma_stream_added(img, d, parent, name, dtype, mode, data, size, time);
    files::lemma_stream_records(d, parent, name, dtype, size, v);
    lemma_just_stored(img, d, data, size);
    let x = d.next_oid;
    lemma_not_yet(d, APFS_TYPE_INODE);
    lemma_not_yet(d, APFS_TYPE_FILE_EXTENT);
    records::lemma_those_add(d.records, more, (x, APFS_TYPE_INODE));
    records::lemma_those_add(d.records, more, (x, APFS_TYPE_FILE_EXTENT));
    lemma_pick_four(more, (x, APFS_TYPE_INODE), 3);
    lemma_pick_four(more, (x, APFS_TYPE_FILE_EXTENT), 1);
    assert(Seq::<Rec>::empty() + seq![more[3]] =~= seq![more[3]]);
    assert(Seq::<Rec>::empty() + seq![more[1]] =~= seq![more[1]]);
}

/// A file just added has its contents: the first `size` bytes of `data`, with
/// zeros behind them where `data` is shorter.
pub proof fn lemma_file_stored(
    img: Seq<u8>,
    d: Draft,
    parent: u64,
    name: Seq<char>,
    mode: u16,
    data: Seq<u8>,
    size: u64,
    time: u64,
)
    requires
        d.wf(),
        d.within(img),
        files::tidy(d),
        d.next_oid != 0,
        d.next_oid + 1 < KIND_UNIT,
        d.file_added(parent, name, mode, size, time).1 is Ok,
        num::div_up(size as int, d.block_size as int) * d.block_size < 0x0100_0000_0000_0000,
    ensures
        ({
            let (e, r) = d.file_added(parent, name, mode, size, time);
            stores(
                files::stream_image(img, d, data, size, r),
                e,
                next_placement(d, parent, (0x8000 + mode % 0x1000) as u16, time),
                crate::apfs::write::padded(data, size as int, size as int),
            )
        }),
{
    let m = (0x8000 + mode % 0x1000) as u16;
    let (e, r) = d.file_added(parent, name, mode, size, time);
    let x = d.next_oid;
    if size == 0 {
        let i = d.inode(parent, m, 0, time);
        let q = d.drec(parent, name, jrec::DT_REG);
        let more = seq![q, i];
        files::lemma_entry_records(d, parent, name, jrec::DT_REG, i.1);
        lemma_not_yet(d, APFS_TYPE_INODE);
        lemma_not_yet(d, APFS_TYPE_FILE_EXTENT);
        assert(e.records =~= d.records + more);
        assert(more =~= seq![q] + seq![i]);
        let pi = (x, APFS_TYPE_INODE);
        let pe = (x, APFS_TYPE_FILE_EXTENT);
        records::lemma_those_add(d.records, more, pi);
        records::lemma_those_add(d.records, more, pe);
        records::lemma_those_add(seq![q], seq![i], pi);
        records::lemma_those_add(seq![q], seq![i], pe);
        records::lemma_those_one(q, pi);
        records::lemma_those_one(i, pi);
        records::lemma_those_one(q, pe);
        records::lemma_those_one(i, pe);
        assert(tree::those(e.records, pi) =~= seq![i]);
        assert(tree::those(e.records, pe) =~= Seq::<Rec>::empty());
    } else {
        lemma_stream_stored(img, d, parent, name, jrec::DT_REG, m, data, size, time);
        let (f, _) = d.stream_added(parent, name, jrec::DT_REG, m, size, time);
        assert(e.records == f.records);
    }
}

/// A symbolic link just added has its target as its contents.
pub proof fn lemma_link_stored(
    img: Seq<u8>,
    d: Draft,
    parent: u64,
    name: Seq<char>,
    mode: u16,
    target: Seq<char>,
    time: u64,
)
    requires
        d.wf(),
        d.within(img),
        files::tidy(d),
        d.next_oid != 0,
        d.next_oid + 1 < KIND_UNIT,
        text::utf8(target).len() <= u64::MAX,
        d.link_added(parent, name, mode, target, time).1 is Ok,
        num::div_up(text::utf8(target).len() as int, d.block_size as int) * d.block_size
            < 0x0100_0000_0000_0000,
    ensures
        ({
            let (e, r) = d.link_added(parent, name, mode, target, time);
            let b = text::utf8(target);
            stores(
                files::stream_image(img, d, b, b.len() as u64, r),
                e,
                next_placement(d, parent, (0xa000 + mode % 0x1000) as u16, time),
                b,
            )
        }),
{
    let m = (0xa000 + mode % 0x1000) as u16;
    let b = text::utf8(target);
    let n = b.len() as u64;
    lemma_stream_stored(img, d, parent, name, jrec::DT_LNK, m, b, n, time);
    let (e, r) = d.link_added(parent, name, mode, target, time);
    let (f, _) = d.stream_added(parent, name, jrec::DT_LNK, m, n, time);
    assert(e.records == f.records);
    assert(crate::apfs::write::padded(b, n as int, n as int) =~= b);
}

/// Carrying on keeps the contents of what was there.
pub proof fn lemma_stores_kept(
    before: Seq<u8>,
    d: Draft,
    after: Seq<u8>,
    e: Draft,
    o: Placement,
    data: Seq<u8>,
)
    requires
        d.wf(),
        files::carried_on(before, d, after, e),
        stores(before, d, o, data),
    ensures
        stores(after, e, o, data),
{
    let n = d.records.len() as int;
    let more = e.records.skip(n);
    assert(e.records =~= d.records + more);
    lemma_no_more(d, e, o.oid, APFS_TYPE_INODE);
    lemma_no_more(d, e, o.oid, APFS_TYPE_FILE_EXTENT);
    if data.len() > 0 {
        let bs = d.block_size as int;
        let k = num::div_up(data.len() as int, bs);
        let at = o.paddr * bs;
        num::lemma_mono(o.paddr + k, d.next_block as int, bs);
        num::lemma_mono(0, o.paddr as int, bs);
        assert((o.paddr + k) * bs == o.paddr * bs + k * bs) by (nonlinear_arith);
        assert(0 * bs == 0) by (nonlinear_arith);
        num::lemma_div_up(data.len() as int, bs);
        assert forall|i: int| 0 <= i < data.len() implies after[at + i] == data[i] by {
            assert(before.subrange(at, at + data.len())[i] == before[at + i]);
        }
        assert(after.subrange(at, at + data.len()) =~= data);
    }
}

/// Carrying on describes nothing again that was there.
pub proof fn lemma_no_more(d: Draft, e: Draft, oid: u64, k: u8)
    requires
        e.records.len() >= d.records.len(),
        e.records.take(d.records.len() as int) == d.records,
        forall|i: int|
            d.records.len() <= i < e.records.len() && files::own(#[trigger] e.records[i])
                ==> tree::owner(e.records[i]).0 >= d.next_oid,
        oid < d.next_oid,
        files::own_kind(k),
    ensures
        tree::those(e.records, (oid, k)) == tree::those(d.records, (oid, k)),
{
    let n = d.records.len() as int;
    let more = e.records.skip(n);
    assert(e.records =~= d.records + more);
    records::lemma_those_add(d.records, more, (oid, k));
    assert forall|i: int| 0 <= i < more.len() implies tree::owner(#[trigger] more[i]) != (
        oid,
        k,
    ) by {
        assert(more[i] == e.records[n + i]);
        if tree::owner(more[i]).1 == k {
            assert(files::own(e.records[n + i]));
        }
    }
    lemma_none_own(more, (oid, k));
    assert(tree::those(d.records, (oid, k)) + Seq::<Rec>::empty() =~= tree::those(
        d.records,
        (oid, k),
    ));
}

/// A byte of an allocated block stays as it is when the image is written.
proof fn lemma_contents_kept(img: Seq<u8>, d: Draft, bl: Seq<Placed>, p: int)
    requires
        image::written(img, d, bl),
        crate::apfs::write::BUMP_BLOCK_START * d.block_size <= p < d.next_block * d.block_size,
        p < img.len(),
    ensures
        block::store_all(img, d.block_size as int, bl).0[p] == img[p],
{
    let bs = d.block_size as int;
    layout::lemma_plan_apart(d, bl);
    stored::lemma_store_all(img, bs, bl);
    assert forall|i: int| 0 <= i < bl.len() implies !((#[trigger] bl[i]).0 * bs <= p < bl[i].0 * bs
        + bs) by {
        let a = bl[i].0 as int;
        if a >= d.next_block {
            num::lemma_mono(d.next_block as int, a, bs);
        } else {
            assert(a < 21);
            num::lemma_mono(a + 1, 21, bs);
            num::lemma_step(a, bs);
        }
    }
    assert(stored::outside(bl, bs, p));
}

/// The extent of contents of `n` bytes from block `paddr` on.
spec fn whole(n: u64, paddr: u64, bs: u32) -> content::Extent {
    (
        0u64,
        FileExtentVal {
            length: (num::div_up(n as int, bs as int) * bs) as u64,
            phys_block_num: paddr,
        },
    )
}

/// The record of that extent gives it.
proof fn lemma_whole(oid: u64, n: u64, paddr: u64, bs: u32, rs: Seq<Rec>)
    requires
        bs > 0,
        num::div_up(n as int, bs as int) * bs < 0x0100_0000_0000_0000,
        rs == seq![
            (record::extent_record_key(oid, 0), record::extent_record_value(n, paddr, bs)),
        ],
    ensures
        content::extents_upto(rs, 1) == seq![whole(n, paddr, bs)],
{
    let v = record::extent_record_value(n, paddr, bs);
    records::lemma_extent_key(oid, 0, v);
    fields::lemma_extent_value(n, paddr, bs);
    let x = whole(n, paddr, bs);
    assert(content::extent_of(rs[0]) == Some(x));
    reveal_with_fuel(content::extents_upto, 2);
    assert(content::extents_upto(rs, 0) == Seq::<content::Extent>::empty());
    assert(content::insert_extent(Seq::<content::Extent>::empty(), x) =~= seq![x]);
}

/// A run of allocated blocks stays as it is when the image is written.
proof fn lemma_range_kept(img: Seq<u8>, d: Draft, bl: Seq<Placed>, lo: int, hi: int)
    requires
        image::written(img, d, bl),
        crate::apfs::write::BUMP_BLOCK_START * d.block_size <= lo <= hi <= d.next_block
            * d.block_size,
        hi <= img.len(),
    ensures
        block::store_all(img, d.block_size as int, bl).0.len() == img.len(),
        block::store_all(img, d.block_size as int, bl).0.subrange(lo, hi) == img.subrange(lo, hi),
{
    let out = block::store_all(img, d.block_size as int, bl).0;
    layout::lemma_plan_apart(d, bl);
    stored::lemma_store_all(img, d.block_size as int, bl);
    assert forall|p: int| lo <= p < hi implies out[p] == img[p] by {
        lemma_contents_kept(img, d, bl, p);
    }
    assert(out.subrange(lo, hi) =~= img.subrange(lo, hi));
}

/// The bytes of contents that lie in one extent.
proof fn lemma_bytes(out: Seq<u8>, data: Seq<u8>, paddr: u64, bs: u32)
    requires
        bs > 0,
        paddr > 0,
        0 < data.len() <= u64::MAX,
        num::div_up(data.len() as int, bs as int) * bs < 0x0100_0000_0000_0000,
        paddr * bs + data.len() <= out.len(),
        out.subrange(paddr * bs, paddr * bs + data.len()) == data,
    ensures
        ({
            let es = seq![whole(data.len() as u64, paddr, bs)];
            &&& forall|p: int|
                0 <= p < data.len() ==> #[trigger] content::readable(out, es, bs as int, p)
            &&& content::file_bytes(out, es, bs as int, 0, data.len() as int) == data
        }),
{
    let n = data.len() as u64;
    let es = seq![whole(n, paddr, bs)];
    let at = paddr * bs;
    num::lemma_div_up(n as int, bs as int);
    assert forall|p: int| 0 <= p < n implies #[trigger] content::readable(out, es, bs as int, p)
        && content::byte_at(out, es, bs as int, p) == data[p] by {
        assert(content::covers(es[0], p));
        assert(content::covering(es, p, 0) == Some(0int));
        assert(content::device_pos(es, bs as int, p) == Some(at + p));
        assert(out.subrange(at, at + n)[p] == out[at + p]);
    }
    assert(content::file_bytes(out, es, bs as int, 0, n as int) =~= data);
}

/// Writing the image keeps contents.
pub proof fn lemma_body_written(
    img: Seq<u8>,
    d: Draft,
    bl: Seq<Placed>,
    oid: u64,
    paddr: u64,
    data: Seq<u8>,
)
    requires
        image::written(img, d, bl),
        body(img, d, oid, paddr, data),
    ensures
        body(block::store_all(img, d.block_size as int, bl).0, d, oid, paddr, data),
{
    let bs = d.block_size as int;
    let n = data.len() as int;
    if n > 0 {
        let k = num::div_up(n, bs);
        assert((paddr + k) * bs == paddr * bs + k * bs) by (nonlinear_arith);
        num::lemma_div_up(n, bs);
        num::lemma_mono(paddr + k, d.next_block as int, bs);
        num::lemma_mono(21, paddr as int, bs);
        lemma_range_kept(img, d, bl, paddr * bs, paddr * bs + n);
    }
}

/// Writing the image keeps the contents of what was added.
pub proof fn lemma_stores_written(
    img: Seq<u8>,
    d: Draft,
    bl: Seq<Placed>,
    o: Placement,
    data: Seq<u8>,
)
    requires
        image::written(img, d, bl),
        stores(img, d, o, data),
    ensures
        stores(block::store_all(img, d.block_size as int, bl).0, d, o, data),
{
    lemma_body_written(img, d, bl, o.oid, o.paddr, data);
}

/// The one inode of an object is read.
pub proof fn lemma_inode_back(out: Seq<u8>, d: Draft, oid: u64, v: Seq<u8>)
    requires
        image::reads(out, d),
        files::tidy(d),
        described(d.records, oid, v),
        v.len() >= 92,
    ensures
        rw::first_open(out) is Ok,
        volume::inode(rw::first_open(out)->Ok_0, out, oid) == Ok::<Seq<u8>, Error>(v),
{
    records::lemma_unrepeated_sort(d.records);
    records::lemma_sole(d.records, (oid, APFS_TYPE_INODE), (record::inode_key(oid), v));
    assert(volume::found(rw::first_open(out)->Ok_0, out, oid, APFS_TYPE_INODE).recs == seq![
        (record::inode_key(oid), v),
    ]);
}

/// Contents in one run of blocks are read.
pub proof fn lemma_body_back(
    out: Seq<u8>,
    d: Draft,
    oid: u64,
    paddr: u64,
    data: Seq<u8>,
)
    requires
        image::reads(out, d),
        files::tidy(d),
        body(out, d, oid, paddr, data),
    ensures
        ({
            let m = rw::first_open(out)->Ok_0;
            let es = content::extents(m, out, oid)->Ok_0;
            &&& rw::first_open(out) is Ok
            &&& content::extents(m, out, oid) is Ok
            &&& forall|p: int|
                0 <= p < data.len() ==> #[trigger] content::readable(
                    out,
                    es,
                    d.block_size as int,
                    p,
                )
            &&& content::file_bytes(out, es, d.block_size as int, 0, data.len() as int) == data
        }),
{
    let bs = d.block_size as int;
    let n = data.len() as u64;
    let pe = (oid, APFS_TYPE_FILE_EXTENT);
    records::lemma_unrepeated_sort(d.records);
    let m = rw::first_open(out)->Ok_0;
    let f = volume::found(m, out, oid, APFS_TYPE_FILE_EXTENT);
    let es = content::extents(m, out, oid)->Ok_0;
    if n == 0 {
        records::lemma_those_sort(d.records, pe);
        assert(content::file_bytes(out, es, bs, 0, 0) =~= data);
    } else {
        let r = (record::extent_record_key(oid, 0), record::extent_record_value(
            n,
            paddr,
            d.block_size,
        ));
        records::lemma_sole(d.records, pe, r);
        assert(f.recs == seq![r]);
        lemma_whole(oid, n, paddr, d.block_size, f.recs);
        assert(es == seq![whole(n, paddr, d.block_size)]);
        lemma_bytes(out, data, paddr, d.block_size);
    }
}

/// Contents read back: on a device that reads as the records of `d`, a file or
/// symbolic link of the writer is one, and its bytes are its contents.
pub proof fn lemma_contents_back(
    out: Seq<u8>,
    d: Draft,
    o: Placement,
    data: Seq<u8>,
)
    requires
        image::reads(out, d),
        files::tidy(d),
        stores(out, d, o, data),
    ensures
        ({
            let m = rw::first_open(out)->Ok_0;
            let es = content::extents(m, out, o.oid)->Ok_0;
            &&& rw::first_open(out) is Ok
            &&& volume::inode(m, out, o.oid) == Ok::<Seq<u8>, Error>(
                record::inode_value(
                    o.oid,
                    o.parent,
                    o.mode,
                    data.len() as u64,
                    d.block_size,
                    o.time,
                ),
            )
            &&& volume::stream_of(m, out, o.oid) == Ok::<(u64, u64), Error>(
                (data.len() as u64, o.oid),
            )
            &&& content::extents(m, out, o.oid) is Ok
            &&& forall|p: int|
                0 <= p < data.len() ==> #[trigger] content::readable(
                    out,
                    es,
                    d.block_size as int,
                    p,
                )
            &&& content::file_bytes(out, es, d.block_size as int, 0, data.len() as int) == data
        }),
{
    let n = data.len() as u64;
    let v = record::inode_value(o.oid, o.parent, o.mode, n, d.block_size, o.time);
    fields::lemma_inode_value(o.oid, o.parent, o.mode, n, d.block_size, o.time);
    lemma_inode_back(out, d, o.oid, v);
    lemma_body_back(out, d, o.oid, o.paddr, data);
}

} // verus!
