//! What a writer adds is found again in the image that it writes.

use vstd::prelude::*;

use crate::apfs::jrec::{
    self, APFS_TYPE_DIR_REC, APFS_TYPE_DSTREAM_ID, APFS_TYPE_FILE_EXTENT, APFS_TYPE_INODE,
    KIND_UNIT,
};
use crate::apfs::pack::Rec;
use crate::apfs::record;
use crate::apfs::write::{uuid_of, Draft};
use crate::bytes;
use crate::error::Result;
use crate::num;
use crate::text;

use super::{records, stored, tree};

verus! {

/// Whether records of kind `k` belong to the object that they describe.
pub open spec fn own_kind(k: u8) -> bool {
    k == APFS_TYPE_INODE || k == APFS_TYPE_DSTREAM_ID || k == APFS_TYPE_FILE_EXTENT
}

/// Whether the record `r` is one of an object's own: its inode, its data stream
/// or its extents, or anything with a key of a key word alone.
pub open spec fn own(r: Rec) -> bool {
    r.0.len() == 8 || own_kind(tree::owner(r).1)
}

/// Whether a writer's records describe no object twice, and none that was not
/// given out.
pub open spec fn tidy(d: Draft) -> bool {
    &&& d.next_oid < KIND_UNIT
    &&& tree::unrepeated(d.records)
    &&& forall|i: int|
        0 <= i < d.records.len() && own(#[trigger] d.records[i]) ==> tree::owner(d.records[i]).0
            < d.next_oid
}

/// Whether the writer `e`, on the device `new`, carries on from `d` on `old`:
/// nothing that was there is gone or described again.
pub open spec fn carried_on(before: Seq<u8>, d: Draft, after: Seq<u8>, e: Draft) -> bool {
    &&& e.block_size == d.block_size
    &&& e.next_block >= d.next_block
    &&& e.next_oid >= d.next_oid
    &&& after.len() == before.len()
    &&& forall|p: int|
        0 <= p < d.next_block * d.block_size && p < before.len() ==> #[trigger] after[p]
            == before[p]
    &&& e.records.len() >= d.records.len()
    &&& e.records.take(d.records.len() as int) == d.records
    &&& forall|i: int|
        d.records.len() <= i < e.records.len() && own(#[trigger] e.records[i]) ==> tree::owner(
            e.records[i],
        ).0 >= d.next_oid
}

/// Carrying on twice is carrying on.
pub proof fn lemma_carried_trans(
    a: Seq<u8>,
    d: Draft,
    b: Seq<u8>,
    e: Draft,
    c: Seq<u8>,
    f: Draft,
)
    requires
        carried_on(a, d, b, e),
        carried_on(b, e, c, f),
    ensures
        carried_on(a, d, c, f),
{
    let n = d.records.len() as int;
    let bs = d.block_size as int;
    assert(f.records.take(n) =~= e.records.take(n)) by {
        assert forall|i: int| 0 <= i < n implies f.records[i] == e.records[i] by {
            assert(f.records.take(e.records.len() as int)[i] == f.records[i]);
        }
    }
    assert forall|i: int| n <= i < f.records.len() && own(#[trigger] f.records[i]) implies
        tree::owner(f.records[i]).0 >= d.next_oid by {
        if i < e.records.len() {
            assert(f.records.take(e.records.len() as int)[i] == f.records[i]);
            assert(own(e.records[i]));
        }
    }
    assert forall|p: int| 0 <= p < d.next_block * d.block_size && p < a.len() implies
        #[trigger] c[p] == a[p] by {
        num::lemma_mono(d.next_block as int, e.next_block as int, bs);
        assert(b[p] == a[p]);
    }
}

/// New records of the next object keep a writer tidy.
proof fn lemma_tidy_more(d: Draft, e: Draft, more: Seq<Rec>)
    requires
        tidy(d),
        e.records == d.records + more,
        e.next_oid == d.next_oid + 1,
        e.next_oid < KIND_UNIT,
        tree::unrepeated(more),
        forall|i: int|
            0 <= i < more.len() && own(#[trigger] more[i]) ==> tree::owner(more[i]).0
                == d.next_oid,
    ensures
        tidy(e),
{
    let n = d.records.len() as int;
    let s = e.records;
    assert forall|i: int| 0 <= i < s.len() && own(#[trigger] s[i]) implies tree::owner(s[i]).0
        < e.next_oid by {
        if i < n {
            assert(s[i] == d.records[i]);
        } else {
            assert(s[i] == more[i - n]);
        }
    }
    assert forall|i: int, j: int|
        #![trigger s[i], s[j]]
        0 <= i < j < s.len() && s[i].0.len() == 8 && s[j].0.len() == 8 implies tree::owner(s[i])
        != tree::owner(s[j]) by {
        if j < n {
            assert(s[i] == d.records[i] && s[j] == d.records[j]);
        } else if i >= n {
            assert(s[i] == more[i - n] && s[j] == more[j - n]);
        } else {
            assert(s[i] == d.records[i] && s[j] == more[j - n]);
            assert(own(d.records[i]) && own(more[j - n]));
        }
    }
}

/// The records of a new object without contents.
pub proof fn lemma_entry_records(d: Draft, parent: u64, name: Seq<char>, dtype: u16, v: Seq<u8>)
    requires
        d.next_oid < KIND_UNIT,
    ensures
        ({
            let rs = seq![d.drec(parent, name, dtype), (record::inode_key(d.next_oid), v)];
            &&& !own(rs[0])
            &&& tree::owner(rs[0]) == ((parent % KIND_UNIT) as u64, APFS_TYPE_DIR_REC)
            &&& tree::owner(rs[1]) == (d.next_oid, APFS_TYPE_INODE)
            &&& tree::unrepeated(rs)
            &&& tree::unrepeated(seq![d.drec(parent, name, dtype)])
        }),
{
    records::lemma_drec_key(parent, name, record::drec_value(d.next_oid, dtype));
    records::lemma_inode_key(d.next_oid, v);
}

/// A new container is tidy.
pub proof fn lemma_tidy_new(total: u64, bs: u32, name: Seq<char>)
    ensures
        tidy(crate::apfs::write::new_draft(total, bs, name)),
{
    records::lemma_inode_key(2, record::inode_value(2, 0, 0x41ed, 0, bs, 0));
}

/// Adding a directory keeps a writer tidy and what was there.
pub proof fn lemma_dir_added(
    img: Seq<u8>,
    d: Draft,
    parent: u64,
    name: Seq<char>,
    mode: u16,
    time: u64,
)
    requires
        tidy(d),
        d.next_oid + 1 < KIND_UNIT,
    ensures
        tidy(d.dir_added(parent, name, mode, time).0),
        carried_on(img, d, img, d.dir_added(parent, name, mode, time).0),
{
    let e = d.dir_added(parent, name, mode, time).0;
    let r = d.inode(parent, (0x4000 + mode % 0x1000) as u16, 0, time);
    lemma_entry_records(d, parent, name, jrec::DT_DIR, r.1);
    let more = if text::utf8(name).len() + 1 > 0xffff {
        Seq::<Rec>::empty()
    } else {
        seq![d.drec(parent, name, jrec::DT_DIR), r]
    };
    assert(e.records =~= d.records + more);
    lemma_tidy_more(d, e, more);
    assert(e.records.take(d.records.len() as int) =~= d.records);
}

/// The records of a new object with contents.
pub proof fn lemma_stream_records(
    d: Draft,
    parent: u64,
    name: Seq<char>,
    dtype: u16,
    size: u64,
    v: Seq<u8>,
)
    requires
        d.next_oid < KIND_UNIT,
    ensures
        ({
            let x = record::extent_records(d.next_oid, 0, size, d.next_block, d.block_size);
            let rs = seq![d.drec(parent, name, dtype)] + (x + seq![
                (record::inode_key(d.next_oid), v),
            ]);
            &&& rs.len() == 4
            &&& rs[1] == x[0]
            &&& rs[3] == (record::inode_key(d.next_oid), v)
            &&& tree::unrepeated(rs)
            &&& !own(rs[0])
            &&& tree::owner(rs[0]) == ((parent % KIND_UNIT) as u64, APFS_TYPE_DIR_REC)
            &&& tree::owner(rs[1]) == (d.next_oid, APFS_TYPE_FILE_EXTENT)
            &&& tree::owner(rs[2]) == (d.next_oid, APFS_TYPE_DSTREAM_ID)
            &&& tree::owner(rs[3]) == (d.next_oid, APFS_TYPE_INODE)
        }),
{
    lemma_entry_records(d, parent, name, dtype, v);
    records::lemma_extent_key(
        d.next_oid,
        0,
        record::extent_record_value(size, d.next_block, d.block_size),
    );
    records::lemma_dstream_key(d.next_oid, bytes::zeros(4));
}

/// The records that adding an object with contents adds.
pub open spec fn stream_records(
    d: Draft,
    parent: u64,
    name: Seq<char>,
    dtype: u16,
    mode: u16,
    size: u64,
    time: u64,
) -> Seq<Rec> {
    if text::utf8(name).len() + 1 > 0xffff {
        Seq::empty()
    } else if !d.has_room(size) {
        seq![d.drec(parent, name, dtype)]
    } else {
        seq![d.drec(parent, name, dtype)] + (record::extent_records(
            d.next_oid,
            0,
            size,
            d.next_block,
            d.block_size,
        ) + seq![d.inode(parent, mode, size, time)])
    }
}

/// Storing contents from the next free block on leaves what lies before.
proof fn lemma_stored_front(img: Seq<u8>, d: Draft, data: Seq<u8>, size: u64, p: int)
    requires
        0 <= p < d.next_block * d.block_size,
        p < img.len(),
    ensures
        crate::apfs::write::stored(
            img,
            d.block_size,
            d.next_block,
            data,
            size,
            d.blocks_for(size),
        )[p] == img[p],
{
    bytes::lemma_put_index(
        img,
        d.next_block * d.block_size,
        crate::apfs::write::padded(data, size as int, d.blocks_for(size) * d.block_size),
        p,
    );
}

/// The device once an object with contents was added.
pub open spec fn stream_image(img: Seq<u8>, d: Draft, data: Seq<u8>, size: u64, r: Result<u64>) -> Seq<
    u8,
> {
    if r is Ok && size > 0 {
        crate::apfs::write::stored(
            img,
            d.block_size,
            d.next_block,
            data,
            size,
            d.blocks_for(size),
        )
    } else {
        img
    }
}

/// Adding an object with contents keeps a writer tidy and what was there.
pub proof fn lemma_stream_added(
    img: Seq<u8>,
    d: Draft,
    parent: u64,
    name: Seq<char>,
    dtype: u16,
    mode: u16,
    data: Seq<u8>,
    size: u64,
    time: u64,
)
    requires
        d.wf(),
        tidy(d),
        d.next_oid + 1 < KIND_UNIT,
    ensures
        ({
            let (e, r) = d.stream_added(parent, name, dtype, mode, size, time);
            &&& tidy(e)
            &&& carried_on(img, d, stream_image(img, d, data, size, r), e)
            &&& e.records == d.records + stream_records(d, parent, name, dtype, mode, size, time)
            &&& e.next_oid == d.next_oid + 1
        }),
{
    let (e, r) = d.stream_added(parent, name, dtype, mode, size, time);
    let more = stream_records(d, parent, name, dtype, mode, size, time);
    let v = d.inode(parent, mode, size, time).1;
    lemma_entry_records(d, parent, name, dtype, v);
    lemma_stream_records(d, parent, name, dtype, size, v);
    assert(e.records =~= d.records + more);
    lemma_tidy_more(d, e, more);
    assert(e.records.take(d.records.len() as int) =~= d.records);
    let out = stream_image(img, d, data, size, r);
    if size > 0 {
        num::lemma_div_up(size as int, d.block_size as int);
    }
    bytes::lemma_put_len(
        img,
        d.next_block * d.block_size,
        crate::apfs::write::padded(data, size as int, d.blocks_for(size) * d.block_size),
    );
    assert forall|p: int|
        0 <= p < d.next_block * d.block_size && p < img.len() implies #[trigger] out[p]
        == img[p] by {
        lemma_stored_front(img, d, data, size, p);
    }
}

/// Adding a file keeps a writer tidy and what was there.
pub proof fn lemma_file_added(
    img: Seq<u8>,
    d: Draft,
    parent: u64,
    name: Seq<char>,
    mode: u16,
    data: Seq<u8>,
    size: u64,
    time: u64,
)
    requires
        d.wf(),
        tidy(d),
        d.next_oid + 1 < KIND_UNIT,
    ensures
        ({
            let (e, r) = d.file_added(parent, name, mode, size, time);
            &&& tidy(e)
            &&& carried_on(img, d, stream_image(img, d, data, size, r), e)
        }),
{
    let m = (0x8000 + mode % 0x1000) as u16;
    let (e, r) = d.file_added(parent, name, mode, size, time);
    if size == 0 && text::utf8(name).len() + 1 <= 0xffff {
        let x = d.inode(parent, m, 0, time);
        let more = seq![d.drec(parent, name, jrec::DT_REG), x];
        lemma_entry_records(d, parent, name, jrec::DT_REG, x.1);
        assert(e.records =~= d.records + more);
        lemma_tidy_more(d, e, more);
        assert(e.records.take(d.records.len() as int) =~= d.records);
    } else {
        lemma_stream_added(img, d, parent, name, jrec::DT_REG, m, data, size, time);
        let (f, _) = d.stream_added(parent, name, jrec::DT_REG, m, size, time);
        assert(e.records == f.records);
    }
}

/// Adding a symbolic link keeps a writer tidy and what was there.
pub proof fn lemma_link_added(
    img: Seq<u8>,
    d: Draft,
    parent: u64,
    name: Seq<char>,
    mode: u16,
    target: Seq<char>,
    time: u64,
)
    requires
        d.wf(),
        tidy(d),
        d.next_oid + 1 < KIND_UNIT,
    ensures
        ({
            let (e, r) = d.link_added(parent, name, mode, target, time);
            let b = text::utf8(target);
            &&& tidy(e)
            &&& carried_on(img, d, stream_image(img, d, b, b.len() as u64, r), e)
        }),
{
    let m = (0xa000 + mode % 0x1000) as u16;
    let b = text::utf8(target);
    lemma_stream_added(img, d, parent, name, jrec::DT_LNK, m, b, b.len() as u64, time);
    let (e, r) = d.link_added(parent, name, mode, target, time);
    let (f, _) = d.stream_added(parent, name, jrec::DT_LNK, m, b.len() as u64, time);
    assert(e.records == f.records);
}

/// Adding an extended attribute keeps a writer tidy and what was there.
pub proof fn lemma_xattr_added(img: Seq<u8>, d: Draft, oid: u64, name: Seq<char>, value: Seq<u8>)
    requires
        tidy(d),
    ensures
        ({
            let e = d.with(seq![(record::xattr_key(oid, name), record::xattr_value(value))]);
            &&& tidy(e)
            &&& carried_on(img, d, img, e)
        }),
{
    let r = (record::xattr_key(oid, name), record::xattr_value(value));
    let e = d.with(seq![r]);
    let s = e.records;
    let n = d.records.len() as int;
    records::lemma_xattr_key(oid, name, r.1);
    assert(s.take(n) =~= d.records);
    assert(s[n] == r);
    assert forall|i: int| 0 <= i < s.len() && own(#[trigger] s[i]) implies tree::owner(s[i]).0
        < e.next_oid by {
        assert(s[i] == d.records[i]);
    }
    assert forall|i: int, j: int|
        #![trigger s[i], s[j]]
        0 <= i < j < s.len() && s[i].0.len() == 8 && s[j].0.len() == 8 implies tree::owner(s[i])
        != tree::owner(s[j]) by {
        assert(s[i] == d.records[i] && s[j] == d.records[j]);
    }
}

// ---- counts ----

/// Whether `e` is `d` with one object id given out, and counts so many directories,
/// symbolic links and files more.
pub open spec fn counts_more(d: Draft, e: Draft, dirs: int, links: int, files: int) -> bool {
    &&& e.next_oid == d.next_oid + 1
    &&& e.num_directories == d.num_directories + dirs
    &&& e.num_symlinks == d.num_symlinks + links
    &&& e.num_files == d.num_files + files
}

/// A writer counts each directory, file and symbolic link that it adds, and each as
/// what it is; what it refuses is not counted. (A count that is full is left out.)
pub proof fn lemma_added_counts(
    d: Draft,
    parent: u64,
    name: Seq<char>,
    mode: u16,
    size: u64,
    target: Seq<char>,
    time: u64,
)
    requires
        d.next_oid < u64::MAX,
        d.num_directories < u64::MAX,
        d.num_symlinks < u64::MAX,
        d.num_files < u64::MAX,
    ensures
        ({
            let (e, r) = d.dir_added(parent, name, mode, time);
            counts_more(d, e, if r is Ok { 1 } else { 0 }, 0, 0)
        }),
        ({
            let (e, r) = d.file_added(parent, name, mode, size, time);
            counts_more(d, e, 0, 0, if r is Ok { 1 } else { 0 })
        }),
        ({
            let (e, r) = d.link_added(parent, name, mode, target, time);
            counts_more(d, e, 0, if r is Ok { 1 } else { 0 }, 0)
        }),
{
}

// ---- identifiers ----

/// An identifier has 16 bytes, with the bits that mark a random one: version 4 and the
/// usual variant.
pub proof fn lemma_identifier(s: Seq<u8>)
    ensures
        uuid_of(s).len() == 16,
        uuid_of(s)[6] / 16 == 4,
        uuid_of(s)[8] / 64 == 2,
{
    bytes::lemma_le_lens();
}

} // verus!
