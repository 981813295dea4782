//! What is created in a container that is open for changes is found again.

use vstd::prelude::*;

use crate::apfs::change;
use crate::apfs::content;
use crate::apfs::jrec::{APFS_TYPE_FILE_EXTENT, APFS_TYPE_INODE, APFS_TYPE_XATTR, KIND_UNIT};
use crate::apfs::mutate;
use crate::apfs::ops::{self, Newcomer};
use crate::apfs::pack::{self, Rec};
use crate::apfs::record;
use crate::apfs::rw::{self, Edit, Live};
use crate::apfs::volume;
use crate::apfs::write::Draft;
use crate::bytes;
use crate::error::{Error, Result};
use crate::num;

use super::{changes, commit, contents, files, image, names, records, tree};

verus! {

/// Whether two lists of records have the same keys in the same places.
pub open spec fn same_keys(s: Seq<Rec>, t: Seq<Rec>) -> bool {
    &&& s.len() == t.len()
    &&& forall|i: int| 0 <= i < s.len() ==> (#[trigger] s[i]).0 == t[i].0
}

/// Whether the records `rs` describe no object twice, and none that was not
/// given out before `next`.
pub open spec fn tidy_records(rs: Seq<Rec>, next: u64) -> bool {
    &&& next < KIND_UNIT
    &&& tree::unrepeated(rs)
    &&& forall|i: int|
        0 <= i < rs.len() && files::own(#[trigger] rs[i]) ==> tree::owner(rs[i]).0 < next
}

/// Order depends on the keys alone.
pub proof fn lemma_tidy_keys(s: Seq<Rec>, t: Seq<Rec>, next: u64)
    requires
        same_keys(s, t),
        tidy_records(s, next),
    ensures
        tidy_records(t, next),
{
    assert forall|i: int| 0 <= i < t.len() && files::own(#[trigger] t[i]) implies tree::owner(
        t[i],
    ).0 < next by {
        assert(s[i].0 == t[i].0);
        assert(files::own(s[i]));
    }
    assert forall|i: int, j: int|
        #![trigger t[i], t[j]]
        0 <= i < j < t.len() && t[i].0.len() == 8 && t[j].0.len() == 8 implies tree::owner(t[i])
        != tree::owner(t[j]) by {
        assert(s[i].0 == t[i].0 && s[j].0 == t[j].0);
    }
}

/// Sorted records are as tidy.
pub proof fn lemma_tidy_sort(rs: Seq<Rec>, next: u64)
    requires
        tidy_records(rs, next),
    ensures
        tidy_records(pack::sort(rs), next),
{
    records::lemma_unrepeated_sort(rs);
    let t = pack::sort(rs);
    assert forall|i: int| 0 <= i < t.len() && files::own(#[trigger] t[i]) implies tree::owner(
        t[i],
    ).0 < next by {
        assert(rs.contains(t[i]));
        let k = choose|k: int| 0 <= k < rs.len() && rs[k] == t[i];
        assert(files::own(rs[k]));
    }
}

/// Records that agree on those of `p` have the same ones.
proof fn lemma_those_same(s: Seq<Rec>, t: Seq<Rec>, p: (u64, u8))
    requires
        same_keys(s, t),
        forall|i: int| 0 <= i < s.len() && tree::owner(#[trigger] s[i]) == p ==> s[i] == t[i],
    ensures
        tree::those(s, p) == tree::those(t, p),
    decreases s.len(),
{
    if s.len() > 0 {
        let a = s.drop_first();
        let b = t.drop_first();
        assert(s[0].0 == t[0].0);
        assert forall|i: int| 0 <= i < a.len() implies (#[trigger] a[i]).0 == b[i].0 by {
            assert(a[i] == s[i + 1]);
            assert(b[i] == t[i + 1]);
        }
        assert forall|i: int| 0 <= i < a.len() && tree::owner(#[trigger] a[i]) == p implies a[i]
            == b[i] by {
            assert(a[i] == s[i + 1]);
            assert(b[i] == t[i + 1]);
        }
        lemma_those_same(a, b, p);
    } else {
        assert(s =~= t);
    }
}

/// Changing an inode keeps the keys, and all records but that one.
pub proof fn lemma_patched(rs: Seq<Rec>, oid: u64, f: spec_fn(Seq<u8>) -> Seq<u8>, p: (u64, u8))
    ensures
        same_keys(rs, mutate::patched(rs, oid, f)),
        p != (oid, APFS_TYPE_INODE) ==> tree::those(mutate::patched(rs, oid, f), p) == tree::those(
            rs,
            p,
        ),
{
    let t = mutate::patched(rs, oid, f);
    assert(same_keys(rs, t)) by {
        if rs.len() > 0 {
            changes::lemma_patched_others(rs, oid, f, 0);
        } else {
            assert(t =~= rs);
        }
        assert forall|i: int| 0 <= i < rs.len() implies (#[trigger] rs[i]).0 == t[i].0 by {
            changes::lemma_patched_others(rs, oid, f, i);
        }
    }
    if p != (oid, APFS_TYPE_INODE) {
        assert forall|i: int| 0 <= i < rs.len() && tree::owner(#[trigger] rs[i]) == p implies rs[i]
            == t[i] by {
            changes::lemma_patched_others(rs, oid, f, i);
        }
        lemma_those_same(rs, t, p);
    }
}

/// The records that creating adds, in the order in which they are added.
pub open spec fn new_records(l: Live, e: Edit, n: Newcomer, name: Seq<char>, size: u64) -> Seq<
    Rec,
> {
    let oid = e.next_oid;
    (if size > 0 {
        record::extent_records(oid, 0, size, e.bump, l.m.bs)
    } else {
        Seq::empty()
    }) + seq![
        (
            record::inode_key(oid),
            record::inode_value(oid, n.parent, n.mode, size, l.m.bs, n.time),
        ),
        ops::drec_rec(n.parent, name, oid, n.dtype),
    ]
}

/// Those records describe the next object, once.
proof fn lemma_new_records(l: Live, e: Edit, n: Newcomer, name: Seq<char>, size: u64)
    requires
        e.next_oid < KIND_UNIT,
    ensures
        ({
            let rs = new_records(l, e, n, name, size);
            let oid = e.next_oid;
            &&& tree::unrepeated(rs)
            &&& forall|i: int|
                0 <= i < rs.len() && files::own(#[trigger] rs[i]) ==> tree::owner(rs[i]).0 == oid
            &&& pack::keyed(rs)
            &&& tree::those(rs, (oid, APFS_TYPE_INODE)) == seq![
                (
                    record::inode_key(oid),
                    record::inode_value(oid, n.parent, n.mode, size, l.m.bs, n.time),
                ),
            ]
            &&& tree::those(rs, (oid, APFS_TYPE_FILE_EXTENT)) == if size > 0 {
                seq![
                    (
                        record::extent_record_key(oid, 0),
                        record::extent_record_value(size, e.bump, l.m.bs),
                    ),
                ]
            } else {
                Seq::<Rec>::empty()
            }
        }),
{
    let oid = e.next_oid;
    let rs = new_records(l, e, n, name, size);
    let i = (record::inode_key(oid), record::inode_value(
        oid,
        n.parent,
        n.mode,
        size,
        l.m.bs,
        n.time,
    ));
    let q = ops::drec_rec(n.parent, name, oid, n.dtype);
    let x = record::extent_records(oid, 0, size, e.bump, l.m.bs);
    let pi = (oid, APFS_TYPE_INODE);
    let pe = (oid, APFS_TYPE_FILE_EXTENT);
    records::lemma_inode_key(oid, i.1);
    records::lemma_drec_key(n.parent, name, q.1);
    records::lemma_extent_key(oid, 0, x[0].1);
    records::lemma_dstream_key(oid, x[1].1);
    if size > 0 {
        assert(rs =~= seq![x[0], x[1], i, q]);
        contents::lemma_pick_four(rs, pi, 2);
        contents::lemma_pick_four(rs, pe, 0);
    } else {
        assert(rs =~= seq![i] + seq![q]);
        records::lemma_those_add(seq![i], seq![q], pi);
        records::lemma_those_add(seq![i], seq![q], pe);
        records::lemma_those_one(i, pi);
        records::lemma_those_one(q, pi);
        records::lemma_those_one(i, pe);
        records::lemma_those_one(q, pe);
        assert(tree::those(rs, pi) =~= seq![i]);
        assert(tree::those(rs, pe) =~= Seq::<Rec>::empty());
    }
}

/// Records that describe just the next object keep a list tidy.
proof fn lemma_tidy_add(rs: Seq<Rec>, more: Seq<Rec>, next: u64)
    requires
        tidy_records(rs, next),
        next + 1 < KIND_UNIT,
        tree::unrepeated(more),
        forall|i: int|
            0 <= i < more.len() && files::own(#[trigger] more[i]) ==> tree::owner(more[i]).0
                == next,
    ensures
        tidy_records(rs + more, (next + 1) as u64),
{
    let s = rs + more;
    let n = rs.len() as int;
    assert forall|i: int| 0 <= i < s.len() && files::own(#[trigger] s[i]) implies tree::owner(
        s[i],
    ).0 < next + 1 by {
        if i < n {
            assert(s[i] == rs[i]);
        } else {
            assert(s[i] == more[i - n]);
        }
    }
    assert forall|i: int, j: int|
        #![trigger s[i], s[j]]
        0 <= i < j < s.len() && s[i].0.len() == 8 && s[j].0.len() == 8 implies tree::owner(s[i])
        != tree::owner(s[j]) by {
        if j < n {
            assert(s[i] == rs[i] && s[j] == rs[j]);
        } else if i >= n {
            assert(s[i] == more[i - n] && s[j] == more[j - n]);
        } else {
            assert(s[i] == rs[i] && s[j] == more[j - n]);
            assert(files::own(rs[i]) && files::own(more[j - n]));
        }
    }
}

/// Nothing describes an object that was not given out.
proof fn lemma_not_given(rs: Seq<Rec>, next: u64, k: u8)
    requires
        tidy_records(rs, next),
        files::own_kind(k),
    ensures
        tree::those(rs, (next, k)) == Seq::<Rec>::empty(),
{
    assert forall|i: int| 0 <= i < rs.len() implies tree::owner(#[trigger] rs[i]) != (
        next,
        k,
    ) by {
        if tree::owner(rs[i]).1 == k {
            assert(files::own(rs[i]));
        }
    }
    contents::lemma_none_own(rs, (next, k));
}

/// The records of a change that creates an object: tidy, with the object's own
/// records among them, and those of others as before.
pub proof fn lemma_created_records(
    l: Live,
    e: Edit,
    n: Newcomer,
    name: Seq<char>,
    size: u64,
    other: (u64, u8),
)
    requires
        tidy_records(e.recs, e.next_oid),
        e.next_oid + 1 < KIND_UNIT,
        n.parent < e.next_oid,
        ops::created(l, e, n, name, size) is Ok,
    ensures
        ({
            let f = ops::created(l, e, n, name, size)->Ok_0;
            let oid = e.next_oid;
            &&& tidy_records(f.recs, f.next_oid)
            &&& f.next_oid == oid + 1
            &&& pack::keyed(e.recs) ==> pack::keyed(f.recs)
            &&& tree::those(f.recs, (oid, APFS_TYPE_INODE)) == seq![
                (
                    record::inode_key(oid),
                    record::inode_value(oid, n.parent, n.mode, size, l.m.bs, n.time),
                ),
            ]
            &&& tree::those(f.recs, (oid, APFS_TYPE_FILE_EXTENT)) == if size > 0 {
                seq![
                    (
                        record::extent_record_key(oid, 0),
                        record::extent_record_value(size, e.bump, l.m.bs),
                    ),
                ]
            } else {
                Seq::<Rec>::empty()
            }
            &&& files::own_kind(other.1) && other.0 < oid && other != (n.parent, APFS_TYPE_INODE)
                ==> tree::those(f.recs, other) == tree::those(e.recs, other)
        }),
{
    let oid = e.next_oid;
    let more = new_records(l, e, n, name, size);
    let a = e.recs + more;
    let f = ops::created(l, e, n, name, size)->Ok_0;
    let g = |v: Seq<u8>| mutate::more_links(v);
    let stream = if size > 0 {
        record::extent_records(oid, 0, size, e.bump, l.m.bs)
    } else {
        Seq::<Rec>::empty()
    };
    let tail = seq![
        (
            record::inode_key(oid),
            record::inode_value(oid, n.parent, n.mode, size, l.m.bs, n.time),
        ),
        ops::drec_rec(n.parent, name, oid, n.dtype),
    ];
    assert(e.recs + stream + tail =~= a);
    assert(f.recs == mutate::patched(a, n.parent, g));
    lemma_new_records(l, e, n, name, size);
    lemma_tidy_add(e.recs, more, oid);
    let pi = (oid, APFS_TYPE_INODE);
    let pe = (oid, APFS_TYPE_FILE_EXTENT);
    lemma_patched(a, n.parent, g, pi);
    lemma_patched(a, n.parent, g, pe);
    lemma_patched(a, n.parent, g, other);
    lemma_tidy_keys(a, f.recs, (oid + 1) as u64);
    lemma_not_given(e.recs, oid, APFS_TYPE_INODE);
    lemma_not_given(e.recs, oid, APFS_TYPE_FILE_EXTENT);
    records::lemma_those_add(e.recs, more, pi);
    records::lemma_those_add(e.recs, more, pe);
    records::lemma_those_add(e.recs, more, other);
    assert(tree::those(a, pi) =~= tree::those(more, pi));
    assert(tree::those(a, pe) =~= tree::those(more, pe));
    if pack::keyed(e.recs) {
        assert forall|i: int| 0 <= i < f.recs.len() implies (#[trigger] f.recs[i]).0.len() >= 8 by {
            assert(a[i].0 == f.recs[i].0);
            if i < e.recs.len() {
                assert(a[i] == e.recs[i]);
            } else {
                assert(a[i] == more[i - e.recs.len()]);
            }
        }
    }
    if files::own_kind(other.1) && other.0 < oid {
        assert forall|i: int| 0 <= i < more.len() implies tree::owner(#[trigger] more[i])
            != other by {
            if tree::owner(more[i]).1 == other.1 {
                assert(files::own(more[i]));
            }
        }
        contents::lemma_none_own(more, other);
        assert(tree::those(a, other) =~= tree::those(e.recs, other));
    }
}

/// Contents stored behind all blocks in use are there, and what lies before is
/// as it was.
pub proof fn lemma_data_stored(img: Seq<u8>, bs: u32, paddr: u64, data: Seq<u8>)
    requires
        bs > 0,
        data.len() > 0,
        ops::data_stored(img, bs, paddr, data) is Some,
    ensures
        ({
            let out = ops::data_stored(img, bs, paddr, data).unwrap();
            &&& commit::same_before(img, out, paddr as int, bs as int)
            &&& paddr * bs + data.len() <= out.len()
            &&& out.subrange(paddr * bs, paddr * bs + data.len()) == data
        }),
{
    let n = num::div_up(data.len() as int, bs as int) * bs;
    let at = paddr * bs;
    let b = crate::apfs::write::padded(data, data.len() as int, n);
    let out = ops::data_stored(img, bs, paddr, data).unwrap();
    num::lemma_div_up(data.len() as int, bs as int);
    bytes::lemma_put_len(img, at, b);
    num::lemma_mono(0, paddr as int, bs as int);
    assert(0 * bs == 0) by (nonlinear_arith);
    assert forall|p: int| 0 <= p < paddr * bs && p < img.len() implies #[trigger] out[p]
        == img[p] by {
        bytes::lemma_put_index(img, at, b, p);
    }
    assert forall|i: int| 0 <= i < data.len() implies out[at + i] == data[i] by {
        bytes::lemma_put_index(img, at, b, at + i);
    }
    assert(out.subrange(at, at + data.len()) =~= data);
}

/// The change that creating an object commits.
pub open spec fn creation(l: Live, rs: Seq<Rec>, n: Newcomer, name: Seq<char>, size: u64) -> Result<
    Edit,
> {
    match ops::created(l, l.edit(rs), n, name, size) {
        Err(e) => Err(e),
        Ok(e) => Ok(change::counted(e, n.dtype)),
    }
}

/// Where the contents of what is created in an open container go.
pub open spec fn created_at(l: Live, n: Newcomer) -> contents::Placement {
    contents::Placement {
        oid: l.next_oid,
        parent: n.parent,
        mode: n.mode,
        time: n.time,
        paddr: l.bump,
    }
}

/// The writer of the checkpoint that creates an object has the object.
proof fn lemma_creation(
    img: Seq<u8>,
    rs: Seq<Rec>,
    l: Live,
    n: Newcomer,
    name: Seq<char>,
    data: Seq<u8>,
    now: Seq<u8>,
    k: (u64, u8),
)
    requires
        tidy_records(rs, l.next_oid),
        pack::keyed(rs),
        l.next_oid != 0,
        l.next_oid + 1 < KIND_UNIT,
        l.wf(),
        21 <= l.bump,
        n.parent < l.next_oid,
        record::type_bits(n.mode) == 0x8000 || record::type_bits(n.mode) == 0xa000,
        data.len() <= u64::MAX,
        num::div_up(data.len() as int, l.m.bs as int) * l.m.bs < 0x0100_0000_0000_0000,
        creation(l, rs, n, name, data.len() as u64) is Ok,
        l.checkpoint(creation(l, rs, n, name, data.len() as u64)->Ok_0) is Ok,
        ops::data_stored(img, l.m.bs, l.bump, data) == Some(now),
    ensures
        ({
            let e = creation(l, rs, n, name, data.len() as u64)->Ok_0;
            let c = l.checkpoint(e)->Ok_0;
            &&& pack::keyed(e.recs)
            &&& e.bump >= l.bump
            &&& files::tidy(c)
            &&& contents::stores(now, c, created_at(l, n), data)
            &&& commit::same_before(img, now, l.bump as int, l.m.bs as int)
            &&& c.next_oid >= l.next_oid
            &&& files::own_kind(k.1) && k.0 < l.next_oid && k != (n.parent, APFS_TYPE_INODE)
                ==> tree::those(c.records, k) == tree::those(rs, k)
        }),
{
    let size = data.len() as u64;
    lemma_created_records(l, l.edit(rs), n, name, size, k);
    if size > 0 {
        lemma_data_stored(img, l.m.bs, l.bump, data);
        num::lemma_div_up(size as int, l.m.bs as int);
    }
}

/// Creating a file or symbolic link in a container that is open for changes:
/// once it is committed, the object has its contents, and objects from before,
/// but for the directory that it was created in, have theirs.
pub proof fn lemma_created_back(
    img: Seq<u8>,
    d: Draft,
    mark: int,
    l: Live,
    n: Newcomer,
    name: Seq<char>,
    data: Seq<u8>,
    now: Seq<u8>,
    before: contents::Placement,
    old_data: Seq<u8>,
)
    requires
        commit::settled(img, d, mark),
        files::tidy(d),
        d.next_oid != 0,
        d.next_oid + 1 < KIND_UNIT,
        rw::writable(img) == Ok::<Live, Error>(l),
        l.wf(),
        n.parent < d.next_oid,
        record::type_bits(n.mode) == 0x8000 || record::type_bits(n.mode) == 0xa000,
        data.len() <= u64::MAX,
        num::div_up(data.len() as int, l.m.bs as int) * l.m.bs < 0x0100_0000_0000_0000,
        creation(l, pack::sort(d.records), n, name, data.len() as u64) is Ok,
        ops::data_stored(img, l.m.bs, l.bump, data) == Some(now),
        l.committed(
            creation(l, pack::sort(d.records), n, name, data.len() as u64)->Ok_0,
            now,
        ).1 is Ok,
    ensures
        ({
            let e = creation(l, pack::sort(d.records), n, name, data.len() as u64)->Ok_0;
            let out = l.committed(e, now).0;
            let c = l.checkpoint(e)->Ok_0;
            &&& l.checkpoint(e) is Ok
            &&& c.plan() is Ok
            &&& image::sealed(out, c, c.plan()->Ok_0)
            &&& files::tidy(c)
            &&& contents::stores(out, c, created_at(l, n), data)
            &&& contents::stores(img, d, before, old_data) && before.oid != n.parent
                ==> contents::stores(out, c, before, old_data)
        }),
{
    let bs = d.block_size as int;
    let size = data.len() as u64;
    let rs = pack::sort(d.records);
    let e = creation(l, rs, n, name, size)->Ok_0;
    let c = l.checkpoint(e)->Ok_0;
    let nb = c.plan()->Ok_0;
    lemma_reopened(img, d, mark, l);
    pack::lemma_sort(d.records);
    lemma_tidy_sort(d.records, d.next_oid);
    lemma_creation(img, rs, l, n, name, data, now, (before.oid, APFS_TYPE_INODE));
    lemma_creation(img, rs, l, n, name, data, now, (before.oid, APFS_TYPE_FILE_EXTENT));
    commit::lemma_commit_settled(img, d, mark, now, l, e);
    contents::lemma_stores_written(now, c, nb, created_at(l, n), data);
    if contents::stores(img, d, before, old_data) && before.oid != n.parent {
        num::lemma_mono(d.next_block as int, l.bump as int, bs);
        lemma_before_kept(img, d, now, c, before, old_data);
        contents::lemma_stores_written(now, c, nb, before, old_data);
    }
}

/// What an open container took over from its writer.
pub proof fn lemma_reopened(img: Seq<u8>, d: Draft, mark: int, l: Live)
    requires
        commit::settled(img, d, mark),
        rw::writable(img) == Ok::<Live, Error>(l),
    ensures
        commit::opens_as(img, d, mark),
        l.next_oid == d.next_oid,
        l.m.bs == d.block_size,
        l.bump >= d.next_block,
        l.bump >= 21,
        rw::all_records(l.m, img) == Ok::<Seq<Rec>, Error>(pack::sort(d.records)),
{
    commit::lemma_now(img, d, mark);
}

/// Contents from before lie before all that a change allocates.
pub proof fn lemma_body_kept(
    img: Seq<u8>,
    d: Draft,
    now: Seq<u8>,
    c: Draft,
    oid: u64,
    paddr: u64,
    data: Seq<u8>,
)
    requires
        d.wf(),
        contents::body(img, d, oid, paddr, data),
        commit::same_before(img, now, d.next_block as int, d.block_size as int),
        c.block_size == d.block_size,
        c.next_block >= d.next_block,
        tree::those(c.records, (oid, APFS_TYPE_FILE_EXTENT)) == tree::those(
            pack::sort(d.records),
            (oid, APFS_TYPE_FILE_EXTENT),
        ),
    ensures
        contents::body(now, c, oid, paddr, data),
{
    let bs = d.block_size as int;
    let n = data.len() as u64;
    if n == 0 {
        records::lemma_those_sort(d.records, (oid, APFS_TYPE_FILE_EXTENT));
        assert(tree::those(c.records, (oid, APFS_TYPE_FILE_EXTENT)) =~= Seq::<Rec>::empty());
    } else {
        records::lemma_sole(
            d.records,
            (oid, APFS_TYPE_FILE_EXTENT),
            tree::those(d.records, (oid, APFS_TYPE_FILE_EXTENT))[0],
        );
        let k = num::div_up(n as int, bs);
        let at = paddr * bs;
        num::lemma_div_up(n as int, bs);
        num::lemma_mono(paddr + k, d.next_block as int, bs);
        num::lemma_mono(0, paddr as int, bs);
        assert((paddr + k) * bs == paddr * bs + k * bs) by (nonlinear_arith);
        assert(0 * bs == 0) by (nonlinear_arith);
        assert forall|i: int| 0 <= i < data.len() implies now[at + i] == data[i] by {
            assert(img.subrange(at, at + data.len())[i] == img[at + i]);
        }
        assert(now.subrange(at, at + data.len()) =~= data);
    }
}

/// Objects from before, whose own records are as they were, have their contents.
pub proof fn lemma_before_kept(
    img: Seq<u8>,
    d: Draft,
    now: Seq<u8>,
    c: Draft,
    o: contents::Placement,
    data: Seq<u8>,
)
    requires
        d.wf(),
        contents::stores(img, d, o, data),
        commit::same_before(img, now, d.next_block as int, d.block_size as int),
        c.block_size == d.block_size,
        c.next_block >= d.next_block,
        c.next_oid >= d.next_oid,
        tree::those(c.records, (o.oid, APFS_TYPE_INODE)) == tree::those(
            pack::sort(d.records),
            (o.oid, APFS_TYPE_INODE),
        ),
        tree::those(c.records, (o.oid, APFS_TYPE_FILE_EXTENT)) == tree::those(
            pack::sort(d.records),
            (o.oid, APFS_TYPE_FILE_EXTENT),
        ),
    ensures
        contents::stores(now, c, o, data),
{
    records::lemma_sole(
        d.records,
        (o.oid, APFS_TYPE_INODE),
        tree::those(d.records, (o.oid, APFS_TYPE_INODE))[0],
    );
    lemma_body_kept(img, d, now, c, o.oid, o.paddr, data);
}

/// An attribute that no record gives is not read.
pub proof fn lemma_no_xattr_back(
    out: Seq<u8>,
    d: Draft,
    oid: u64,
    name: Seq<char>,
    value: Seq<u8>,
)
    requires
        image::reads(out, d),
        files::tidy(d),
        forall|i: int|
            0 <= i < d.records.len() && tree::owner(#[trigger] d.records[i]) == (
                oid,
                APFS_TYPE_XATTR,
            ) && content::xattr_of(d.records[i]) is Some ==> content::xattr_of(
                d.records[i],
            ).unwrap().0 != name,
    ensures
        ({
            let x = content::xattrs(rw::first_open(out)->Ok_0, out, oid);
            &&& rw::first_open(out) is Ok
            &&& x is Ok
            &&& !x->Ok_0.contains((name, value))
        }),
{
    names::lemma_entries(out, d, (oid, APFS_TYPE_XATTR));
    let f = volume::found(rw::first_open(out)->Ok_0, out, oid, APFS_TYPE_XATTR);
    let s = content::xattrs_upto(f.recs, f.recs.len() as int);
    if s.contains((name, value)) {
        let j = changes::lemma_xattr_source(f.recs, f.recs.len() as int, (name, value));
        assert(f.recs.contains(f.recs[j]));
        let k = choose|k: int| 0 <= k < d.records.len() && d.records[k] == f.recs[j];
        assert(tree::owner(d.records[k]) == (oid, APFS_TYPE_XATTR));
    }
}

} // verus!
