//! New contents of a file in a container that is open for changes read back.

use vstd::prelude::*;

use crate::apfs::jrec::{self, APFS_TYPE_DSTREAM_ID, APFS_TYPE_FILE_EXTENT, APFS_TYPE_INODE};
use crate::apfs::mutate;
use crate::apfs::ops;
use crate::apfs::pack::{self, Rec};
use crate::apfs::record;
use crate::apfs::rw::{self, Edit, Live};
use crate::apfs::write::Draft;
use crate::bytes;
use crate::error::Error;
use crate::num;

use super::{changes, commit, contents, files, image, inplace, records, tree};

verus! {

/// Giving an inode a length makes it the inode that an object of that length
/// is created with.
pub proof fn lemma_resized(
    oid: u64,
    parent: u64,
    mode: u16,
    n: u64,
    size: u64,
    bs: u32,
    time: u64,
)
    requires
        bs > 0,
        record::type_bits(mode) == 0x8000 || record::type_bits(mode) == 0xa000,
    ensures
        mutate::resized(record::inode_value(oid, parent, mode, n, bs, time), size, bs as u64)
            == record::inode_value(oid, parent, mode, size, bs, time),
{
    let v = record::inode_value(oid, parent, mode, n, bs, time);
    let w = record::inode_value(oid, parent, mode, size, bs, time);
    let f = record::inode_fixed(oid, parent, mode, n, time);
    let g = record::inode_fixed(oid, parent, mode, size, time);
    let alloced = (num::div_up(size as int, bs as int) * bs) as u64;
    bytes::lemma_le_lens();
    broadcast use {bytes::lemma_put_len, bytes::lemma_zeros_len};

    let x = v.subrange(92, v.len() as int);
    assert(x =~= record::dstream_blob(n, bs));
    assert(x.len() == 48);
    bytes::lemma_get_le(1, 0, 0);
    bytes::lemma_get_le(40, 0, 0);
    assert(x.subrange(0, 2) =~= bytes::le16(1).subrange(0, 2));
    bytes::lemma_get_agree(x, 0, bytes::le16(1), 0);
    assert(x.subrange(6, 8) =~= bytes::le16(40).subrange(0, 2));
    bytes::lemma_get_agree(x, 6, bytes::le16(40), 0);
    assert(x[4] == jrec::INO_EXT_TYPE_DSTREAM);
    assert(mutate::field_offset(x, 1, 0) == Some(8int));
    assert(mutate::stream_offset(x, 1, 0) == Some(8int));
    let a = bytes::put(v, 84, bytes::le64(size));
    let b = bytes::put(a, 100, bytes::le64(size));
    let c = bytes::put(b, 108, bytes::le64(alloced));
    assert(mutate::resized(v, size, bs as u64) == c);
    assert forall|i: int| 0 <= i < v.len() implies c[i] == w[i] by {
        bytes::lemma_put_index(b, 108, bytes::le64(alloced), i);
        bytes::lemma_put_index(a, 100, bytes::le64(size), i);
        bytes::lemma_put_index(v, 84, bytes::le64(size), i);
        if i < 92 {
            lemma_fixed(oid, parent, mode, n, size, time, i);
        }
    }
    assert(c =~= w);
}

/// The fixed parts of two inodes differ in the length alone.
proof fn lemma_fixed(oid: u64, parent: u64, mode: u16, n: u64, size: u64, time: u64, i: int)
    requires
        record::type_bits(mode) == 0x8000 || record::type_bits(mode) == 0xa000,
        0 <= i < 92,
    ensures
        record::inode_fixed(oid, parent, mode, size, time)[i] == if 84 <= i {
            bytes::le64(size)[i - 84]
        } else {
            record::inode_fixed(oid, parent, mode, n, time)[i]
        },
{
    bytes::lemma_le_lens();
    broadcast use {bytes::lemma_put_len, bytes::lemma_zeros_len};

    let b = bytes::put(bytes::zeros(92), 0, bytes::le64(parent));
    let b = bytes::put(b, 8, bytes::le64(oid));
    let b = bytes::put(b, 16, bytes::le64(time));
    let b = bytes::put(b, 24, bytes::le64(time));
    let b = bytes::put(b, 32, bytes::le64(time));
    let b = bytes::put(b, 40, bytes::le64(time));
    let b = bytes::put(b, 56, bytes::le32(1));
    let b = bytes::put(b, 80, bytes::le16(mode));
    assert(record::inode_fixed(oid, parent, mode, size, time) == bytes::put(
        b,
        84,
        bytes::le64(size),
    ));
    assert(record::inode_fixed(oid, parent, mode, n, time) == bytes::put(b, 84, bytes::le64(n)));
    bytes::lemma_put_index(b, 84, bytes::le64(size), i);
    bytes::lemma_put_index(b, 84, bytes::le64(n), i);
}

/// Dropping records of others leaves those of `p`; dropping all of `p` leaves
/// none.
pub proof fn lemma_those_kept(rs: Seq<Rec>, keep: spec_fn(Seq<u8>) -> bool, p: (u64, u8))
    ensures
        (forall|i: int| 0 <= i < rs.len() && tree::owner(#[trigger] rs[i]) == p ==> keep(rs[i].0))
            ==> tree::those(mutate::kept(rs, keep), p) == tree::those(rs, p),
        (forall|i: int| 0 <= i < rs.len() && tree::owner(#[trigger] rs[i]) == p ==> !keep(rs[i].0))
            ==> tree::those(mutate::kept(rs, keep), p) == Seq::<Rec>::empty(),
    decreases rs.len(),
{
    if rs.len() > 0 {
        let d = rs.drop_last();
        let r = rs.last();
        let s = mutate::kept(d, keep);
        assert(r == rs[rs.len() - 1]);
        assert(forall|i: int| 0 <= i < d.len() ==> d[i] == rs[i]);
        lemma_those_kept(d, keep, p);
        assert(rs =~= d + seq![r]);
        assert(s.push(r) =~= s + seq![r]);
        records::lemma_those_add(d, seq![r], p);
        records::lemma_those_add(s, seq![r], p);
        records::lemma_those_one(r, p);
        assert(tree::those(d, p) + Seq::<Rec>::empty() =~= tree::those(d, p));
        assert(tree::those(s, p) + Seq::<Rec>::empty() =~= tree::those(s, p));
        if forall|i: int|
            0 <= i < rs.len() && tree::owner(#[trigger] rs[i]) == p ==> keep(rs[i].0) {
            assert(forall|i: int|
                0 <= i < d.len() && tree::owner(#[trigger] d[i]) == p ==> keep(d[i].0)) by {
                assert forall|i: int| 0 <= i < d.len() && tree::owner(#[trigger] d[i]) == p implies
                    keep(d[i].0) by {
                    assert(tree::owner(rs[i]) == p);
                }
            }
        }
        if forall|i: int|
            0 <= i < rs.len() && tree::owner(#[trigger] rs[i]) == p ==> !keep(rs[i].0) {
            assert(forall|i: int|
                0 <= i < d.len() && tree::owner(#[trigger] d[i]) == p ==> !keep(d[i].0)) by {
                assert forall|i: int| 0 <= i < d.len() && tree::owner(#[trigger] d[i]) == p implies
                    !keep(d[i].0) by {
                    assert(tree::owner(rs[i]) == p);
                }
            }
        }
    } else {
        assert(mutate::kept(rs, keep) =~= rs);
    }
}

/// Dropping records keeps a list tidy.
pub proof fn lemma_tidy_kept(rs: Seq<Rec>, keep: spec_fn(Seq<u8>) -> bool, next: u64)
    requires
        inplace::tidy_records(rs, next),
    ensures
        inplace::tidy_records(mutate::kept(rs, keep), next),
    decreases rs.len(),
{
    if rs.len() > 0 {
        let d = rs.drop_last();
        let r = rs.last();
        assert(r == rs[rs.len() - 1]);
        assert(inplace::tidy_records(d, next)) by {
            assert forall|i: int| 0 <= i < d.len() && files::own(#[trigger] d[i]) implies
                tree::owner(d[i]).0 < next by {
                assert(d[i] == rs[i]);
            }
            assert forall|i: int, j: int|
                #![trigger d[i], d[j]]
                0 <= i < j < d.len() && d[i].0.len() == 8 && d[j].0.len() == 8 implies tree::owner(
                d[i],
            ) != tree::owner(d[j]) by {
                assert(d[i] == rs[i] && d[j] == rs[j]);
            }
        }
        lemma_tidy_kept(d, keep, next);
        let s = mutate::kept(d, keep);
        if keep(r.0) {
            let t = s.push(r);
            assert forall|i: int| 0 <= i < t.len() && files::own(#[trigger] t[i]) implies
                tree::owner(t[i]).0 < next by {
                if i < s.len() {
                    assert(t[i] == s[i]);
                } else {
                    assert(files::own(rs[rs.len() - 1]));
                }
            }
            assert forall|i: int, j: int|
                #![trigger t[i], t[j]]
                0 <= i < j < t.len() && t[i].0.len() == 8 && t[j].0.len() == 8 implies tree::owner(
                t[i],
            ) != tree::owner(t[j]) by {
                assert(t[i] == s[i]);
                if j < s.len() {
                    assert(t[j] == s[j]);
                } else {
                    assert(s.contains(s[i]));
                    changes::lemma_kept_in(d, keep, s[i]);
                    let k = choose|k: int| 0 <= k < d.len() && d[k] == s[i];
                    assert(rs[k] == s[i]);
                }
            }
        }
    }
}

/// The records once object `oid` gets contents of `size` bytes: tidy, with its
/// new extent alone, and those of others as before.
pub proof fn lemma_rewritten_records(
    l: Live,
    e: Edit,
    oid: u64,
    size: u64,
    v: Seq<u8>,
    other: (u64, u8),
)
    requires
        l.m.bs > 0,
        inplace::tidy_records(e.recs, e.next_oid),
        pack::keyed(e.recs),
        oid < e.next_oid,
        tree::those(e.recs, (oid, APFS_TYPE_INODE)) == seq![(record::inode_key(oid), v)],
        ops::rewritten(l, e, oid, size) is Ok,
    ensures
        ({
            let f = ops::rewritten(l, e, oid, size)->Ok_0;
            &&& inplace::tidy_records(f.recs, f.next_oid)
            &&& f.next_oid == e.next_oid
            &&& f.bump >= e.bump
            &&& size > 0 ==> f.bump == e.bump + num::div_up(size as int, l.m.bs as int)
            &&& pack::keyed(f.recs)
            &&& tree::those(f.recs, (oid, APFS_TYPE_INODE)) == seq![
                (record::inode_key(oid), mutate::resized(v, size, l.m.bs as u64)),
            ]
            &&& tree::those(f.recs, (oid, APFS_TYPE_FILE_EXTENT)) == if size > 0 {
                seq![
                    (
                        record::extent_record_key(oid, 0),
                        record::extent_record_value(size, e.bump, l.m.bs),
                    ),
                ]
            } else {
                Seq::<Rec>::empty()
            }
            &&& other.0 != oid ==> tree::those(f.recs, other) == tree::those(e.recs, other)
        }),
{
    let keep = |k: Seq<u8>|
        !(mutate::is_key_of(k, oid, APFS_TYPE_FILE_EXTENT) || mutate::is_key_of(
            k,
            oid,
            APFS_TYPE_DSTREAM_ID,
        ));
    let g = |w: Seq<u8>| mutate::resized(w, size, l.m.bs as u64);
    let w = mutate::without_stream(e.recs, oid);
    let a = mutate::patched(w, oid, g);
    let f = ops::rewritten(l, e, oid, size)->Ok_0;
    let pi = (oid, APFS_TYPE_INODE);
    let pe = (oid, APFS_TYPE_FILE_EXTENT);
    let pd = (oid, APFS_TYPE_DSTREAM_ID);
    lemma_those_kept(e.recs, keep, pi);
    lemma_those_kept(e.recs, keep, pe);
    lemma_those_kept(e.recs, keep, pd);
    lemma_those_kept(e.recs, keep, other);
    lemma_tidy_kept(e.recs, keep, e.next_oid);
    mutate::lemma_kept_keyed(e.recs, keep);
    inplace::lemma_patched(w, oid, g, pe);
    inplace::lemma_patched(w, oid, g, pd);
    inplace::lemma_patched(w, oid, g, other);
    inplace::lemma_tidy_keys(w, a, e.next_oid);
    lemma_patched_sole(w, oid, g, record::inode_key(oid), v);
    lemma_patched_all(w, oid, g, record::inode_key(oid), v);
    assert(pack::keyed(a)) by {
        assert forall|i: int| 0 <= i < a.len() implies (#[trigger] a[i]).0.len() >= 8 by {
            assert(w[i].0 == a[i].0);
        }
    }
    if size > 0 {
        num::lemma_div_up(size as int, l.m.bs as int);
        let x = record::extent_records(oid, 0, size, e.bump, l.m.bs);
        records::lemma_extent_key(oid, 0, x[0].1);
        records::lemma_dstream_key(oid, x[1].1);
        assert(x =~= seq![x[0]] + seq![x[1]]);
        lemma_add_pair(a, x, pi);
        lemma_add_pair(a, x, pe);
        lemma_add_pair(a, x, other);
        lemma_tidy_stream(a, x, oid, e.next_oid);
        assert forall|i: int| 0 <= i < f.recs.len() implies (#[trigger] f.recs[i]).0.len() >= 8 by {
            if i < a.len() {
                assert(f.recs[i] == a[i]);
            } else {
                assert(f.recs[i] == x[i - a.len()]);
            }
        }
    }
}

/// Picking from a list with two records more.
proof fn lemma_add_pair(a: Seq<Rec>, x: Seq<Rec>, p: (u64, u8))
    requires
        x.len() == 2,
        tree::owner(x[0]) != tree::owner(x[1]),
    ensures
        tree::owner(x[0]) == p ==> tree::those(a + x, p) == tree::those(a, p) + seq![x[0]],
        tree::owner(x[1]) == p ==> tree::those(a + x, p) == tree::those(a, p) + seq![x[1]],
        tree::owner(x[0]) != p && tree::owner(x[1]) != p ==> tree::those(a + x, p) == tree::those(
            a,
            p,
        ),
{
    assert(x =~= seq![x[0]] + seq![x[1]]);
    records::lemma_those_add(a, x, p);
    records::lemma_those_add(seq![x[0]], seq![x[1]], p);
    records::lemma_those_one(x[0], p);
    records::lemma_those_one(x[1], p);
    let t = tree::those(x, p);
    if tree::owner(x[0]) == p {
        assert(t =~= seq![x[0]]);
    } else if tree::owner(x[1]) == p {
        assert(t =~= seq![x[1]]);
    } else {
        assert(t =~= Seq::<Rec>::empty());
        assert(tree::those(a, p) + t =~= tree::those(a, p));
    }
}

/// A data stream that no record describes can be described.
proof fn lemma_tidy_stream(a: Seq<Rec>, x: Seq<Rec>, oid: u64, next: u64)
    requires
        inplace::tidy_records(a, next),
        oid < next,
        x.len() == 2,
        tree::owner(x[0]) == (oid, APFS_TYPE_FILE_EXTENT),
        x[0].0.len() == 16,
        tree::owner(x[1]) == (oid, APFS_TYPE_DSTREAM_ID),
        tree::those(a, (oid, APFS_TYPE_DSTREAM_ID)) == Seq::<Rec>::empty(),
    ensures
        inplace::tidy_records(a + x, next),
{
    let s = a + x;
    let n = a.len() as int;
    assert forall|i: int| 0 <= i < s.len() && files::own(#[trigger] s[i]) implies tree::owner(
        s[i],
    ).0 < next by {
        if i < n {
            assert(s[i] == a[i]);
        } else {
            assert(s[i] == x[i - n]);
        }
    }
    assert forall|i: int, j: int|
        #![trigger s[i], s[j]]
        0 <= i < j < s.len() && s[i].0.len() == 8 && s[j].0.len() == 8 implies tree::owner(s[i])
        != tree::owner(s[j]) by {
        if j < n {
            assert(s[i] == a[i] && s[j] == a[j]);
        } else {
            assert(s[j] == x[j - n]);
            assert(j == n + 1);
            if i < n {
                assert(s[i] == a[i]);
                if tree::owner(a[i]) == (oid, APFS_TYPE_DSTREAM_ID) {
                    assert(a.contains(a[i]));
                    records::lemma_those_in(a, (oid, APFS_TYPE_DSTREAM_ID), a[i]);
                }
            } else {
                assert(s[i] == x[i - n]);
            }
        }
    }
}

/// Changing the one inode record of an object changes what is picked for it.
pub proof fn lemma_patched_sole(
    rs: Seq<Rec>,
    oid: u64,
    f: spec_fn(Seq<u8>) -> Seq<u8>,
    k: Seq<u8>,
    v: Seq<u8>,
)
    requires
        tree::those(rs, (oid, APFS_TYPE_INODE)) == seq![(k, v)],
    ensures
        tree::those(mutate::patched(rs, oid, f), (oid, APFS_TYPE_INODE)) == seq![(k, f(v))],
{
    let p = (oid, APFS_TYPE_INODE);
    assert(tree::those(rs, p)[0] == (k, v));
    assert(tree::those(rs, p).contains((k, v)));
    records::lemma_those_in(rs, p, (k, v));
    changes::lemma_inode_index(rs, oid, 0);
    let i = mutate::inode_index(rs, oid, 0).unwrap();
    let a = rs.take(i);
    let r = rs[i];
    let b = rs.skip(i + 1);
    let t = mutate::patched(rs, oid, f);
    assert(rs =~= a + seq![r] + b);
    assert(t =~= a + seq![(r.0, f(r.1))] + b);
    records::lemma_those_add(a + seq![r], b, p);
    records::lemma_those_add(a, seq![r], p);
    records::lemma_those_one(r, p);
    records::lemma_those_add(a + seq![(r.0, f(r.1))], b, p);
    records::lemma_those_add(a, seq![(r.0, f(r.1))], p);
    records::lemma_those_one((r.0, f(r.1)), p);
    let ta = tree::those(a, p);
    let tb = tree::those(b, p);
    let all = ta + seq![r] + tb;
    assert(all == seq![(k, v)]);
    assert(all.len() == 1);
    assert(ta.len() == 0 && tb.len() == 0);
    assert(all[0] == r);
    assert(tree::those(t, p) =~= seq![(k, f(v))]);
}

/// Where an object has one inode, changing all its inodes changes that one.
pub proof fn lemma_patched_all(
    rs: Seq<Rec>,
    oid: u64,
    f: spec_fn(Seq<u8>) -> Seq<u8>,
    k: Seq<u8>,
    v: Seq<u8>,
)
    requires
        tree::those(rs, (oid, APFS_TYPE_INODE)) == seq![(k, v)],
    ensures
        mutate::patched_all(rs, oid, f) == mutate::patched(rs, oid, f),
{
    let p = (oid, APFS_TYPE_INODE);
    assert(tree::those(rs, p)[0] == (k, v));
    assert(tree::those(rs, p).contains((k, v)));
    records::lemma_those_in(rs, p, (k, v));
    changes::lemma_inode_index(rs, oid, 0);
    let i = mutate::inode_index(rs, oid, 0).unwrap();
    let a = rs.take(i);
    let b = rs.skip(i + 1);
    assert(rs =~= a + seq![rs[i]] + b);
    records::lemma_those_add(a + seq![rs[i]], b, p);
    records::lemma_those_add(a, seq![rs[i]], p);
    records::lemma_those_one(rs[i], p);
    let ta = tree::those(a, p);
    let tb = tree::those(b, p);
    let all = ta + seq![rs[i]] + tb;
    assert(all == seq![(k, v)]);
    assert(all.len() == 1);
    assert(ta.len() == 0 && tb.len() == 0);
    assert forall|j: int| 0 <= j < rs.len() && j != i implies tree::owner(rs[j]) != p by {
        if tree::owner(rs[j]) == p {
            if j < i {
                assert(a[j] == rs[j]);
                assert(a.contains(rs[j]));
                records::lemma_those_in(a, p, rs[j]);
                assert(ta.contains(rs[j]));
            } else {
                assert(b[j - i - 1] == rs[j]);
                assert(b.contains(rs[j]));
                records::lemma_those_in(b, p, rs[j]);
                assert(tb.contains(rs[j]));
            }
        }
    }
    assert(mutate::patched_all(rs, oid, f) =~= mutate::patched(rs, oid, f));
}

/// Giving a file or symbolic link new contents: once that is committed it has
/// them, and other objects have theirs from before.
pub proof fn lemma_rewritten_back(
    img: Seq<u8>,
    d: Draft,
    mark: int,
    l: Live,
    o: contents::Placement,
    was: Seq<u8>,
    data: Seq<u8>,
    now: Seq<u8>,
    before: contents::Placement,
    old_data: Seq<u8>,
)
    requires
        commit::settled(img, d, mark),
        files::tidy(d),
        rw::writable(img) == Ok::<Live, Error>(l),
        l.wf(),
        contents::stores(img, d, o, was),
        data.len() <= u64::MAX,
        num::div_up(data.len() as int, l.m.bs as int) * l.m.bs < 0x0100_0000_0000_0000,
        ops::rewritten(l, l.edit(pack::sort(d.records)), o.oid, data.len() as u64) is Ok,
        ops::data_stored(img, l.m.bs, l.bump, data) == Some(now),
        l.committed(
            ops::rewritten(l, l.edit(pack::sort(d.records)), o.oid, data.len() as u64)->Ok_0,
            now,
        ).1 is Ok,
    ensures
        ({
            let e = ops::rewritten(
                l,
                l.edit(pack::sort(d.records)),
                o.oid,
                data.len() as u64,
            )->Ok_0;
            let out = l.committed(e, now).0;
            let c = l.checkpoint(e)->Ok_0;
            &&& l.checkpoint(e) is Ok
            &&& c.plan() is Ok
            &&& image::sealed(out, c, c.plan()->Ok_0)
            &&& files::tidy(c)
            &&& contents::stores(out, c, (contents::Placement { paddr: l.bump, ..o }), data)
            &&& contents::stores(img, d, before, old_data) && before.oid != o.oid
                ==> contents::stores(out, c, before, old_data)
        }),
{
    let bs = d.block_size as int;
    let size = data.len() as u64;
    let rs = pack::sort(d.records);
    let e0 = l.edit(rs);
    let e = ops::rewritten(l, e0, o.oid, size)->Ok_0;
    let c = l.checkpoint(e)->Ok_0;
    let nb = c.plan()->Ok_0;
    let v = record::inode_value(
        o.oid,
        o.parent,
        o.mode,
        was.len() as u64,
        d.block_size,
        o.time,
    );
    inplace::lemma_reopened(img, d, mark, l);
    pack::lemma_sort(d.records);
    inplace::lemma_tidy_sort(d.records, d.next_oid);
    records::lemma_sole(d.records, (o.oid, APFS_TYPE_INODE), (record::inode_key(o.oid), v));
    lemma_rewritten_records(l, e0, o.oid, size, v, (before.oid, APFS_TYPE_INODE));
    lemma_rewritten_records(l, e0, o.oid, size, v, (before.oid, APFS_TYPE_FILE_EXTENT));
    lemma_resized(o.oid, o.parent, o.mode, was.len() as u64, size, d.block_size, o.time);
    if size > 0 {
        inplace::lemma_data_stored(img, l.m.bs, l.bump, data);
        num::lemma_div_up(size as int, bs);
    }
    assert(commit::same_before(img, now, l.bump as int, bs));
    commit::lemma_commit_settled(img, d, mark, now, l, e);
    let n = contents::Placement { paddr: l.bump, ..o };
    assert(contents::stores(now, c, n, data));
    contents::lemma_stores_written(now, c, nb, n, data);
    if contents::stores(img, d, before, old_data) && before.oid != o.oid {
        num::lemma_mono(d.next_block as int, l.bump as int, bs);
        inplace::lemma_before_kept(img, d, now, c, before, old_data);
        contents::lemma_stores_written(now, c, nb, before, old_data);
    }
}

} // verus!
