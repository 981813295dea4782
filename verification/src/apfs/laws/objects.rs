//! Objects that are created, removed, rewritten or given attributes in a
//! container that is open for changes, and what is read afterwards.

use vstd::prelude::*;

use crate::apfs::change;
use crate::apfs::content;
use crate::apfs::fs::Fs;
use crate::apfs::jrec::{
    self, APFS_TYPE_FILE_EXTENT, APFS_TYPE_INODE, APFS_TYPE_XATTR, DT_DIR, DT_LNK, KIND_UNIT,
};
use crate::apfs::mutate;
use crate::apfs::ops::{self, Newcomer};
use crate::apfs::pack::{self, Rec};
use crate::apfs::record;
use crate::apfs::rw::{self, Live};
use crate::apfs::volume;
use crate::apfs::write::Draft;
use crate::error::Error;
use crate::num;
use crate::path;
use crate::text;

use super::edits::{self, lemma_live_child, lemma_live_object, lemma_live_parent};
use super::{changes, commit, contents, entries, fields, files, inplace, layout, names, records};
use super::{rewrite, tree};

verus! {

// ---- removal ----

/// Dropping records keeps the rest orderly.
proof fn lemma_orderly_kept(rs: Seq<Rec>, keep: spec_fn(Seq<u8>) -> bool, next: u64)
    requires
        edits::orderly(rs, next),
    ensures
        edits::orderly(mutate::kept(rs, keep), next),
{
    let t = mutate::kept(rs, keep);
    entries::lemma_booked_kept(rs, keep);
    rewrite::lemma_tidy_kept(rs, keep, next);
    mutate::lemma_kept_keyed(rs, keep);
    assert forall|dir: u64, name: Seq<char>|
        #![trigger mutate::drec(t, dir, name)]
        mutate::drec(t, dir, name) matches Some((x, dt)) ==> x < next by {
        if let Some((x, dt)) = mutate::drec(t, dir, name) {
            entries::lemma_drec_in(t, dir, name);
            let r = ops::drec_rec(dir, name, x, dt);
            changes::lemma_kept_in(rs, keep, r);
            entries::lemma_drec_in(rs, dir, name);
            assert(rs.contains(r));
            assert(mutate::drec(rs, dir, name) == Some((x, dt)));
        }
    }
}

/// Without the records of object `x`: its entries are gone, and all others are
/// there.
pub(crate) proof fn lemma_without_object(rs: Seq<Rec>, x: u64, next: u64)
    requires
        edits::orderly(rs, next),
    ensures
        ({
            let t = mutate::without_object(rs, x);
            &&& edits::orderly(t, next)
            &&& edits::same_inodes(rs, t, set![x])
            &&& edits::same_extents(rs, t, set![x])
            &&& forall|r: Rec| #[trigger] t.contains(r) ==> tree::owner(r).0 != x
            &&& forall|dir: u64, name: Seq<char>| #[trigger]
                mutate::drec(t, dir, name) == if dir == x {
                    None
                } else {
                    mutate::drec(rs, dir, name)
                }
        }),
{
    let keep = |k: Seq<u8>| jrec::key_oid(k) != x;
    let t = mutate::without_object(rs, x);
    lemma_orderly_kept(rs, keep, next);
    edits::lemma_same_kept(rs, keep, set![x]);
    assert forall|r: Rec| #[trigger] t.contains(r) implies tree::owner(r).0 != x by {
        changes::lemma_kept_in(rs, keep, r);
    }
    assert forall|dir: u64, name: Seq<char>| #[trigger]
        mutate::drec(t, dir, name) == if dir == x {
            None
        } else {
            mutate::drec(rs, dir, name)
        } by {
        if dir == x {
            entries::lemma_drec_in(t, dir, name);
            if let Some((y, dt)) = mutate::drec(t, dir, name) {
                let r = ops::drec_rec(dir, name, y, dt);
                records::lemma_drec_key(dir, name, r.1);
                assert(t.contains(r));
            }
        } else {
            changes::lemma_drec_kept(rs, keep, dir, name);
        }
    }
}

/// Whether removing the entry `name` of directory `parent` takes its object
/// away: a directory, or the last link.
pub open spec fn goes(rs: Seq<Rec>, parent: u64, name: Seq<char>) -> bool {
    match mutate::drec(rs, parent, name) {
        Some((x, dt)) => dt == DT_DIR || mutate::last_link(
            mutate::without_drec(rs, parent, name),
            x,
        ),
        None => false,
    }
}

/// The objects whose contents go when the entry is removed.
pub open spec fn going(rs: Seq<Rec>, parent: u64, name: Seq<char>, x: u64) -> Set<u64> {
    if goes(rs, parent, name) {
        set![x]
    } else {
        Set::empty()
    }
}

proof fn lemma_removed_records(rs: Seq<Rec>, parent: u64, name: Seq<char>, next: u64)
    requires
        edits::orderly(rs, next),
        ops::removed(rs, parent, name) is Ok,
    ensures
        ({
            let t = ops::removed(rs, parent, name)->Ok_0;
            let (x, dt) = mutate::drec(rs, parent, name).unwrap();
            &&& edits::orderly(t, next)
            &&& edits::same_inodes(rs, t, set![x, parent])
            &&& edits::same_extents(rs, t, going(rs, parent, name, x))
            &&& goes(rs, parent, name) ==> forall|r: Rec| #[trigger]
                t.contains(r) ==> tree::owner(r).0 != x
            &&& forall|v: Seq<u8>| #[trigger]
                contents::described(rs, x, v) && !goes(rs, parent, name) && x != parent
                    ==> contents::described(t, x, mutate::unlinked(v))
            &&& forall|dir: u64, other: Seq<char>| #[trigger]
                mutate::drec(t, dir, other) == if (dir, other) == (parent, name) || (goes(
                    rs,
                    parent,
                    name,
                ) && dir == x) {
                    None
                } else {
                    mutate::drec(rs, dir, other)
                }
        }),
{
    let (x, dt) = mutate::drec(rs, parent, name).unwrap();
    let u = |v: Seq<u8>| mutate::unlinked(v);
    let g = |v: Seq<u8>| mutate::fewer_links(v);
    let a = mutate::without_drec(rs, parent, name);
    let b = mutate::patched(a, x, u);
    let gone = goes(rs, parent, name);
    edits::lemma_orderly_dropped(rs, parent, name, next);
    edits::lemma_orderly_patched(a, x, u, next);
    lemma_without_object(a, x, next);
    lemma_without_object(b, x, next);
    let w = if dt == DT_DIR {
        mutate::without_object(a, x)
    } else if gone {
        mutate::without_object(b, x)
    } else {
        b
    };
    edits::lemma_orderly_patched(w, parent, g, next);
    let t = mutate::patched(w, parent, g);
    assert(ops::removed(rs, parent, name) == Ok::<Seq<Rec>, Error>(t));
    assert(edits::same_inodes(rs, t, set![x, parent])) by {
        assert forall|o: u64|
            #![trigger tree::those(t, (o, APFS_TYPE_INODE))]
            !set![x, parent].contains(o) implies tree::those(t, (o, APFS_TYPE_INODE))
            == tree::those(rs, (o, APFS_TYPE_INODE)) by {
            let k = (o, APFS_TYPE_INODE);
            assert(tree::those(a, k) == tree::those(rs, k));
            assert(tree::those(b, k) == tree::those(a, k));
            assert(tree::those(mutate::without_object(a, x), k) == tree::those(a, k));
            assert(tree::those(mutate::without_object(b, x), k) == tree::those(b, k));
        }
    }
    assert(edits::same_extents(rs, t, going(rs, parent, name, x))) by {
        assert forall|o: u64|
            #![trigger tree::those(t, (o, APFS_TYPE_FILE_EXTENT))]
            !going(rs, parent, name, x).contains(o) implies tree::those(
            t,
            (o, APFS_TYPE_FILE_EXTENT),
        ) == tree::those(rs, (o, APFS_TYPE_FILE_EXTENT)) by {
            let k = (o, APFS_TYPE_FILE_EXTENT);
            assert(tree::those(a, k) == tree::those(rs, k));
            assert(tree::those(b, k) == tree::those(a, k));
            if gone {
                assert(o != x);
                assert(tree::those(mutate::without_object(a, x), k) == tree::those(a, k));
                assert(tree::those(mutate::without_object(b, x), k) == tree::those(b, k));
            }
        }
    }
    if gone {
        assert forall|r: Rec| #[trigger] t.contains(r) implies tree::owner(r).0 != x by {
            let i = choose|i: int| 0 <= i < t.len() && t[i] == r;
            inplace::lemma_patched(w, parent, g, (0, 0));
            assert(w[i].0 == t[i].0);
            assert(w.contains(w[i]));
        }
    }
    assert forall|v: Seq<u8>| #[trigger]
        contents::described(rs, x, v) && !gone && x != parent implies contents::described(
        t,
        x,
        mutate::unlinked(v),
    ) by {
        let k = (x, APFS_TYPE_INODE);
        assert(tree::those(a, k) == tree::those(rs, k));
        rewrite::lemma_patched_sole(a, x, u, record::inode_key(x), v);
        assert(tree::those(t, k) == tree::those(b, k));
    }
}

/// Removing: the name is gone; every other name leads where it did, but for the
/// names in a directory that went; an object with a link left has one link less
/// and its contents, one without is gone; and other objects are as they were.
pub proof fn lemma_removed(f: Fs, img: Seq<u8>, d: Draft, mark: int, p: Seq<char>) -> (r: (
    Draft,
    int,
))
    requires
        edits::live(f, img, d, mark),
        f.removed(img, p).2 is Ok,
    ensures
        ({
            let (g, out, _) = f.removed(img, p);
            let (np, nn) = f.resolve_parent(img, p)->Ok_0;
            let rs = pack::sort(d.records);
            let x = edits::read_child(f, img, np, nn)->Ok_0.unwrap();
            &&& f.resolve_parent(img, p) is Ok
            &&& edits::read_child(f, img, np, nn) == Ok::<Option<u64>, Error>(Some(x))
            &&& edits::live(g, out, r.0, r.1)
            &&& edits::keeps(img, d, out, r.0, set![x, np], going(rs, np, nn, x))
            &&& goes(rs, np, nn) ==> g.mounted() is Ok && volume::inode(
                g.mounted()->Ok_0,
                out,
                x,
            ) == Err::<Seq<u8>, Error>(Error::InvalidArgument)
            &&& forall|v: Seq<u8>| #[trigger]
                contents::described(d.records, x, v) && !goes(rs, np, nn) && x != np
                    ==> contents::described(r.0.records, x, mutate::unlinked(v))
            &&& forall|dir: u64, name: Seq<char>| #[trigger]
                edits::read_child(g, out, dir, name) == if (dir, name) == (np, nn) || (goes(
                    rs,
                    np,
                    nn,
                ) && dir == x) {
                    Ok::<Option<u64>, Error>(None)
                } else {
                    edits::read_child(f, img, dir, name)
                }
        }),
{
    let (g, out, _) = f.removed(img, p);
    let (np, nn) = f.resolve_parent(img, p)->Ok_0;
    let rs = pack::sort(d.records);
    let e = |s: Seq<Rec>| ops::removed(s, np, nn);
    let (x, dt) = mutate::drec(rs, np, nn).unwrap();
    edits::lemma_orderly_sort(d.records, d.next_oid);
    lemma_live_child(f, img, d, mark, np, nn);
    assert(mutate::drec(rs, np, nn) == mutate::drec(d.records, np, nn));
    if e(rs) is Ok {
        lemma_removed_records(rs, np, nn, d.next_oid);
    }
    let r = edits::lemma_rewritten(f, img, d, mark, e, set![x, np], going(rs, np, nn, x));
    let t = r.0.records;
    if goes(rs, np, nn) {
        let k = (x, APFS_TYPE_INODE);
        commit::lemma_now(out, r.0, r.1);
        names::lemma_entries(out, r.0, k);
        let s = volume::found(rw::first_open(out)->Ok_0, out, x, APFS_TYPE_INODE).recs;
        if s.len() > 0 {
            assert(s.contains(s[0]));
        }
    }
    assert forall|v: Seq<u8>| #[trigger]
        contents::described(d.records, x, v) && !goes(rs, np, nn) && x
            != np implies contents::described(t, x, mutate::unlinked(v)) by {
        records::lemma_sole(d.records, (x, APFS_TYPE_INODE), (record::inode_key(x), v));
        assert(contents::described(rs, x, v));
    }
    assert forall|dir: u64, name: Seq<char>| #[trigger]
        edits::read_child(g, out, dir, name) == if (dir, name) == (np, nn) || (goes(rs, np, nn)
            && dir == x) {
            Ok::<Option<u64>, Error>(None)
        } else {
            edits::read_child(f, img, dir, name)
        } by {
        lemma_live_child(g, out, r.0, r.1, dir, name);
        lemma_live_child(f, img, d, mark, dir, name);
        assert(mutate::drec(rs, dir, name) == mutate::drec(d.records, dir, name));
        assert(mutate::drec(t, dir, name) == if (dir, name) == (np, nn) || (goes(rs, np, nn)
            && dir == x) {
            None
        } else {
            mutate::drec(rs, dir, name)
        });
    }
    r
}

// ---- creation ----

proof fn lemma_created_entries(
    l: Live,
    rs: Seq<Rec>,
    n: Newcomer,
    name: Seq<char>,
    size: u64,
    next: u64,
)
    requires
        edits::orderly(rs, next),
        l.next_oid == next,
        next + 1 < KIND_UNIT,
        n.parent < next,
        fields::nameable(name),
        ops::created(l, l.edit(rs), n, name, size) is Ok,
    ensures
        ({
            let t = ops::created(l, l.edit(rs), n, name, size)->Ok_0.recs;
            &&& entries::booked(t)
            &&& edits::known(t, (next + 1) as u64)
            &&& forall|dir: u64, other: Seq<char>| #[trigger]
                mutate::drec(t, dir, other) == if (dir, other) == (n.parent, name) {
                    Some((next, n.dtype))
                } else {
                    mutate::drec(rs, dir, other)
                }
        }),
{
    let e = l.edit(rs);
    let i = (record::inode_key(next), record::inode_value(
        next,
        n.parent,
        n.mode,
        size,
        l.m.bs,
        n.time,
    ));
    let x = record::extent_records(next, 0, size, e.bump, l.m.bs);
    let stream = if size > 0 {
        x
    } else {
        Seq::<Rec>::empty()
    };
    let q = ops::drec_rec(n.parent, name, next, n.dtype);
    let g = |v: Seq<u8>| mutate::more_links(v);
    records::lemma_inode_key(next, i.1);
    records::lemma_extent_key(next, 0, x[0].1);
    records::lemma_dstream_key(next, x[1].1);
    let more = stream + seq![i];
    let a = rs + more;
    entries::lemma_entries_add(rs, more);
    entries::lemma_same_entries(rs, a, n.parent, name);
    let b = a.push(q);
    entries::lemma_entry_added(a, n.parent, name, next, n.dtype, 0, Seq::empty());
    entries::lemma_entries_patched(b, n.parent, g);
    let t = mutate::patched(b, n.parent, g);
    assert(rs + stream + seq![i, q] =~= b);
    assert(ops::created(l, e, n, name, size)->Ok_0.recs == t);
    entries::lemma_same_entries(b, t, 0, Seq::empty());
    assert forall|dir: u64, other: Seq<char>| #[trigger]
        mutate::drec(t, dir, other) == if (dir, other) == (n.parent, name) {
            Some((next, n.dtype))
        } else {
            mutate::drec(rs, dir, other)
        } by {
        entries::lemma_same_entries(rs, a, dir, other);
        entries::lemma_entry_added(a, n.parent, name, next, n.dtype, dir, other);
        entries::lemma_same_entries(b, t, dir, other);
    }
    assert forall|dir: u64, other: Seq<char>|
        #![trigger mutate::drec(t, dir, other)]
        mutate::drec(t, dir, other) matches Some((y, dt)) ==> y < next + 1 by {
        assert(mutate::drec(rs, dir, other) matches Some((y, dt)) ==> y < next);
    }
}

/// Nothing describes an object that was not given out.
proof fn lemma_unknown(rs: Seq<Rec>, next: u64, o: u64, k: u8)
    requires
        inplace::tidy_records(rs, next),
        o >= next,
        files::own_kind(k),
    ensures
        tree::those(rs, (o, k)) == Seq::<Rec>::empty(),
{
    assert forall|i: int| 0 <= i < rs.len() implies tree::owner(#[trigger] rs[i]) != (o, k) by {
        if tree::owner(rs[i]).1 == k {
            assert(files::own(rs[i]));
        }
    }
    contents::lemma_none_own(rs, (o, k));
}

proof fn lemma_created_objects(
    l: Live,
    rs: Seq<Rec>,
    n: Newcomer,
    name: Seq<char>,
    size: u64,
    next: u64,
)
    requires
        edits::orderly(rs, next),
        l.next_oid == next,
        next + 1 < KIND_UNIT,
        n.parent < next,
        fields::nameable(name),
        ops::created(l, l.edit(rs), n, name, size) is Ok,
    ensures
        ({
            let t = ops::created(l, l.edit(rs), n, name, size)->Ok_0.recs;
            &&& edits::orderly(t, (next + 1) as u64)
            &&& edits::same_inodes(rs, t, set![next, n.parent])
            &&& edits::same_extents(rs, t, set![next])
        }),
{
    let e = l.edit(rs);
    let t = ops::created(l, e, n, name, size)->Ok_0.recs;
    let up = (next + 1) as u64;
    inplace::lemma_created_records(l, e, n, name, size, (0, 0));
    lemma_created_entries(l, rs, n, name, size, next);
    assert forall|o: u64|
        #![trigger tree::those(t, (o, APFS_TYPE_INODE))]
        !set![next, n.parent].contains(o) implies tree::those(t, (o, APFS_TYPE_INODE))
        == tree::those(rs, (o, APFS_TYPE_INODE)) by {
        if o < next {
            inplace::lemma_created_records(l, e, n, name, size, (o, APFS_TYPE_INODE));
        } else {
            lemma_unknown(rs, next, o, APFS_TYPE_INODE);
            lemma_unknown(t, up, o, APFS_TYPE_INODE);
        }
    }
    assert forall|o: u64|
        #![trigger tree::those(t, (o, APFS_TYPE_FILE_EXTENT))]
        !set![next].contains(o) implies tree::those(t, (o, APFS_TYPE_FILE_EXTENT))
        == tree::those(rs, (o, APFS_TYPE_FILE_EXTENT)) by {
        if o < next {
            inplace::lemma_created_records(l, e, n, name, size, (o, APFS_TYPE_FILE_EXTENT));
        } else {
            lemma_unknown(rs, next, o, APFS_TYPE_FILE_EXTENT);
            lemma_unknown(t, up, o, APFS_TYPE_FILE_EXTENT);
        }
    }
}

/// Whether the volume `m` counts one object of the type `dtype` more than `l`: one
/// directory, symbolic link or file more, and no more of the others. (A count that is
/// full stays as it is.)
pub open spec fn counts_up(l: Live, m: Live, dtype: u16) -> bool {
    let dir = dtype == DT_DIR;
    let link = dtype == DT_LNK;
    &&& l.num_directories < u64::MAX ==> m.num_directories == l.num_directories + if dir {
        1int
    } else {
        0
    }
    &&& l.num_symlinks < u64::MAX ==> m.num_symlinks == l.num_symlinks + if link {
        1int
    } else {
        0
    }
    &&& l.num_files < u64::MAX ==> m.num_files == l.num_files + if dir || link {
        0int
    } else {
        1
    }
}

/// Creating: the name leads to the new object, which has the mode, the time and
/// the contents that it was given; every other name leads where it did; and
/// other objects, but for the directory, are as they were.
pub proof fn lemma_created(
    f: Fs,
    img: Seq<u8>,
    d: Draft,
    mark: int,
    p: Seq<char>,
    dtype: u16,
    mode: u16,
    time: u64,
    data: Seq<u8>,
) -> (r: (Draft, int))
    requires
        edits::live(f, img, d, mark),
        d.next_oid + 1 < KIND_UNIT,
        f.created(img, p, dtype, mode, time, data).2 is Ok,
        fields::nameable(path::parts(p).last()),
        data.len() <= u64::MAX,
        num::div_up(data.len() as int, d.block_size as int) * d.block_size
            < 0x0100_0000_0000_0000,
    ensures
        ({
            let (g, out, _) = f.created(img, p, dtype, mode, time, data);
            let (np, nn) = f.resolve_parent(img, p)->Ok_0;
            let x = d.next_oid;
            let v = record::inode_value(x, np, mode, data.len() as u64, d.block_size, time);
            &&& f.resolve_parent(img, p) is Ok
            &&& edits::live(g, out, r.0, r.1)
            &&& r.0.next_oid == x + 1
            &&& counts_up(f.mode->Write_0, g.mode->Write_0, dtype)
            &&& mutate::drec(r.0.records, np, nn) == Some((x, dtype))
            &&& edits::keeps(img, d, out, r.0, set![x, np], set![x])
            &&& contents::described(r.0.records, x, v)
            &&& contents::body(out, r.0, x, f.mode->Write_0.bump, data)
            &&& forall|dir: u64, name: Seq<char>| #[trigger]
                edits::read_child(g, out, dir, name) == if (dir, name) == (np, nn) {
                    Ok::<Option<u64>, Error>(Some(x))
                } else {
                    edits::read_child(f, img, dir, name)
                }
        }),
{
    let (g, out, _) = f.created(img, p, dtype, mode, time, data);
    let (np, nn) = f.resolve_parent(img, p)->Ok_0;
    let l = f.mode->Write_0;
    let rs = pack::sort(d.records);
    let n = Newcomer { parent: np, dtype, mode, time };
    let size = data.len() as u64;
    let x = d.next_oid;
    let bs = d.block_size as int;
    lemma_live_parent(f, img, d, mark, p);
    edits::lemma_orderly_sort(d.records, x);
    inplace::lemma_reopened(img, d, mark, l);
    assert(rw::all_records(l.m, img) == Ok::<Seq<Rec>, Error>(rs));
    let e0 = ops::created(l, l.edit(rs), n, nn, size)->Ok_0;
    assert(ops::created(l, l.edit(rs), n, nn, size) is Ok);
    let e = change::counted(e0, dtype);
    let now = ops::data_stored(img, l.m.bs, l.bump, data).unwrap();
    assert(ops::data_stored(img, l.m.bs, l.bump, data) is Some);
    lemma_created_objects(l, rs, n, nn, size, x);
    lemma_created_entries(l, rs, n, nn, size, x);
    inplace::lemma_created_records(l, l.edit(rs), n, nn, size, (0, 0));
    if size > 0 {
        inplace::lemma_data_stored(img, l.m.bs, l.bump, data);
        num::lemma_div_up(size as int, bs);
    }
    assert(commit::same_before(img, now, l.bump as int, bs));
    commit::lemma_commit_settled(img, d, mark, now, l, e);
    let c = l.checkpoint(e)->Ok_0;
    let nb = c.plan()->Ok_0;
    commit::lemma_now(out, c, layout::end(c));
    assert(edits::live(g, out, c, layout::end(c)));
    num::lemma_mono(d.next_block as int, l.bump as int, bs);
    edits::lemma_carried(img, d, now, c, nb, set![x, np], set![x]);
    assert(contents::body(now, c, x, l.bump, data));
    contents::lemma_body_written(now, c, nb, x, l.bump, data);
    assert forall|dir: u64, name: Seq<char>| #[trigger]
        edits::read_child(g, out, dir, name) == if (dir, name) == (np, nn) {
            Ok::<Option<u64>, Error>(Some(x))
        } else {
            edits::read_child(f, img, dir, name)
        } by {
        lemma_live_child(g, out, c, layout::end(c), dir, name);
        lemma_live_child(f, img, d, mark, dir, name);
        assert(mutate::drec(rs, dir, name) == mutate::drec(d.records, dir, name));
        assert(mutate::drec(c.records, dir, name) == if (dir, name) == (np, nn) {
            Some((x, dtype))
        } else {
            mutate::drec(rs, dir, name)
        });
    }
    (c, layout::end(c))
}

// ---- new contents ----

proof fn lemma_synced_records(l: Live, rs: Seq<Rec>, x: u64, size: u64, v: Seq<u8>, next: u64)
    requires
        l.m.bs > 0,
        edits::orderly(rs, next),
        l.next_oid == next,
        x < next,
        contents::described(rs, x, v),
        ops::rewritten(l, l.edit(rs), x, size) is Ok,
    ensures
        ({
            let t = ops::rewritten(l, l.edit(rs), x, size)->Ok_0.recs;
            &&& edits::orderly(t, next)
            &&& edits::same_inodes(rs, t, set![x])
            &&& edits::same_extents(rs, t, set![x])
            &&& forall|dir: u64, other: Seq<char>| #[trigger]
                mutate::drec(t, dir, other) == mutate::drec(rs, dir, other)
        }),
{
    let e = l.edit(rs);
    let t = ops::rewritten(l, e, x, size)->Ok_0.recs;
    let keep = |k: Seq<u8>|
        !(mutate::is_key_of(k, x, APFS_TYPE_FILE_EXTENT) || mutate::is_key_of(
            k,
            x,
            jrec::APFS_TYPE_DSTREAM_ID,
        ));
    let h = |w: Seq<u8>| mutate::resized(w, size, l.m.bs as u64);
    let w = mutate::without_stream(rs, x);
    let a = mutate::patched(w, x, h);
    rewrite::lemma_rewritten_records(l, e, x, size, v, (0, 0));
    rewrite::lemma_those_kept(rs, keep, (x, APFS_TYPE_INODE));
    rewrite::lemma_patched_all(w, x, h, record::inode_key(x), v);
    entries::lemma_entries_kept(rs, keep);
    entries::lemma_entries_patched(w, x, h);
    let q = record::extent_records(x, 0, size, e.bump, l.m.bs);
    records::lemma_extent_key(x, 0, q[0].1);
    records::lemma_dstream_key(x, q[1].1);
    entries::lemma_entries_add(a, q);
    assert(entries::same_entries(rs, t)) by {
        assert forall|r: Rec| entries::is_dir_rec(r) implies (#[trigger] rs.contains(r)
            <==> t.contains(r)) by {
            assert(rs.contains(r) <==> w.contains(r));
            assert(w.contains(r) <==> a.contains(r));
            assert(a.contains(r) <==> (a + q).contains(r));
        }
    }
    entries::lemma_same_entries(rs, t, 0, Seq::empty());
    assert forall|dir: u64, other: Seq<char>| #[trigger]
        mutate::drec(t, dir, other) == mutate::drec(rs, dir, other) by {
        entries::lemma_same_entries(rs, t, dir, other);
    }
    assert forall|o: u64|
        #![trigger tree::those(t, (o, APFS_TYPE_INODE))]
        !set![x].contains(o) implies tree::those(t, (o, APFS_TYPE_INODE)) == tree::those(
        rs,
        (o, APFS_TYPE_INODE),
    ) by {
        rewrite::lemma_rewritten_records(l, e, x, size, v, (o, APFS_TYPE_INODE));
    }
    assert forall|o: u64|
        #![trigger tree::those(t, (o, APFS_TYPE_FILE_EXTENT))]
        !set![x].contains(o) implies tree::those(t, (o, APFS_TYPE_FILE_EXTENT)) == tree::those(
        rs,
        (o, APFS_TYPE_FILE_EXTENT),
    ) by {
        rewrite::lemma_rewritten_records(l, e, x, size, v, (o, APFS_TYPE_FILE_EXTENT));
    }
}

/// Giving an object new contents: it has them, with the length in its inode;
/// every name leads where it did; and other objects are as they were.
pub proof fn lemma_synced(
    f: Fs,
    img: Seq<u8>,
    d: Draft,
    mark: int,
    x: u64,
    data: Seq<u8>,
    v: Seq<u8>,
) -> (r: (Draft, int))
    requires
        edits::live(f, img, d, mark),
        x < d.next_oid,
        contents::described(d.records, x, v),
        f.synced(img, x, data).2 is Ok,
        data.len() <= u64::MAX,
        num::div_up(data.len() as int, d.block_size as int) * d.block_size
            < 0x0100_0000_0000_0000,
    ensures
        ({
            let (g, out, _) = f.synced(img, x, data);
            &&& edits::live(g, out, r.0, r.1)
            &&& edits::keeps(img, d, out, r.0, set![x], set![x])
            &&& contents::described(
                r.0.records,
                x,
                mutate::resized(v, data.len() as u64, d.block_size as u64),
            )
            &&& contents::body(out, r.0, x, f.mode->Write_0.bump, data)
            &&& forall|dir: u64, name: Seq<char>| #[trigger]
                edits::read_child(g, out, dir, name) == edits::read_child(f, img, dir, name)
        }),
{
    let (g, out, _) = f.synced(img, x, data);
    let l = f.mode->Write_0;
    let rs = pack::sort(d.records);
    let size = data.len() as u64;
    let bs = d.block_size as int;
    edits::lemma_orderly_sort(d.records, d.next_oid);
    inplace::lemma_reopened(img, d, mark, l);
    assert(rw::all_records(l.m, img) == Ok::<Seq<Rec>, Error>(rs));
    records::lemma_sole(d.records, (x, APFS_TYPE_INODE), (record::inode_key(x), v));
    let e = ops::rewritten(l, l.edit(rs), x, size)->Ok_0;
    assert(ops::rewritten(l, l.edit(rs), x, size) is Ok);
    let now = ops::data_stored(img, l.m.bs, l.bump, data).unwrap();
    assert(ops::data_stored(img, l.m.bs, l.bump, data) is Some);
    lemma_synced_records(l, rs, x, size, v, d.next_oid);
    rewrite::lemma_rewritten_records(l, l.edit(rs), x, size, v, (0, 0));
    if size > 0 {
        inplace::lemma_data_stored(img, l.m.bs, l.bump, data);
        num::lemma_div_up(size as int, bs);
    }
    assert(commit::same_before(img, now, l.bump as int, bs));
    commit::lemma_commit_settled(img, d, mark, now, l, e);
    let c = l.checkpoint(e)->Ok_0;
    let nb = c.plan()->Ok_0;
    commit::lemma_now(out, c, layout::end(c));
    assert(edits::live(g, out, c, layout::end(c)));
    num::lemma_mono(d.next_block as int, l.bump as int, bs);
    edits::lemma_carried(img, d, now, c, nb, set![x], set![x]);
    assert(contents::body(now, c, x, l.bump, data));
    contents::lemma_body_written(now, c, nb, x, l.bump, data);
    assert forall|dir: u64, name: Seq<char>| #[trigger]
        edits::read_child(g, out, dir, name) == edits::read_child(f, img, dir, name) by {
        lemma_live_child(g, out, c, layout::end(c), dir, name);
        lemma_live_child(f, img, d, mark, dir, name);
        assert(mutate::drec(rs, dir, name) == mutate::drec(d.records, dir, name));
        assert(mutate::drec(c.records, dir, name) == mutate::drec(rs, dir, name));
    }
    (c, layout::end(c))
}

// ---- extended attributes ----

/// Whether every attribute that the records `s` give an object, but for `but`,
/// is given by the records `t` too.
pub open spec fn same_attributes(s: Seq<Rec>, t: Seq<Rec>, but: (u64, Seq<char>)) -> bool {
    forall|o: u64, n: Seq<char>, v: Seq<u8>| #[trigger]
        names::attributed(s, o, n, v) && (o, n) != but ==> names::attributed(t, o, n, v)
}

/// Attributes do not depend on the order of the records.
proof fn lemma_attributes_sort(rs: Seq<Rec>, x: u64)
    requires
        changes::well_attributed(rs, x),
    ensures
        changes::well_attributed(pack::sort(rs), x),
        forall|o: u64, n: Seq<char>, v: Seq<u8>| #[trigger]
            names::attributed(rs, o, n, v) ==> names::attributed(pack::sort(rs), o, n, v),
{
    let s = pack::sort(rs);
    entries::lemma_entries_sort(rs);
    assert forall|i: int|
        0 <= i < s.len() && tree::owner(#[trigger] s[i]) == (
            x,
            APFS_TYPE_XATTR,
        ) implies changes::well_named(s[i].0, x) by {
        assert(s.contains(s[i]));
        let k = choose|k: int| 0 <= k < rs.len() && rs[k] == s[i];
        assert(tree::owner(rs[k]) == (x, APFS_TYPE_XATTR));
    }
    assert forall|o: u64, n: Seq<char>, v: Seq<u8>| #[trigger]
        names::attributed(rs, o, n, v) implies names::attributed(s, o, n, v) by {
        assert forall|i: int|
            0 <= i < s.len() && tree::owner(#[trigger] s[i]) == (o, APFS_TYPE_XATTR)
                && content::xattr_of(s[i]) is Some && content::xattr_of(s[i]).unwrap().0
                == n implies content::xattr_of(s[i]) == Some((n, v)) by {
            assert(s.contains(s[i]));
            let k = choose|k: int| 0 <= k < rs.len() && rs[k] == s[i];
            assert(tree::owner(rs[k]) == (o, APFS_TYPE_XATTR));
        }
    }
}

/// Dropping an attribute keeps records orderly, and everything else.
proof fn lemma_without_xattr(rs: Seq<Rec>, x: u64, name: Seq<char>, next: u64)
    requires
        edits::orderly(rs, next),
        x < KIND_UNIT,
        fields::nameable(name),
    ensures
        ({
            let t = mutate::without_xattr(rs, x, name);
            &&& edits::orderly(t, next)
            &&& edits::same_inodes(rs, t, Set::empty())
            &&& edits::same_extents(rs, t, Set::empty())
            &&& same_attributes(rs, t, (x, name))
            &&& forall|dir: u64, other: Seq<char>| #[trigger]
                mutate::drec(t, dir, other) == mutate::drec(rs, dir, other)
        }),
{
    let keep = |k: Seq<u8>| !mutate::is_xattr_of(k, x, text::utf8(name));
    let t = mutate::without_xattr(rs, x, name);
    lemma_orderly_kept(rs, keep, next);
    edits::lemma_same_kept(rs, keep, Set::empty());
    entries::lemma_entries_kept(rs, keep);
    assert forall|dir: u64, other: Seq<char>| #[trigger]
        mutate::drec(t, dir, other) == mutate::drec(rs, dir, other) by {
        entries::lemma_same_entries(rs, t, dir, other);
    }
    assert forall|o: u64, n: Seq<char>, v: Seq<u8>| #[trigger]
        names::attributed(rs, o, n, v) && (o, n) != (x, name) implies names::attributed(
        t,
        o,
        n,
        v,
    ) by {
        let r = (record::xattr_key(o, n), record::xattr_value(v));
        records::lemma_xattr_key(o, n, r.1);
        if o == x {
            changes::lemma_xattr_match(x, n, name);
        }
        assert(keep(r.0));
        changes::lemma_kept_in(rs, keep, r);
        assert forall|i: int|
            0 <= i < t.len() && tree::owner(#[trigger] t[i]) == (o, APFS_TYPE_XATTR)
                && content::xattr_of(t[i]) is Some && content::xattr_of(t[i]).unwrap().0
                == n implies content::xattr_of(t[i]) == Some((n, v)) by {
            assert(t.contains(t[i]));
            changes::lemma_kept_in(rs, keep, t[i]);
            let k = choose|k: int| 0 <= k < rs.len() && rs[k] == t[i];
            assert(tree::owner(rs[k]) == (o, APFS_TYPE_XATTR));
        }
    }
}

/// Adding an attribute keeps records orderly, and everything else.
proof fn lemma_with_xattr(rs: Seq<Rec>, x: u64, name: Seq<char>, value: Seq<u8>, next: u64)
    requires
        edits::orderly(rs, next),
        x < KIND_UNIT,
        fields::nameable(name),
        value.len() <= 0xffff,
    ensures
        ({
            let t = rs.push((record::xattr_key(x, name), record::xattr_value(value)));
            &&& edits::orderly(t, next)
            &&& edits::same_inodes(rs, t, Set::empty())
            &&& edits::same_extents(rs, t, Set::empty())
            &&& same_attributes(rs, t, (x, name))
            &&& forall|dir: u64, other: Seq<char>| #[trigger]
                mutate::drec(t, dir, other) == mutate::drec(rs, dir, other)
        }),
{
    let q = (record::xattr_key(x, name), record::xattr_value(value));
    let t = rs.push(q);
    records::lemma_xattr_key(x, name, q.1);
    fields::lemma_xattr(x, name, value);
    edits::lemma_tidy_push(rs, q, next);
    edits::lemma_same_push(rs, q);
    entries::lemma_entries_add(rs, seq![q]);
    assert(t =~= rs + seq![q]);
    entries::lemma_same_entries(rs, t, 0, Seq::empty());
    assert forall|dir: u64, other: Seq<char>| #[trigger]
        mutate::drec(t, dir, other) == mutate::drec(rs, dir, other) by {
        entries::lemma_same_entries(rs, t, dir, other);
    }
    assert forall|o: u64, n: Seq<char>, v: Seq<u8>| #[trigger]
        names::attributed(rs, o, n, v) && (o, n) != (x, name) implies names::attributed(
        t,
        o,
        n,
        v,
    ) by {
        let r = (record::xattr_key(o, n), record::xattr_value(v));
        let k = choose|k: int| 0 <= k < rs.len() && rs[k] == r;
        assert(t[k] == r);
        assert forall|i: int|
            0 <= i < t.len() && tree::owner(#[trigger] t[i]) == (o, APFS_TYPE_XATTR)
                && content::xattr_of(t[i]) is Some && content::xattr_of(t[i]).unwrap().0
                == n implies content::xattr_of(t[i]) == Some((n, v)) by {
            if i < rs.len() {
                assert(t[i] == rs[i]);
            } else {
                assert(t[i] == q);
            }
        }
    }
}

/// Setting an attribute: it is read with its value; every other attribute of any
/// object is given as it was; every name leads where it did; and all objects are
/// as they were.
pub proof fn lemma_attribute_set(
    f: Fs,
    img: Seq<u8>,
    d: Draft,
    mark: int,
    p: Seq<char>,
    name: Seq<char>,
    value: Seq<u8>,
) -> (r: (Draft, int))
    requires
        edits::live(f, img, d, mark),
        f.xattr_set(img, p, name, value).2 is Ok,
        fields::nameable(name),
        changes::well_attributed(d.records, f.resolve(img, p)->Ok_0),
    ensures
        ({
            let (g, out, _) = f.xattr_set(img, p, name, value);
            let x = f.resolve(img, p)->Ok_0;
            let a = content::xattrs(g.mounted()->Ok_0, out, x);
            &&& f.resolve(img, p) is Ok
            &&& edits::live(g, out, r.0, r.1)
            &&& edits::keeps(img, d, out, r.0, Set::empty(), Set::empty())
            &&& same_attributes(d.records, r.0.records, (x, name))
            &&& changes::well_attributed(r.0.records, x)
            &&& g.mounted() is Ok
            &&& a is Ok
            &&& a->Ok_0.contains((name, value))
            &&& forall|dir: u64, other: Seq<char>| #[trigger]
                edits::read_child(g, out, dir, other) == edits::read_child(f, img, dir, other)
        }),
{
    let (g, out, _) = f.xattr_set(img, p, name, value);
    let x = f.resolve(img, p)->Ok_0;
    let rs = pack::sort(d.records);
    let e = |s: Seq<Rec>| change::with_xattr(s, x, name, value);
    lemma_live_object(f, img, d, mark, p);
    edits::lemma_orderly_sort(d.records, d.next_oid);
    lemma_attributes_sort(d.records, x);
    let w = mutate::without_xattr(rs, x, name);
    lemma_without_xattr(rs, x, name, d.next_oid);
    let t = w.push((record::xattr_key(x, name), record::xattr_value(value)));
    if e(rs) is Ok {
        lemma_with_xattr(w, x, name, value, d.next_oid);
        changes::lemma_xattr_set(rs, x, name, value);
        lemma_same_twice(rs, w, t);
    }
    let r = edits::lemma_rewritten(f, img, d, mark, e, Set::empty(), Set::empty());
    commit::lemma_now(out, r.0, r.1);
    names::lemma_xattr_back(out, r.0, x, name, value);
    assert forall|dir: u64, other: Seq<char>| #[trigger]
        edits::read_child(g, out, dir, other) == edits::read_child(f, img, dir, other) by {
        lemma_live_child(g, out, r.0, r.1, dir, other);
        lemma_live_child(f, img, d, mark, dir, other);
        assert(mutate::drec(rs, dir, other) == mutate::drec(d.records, dir, other));
        assert(mutate::drec(w, dir, other) == mutate::drec(rs, dir, other));
        assert(mutate::drec(t, dir, other) == mutate::drec(w, dir, other));
    }
    r
}

/// What two steps leave is left.
proof fn lemma_same_twice(s: Seq<Rec>, t: Seq<Rec>, u: Seq<Rec>)
    requires
        edits::same_inodes(s, t, Set::empty()),
        edits::same_inodes(t, u, Set::empty()),
        edits::same_extents(s, t, Set::empty()),
        edits::same_extents(t, u, Set::empty()),
    ensures
        edits::same_inodes(s, u, Set::empty()),
        edits::same_extents(s, u, Set::empty()),
{
    assert forall|o: u64|
        #![trigger tree::those(u, (o, APFS_TYPE_INODE))]
        tree::those(u, (o, APFS_TYPE_INODE)) == tree::those(s, (o, APFS_TYPE_INODE)) by {
        assert(tree::those(t, (o, APFS_TYPE_INODE)) == tree::those(s, (o, APFS_TYPE_INODE)));
    }
    assert forall|o: u64|
        #![trigger tree::those(u, (o, APFS_TYPE_FILE_EXTENT))]
        tree::those(u, (o, APFS_TYPE_FILE_EXTENT)) == tree::those(s, (o, APFS_TYPE_FILE_EXTENT)) by {
        assert(tree::those(t, (o, APFS_TYPE_FILE_EXTENT)) == tree::those(
            s,
            (o, APFS_TYPE_FILE_EXTENT),
        ));
    }
}

/// Removing an attribute: it is not read, with any value; every other attribute
/// of any object is given as it was; every name leads where it did; and all
/// objects are as they were.
pub proof fn lemma_attribute_removed(
    f: Fs,
    img: Seq<u8>,
    d: Draft,
    mark: int,
    p: Seq<char>,
    name: Seq<char>,
    value: Seq<u8>,
) -> (r: (Draft, int))
    requires
        edits::live(f, img, d, mark),
        f.xattr_removed(img, p, name).2 is Ok,
        fields::nameable(name),
        changes::well_attributed(d.records, f.resolve(img, p)->Ok_0),
    ensures
        ({
            let (g, out, _) = f.xattr_removed(img, p, name);
            let x = f.resolve(img, p)->Ok_0;
            let a = content::xattrs(g.mounted()->Ok_0, out, x);
            &&& f.resolve(img, p) is Ok
            &&& edits::live(g, out, r.0, r.1)
            &&& edits::keeps(img, d, out, r.0, Set::empty(), Set::empty())
            &&& same_attributes(d.records, r.0.records, (x, name))
            &&& changes::well_attributed(r.0.records, x)
            &&& g.mounted() is Ok
            &&& a is Ok
            &&& !a->Ok_0.contains((name, value))
            &&& forall|dir: u64, other: Seq<char>| #[trigger]
                edits::read_child(g, out, dir, other) == edits::read_child(f, img, dir, other)
        }),
{
    let (g, out, _) = f.xattr_removed(img, p, name);
    let x = f.resolve(img, p)->Ok_0;
    let rs = pack::sort(d.records);
    let e = |s: Seq<Rec>| Ok::<Seq<Rec>, Error>(mutate::without_xattr(s, x, name));
    lemma_live_object(f, img, d, mark, p);
    edits::lemma_orderly_sort(d.records, d.next_oid);
    lemma_attributes_sort(d.records, x);
    lemma_without_xattr(rs, x, name, d.next_oid);
    changes::lemma_xattr_removed(rs, x, name);
    let r = edits::lemma_rewritten(f, img, d, mark, e, Set::empty(), Set::empty());
    commit::lemma_now(out, r.0, r.1);
    inplace::lemma_no_xattr_back(out, r.0, x, name, value);
    assert forall|dir: u64, other: Seq<char>| #[trigger]
        edits::read_child(g, out, dir, other) == edits::read_child(f, img, dir, other) by {
        lemma_live_child(g, out, r.0, r.1, dir, other);
        lemma_live_child(f, img, d, mark, dir, other);
        assert(mutate::drec(rs, dir, other) == mutate::drec(d.records, dir, other));
        assert(mutate::drec(r.0.records, dir, other) == mutate::drec(rs, dir, other));
    }
    r
}

} // verus!
