//! Removing, linking and moving: when a change of entries is refused, what is left
//! of an object that loses a link, and the counts that directories keep.

use vstd::prelude::*;

use crate::apfs::fs::Fs;
use crate::apfs::jrec::{APFS_TYPE_DIR_REC, APFS_TYPE_INODE, DT_DIR, KIND_UNIT};
use crate::apfs::mutate;
use crate::apfs::ops;
use crate::apfs::pack::{self, Rec};
use crate::apfs::record;
use crate::apfs::volume;
use crate::apfs::write::Draft;
use crate::bytes;
use crate::error::Error;

use super::edits::{self, live};
use super::{changes, commit, contents, entries, fields, inplace, objects};
use super::{records, rewrite, tree, trips};

verus! {

// ---- what is refused ----

proof fn lemma_counted(rs: Seq<Rec>, dir: u64)
    ensures
        mutate::drec_count(rs, dir) >= 0,
        mutate::drec_count(rs, dir) > 0 <==> exists|i: int|
            0 <= i < rs.len() && tree::owner(#[trigger] rs[i]) == (dir, APFS_TYPE_DIR_REC),
    decreases rs.len(),
{
    if rs.len() > 0 {
        let s = rs.drop_last();
        lemma_counted(s, dir);
        assert(forall|i: int| 0 <= i < s.len() ==> s[i] == rs[i]);
        if mutate::drec_count(s, dir) > 0 {
            let i = choose|i: int|
                0 <= i < s.len() && tree::owner(#[trigger] s[i]) == (dir, APFS_TYPE_DIR_REC);
            assert(tree::owner(rs[i]) == (dir, APFS_TYPE_DIR_REC));
        }
        assert(rs[rs.len() - 1] == rs.last());
        if exists|i: int|
            0 <= i < rs.len() && tree::owner(#[trigger] rs[i]) == (dir, APFS_TYPE_DIR_REC) {
            let i = choose|i: int|
                0 <= i < rs.len() && tree::owner(#[trigger] rs[i]) == (dir, APFS_TYPE_DIR_REC);
            if i < s.len() {
                assert(tree::owner(s[i]) == (dir, APFS_TYPE_DIR_REC));
            }
        }
    }
}

/// A directory has entries just where some name in it leads somewhere.
proof fn lemma_has_entries(rs: Seq<Rec>, dir: u64)
    requires
        entries::booked(rs),
    ensures
        mutate::drec_count(rs, dir) > 0 <==> exists|n: Seq<char>|
            #[trigger] mutate::drec(rs, dir, n) is Some,
{
    lemma_counted(rs, dir);
    if mutate::drec_count(rs, dir) > 0 {
        let i = choose|i: int|
            0 <= i < rs.len() && tree::owner(#[trigger] rs[i]) == (dir, APFS_TYPE_DIR_REC);
        let r = rs[i];
        assert(rs.contains(r));
        assert(entries::is_dir_rec(r));
        let (d, n, t, dt) = choose|d: u64, n: Seq<char>, t: u64, dt: u16|
            {
                &&& d < KIND_UNIT
                &&& t < KIND_UNIT
                &&& fields::nameable(n)
                &&& r == #[trigger] ops::drec_rec(d, n, t, dt)
            };
        records::lemma_drec_key(d, n, r.1);
        assert(d == dir);
        entries::lemma_drec_in(rs, dir, n);
        assert(mutate::drec(rs, dir, n) is Some);
    }
    if exists|n: Seq<char>| #[trigger] mutate::drec(rs, dir, n) is Some {
        let n = choose|n: Seq<char>| #[trigger] mutate::drec(rs, dir, n) is Some;
        let (t, dt) = mutate::drec(rs, dir, n).unwrap();
        entries::lemma_drec_in(rs, dir, n);
        let r = ops::drec_rec(dir, n, t, dt);
        records::lemma_drec_key(dir, n, r.1);
        let i = choose|i: int| 0 <= i < rs.len() && rs[i] == r;
        assert(tree::owner(rs[i]) == (dir, APFS_TYPE_DIR_REC));
    }
}

/// An entry can be removed just where it is there and is no directory with entries
/// of its own.
pub proof fn lemma_removable(rs: Seq<Rec>, dir: u64, name: Seq<char>)
    requires
        entries::booked(rs),
    ensures
        ops::removed(rs, dir, name) is Ok <==> {
            &&& mutate::drec(rs, dir, name) is Some
            &&& mutate::drec(rs, dir, name).unwrap().1 == DT_DIR ==> forall|n: Seq<char>|
                #[trigger] mutate::drec(rs, mutate::drec(rs, dir, name).unwrap().0, n) is None
        },
        ops::removed(rs, dir, name) matches Err(e) ==> e == Error::InvalidArgument,
{
    if let Some((x, dt)) = mutate::drec(rs, dir, name) {
        lemma_has_entries(rs, x);
    }
}

/// A name that is not there, and a directory that is not empty, are not removed:
/// the removal is refused, and neither container nor device changes.
pub proof fn lemma_removal_refused(
    f: Fs,
    img: Seq<u8>,
    d: Draft,
    mark: int,
    p: Seq<char>,
    inner: Seq<char>,
)
    requires
        live(f, img, d, mark),
        f.resolve_parent(img, p) is Ok,
        ({
            let (np, nn) = f.resolve_parent(img, p)->Ok_0;
            match mutate::drec(d.records, np, nn) {
                None => true,
                Some((x, dt)) => dt == DT_DIR && edits::read_child(f, img, x, inner) != Ok::<
                    Option<u64>,
                    Error,
                >(None),
            }
        }),
    ensures
        f.removed(img, p) == (f, img, Err::<(), Error>(Error::InvalidArgument)),
{
    let (np, nn) = f.resolve_parent(img, p)->Ok_0;
    let l = f.mode->Write_0;
    let rs = pack::sort(d.records);
    inplace::lemma_reopened(img, d, mark, l);
    edits::lemma_orderly_sort(d.records, d.next_oid);
    lemma_removable(rs, np, nn);
    assert(mutate::drec(rs, np, nn) == mutate::drec(d.records, np, nn));
    if let Some((x, dt)) = mutate::drec(rs, np, nn) {
        edits::lemma_live_child(f, img, d, mark, x, inner);
        assert(mutate::drec(rs, x, inner) == mutate::drec(d.records, x, inner));
    }
}

/// A name that is taken is not given again, neither to a link nor to what is
/// moved; and what is not there is not moved.
pub proof fn lemma_taken_refused(
    rs: Seq<Rec>,
    dir: u64,
    name: Seq<char>,
    from: u64,
    old: Seq<char>,
    x: u64,
    dt: u16,
)
    ensures
        mutate::drec(rs, dir, name) is Some ==> ops::linked(rs, x, dt, dir, name) == Err::<
            Seq<Rec>,
            Error,
        >(Error::InvalidArgument),
        mutate::drec(rs, dir, name) is Some || mutate::drec(rs, from, old) is None ==> ops::renamed(
            rs,
            from,
            old,
            dir,
            name,
        ) == Err::<Seq<Rec>, Error>(Error::InvalidArgument),
{
}

// ---- links ----

proof fn lemma_index_of(rs: Seq<Rec>, oid: u64, v: Seq<u8>)
    requires
        contents::described(rs, oid, v),
    ensures
        mutate::last_link(rs, oid) == mutate::was_last_link(v),
{
    let k = (oid, APFS_TYPE_INODE);
    let q = (record::inode_key(oid), v);
    assert(tree::those(rs, k)[0] == q);
    assert(tree::those(rs, k).contains(q));
    records::lemma_those_in(rs, k, q);
    changes::lemma_inode_index(rs, oid, 0);
    let i = mutate::inode_index(rs, oid, 0).unwrap();
    assert(rs.contains(rs[i]));
    records::lemma_those_in(rs, k, rs[i]);
    let j = choose|j: int| 0 <= j < tree::those(rs, k).len() && tree::those(rs, k)[j] == rs[i];
    assert(j == 0);
}

proof fn lemma_one_less(v: Seq<u8>)
    requires
        v.len() >= 92,
        bytes::get32(v, 56) > 0,
    ensures
        mutate::fewer_links(v).len() == v.len(),
        bytes::get32(mutate::fewer_links(v), 56) == bytes::get32(v, 56) - 1,
{
    let down = (bytes::get32(v, 56) - 1) as u32;
    bytes::lemma_le_lens();
    bytes::lemma_put_len(v, 56, bytes::le32(down));
    bytes::lemma_get32_put_same(v, 56, down);
}

/// Removing one of several entries of a file leaves the file: it counts one link
/// less and holds what it held, but the path leads nowhere. With its last entry the
/// file goes.
pub proof fn lemma_link_removed(
    f: Fs,
    img: Seq<u8>,
    d: Draft,
    mark: int,
    p: Seq<char>,
    x: u64,
    dt: u16,
    v: Seq<u8>,
    paddr: u64,
    data: Seq<u8>,
) -> (r: (Draft, int))
    requires
        live(f, img, d, mark),
        f.removed(img, p).2 is Ok,
        ({
            let (np, nn) = f.resolve_parent(img, p)->Ok_0;
            &&& mutate::drec(d.records, np, nn) == Some((x, dt))
            &&& x != np
        }),
        dt != DT_DIR,
        contents::described(d.records, x, v),
        v.len() >= 92,
        1 <= bytes::get32(v, 56) < 0x8000_0000,
        contents::body(img, d, x, paddr, data),
    ensures
        ({
            let (g, out, _) = f.removed(img, p);
            let m = g.mounted();
            let w = volume::inode(m->Ok_0, out, x);
            &&& live(g, out, r.0, r.1)
            &&& m is Ok
            &&& f.resolve_parent(img, p) matches Ok((np, nn)) && edits::read_child(g, out, np, nn)
                == Ok::<Option<u64>, Error>(None)
            &&& bytes::get32(v, 56) == 1 ==> w is Err
            &&& bytes::get32(v, 56) > 1 ==> {
                &&& w is Ok
                &&& bytes::get32(w->Ok_0, 56) == bytes::get32(v, 56) - 1
                &&& contents::described(r.0.records, x, w->Ok_0)
                &&& contents::body(out, r.0, x, paddr, data)
            }
        }),
{
    let (g, out, _) = f.removed(img, p);
    let (np, nn) = f.resolve_parent(img, p)->Ok_0;
    let rs = pack::sort(d.records);
    edits::lemma_orderly_sort(d.records, d.next_oid);
    edits::lemma_live_child(f, img, d, mark, np, nn);
    let r = objects::lemma_removed(f, img, d, mark, p);
    commit::lemma_now(out, r.0, r.1);
    let a = mutate::without_drec(rs, np, nn);
    assert(contents::described(a, x, v)) by {
        records::lemma_sole(d.records, (x, APFS_TYPE_INODE), (record::inode_key(x), v));
        edits::lemma_orderly_dropped(rs, np, nn, d.next_oid);
        assert(tree::those(a, (x, APFS_TYPE_INODE)) == tree::those(rs, (x, APFS_TYPE_INODE)));
    }
    lemma_index_of(a, x, v);
    assert(mutate::drec(rs, np, nn) == mutate::drec(d.records, np, nn));
    assert(edits::read_child(g, out, np, nn) == Ok::<Option<u64>, Error>(None));
    if bytes::get32(v, 56) > 1 {
        assert(!objects::goes(rs, np, nn));
        lemma_one_less(v);
        contents::lemma_inode_back(out, r.0, x, mutate::unlinked(v));
    }
    r
}

// ---- counts of directories ----

/// The count that the inode of a directory keeps goes up with each entry that it
/// gets, and down with each that it loses. (A count that is full or empty is left
/// out, and so is a directory that is its own entry.)
pub proof fn lemma_children_counted(
    rs: Seq<Rec>,
    next: u64,
    dir: u64,
    name: Seq<char>,
    x: u64,
    dt: u16,
    v: Seq<u8>,
)
    requires
        edits::orderly(rs, next),
        contents::described(rs, dir, v),
        v.len() >= 92,
        0 < bytes::get32(v, 56) < u32::MAX,
        x != dir,
        x < KIND_UNIT,
        x < next,
        dir < KIND_UNIT,
        fields::nameable(name),
    ensures
        ops::linked(rs, x, dt, dir, name) matches Ok(t) ==> exists|w: Seq<u8>| #[trigger]
            contents::described(t, dir, w) && bytes::get32(w, 56) == bytes::get32(v, 56) + 1,
        mutate::drec(rs, dir, name) == Some((x, dt)) ==> (ops::removed(rs, dir, name) matches Ok(t)
            ==> exists|w: Seq<u8>| #[trigger]
            contents::described(t, dir, w) && bytes::get32(w, 56) == bytes::get32(v, 56) - 1),
{
    let k = (dir, APFS_TYPE_INODE);
    let up = |v: Seq<u8>| mutate::more_links(v);
    let down = |v: Seq<u8>| mutate::fewer_links(v);
    let un = |v: Seq<u8>| mutate::unlinked(v);
    trips::lemma_one_more(v);
    lemma_one_less(v);
    if let Ok(t) = ops::linked(rs, x, dt, dir, name) {
        let a = rs.push(ops::drec_rec(dir, name, x, dt));
        edits::lemma_orderly_entry(rs, dir, name, x, dt, next);
        let b = mutate::patched(a, x, up);
        edits::lemma_orderly_patched(a, x, up, next);
        assert(tree::those(a, k) == tree::those(rs, k));
        assert(tree::those(b, k) == tree::those(a, k));
        rewrite::lemma_patched_sole(b, dir, up, record::inode_key(dir), v);
        assert(contents::described(t, dir, mutate::more_links(v)));
    }
    if mutate::drec(rs, dir, name) == Some((x, dt)) {
        if let Ok(t) = ops::removed(rs, dir, name) {
            let a = mutate::without_drec(rs, dir, name);
            let b = mutate::patched(a, x, un);
            edits::lemma_orderly_dropped(rs, dir, name, next);
            edits::lemma_orderly_patched(a, x, un, next);
            objects::lemma_without_object(a, x, next);
            objects::lemma_without_object(b, x, next);
            let w = if dt == DT_DIR {
                mutate::without_object(a, x)
            } else if mutate::last_link(a, x) {
                mutate::without_object(b, x)
            } else {
                b
            };
            assert(tree::those(a, k) == tree::those(rs, k));
            assert(tree::those(b, k) == tree::those(a, k));
            assert(tree::those(w, k) == tree::those(rs, k));
            rewrite::lemma_patched_sole(w, dir, down, record::inode_key(dir), v);
            assert(contents::described(t, dir, mutate::fewer_links(v)));
        }
    }
}

} // verus!
