//! What a change does to the entries, inodes and attributes of a volume.

use vstd::prelude::*;

use crate::apfs::change;
use crate::apfs::content;
use crate::apfs::jrec::{self, APFS_TYPE_INODE, APFS_TYPE_XATTR, DT_DIR, KIND_UNIT};
use crate::apfs::mutate::{self, InodePatch};
use crate::apfs::ops::{self, Newcomer};
use crate::apfs::pack::Rec;
use crate::apfs::record;
use crate::apfs::rw::{Edit, Live};
use crate::bytes;
use crate::text;

use super::{fields, names, records, tree};

verus! {

/// Whether the record `r` is the entry `name` of directory `dir`.
pub open spec fn is_entry(r: Rec, dir: u64, name: Seq<char>) -> bool {
    mutate::is_drec_of(r.0, dir, text::utf8(name))
}

/// Target and type code of a directory record, where it has them.
pub open spec fn target_of(r: Rec) -> Option<(u64, u16)> {
    if r.1.len() < 18 {
        None
    } else {
        Some((bytes::get64(r.1, 0), bytes::get16(r.1, 16)))
    }
}

/// Whether one of the records `rs` is the entry `name` of directory `dir`.
pub open spec fn has_entry(rs: Seq<Rec>, dir: u64, name: Seq<char>) -> bool {
    exists|i: int| 0 <= i < rs.len() && is_entry(#[trigger] rs[i], dir, name)
}

proof fn lemma_drec_from_push(rs: Seq<Rec>, r: Rec, dir: u64, name: Seq<char>, i: int)
    requires
        0 <= i <= rs.len(),
    ensures
        mutate::drec_from(rs.push(r), dir, text::utf8(name), i) == if exists|k: int|
            i <= k < rs.len() && is_entry(#[trigger] rs[k], dir, name) {
            mutate::drec_from(rs, dir, text::utf8(name), i)
        } else if is_entry(r, dir, name) {
            target_of(r)
        } else {
            None
        },
        !(exists|k: int| i <= k < rs.len() && is_entry(#[trigger] rs[k], dir, name))
            ==> mutate::drec_from(rs, dir, text::utf8(name), i) is None,
    decreases rs.len() - i,
{
    let t = rs.push(r);
    if i < rs.len() {
        assert(t[i] == rs[i]);
        lemma_drec_from_push(rs, r, dir, name, i + 1);
        if is_entry(rs[i], dir, name) {
            assert(exists|k: int| i <= k < rs.len() && is_entry(#[trigger] rs[k], dir, name));
        } else {
            assert((exists|k: int| i <= k < rs.len() && is_entry(#[trigger] rs[k], dir, name)) == (
            exists|k: int| i + 1 <= k < rs.len() && is_entry(#[trigger] rs[k], dir, name)));
        }
    } else {
        assert(t[i] == r);
        reveal_with_fuel(mutate::drec_from, 2);
    }
}

/// The entry found once one more record is there: the first that matches.
pub proof fn lemma_drec_push(rs: Seq<Rec>, r: Rec, dir: u64, name: Seq<char>)
    ensures
        mutate::drec(rs.push(r), dir, name) == if has_entry(rs, dir, name) {
            mutate::drec(rs, dir, name)
        } else if is_entry(r, dir, name) {
            target_of(r)
        } else {
            None
        },
        !has_entry(rs, dir, name) ==> mutate::drec(rs, dir, name) is None,
{
    lemma_drec_from_push(rs, r, dir, name, 0);
}

proof fn lemma_has_push(rs: Seq<Rec>, r: Rec, dir: u64, name: Seq<char>)
    ensures
        has_entry(rs.push(r), dir, name) == (has_entry(rs, dir, name) || is_entry(r, dir, name)),
{
    let t = rs.push(r);
    if has_entry(rs, dir, name) {
        let i = choose|i: int| 0 <= i < rs.len() && is_entry(#[trigger] rs[i], dir, name);
        assert(t[i] == rs[i]);
    }
    if is_entry(r, dir, name) {
        assert(t[rs.len() as int] == r);
    }
    if has_entry(t, dir, name) {
        let i = choose|i: int| 0 <= i < t.len() && is_entry(#[trigger] t[i], dir, name);
        if i < rs.len() {
            assert(t[i] == rs[i]);
        }
    }
}

/// Dropping records that are not the entry leaves it.
pub proof fn lemma_drec_kept(
    rs: Seq<Rec>,
    keep: spec_fn(Seq<u8>) -> bool,
    dir: u64,
    name: Seq<char>,
)
    requires
        forall|i: int|
            0 <= i < rs.len() && is_entry(#[trigger] rs[i], dir, name) ==> keep(rs[i].0),
    ensures
        mutate::drec(mutate::kept(rs, keep), dir, name) == mutate::drec(rs, dir, name),
        has_entry(mutate::kept(rs, keep), dir, name) == has_entry(rs, dir, name),
    decreases rs.len(),
{
    if rs.len() > 0 {
        let d = rs.drop_last();
        let r = rs.last();
        assert(r == rs[rs.len() - 1]);
        assert forall|i: int| 0 <= i < d.len() && is_entry(#[trigger] d[i], dir, name) implies keep(
            d[i].0,
        ) by {
            assert(d[i] == rs[i]);
        }
        lemma_drec_kept(d, keep, dir, name);
        assert(rs =~= d.push(r));
        lemma_drec_push(d, r, dir, name);
        lemma_drec_push(mutate::kept(d, keep), r, dir, name);
        lemma_has_push(d, r, dir, name);
        lemma_has_push(mutate::kept(d, keep), r, dir, name);
        if is_entry(r, dir, name) {
            assert(keep(rs[rs.len() - 1].0));
        }
    }
}

/// What is kept is what the test lets through.
pub proof fn lemma_kept_in(rs: Seq<Rec>, keep: spec_fn(Seq<u8>) -> bool, r: Rec)
    ensures
        mutate::kept(rs, keep).contains(r) <==> rs.contains(r) && keep(r.0),
    decreases rs.len(),
{
    if rs.len() > 0 {
        let d = rs.drop_last();
        let x = rs.last();
        let s = mutate::kept(d, keep);
        let t = mutate::kept(rs, keep);
        lemma_kept_in(d, keep, r);
        assert(x == rs[rs.len() - 1]);
        if rs.contains(r) && keep(r.0) {
            let i = choose|i: int| 0 <= i < rs.len() && rs[i] == r;
            if i < d.len() {
                assert(d[i] == r);
                let k = choose|k: int| 0 <= k < s.len() && s[k] == r;
                assert(t[k] == r);
            } else {
                assert(t[s.len() as int] == r);
            }
        }
        if t.contains(r) {
            let k = choose|k: int| 0 <= k < t.len() && t[k] == r;
            if k < s.len() {
                assert(s[k] == r);
                let i = choose|i: int| 0 <= i < d.len() && d[i] == r;
                assert(rs[i] == r);
            }
        }
    }
}

/// Where an entry is dropped, it is not found.
proof fn lemma_drec_dropped(rs: Seq<Rec>, dir: u64, name: Seq<char>)
    ensures
        mutate::drec(mutate::without_drec(rs, dir, name), dir, name) is None,
        !has_entry(mutate::without_drec(rs, dir, name), dir, name),
{
    let keep = |k: Seq<u8>| !mutate::is_drec_of(k, dir, text::utf8(name));
    let t = mutate::without_drec(rs, dir, name);
    if has_entry(t, dir, name) {
        let i = choose|i: int| 0 <= i < t.len() && is_entry(#[trigger] t[i], dir, name);
        assert(t.contains(t[i]));
        lemma_kept_in(rs, keep, t[i]);
    }
    lemma_drec_push(t, (Seq::empty(), Seq::empty()), dir, name);
}

/// Changing an inode leaves the entries.
pub proof fn lemma_drec_patched(
    rs: Seq<Rec>,
    oid: u64,
    f: spec_fn(Seq<u8>) -> Seq<u8>,
    dir: u64,
    name: Seq<char>,
)
    ensures
        mutate::drec(mutate::patched(rs, oid, f), dir, name) == mutate::drec(rs, dir, name),
        has_entry(mutate::patched(rs, oid, f), dir, name) == has_entry(rs, dir, name),
{
    lemma_inode_index(rs, oid, 0);
    lemma_drec_from_patched(rs, oid, f, dir, name, 0);
    let t = mutate::patched(rs, oid, f);
    if has_entry(rs, dir, name) {
        let i = choose|i: int| 0 <= i < rs.len() && is_entry(#[trigger] rs[i], dir, name);
        assert(is_entry(t[i], dir, name));
    }
    if has_entry(t, dir, name) {
        let i = choose|i: int| 0 <= i < t.len() && is_entry(#[trigger] t[i], dir, name);
        assert(is_entry(rs[i], dir, name));
    }
}

pub proof fn lemma_inode_index(rs: Seq<Rec>, oid: u64, i: int)
    requires
        0 <= i <= rs.len(),
    ensures
        match mutate::inode_index(rs, oid, i) {
            None => forall|k: int|
                i <= k < rs.len() ==> tree::owner(#[trigger] rs[k]) != (oid, APFS_TYPE_INODE),
            Some(j) => i <= j < rs.len() && tree::owner(rs[j]) == (oid, APFS_TYPE_INODE),
        },
    decreases rs.len() - i,
{
    if i < rs.len() {
        lemma_inode_index(rs, oid, i + 1);
    }
}

proof fn lemma_drec_from_patched(
    rs: Seq<Rec>,
    oid: u64,
    f: spec_fn(Seq<u8>) -> Seq<u8>,
    dir: u64,
    name: Seq<char>,
    i: int,
)
    requires
        0 <= i <= rs.len(),
    ensures
        mutate::drec_from(mutate::patched(rs, oid, f), dir, text::utf8(name), i)
            == mutate::drec_from(rs, dir, text::utf8(name), i),
    decreases rs.len() - i,
{
    lemma_inode_index(rs, oid, 0);
    if i < rs.len() {
        lemma_drec_from_patched(rs, oid, f, dir, name, i + 1);
    }
}

/// The directory record of a name is the entry of that name, and of no other.
pub proof fn lemma_own_entry(
    parent: u64,
    name: Seq<char>,
    target: u64,
    dtype: u16,
    dir: u64,
    other: Seq<char>,
)
    requires
        parent < KIND_UNIT,
        ops::name_fits(name),
    ensures
        is_entry(ops::drec_rec(parent, name, target, dtype), dir, other) == ((dir, other) == (
            parent,
            name,
        )),
        target_of(ops::drec_rec(parent, name, target, dtype)) == Some((target, dtype)),
{
    let r = ops::drec_rec(parent, name, target, dtype);
    let k = r.0;
    let b = text::utf8(name);
    let n = (b.len() + 1) as u16;
    bytes::lemma_le_lens();
    records::lemma_drec_key(parent, name, r.1);
    bytes::lemma_get_le(n, 0, 0);
    assert(k.subrange(8, 10) =~= bytes::le16(n).subrange(0, 2));
    bytes::lemma_get_agree(k, 8, bytes::le16(n), 0);
    assert(k.subrange(10, 10 + n - 1) =~= b);
    if text::utf8(other) == b {
        text::lemma_text_of_utf8(other);
        text::lemma_text_of_utf8(name);
    }
    fields::lemma_drec_value(target, dtype);
}

// ---- entries ----

/// Creating an object enters its name, and leaves every other entry.
pub proof fn lemma_created_entries(
    l: Live,
    e: Edit,
    n: Newcomer,
    name: Seq<char>,
    size: u64,
    dir: u64,
    other: Seq<char>,
)
    requires
        n.parent < KIND_UNIT,
        e.next_oid < KIND_UNIT,
        ops::created(l, e, n, name, size) is Ok,
        !has_entry(e.recs, n.parent, name),
    ensures
        mutate::drec(ops::created(l, e, n, name, size)->Ok_0.recs, dir, other) == if (dir, other)
            == (n.parent, name) {
            Some((e.next_oid, n.dtype))
        } else {
            mutate::drec(e.recs, dir, other)
        },
{
    let oid = e.next_oid;
    let i = (record::inode_key(oid), record::inode_value(
        oid,
        n.parent,
        n.mode,
        size,
        l.m.bs,
        n.time,
    ));
    let q = ops::drec_rec(n.parent, name, oid, n.dtype);
    let x = record::extent_records(oid, 0, size, e.bump, l.m.bs);
    let stream = if size > 0 {
        x
    } else {
        Seq::<Rec>::empty()
    };
    records::lemma_inode_key(oid, i.1);
    records::lemma_extent_key(oid, 0, x[0].1);
    records::lemma_dstream_key(oid, x[1].1);
    lemma_own_entry(n.parent, name, oid, n.dtype, dir, other);
    let a0 = e.recs + stream;
    lemma_drec_push(e.recs, x[0], dir, other);
    lemma_drec_push(e.recs.push(x[0]), x[1], dir, other);
    lemma_has_push(e.recs, x[0], dir, other);
    lemma_has_push(e.recs.push(x[0]), x[1], dir, other);
    if size > 0 {
        assert(a0 =~= e.recs.push(x[0]).push(x[1]));
    } else {
        assert(a0 =~= e.recs);
    }
    lemma_drec_push(a0, i, dir, other);
    lemma_has_push(a0, i, dir, other);
    lemma_drec_push(a0.push(i), q, dir, other);
    lemma_drec_push(e.recs, i, dir, other);
    let a = a0 + seq![i, q];
    assert(a =~= a0.push(i).push(q));
    lemma_drec_patched(a, n.parent, |v: Seq<u8>| mutate::more_links(v), dir, other);
}

/// Adding a hard link enters the new name with the same target, and leaves every
/// other entry.
pub proof fn lemma_linked_entries(
    rs: Seq<Rec>,
    t: u64,
    dtype: u16,
    parent: u64,
    name: Seq<char>,
    dir: u64,
    other: Seq<char>,
)
    requires
        parent < KIND_UNIT,
        ops::linked(rs, t, dtype, parent, name) is Ok,
        !has_entry(rs, parent, name),
    ensures
        mutate::drec(ops::linked(rs, t, dtype, parent, name)->Ok_0, dir, other) == if (dir, other)
            == (parent, name) {
            Some((t, dtype))
        } else {
            mutate::drec(rs, dir, other)
        },
{
    let q = ops::drec_rec(parent, name, t, dtype);
    let a = rs.push(q);
    lemma_own_entry(parent, name, t, dtype, dir, other);
    lemma_drec_push(rs, q, dir, other);
    lemma_drec_patched(a, t, |v: Seq<u8>| mutate::more_links(v), dir, other);
    let b = mutate::patched(a, t, |v: Seq<u8>| mutate::more_links(v));
    lemma_drec_patched(b, parent, |v: Seq<u8>| mutate::more_links(v), dir, other);
}

/// Renaming takes the old entry away, enters the new one with the same target
/// and type, and leaves every other entry.
pub proof fn lemma_renamed_entries(
    rs: Seq<Rec>,
    op: u64,
    on: Seq<char>,
    np: u64,
    nn: Seq<char>,
    dir: u64,
    other: Seq<char>,
)
    requires
        np < KIND_UNIT,
        ops::renamed(rs, op, on, np, nn) is Ok,
        !has_entry(rs, np, nn),
    ensures
        mutate::drec(ops::renamed(rs, op, on, np, nn)->Ok_0, dir, other) == if (dir, other) == (
            np,
            nn,
        ) {
            mutate::drec(rs, op, on)
        } else if (dir, other) == (op, on) {
            None
        } else {
            mutate::drec(rs, dir, other)
        },
{
    let (t, dtype) = mutate::drec(rs, op, on).unwrap();
    let w = mutate::without_drec(rs, op, on);
    let q = ops::drec_rec(np, nn, t, dtype);
    let a = w.push(q);
    lemma_drec_push(rs, q, op, on);
    lemma_own_entry(np, nn, t, dtype, dir, other);
    lemma_without_drec(rs, op, on, dir, other);
    lemma_drec_push(w, q, dir, other);
    lemma_drec_push(rs, q, dir, other);
    let f = |v: Seq<u8>| mutate::fewer_links(v);
    let g = |v: Seq<u8>| mutate::more_links(v);
    let h = |v: Seq<u8>| mutate::reparented(v, np);
    let b = mutate::patched(a, op, f);
    let c = mutate::patched(b, np, g);
    lemma_drec_patched(a, op, f, dir, other);
    lemma_drec_patched(b, np, g, dir, other);
    lemma_drec_patched(c, t, h, dir, other);
}

/// Dropping one entry leaves the others.
pub proof fn lemma_without_drec(
    rs: Seq<Rec>,
    parent: u64,
    name: Seq<char>,
    dir: u64,
    other: Seq<char>,
)
    ensures
        (dir, other) != (parent, name) ==> mutate::drec(
            mutate::without_drec(rs, parent, name),
            dir,
            other,
        ) == mutate::drec(rs, dir, other) && has_entry(
            mutate::without_drec(rs, parent, name),
            dir,
            other,
        ) == has_entry(rs, dir, other),
        (dir, other) == (parent, name) ==> mutate::drec(
            mutate::without_drec(rs, parent, name),
            dir,
            other,
        ) is None && !has_entry(mutate::without_drec(rs, parent, name), dir, other),
{
    let keep = |k: Seq<u8>| !mutate::is_drec_of(k, parent, text::utf8(name));
    if (dir, other) != (parent, name) {
        if text::utf8(other) == text::utf8(name) {
            text::lemma_text_of_utf8(other);
            text::lemma_text_of_utf8(name);
        }
        lemma_drec_kept(rs, keep, dir, other);
    } else {
        lemma_drec_dropped(rs, parent, name);
    }
}

/// Removing takes the entry away, and leaves every other entry of a directory
/// that is not itself removed.
pub proof fn lemma_removed_entries(
    rs: Seq<Rec>,
    parent: u64,
    name: Seq<char>,
    dir: u64,
    other: Seq<char>,
)
    requires
        ops::removed(rs, parent, name) is Ok,
        dir != mutate::drec(rs, parent, name).unwrap().0,
    ensures
        mutate::drec(ops::removed(rs, parent, name)->Ok_0, dir, other) == if (dir, other) == (
            parent,
            name,
        ) {
            None
        } else {
            mutate::drec(rs, dir, other)
        },
{
    let (t, dtype) = mutate::drec(rs, parent, name).unwrap();
    let a = mutate::without_drec(rs, parent, name);
    let u = |v: Seq<u8>| mutate::unlinked(v);
    let f = |v: Seq<u8>| mutate::fewer_links(v);
    let keep = |k: Seq<u8>| jrec::key_oid(k) != t;
    lemma_without_drec(rs, parent, name, dir, other);
    let b = mutate::patched(a, t, u);
    lemma_drec_patched(a, t, u, dir, other);
    lemma_drec_kept(a, keep, dir, other);
    lemma_drec_kept(b, keep, dir, other);
    lemma_drec_patched(mutate::without_object(a, t), parent, f, dir, other);
    lemma_drec_patched(mutate::without_object(b, t), parent, f, dir, other);
    lemma_drec_patched(b, parent, f, dir, other);
}

/// Removing the last entry of an object, or an empty directory, takes every
/// record of the object away.
pub proof fn lemma_removed_object(rs: Seq<Rec>, parent: u64, name: Seq<char>, r: Rec)
    requires
        ops::removed(rs, parent, name) is Ok,
        ({
            let (t, dtype) = mutate::drec(rs, parent, name).unwrap();
            &&& t != parent
            &&& dtype == DT_DIR || mutate::last_link(mutate::without_drec(rs, parent, name), t)
        }),
        ops::removed(rs, parent, name)->Ok_0.contains(r),
    ensures
        jrec::key_oid(r.0) != mutate::drec(rs, parent, name).unwrap().0,
{
    let (t, dtype) = mutate::drec(rs, parent, name).unwrap();
    let a = mutate::without_drec(rs, parent, name);
    let b = mutate::patched(a, t, |v: Seq<u8>| mutate::unlinked(v));
    let base = if dtype == DT_DIR {
        a
    } else {
        b
    };
    let w = mutate::without_object(base, t);
    let out = ops::removed(rs, parent, name)->Ok_0;
    let i = choose|i: int| 0 <= i < out.len() && out[i] == r;
    lemma_inode_index(w, parent, 0);
    assert(out[i].0 == w[i].0);
    assert(w.contains(w[i]));
    lemma_kept_in(base, |k: Seq<u8>| jrec::key_oid(k) != t, w[i]);
}

// ---- inodes ----

/// A change of attributes keeps the type of the object, its parent, its link
/// count and its contents; and sets just the fields that it names.
pub proof fn lemma_patch(p: InodePatch, v: Seq<u8>)
    requires
        v.len() >= 92,
    ensures
        ({
            let w = p.apply(v);
            &&& w.len() == v.len()
            &&& record::type_bits(bytes::get16(w, 80)) == record::type_bits(bytes::get16(v, 80))
            &&& bytes::get16(w, 80) % 0x1000 == match p.mode {
                Some(m) => m % 0x1000,
                None => (bytes::get16(v, 80) % 0x1000) as u16,
            }
            &&& bytes::get64(w, 0) == bytes::get64(v, 0)
            &&& bytes::get64(w, 8) == bytes::get64(v, 8)
            &&& bytes::get32(w, 56) == bytes::get32(v, 56)
            &&& w.subrange(92, w.len() as int) == v.subrange(92, v.len() as int)
            &&& bytes::get32(w, 72) == match p.owner {
                Some(x) => x,
                None => bytes::get32(v, 72),
            }
            &&& bytes::get32(w, 76) == match p.group {
                Some(x) => x,
                None => bytes::get32(v, 76),
            }
            &&& bytes::get64(w, 24) == match p.mtime {
                Some(x) => x,
                None => bytes::get64(v, 24),
            }
            &&& bytes::get64(w, 32) == match p.ctime {
                Some(x) => x,
                None => bytes::get64(v, 32),
            }
            &&& bytes::get64(w, 40) == match p.atime {
                Some(x) => x,
                None => bytes::get64(v, 40),
            }
        }),
{
    broadcast use bytes::group_fields;

    let old_mode = bytes::get16(v, 80);
    if let Some(m) = p.mode {
        let t = record::type_bits(old_mode);
        assert(t % 0x1000 == 0 && t <= 0xf000);
    }
}

/// Changing an inode changes one record, and no key.
pub proof fn lemma_patched_others(rs: Seq<Rec>, oid: u64, f: spec_fn(Seq<u8>) -> Seq<u8>, i: int)
    requires
        0 <= i < rs.len(),
    ensures
        mutate::patched(rs, oid, f).len() == rs.len(),
        mutate::patched(rs, oid, f)[i].0 == rs[i].0,
        tree::owner(rs[i]) != (oid, APFS_TYPE_INODE) ==> mutate::patched(rs, oid, f)[i] == rs[i],
{
    lemma_inode_index(rs, oid, 0);
}

/// One link more and one less leave the inode as it was.
pub proof fn lemma_links_back(v: Seq<u8>)
    ensures
        mutate::fewer_links(mutate::more_links(v)) == v,
{
    if v.len() >= 92 {
        let n = bytes::get32(v, 56);
        let up = ((n + 1) % 0x1_0000_0000) as u32;
        let w = bytes::put(v, 56, bytes::le32(up));
        bytes::lemma_le_lens();
        bytes::lemma_put_len(v, 56, bytes::le32(up));
        bytes::lemma_get32_put_same(v, 56, up);
        let down = ((up + 0xffff_ffff) % 0x1_0000_0000) as u32;
        assert(down == n);
        let x = bytes::put(w, 56, bytes::le32(n));
        bytes::lemma_put_len(w, 56, bytes::le32(n));
        assert(v.subrange(56, 60) == bytes::le32(n)) by {
            bytes::lemma_word_bytes(v, 56);
        }
        assert forall|i: int| 0 <= i < v.len() implies x[i] == v[i] by {
            bytes::lemma_put_index(w, 56, bytes::le32(n), i);
            bytes::lemma_put_index(v, 56, bytes::le32(up), i);
            if 56 <= i < 60 {
                assert(v.subrange(56, 60)[i - 56] == v[i]);
            }
        }
        assert(x =~= v);
    }
}

// ---- extended attributes ----

/// Whether `k` is the key of an attribute of object `oid` under a name that
/// reads back.
pub open spec fn well_named(k: Seq<u8>, oid: u64) -> bool {
    exists|n: Seq<char>| fields::nameable(n) && k == #[trigger] record::xattr_key(oid, n)
}

/// Whether every attribute of object `oid` among the records `rs` is stored
/// under a name that reads back.
pub open spec fn well_attributed(rs: Seq<Rec>, oid: u64) -> bool {
    forall|i: int|
        0 <= i < rs.len() && tree::owner(#[trigger] rs[i]) == (oid, APFS_TYPE_XATTR) ==> well_named(
            rs[i].0,
            oid,
        )
}

/// The key of an attribute matches its own name and no other.
pub proof fn lemma_xattr_match(oid: u64, n: Seq<char>, name: Seq<char>)
    requires
        oid < KIND_UNIT,
        fields::nameable(n),
        fields::nameable(name),
    ensures
        mutate::is_xattr_of(record::xattr_key(oid, n), oid, text::utf8(name)) == (n == name),
{
    let k = record::xattr_key(oid, n);
    let b = text::utf8(n);
    let c = text::utf8(name);
    bytes::lemma_le_lens();
    records::lemma_xattr_key(oid, n, Seq::empty());
    let nb = b.len() as int;
    assert(forall|i: int| 0 <= i < nb ==> k[10 + i] == b[i]);
    assert(k[10 + nb] == 0);
    if n == name {
        assert(k.subrange(10, 10 + nb) =~= b);
    } else if mutate::is_xattr_of(k, oid, c) {
        let nc = c.len() as int;
        let s = k.subrange(10, 10 + nc);
        assert(s == c);
        assert(forall|i: int| 0 <= i < nc ==> s[i] == k[10 + i]);
        if nc < nb {
            assert(k[10 + nc] == b[nc]);
        } else if nc > nb {
            assert(c[nb] == 0);
        } else {
            assert(b =~= c);
            text::lemma_text_of_utf8(n);
            text::lemma_text_of_utf8(name);
        }
    }
}

/// What is left of the attributes of an object when one is removed: none of that
/// name.
pub proof fn lemma_xattr_removed(rs: Seq<Rec>, oid: u64, name: Seq<char>)
    requires
        oid < KIND_UNIT,
        fields::nameable(name),
        well_attributed(rs, oid),
    ensures
        ({
            let t = mutate::without_xattr(rs, oid, name);
            &&& well_attributed(t, oid)
            &&& forall|i: int|
                0 <= i < t.len() && tree::owner(#[trigger] t[i]) == (oid, APFS_TYPE_XATTR)
                    && content::xattr_of(t[i]) is Some ==> content::xattr_of(t[i]).unwrap().0
                    != name
        }),
{
    let keep = |k: Seq<u8>| !mutate::is_xattr_of(k, oid, text::utf8(name));
    let t = mutate::without_xattr(rs, oid, name);
    assert forall|i: int|
        0 <= i < t.len() && tree::owner(#[trigger] t[i]) == (oid, APFS_TYPE_XATTR) implies
        well_named(t[i].0, oid) && (content::xattr_of(t[i]) is Some ==> content::xattr_of(
        t[i],
    ).unwrap().0 != name) by {
        assert(t.contains(t[i]));
        lemma_kept_in(rs, keep, t[i]);
        let k = choose|k: int| 0 <= k < rs.len() && rs[k] == t[i];
        assert(well_named(rs[k].0, oid));
        let n = choose|n: Seq<char>|
            fields::nameable(n) && t[i].0 == #[trigger] record::xattr_key(oid, n);
        lemma_xattr_match(oid, n, name);
        fields::lemma_xattr_name(oid, n, t[i].1);
        assert(t[i] == (record::xattr_key(oid, n), t[i].1));
    }
}

/// Setting an attribute gives the object that value under that name, and no
/// other of the name.
pub proof fn lemma_xattr_set(rs: Seq<Rec>, oid: u64, name: Seq<char>, value: Seq<u8>)
    requires
        oid < KIND_UNIT,
        fields::nameable(name),
        well_attributed(rs, oid),
        change::with_xattr(rs, oid, name, value) is Ok,
    ensures
        names::attributed(change::with_xattr(rs, oid, name, value)->Ok_0, oid, name, value),
        well_attributed(change::with_xattr(rs, oid, name, value)->Ok_0, oid),
{
    let w = mutate::without_xattr(rs, oid, name);
    let r = (record::xattr_key(oid, name), record::xattr_value(value));
    let t = w.push(r);
    lemma_xattr_removed(rs, oid, name);
    fields::lemma_xattr(oid, name, value);
    assert(t[w.len() as int] == r);
    assert(t.contains(r));
    assert forall|i: int|
        0 <= i < t.len() && tree::owner(#[trigger] t[i]) == (oid, APFS_TYPE_XATTR) implies
        well_named(t[i].0, oid) && (content::xattr_of(t[i]) is Some && content::xattr_of(
        t[i],
    ).unwrap().0 == name ==> content::xattr_of(t[i]) == Some((name, value))) by {
        if i < w.len() {
            assert(t[i] == w[i]);
        } else {
            assert(t[i].0 == record::xattr_key(oid, name));
        }
    }
}

/// An attribute that is read comes from a record.
pub proof fn lemma_xattr_source(rs: Seq<Rec>, i: int, q: (Seq<char>, Seq<u8>)) -> (j: int)
    requires
        0 <= i <= rs.len(),
        content::xattrs_upto(rs, i).contains(q),
    ensures
        0 <= j < i,
        content::xattr_of(rs[j]) == Some(q),
    decreases i,
{
    let s = content::xattrs_upto(rs, i - 1);
    match content::xattr_of(rs[i - 1]) {
        Some(p) => {
            if p == q {
                i - 1
            } else {
                lemma_pair_source(s, p, q);
                lemma_xattr_source(rs, i - 1, q)
            }
        },
        None => lemma_xattr_source(rs, i - 1, q),
    }
}

proof fn lemma_pair_source(
    s: Seq<(Seq<char>, Seq<u8>)>,
    p: (Seq<char>, Seq<u8>),
    q: (Seq<char>, Seq<u8>),
)
    requires
        content::put_pair(s, p).contains(q),
        p != q,
    ensures
        s.contains(q),
    decreases s.len(),
{
    let t = content::put_pair(s, p);
    let i = choose|i: int| 0 <= i < t.len() && t[i] == q;
    if s.len() > 0 {
        let d = s.drop_last();
        match crate::order::lex(text::utf8(s.last().0), text::utf8(p.0)) {
            crate::order::Order::Less => {
                assert(s[i] == q);
            },
            crate::order::Order::Equal => {
                assert(s[i] == q);
            },
            crate::order::Order::Greater => {
                let u = content::put_pair(d, p);
                if i < u.len() {
                    assert(u[i] == q);
                    lemma_pair_source(d, p, q);
                    let k = choose|k: int| 0 <= k < d.len() && d[k] == q;
                    assert(s[k] == q);
                } else {
                    assert(s[s.len() - 1] == q);
                }
            },
        }
    }
}

} // verus!
