//! The entries of all directories, as the records give them.

use vstd::prelude::*;

use crate::apfs::jrec::{APFS_TYPE_DIR_REC, KIND_UNIT};
use crate::apfs::mutate;
use crate::apfs::ops;
use crate::apfs::pack::{self, Rec};
use crate::apfs::record;
use crate::apfs::rw;
use crate::apfs::volume;
use crate::apfs::write::Draft;
use crate::error::Error;
use crate::text;

use super::{changes, fields, files, image, names, records, tree};

verus! {

/// Whether `r` is a directory record.
pub open spec fn is_dir_rec(r: Rec) -> bool {
    tree::owner(r).1 == APFS_TYPE_DIR_REC
}

/// Whether `r` is the record of an entry under a name that reads back.
pub open spec fn is_sound(r: Rec) -> bool {
    exists|dir: u64, n: Seq<char>, t: u64, dt: u16|
        {
            &&& dir < KIND_UNIT
            &&& t < KIND_UNIT
            &&& fields::nameable(n)
            &&& r == #[trigger] ops::drec_rec(dir, n, t, dt)
        }
}

/// Whether every directory record among `rs` is one of an entry under a name
/// that reads back, and no directory has two entries of one name.
pub open spec fn booked(rs: Seq<Rec>) -> bool {
    &&& forall|r: Rec| #[trigger] rs.contains(r) && is_dir_rec(r) ==> is_sound(r)
    &&& forall|r: Rec, s: Rec|
        #![trigger rs.contains(r), rs.contains(s)]
        rs.contains(r) && rs.contains(s) && is_dir_rec(r) && is_dir_rec(s) && r.0 == s.0 ==> r.1
            == s.1
}

/// Where the name `name` in directory `dir` leads by the records `rs`.
pub open spec fn leads_to(rs: Seq<Rec>, dir: u64, name: Seq<char>) -> Option<u64> {
    match mutate::drec(rs, dir, name) {
        Some((t, dt)) => Some(t),
        None => None,
    }
}

/// The first record that is the entry decides.
proof fn lemma_first(rs: Seq<Rec>, dir: u64, name: Seq<char>, i: int) -> (j: int)
    requires
        0 <= i <= rs.len(),
    ensures
        i <= j <= rs.len(),
        j < rs.len() ==> changes::is_entry(rs[j], dir, name),
        j < rs.len() ==> mutate::drec_from(rs, dir, text::utf8(name), i) == changes::target_of(
            rs[j],
        ),
        j == rs.len() ==> mutate::drec_from(rs, dir, text::utf8(name), i) is None,
        j == rs.len() ==> forall|k: int|
            i <= k < rs.len() ==> !changes::is_entry(#[trigger] rs[k], dir, name),
    decreases rs.len() - i,
{
    if i == rs.len() || changes::is_entry(rs[i], dir, name) {
        i
    } else {
        lemma_first(rs, dir, name, i + 1)
    }
}

/// An entry is found just where its record is there.
pub proof fn lemma_drec_in(rs: Seq<Rec>, dir: u64, name: Seq<char>)
    requires
        booked(rs),
    ensures
        mutate::drec(rs, dir, name) matches Some((t, dt)) ==> {
            &&& rs.contains(ops::drec_rec(dir, name, t, dt))
            &&& dir < KIND_UNIT
            &&& t < KIND_UNIT
            &&& fields::nameable(name)
        },
        dir < KIND_UNIT && fields::nameable(name) ==> forall|t: u64, dt: u16| #[trigger]
            rs.contains(ops::drec_rec(dir, name, t, dt)) ==> mutate::drec(rs, dir, name) == Some(
                (t, dt),
            ),
{
    let j = lemma_first(rs, dir, name, 0);
    if j < rs.len() {
        let r = rs[j];
        assert(rs.contains(r));
        assert(is_dir_rec(r));
        let (d, n, t, dt) = choose|d: u64, n: Seq<char>, t: u64, dt: u16|
            {
                &&& d < KIND_UNIT
                &&& t < KIND_UNIT
                &&& fields::nameable(n)
                &&& r == #[trigger] ops::drec_rec(d, n, t, dt)
            };
        changes::lemma_own_entry(d, n, t, dt, dir, name);
    }
    if dir < KIND_UNIT && fields::nameable(name) {
        assert forall|t: u64, dt: u16| #[trigger]
            rs.contains(ops::drec_rec(dir, name, t, dt)) implies mutate::drec(rs, dir, name)
            == Some((t, dt)) by {
            let r = ops::drec_rec(dir, name, t, dt);
            changes::lemma_own_entry(dir, name, t, dt, dir, name);
            records::lemma_drec_key(dir, name, r.1);
            let k = choose|k: int| 0 <= k < rs.len() && rs[k] == r;
            assert(changes::is_entry(rs[k], dir, name));
            assert(j < rs.len());
            let (t2, dt2) = mutate::drec(rs, dir, name).unwrap();
            let s = ops::drec_rec(dir, name, t2, dt2);
            records::lemma_drec_key(dir, name, s.1);
            assert(rs.contains(s));
            changes::lemma_own_entry(dir, name, t2, dt2, dir, name);
        }
    }
}

/// What is read of a directory is what the records say: a name is found where they
/// have an entry of it, and leads where that does.
pub proof fn lemma_child(out: Seq<u8>, d: Draft, dir: u64, name: Seq<char>)
    requires
        image::reads(out, d),
        files::tidy(d),
        booked(d.records),
    ensures
        rw::first_open(out) is Ok,
        volume::child(rw::first_open(out)->Ok_0, out, dir, name) == Ok::<Option<u64>, Error>(
            leads_to(d.records, dir, name),
        ),
{
    let rs = d.records;
    lemma_drec_in(rs, dir, name);
    match mutate::drec(rs, dir, name) {
        Some((t, dt)) => {
            let v = record::drec_value(t, dt);
            let q = ops::drec_rec(dir, name, t, dt);
            records::lemma_drec_key(dir, name, v);
            assert forall|i: int|
                0 <= i < rs.len() && tree::owner(#[trigger] rs[i]) == (
                    dir,
                    APFS_TYPE_DIR_REC,
                ) implies names::name_of(rs[i]) is Ok && (names::name_of(rs[i]) == Ok::<
                Seq<char>,
                Error,
            >(name) ==> rs[i].1 == v) by {
                let n = lemma_name(rs, dir, i);
                if n == name {
                    assert(rs.contains(rs[i]) && rs.contains(q));
                }
            }
            assert(names::entered(d, dir, name, t, dt));
            names::lemma_child_back(out, d, dir, name, t, dt);
        },
        None => {
            assert forall|i: int|
                0 <= i < rs.len() && tree::owner(#[trigger] rs[i]) == (
                    dir,
                    APFS_TYPE_DIR_REC,
                ) implies names::name_of(rs[i]) is Ok && names::name_of(rs[i]) != Ok::<
                Seq<char>,
                Error,
            >(name) by {
                let n = lemma_name(rs, dir, i);
                if n == name {
                    assert(rs.contains(rs[i]));
                    let (t, dt) = choose|t: u64, dt: u16| rs[i] == ops::drec_rec(dir, n, t, dt);
                    assert(rs.contains(ops::drec_rec(dir, name, t, dt)));
                }
            }
            names::lemma_no_child(out, d, dir, name);
        },
    }
}

/// Name in a record of directory `dir`.
proof fn lemma_name(rs: Seq<Rec>, dir: u64, i: int) -> (n: Seq<char>)
    requires
        booked(rs),
        0 <= i < rs.len(),
        tree::owner(rs[i]) == (dir, APFS_TYPE_DIR_REC),
    ensures
        dir < KIND_UNIT,
        fields::nameable(n),
        names::name_of(rs[i]) == Ok::<Seq<char>, Error>(n),
        exists|t: u64, dt: u16| rs[i] == ops::drec_rec(dir, n, t, dt),
        rs[i].0 == ops::drec_rec(dir, n, 0, 0).0,
{
    let r = rs[i];
    assert(rs.contains(r));
    let (d, n, t, dt) = choose|d: u64, n: Seq<char>, t: u64, dt: u16|
        {
            &&& d < KIND_UNIT
            &&& t < KIND_UNIT
            &&& fields::nameable(n)
            &&& r == #[trigger] ops::drec_rec(d, n, t, dt)
        };
    records::lemma_drec_key(d, n, r.1);
    assert(d == dir);
    fields::lemma_drec_name(dir, n);
    assert(r == ops::drec_rec(dir, n, t, dt));
    n
}

// ---- what changes leave booked ----

/// Whether `s` and `t` have the same directory records.
pub open spec fn same_entries(s: Seq<Rec>, t: Seq<Rec>) -> bool {
    forall|r: Rec| is_dir_rec(r) ==> (#[trigger] s.contains(r) <==> t.contains(r))
}

/// Lists with the same directory records have the same entries.
pub proof fn lemma_same_entries(s: Seq<Rec>, t: Seq<Rec>, dir: u64, name: Seq<char>)
    requires
        booked(s),
        same_entries(s, t),
    ensures
        booked(t),
        mutate::drec(t, dir, name) == mutate::drec(s, dir, name),
{
    assert(booked(t)) by {
        assert forall|r: Rec| #[trigger] t.contains(r) && is_dir_rec(r) implies is_sound(r) by {
            assert(s.contains(r));
        }
        assert forall|r: Rec, q: Rec|
            #![trigger t.contains(r), t.contains(q)]
            t.contains(r) && t.contains(q) && is_dir_rec(r) && is_dir_rec(q) && r.0
                == q.0 implies r.1 == q.1 by {
            assert(s.contains(r) && s.contains(q));
        }
    }
    lemma_drec_in(s, dir, name);
    lemma_drec_in(t, dir, name);
    if let Some((x, dt)) = mutate::drec(s, dir, name) {
        let r = ops::drec_rec(dir, name, x, dt);
        records::lemma_drec_key(dir, name, r.1);
        assert(t.contains(r));
    }
    if let Some((x, dt)) = mutate::drec(t, dir, name) {
        let r = ops::drec_rec(dir, name, x, dt);
        records::lemma_drec_key(dir, name, r.1);
        assert(s.contains(r));
    }
}

/// Order does not matter.
pub proof fn lemma_entries_sort(rs: Seq<Rec>)
    ensures
        same_entries(rs, pack::sort(rs)),
        forall|r: Rec| #[trigger] pack::sort(rs).contains(r) <==> rs.contains(r),
{
    pack::lemma_sort(rs);
    assert forall|r: Rec| #[trigger] pack::sort(rs).contains(r) <==> rs.contains(r) by {
        broadcast use vstd::seq_lib::group_to_multiset_ensures;

        assert(pack::sort(rs).to_multiset().count(r) == rs.to_multiset().count(r));
    }
}

/// Changing an inode leaves the directory records.
pub proof fn lemma_entries_patched(rs: Seq<Rec>, oid: u64, f: spec_fn(Seq<u8>) -> Seq<u8>)
    ensures
        same_entries(rs, mutate::patched(rs, oid, f)),
{
    let t = mutate::patched(rs, oid, f);
    changes::lemma_inode_index(rs, oid, 0);
    assert forall|r: Rec| is_dir_rec(r) implies (#[trigger] rs.contains(r) <==> t.contains(r)) by {
        if rs.contains(r) {
            let i = choose|i: int| 0 <= i < rs.len() && rs[i] == r;
            changes::lemma_patched_others(rs, oid, f, i);
            assert(t[i] == r);
        }
        if t.contains(r) {
            let i = choose|i: int| 0 <= i < t.len() && t[i] == r;
            assert(t.len() == rs.len());
            changes::lemma_patched_others(rs, oid, f, i);
            assert(tree::owner(rs[i]).1 == tree::owner(r).1);
            assert(rs[i] == r);
        }
    }
}

/// Records of another kind do not matter.
pub proof fn lemma_entries_add(rs: Seq<Rec>, more: Seq<Rec>)
    requires
        forall|i: int| 0 <= i < more.len() ==> !is_dir_rec(#[trigger] more[i]),
    ensures
        same_entries(rs, rs + more),
{
    let t = rs + more;
    let n = rs.len() as int;
    assert forall|r: Rec| is_dir_rec(r) implies (#[trigger] rs.contains(r) <==> t.contains(r)) by {
        if rs.contains(r) {
            let i = choose|i: int| 0 <= i < rs.len() && rs[i] == r;
            assert(t[i] == r);
        }
        if t.contains(r) {
            let i = choose|i: int| 0 <= i < t.len() && t[i] == r;
            if i >= n {
                assert(t[i] == more[i - n]);
            } else {
                assert(t[i] == rs[i]);
            }
        }
    }
}

/// Dropping records of another kind does not matter.
pub proof fn lemma_entries_kept(rs: Seq<Rec>, keep: spec_fn(Seq<u8>) -> bool)
    requires
        forall|i: int| 0 <= i < rs.len() && is_dir_rec(#[trigger] rs[i]) ==> keep(rs[i].0),
    ensures
        same_entries(rs, mutate::kept(rs, keep)),
{
    let t = mutate::kept(rs, keep);
    assert forall|r: Rec| is_dir_rec(r) implies (#[trigger] rs.contains(r) <==> t.contains(r)) by {
        changes::lemma_kept_in(rs, keep, r);
        if rs.contains(r) {
            let i = choose|i: int| 0 <= i < rs.len() && rs[i] == r;
            assert(keep(rs[i].0));
        }
    }
}

/// Dropping records keeps the rest booked.
pub proof fn lemma_booked_kept(rs: Seq<Rec>, keep: spec_fn(Seq<u8>) -> bool)
    requires
        booked(rs),
    ensures
        booked(mutate::kept(rs, keep)),
{
    let t = mutate::kept(rs, keep);
    assert forall|r: Rec| #[trigger] t.contains(r) implies rs.contains(r) by {
        changes::lemma_kept_in(rs, keep, r);
    }
}

/// An entry under a free name can be added: it is found, and the others are as
/// they were.
pub proof fn lemma_entry_added(
    rs: Seq<Rec>,
    parent: u64,
    name: Seq<char>,
    x: u64,
    dt: u16,
    dir: u64,
    other: Seq<char>,
)
    requires
        booked(rs),
        parent < KIND_UNIT,
        x < KIND_UNIT,
        fields::nameable(name),
        mutate::drec(rs, parent, name) is None,
    ensures
        booked(rs.push(ops::drec_rec(parent, name, x, dt))),
        mutate::drec(rs.push(ops::drec_rec(parent, name, x, dt)), dir, other) == if (dir, other)
            == (parent, name) {
            Some((x, dt))
        } else {
            mutate::drec(rs, dir, other)
        },
{
    let q = ops::drec_rec(parent, name, x, dt);
    let t = rs.push(q);
    records::lemma_drec_key(parent, name, q.1);
    assert(t[rs.len() as int] == q);
    assert(t.contains(q));
    assert forall|r: Rec| #[trigger] t.contains(r) <==> rs.contains(r) || r == q by {
        if rs.contains(r) {
            let i = choose|i: int| 0 <= i < rs.len() && rs[i] == r;
            assert(t[i] == r);
        }
        if t.contains(r) {
            let i = choose|i: int| 0 <= i < t.len() && t[i] == r;
            if i < rs.len() {
                assert(rs[i] == r);
            }
        }
    }
    assert(is_sound(q));
    assert forall|r: Rec| #[trigger] rs.contains(r) && is_dir_rec(r) implies r.0 != q.0 by {
        if r.0 == q.0 {
            let k = choose|k: int| 0 <= k < rs.len() && rs[k] == r;
            let n = lemma_name(rs, parent, k);
            fields::lemma_drec_name(parent, name);
            assert(names::name_of(q) == names::name_of(r));
            lemma_drec_in(rs, parent, name);
            let (y, dy) = choose|y: u64, dy: u16| rs[k] == ops::drec_rec(parent, n, y, dy);
            assert(rs.contains(ops::drec_rec(parent, name, y, dy)));
        }
    }
    assert(booked(t));
    lemma_drec_in(rs, dir, other);
    lemma_drec_in(t, dir, other);
    if (dir, other) == (parent, name) {
        assert(mutate::drec(t, dir, other) == Some((x, dt)));
    } else {
        if let Some((y, dy)) = mutate::drec(rs, dir, other) {
            assert(t.contains(ops::drec_rec(dir, other, y, dy)));
        }
        if let Some((y, dy)) = mutate::drec(t, dir, other) {
            let r = ops::drec_rec(dir, other, y, dy);
            if r == q {
                changes::lemma_own_entry(parent, name, x, dt, dir, other);
                changes::lemma_own_entry(dir, other, y, dy, dir, other);
            }
            assert(rs.contains(r));
        }
    }
}

/// Taking an entry away leaves the others.
pub proof fn lemma_entry_dropped(
    rs: Seq<Rec>,
    parent: u64,
    name: Seq<char>,
    dir: u64,
    other: Seq<char>,
)
    requires
        booked(rs),
    ensures
        booked(mutate::without_drec(rs, parent, name)),
        mutate::drec(mutate::without_drec(rs, parent, name), dir, other) == if (dir, other) == (
            parent,
            name,
        ) {
            None
        } else {
            mutate::drec(rs, dir, other)
        },
{
    lemma_booked_kept(rs, |k: Seq<u8>| !mutate::is_drec_of(k, parent, text::utf8(name)));
    changes::lemma_without_drec(rs, parent, name, dir, other);
}

// ---- paths ----

/// Where the components `ps` lead from directory `dir` by the records `rs`.
pub open spec fn walk(rs: Seq<Rec>, dir: u64, ps: Seq<Seq<char>>) -> Option<u64>
    decreases ps.len(),
{
    if ps.len() == 0 {
        Some(dir)
    } else {
        match leads_to(rs, dir, ps[0]) {
            None => None,
            Some(o) => walk(rs, o, ps.drop_first()),
        }
    }
}

/// Paths lead where the records say.
pub proof fn lemma_walk(out: Seq<u8>, d: Draft, dir: u64, ps: Seq<Seq<char>>)
    requires
        image::reads(out, d),
        files::tidy(d),
        booked(d.records),
    ensures
        rw::first_open(out) is Ok,
        volume::walk(rw::first_open(out)->Ok_0, out, dir, ps) == match walk(d.records, dir, ps) {
            Some(o) => Ok::<u64, Error>(o),
            None => Err::<u64, Error>(Error::InvalidArgument),
        },
        dir < KIND_UNIT ==> (walk(d.records, dir, ps) matches Some(o) ==> o < KIND_UNIT),
    decreases ps.len(),
{
    if ps.len() == 0 {
        names::lemma_entries(out, d, (dir, APFS_TYPE_DIR_REC));
    } else {
        lemma_child(out, d, dir, ps[0]);
        lemma_drec_in(d.records, dir, ps[0]);
        if let Some(o) = leads_to(d.records, dir, ps[0]) {
            lemma_walk(out, d, o, ps.drop_first());
        }
    }
}

} // verus!
