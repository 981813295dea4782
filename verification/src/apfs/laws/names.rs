//! Names, listings and attributes read back from a written image.

use vstd::prelude::*;

use crate::apfs::content;
use crate::apfs::fstree::DrecKeyLayout;
use crate::apfs::jrec::{self, APFS_TYPE_DIR_REC, APFS_TYPE_XATTR, KIND_UNIT};
use crate::apfs::pack::{self, Rec};
use crate::apfs::plan::Placed;
use crate::apfs::record;
use crate::apfs::rw;
use crate::apfs::superblock;
use crate::apfs::volume::{self, Found};
use crate::apfs::write::Draft;
use crate::bytes;
use crate::entry::Listed;
use crate::error::{Error, Result};
use crate::order::{self, Order};
use crate::text;

use super::{fields, files, image, records, tree};

verus! {

/// Name in a directory record with a plain key.
pub open spec fn name_of(r: Rec) -> Result<Seq<char>> {
    volume::drec_name(r.0, DrecKeyLayout::Plain)
}

/// Whether every entry of directory `dir` among the records `rs` has a name, and
/// just those with the value `v` have the name `name`.
pub open spec fn names_only(rs: Seq<Rec>, dir: u64, name: Seq<char>, v: Seq<u8>) -> bool {
    forall|i: int|
        0 <= i < rs.len() && tree::owner(#[trigger] rs[i]) == (dir, APFS_TYPE_DIR_REC) ==> name_of(
            rs[i],
        ) is Ok && (name_of(rs[i]) == Ok::<Seq<char>, Error>(name) ==> rs[i].1 == v)
}

/// Whether the entry `name` of directory `dir` of the writer `d` leads to object
/// `target`, and no other entry has that name.
pub open spec fn entered(d: Draft, dir: u64, name: Seq<char>, target: u64, dtype: u16) -> bool {
    &&& dir < KIND_UNIT
    &&& fields::nameable(name)
    &&& d.records.contains(
        (
            record::drec_key(dir, name, DrecKeyLayout::Plain, false),
            record::drec_value(target, dtype),
        ),
    )
    &&& names_only(d.records, dir, name, record::drec_value(target, dtype))
}

/// Whether every entry of directory `dir` of the writer `d` has a name, and none
/// the name `name`.
pub open spec fn vacant(d: Draft, dir: u64, name: Seq<char>) -> bool {
    forall|i: int|
        0 <= i < d.records.len() && tree::owner(#[trigger] d.records[i]) == (
            dir,
            APFS_TYPE_DIR_REC,
        ) ==> name_of(d.records[i]) is Ok && name_of(d.records[i]) != Ok::<Seq<char>, Error>(name)
}

/// The first record with the name has the value.
proof fn lemma_named(f: Found, name: Seq<char>, v: Seq<u8>, i: int, at: int)
    requires
        0 <= i <= at < f.recs.len(),
        forall|j: int|
            0 <= j < f.recs.len() ==> name_of(#[trigger] f.recs[j]) is Ok && (name_of(f.recs[j])
                == Ok::<Seq<char>, Error>(name) ==> f.recs[j].1 == v),
        name_of(f.recs[at]) == Ok::<Seq<char>, Error>(name),
        jrec::drec_val(v) is Ok,
    ensures
        volume::child_named(f, DrecKeyLayout::Plain, name, i) == Ok::<Option<u64>, Error>(
            Some(jrec::drec_val(v)->Ok_0.file_id),
        ),
    decreases at - i,
{
    assert(name_of(f.recs[i]) is Ok);
    if name_of(f.recs[i]) != Ok::<Seq<char>, Error>(name) {
        lemma_named(f, name, v, i + 1, at);
    }
}

/// Where no record has the name, nothing is found.
proof fn lemma_unnamed(f: Found, name: Seq<char>, i: int)
    requires
        0 <= i <= f.recs.len(),
        forall|j: int|
            0 <= j < f.recs.len() ==> name_of(#[trigger] f.recs[j]) is Ok && name_of(f.recs[j])
                != Ok::<Seq<char>, Error>(name),
        f.err is None,
    ensures
        volume::child_named(f, DrecKeyLayout::Plain, name, i) == Ok::<Option<u64>, Error>(None),
    decreases f.recs.len() - i,
{
    if i < f.recs.len() {
        assert(name_of(f.recs[i]) is Ok);
        lemma_unnamed(f, name, i + 1);
    }
}

/// What a scan finds on a device that reads as the records of `d`.
pub proof fn lemma_entries(out: Seq<u8>, d: Draft, p: (u64, u8))
    requires
        image::reads(out, d),
        files::tidy(d),
    ensures
        ({
            let m = rw::first_open(out)->Ok_0;
            let f = volume::found(m, out, p.0, p.1);
            &&& rw::first_open(out) is Ok
            &&& m.layout == DrecKeyLayout::Plain
            &&& f.err is None
            &&& f.recs == tree::those(pack::sort(d.records), p)
            &&& forall|r: Rec| #[trigger]
                f.recs.contains(r) <==> d.records.contains(r) && tree::owner(r) == p
        }),
{
    let rs = d.records;
    records::lemma_unrepeated_sort(rs);
    records::lemma_those_sort(rs, p);
    let t = tree::those(pack::sort(rs), p);
    assert forall|r: Rec| #[trigger] t.contains(r) <==> rs.contains(r) && tree::owner(r) == p by {
        records::lemma_those_in(rs, p, r);
    }
    assert(volume::found(rw::first_open(out)->Ok_0, out, p.0, p.1).recs == t);
}

/// Whether `f` is what a scan for `p` finds where the records are `rs`.
pub open spec fn all_of(f: Found, rs: Seq<Rec>, p: (u64, u8)) -> bool {
    &&& f.err is None
    &&& forall|r: Rec| #[trigger]
        f.recs.contains(r) <==> rs.contains(r) && tree::owner(r) == p
}

/// An entry is found among the records of its directory.
proof fn lemma_entered_found(
    f: Found,
    d: Draft,
    dir: u64,
    name: Seq<char>,
    target: u64,
    dtype: u16,
)
    requires
        all_of(f, d.records, (dir, APFS_TYPE_DIR_REC)),
        entered(d, dir, name, target, dtype),
    ensures
        volume::child_named(f, DrecKeyLayout::Plain, name, 0) == Ok::<Option<u64>, Error>(
            Some(target),
        ),
{
    let p = (dir, APFS_TYPE_DIR_REC);
    let v = record::drec_value(target, dtype);
    let r = (record::drec_key(dir, name, DrecKeyLayout::Plain, false), v);
    records::lemma_drec_key(dir, name, v);
    fields::lemma_drec_name(dir, name);
    fields::lemma_drec_value(target, dtype);
    assert(f.recs.contains(r));
    let at = choose|at: int| 0 <= at < f.recs.len() && f.recs[at] == r;
    assert forall|j: int| 0 <= j < f.recs.len() implies name_of(#[trigger] f.recs[j]) is Ok && (
    name_of(f.recs[j]) == Ok::<Seq<char>, Error>(name) ==> f.recs[j].1 == v) by {
        assert(f.recs.contains(f.recs[j]));
        let k = choose|k: int| 0 <= k < d.records.len() && d.records[k] == f.recs[j];
        assert(tree::owner(d.records[k]) == p);
    }
    lemma_named(f, name, v, 0, at);
}

/// Names read back: on a device that reads as the records of `d`, an entry of a
/// directory leads to its target.
pub proof fn lemma_child_back(
    out: Seq<u8>,
    d: Draft,
    dir: u64,
    name: Seq<char>,
    target: u64,
    dtype: u16,
)
    requires
        image::reads(out, d),
        files::tidy(d),
        entered(d, dir, name, target, dtype),
    ensures
        ({
            &&& rw::first_open(out) is Ok
            &&& volume::child(rw::first_open(out)->Ok_0, out, dir, name) == Ok::<
                Option<u64>,
                Error,
            >(Some(target))
        }),
{
    lemma_entries(out, d, (dir, APFS_TYPE_DIR_REC));
    let f = volume::found(rw::first_open(out)->Ok_0, out, dir, APFS_TYPE_DIR_REC);
    lemma_entered_found(f, d, dir, name, target, dtype);
}

/// On a device that reads as the records of `d`, a name that a directory does not
/// have is not found.
pub proof fn lemma_no_child(
    out: Seq<u8>,
    d: Draft,
    dir: u64,
    name: Seq<char>,
)
    requires
        image::reads(out, d),
        files::tidy(d),
        vacant(d, dir, name),
    ensures
        ({
            &&& rw::first_open(out) is Ok
            &&& volume::child(rw::first_open(out)->Ok_0, out, dir, name) == Ok::<
                Option<u64>,
                Error,
            >(None)
        }),
{
    let p = (dir, APFS_TYPE_DIR_REC);
    lemma_entries(out, d, p);
    let m = rw::first_open(out)->Ok_0;
    let f = volume::found(m, out, dir, APFS_TYPE_DIR_REC);
    assert forall|j: int| 0 <= j < f.recs.len() implies name_of(#[trigger] f.recs[j]) is Ok
        && name_of(f.recs[j]) != Ok::<Seq<char>, Error>(name) by {
        assert(f.recs.contains(f.recs[j]));
        let k = choose|k: int| 0 <= k < d.records.len() && d.records[k] == f.recs[j];
        assert(tree::owner(d.records[k]) == p);
    }
    lemma_unnamed(f, name, 0);
}

/// A directory record under a vacant name enters it; nothing else among the new
/// records is an entry.
pub proof fn lemma_entered_new(
    d: Draft,
    e: Draft,
    more: Seq<Rec>,
    dir: u64,
    name: Seq<char>,
    dtype: u16,
)
    requires
        dir < KIND_UNIT,
        fields::nameable(name),
        vacant(d, dir, name),
        e.records == d.records + more,
        more.len() > 0,
        more[0] == d.drec(dir, name, dtype),
        forall|i: int|
            1 <= i < more.len() ==> tree::owner(#[trigger] more[i]).1 != APFS_TYPE_DIR_REC,
    ensures
        entered(e, dir, name, d.next_oid, dtype),
{
    let n = d.records.len() as int;
    let v = record::drec_value(d.next_oid, dtype);
    fields::lemma_drec_name(dir, name);
    assert(e.records[n] == more[0]);
    let s = e.records;
    assert forall|i: int|
        0 <= i < s.len() && tree::owner(#[trigger] s[i]) == (
            dir,
            APFS_TYPE_DIR_REC,
        ) implies name_of(s[i]) is Ok && (name_of(s[i]) == Ok::<Seq<char>, Error>(name) ==> s[i].1
        == v) by {
        if i < n {
            assert(s[i] == d.records[i]);
        } else {
            assert(s[i] == more[i - n]);
        }
    }
}

/// An entry stays while others are added.
pub proof fn lemma_entered_kept(
    d: Draft,
    e: Draft,
    more: Seq<Rec>,
    dir: u64,
    name: Seq<char>,
    target: u64,
    dtype: u16,
)
    requires
        entered(d, dir, name, target, dtype),
        e.records == d.records + more,
        forall|i: int|
            0 <= i < more.len() && tree::owner(#[trigger] more[i]) == (
                dir,
                APFS_TYPE_DIR_REC,
            ) ==> name_of(more[i]) is Ok && name_of(more[i]) != Ok::<Seq<char>, Error>(name),
    ensures
        entered(e, dir, name, target, dtype),
{
    let n = d.records.len() as int;
    let v = record::drec_value(target, dtype);
    let r = (record::drec_key(dir, name, DrecKeyLayout::Plain, false), v);
    let s = e.records;
    let k = choose|k: int| 0 <= k < n && d.records[k] == r;
    assert(s[k] == r);
    assert forall|i: int|
        0 <= i < s.len() && tree::owner(#[trigger] s[i]) == (
            dir,
            APFS_TYPE_DIR_REC,
        ) implies name_of(s[i]) is Ok && (name_of(s[i]) == Ok::<Seq<char>, Error>(name) ==> s[i].1
        == v) by {
        if i < n {
            assert(s[i] == d.records[i]);
        } else {
            assert(s[i] == more[i - n]);
        }
    }
}

/// A listing of a directory has the entries of the writer's records for it.
pub proof fn lemma_list_back(out: Seq<u8>, d: Draft, dir: u64)
    requires
        image::reads(out, d),
        files::tidy(d),
    ensures
        ({
            let rs = tree::those(pack::sort(d.records), (dir, APFS_TYPE_DIR_REC));
            &&& rw::first_open(out) is Ok
            &&& volume::list_dir(rw::first_open(out)->Ok_0, out, dir) == Ok::<Seq<Listed>, Error>(
                volume::listed_upto(rs, DrecKeyLayout::Plain, rs.len() as int),
            )
        }),
{
    lemma_entries(out, d, (dir, APFS_TYPE_DIR_REC));
}

// ---- extended attributes ----

/// Texts with the same encoding are the same.
proof fn lemma_same_text(a: Seq<char>, b: Seq<char>)
    requires
        order::lex(text::utf8(a), text::utf8(b)) == Order::Equal,
    ensures
        a == b,
{
    order::lemma_lex_equal(text::utf8(a), text::utf8(b));
    text::lemma_text_of_utf8(a);
    text::lemma_text_of_utf8(b);
}

/// A pair put among others is there, and pairs of other names stay.
pub proof fn lemma_put_pair(
    s: Seq<(Seq<char>, Seq<u8>)>,
    p: (Seq<char>, Seq<u8>),
    q: (Seq<char>, Seq<u8>),
)
    ensures
        content::put_pair(s, p).contains(p),
        s.contains(q) && q.0 != p.0 ==> content::put_pair(s, p).contains(q),
    decreases s.len(),
{
    let t = content::put_pair(s, p);
    if s.len() == 0 {
        assert(t[0] == p);
    } else {
        let last = s.last();
        assert(last == s[s.len() - 1]);
        match order::lex(text::utf8(last.0), text::utf8(p.0)) {
            Order::Less => {
                assert(t[s.len() as int] == p);
                if s.contains(q) {
                    let i = choose|i: int| 0 <= i < s.len() && s[i] == q;
                    assert(t[i] == q);
                }
            },
            Order::Equal => {
                lemma_same_text(last.0, p.0);
                assert(t[s.len() - 1] == p);
                if s.contains(q) && q.0 != p.0 {
                    let i = choose|i: int| 0 <= i < s.len() && s[i] == q;
                    assert(t[i] == q);
                }
            },
            Order::Greater => {
                let d = s.drop_last();
                lemma_put_pair(d, p, q);
                let u = content::put_pair(d, p);
                let j = choose|j: int| 0 <= j < u.len() && u[j] == p;
                assert(t[j] == p);
                if s.contains(q) && q.0 != p.0 {
                    let i = choose|i: int| 0 <= i < s.len() && s[i] == q;
                    if i == s.len() - 1 {
                        assert(t[u.len() as int] == q);
                    } else {
                        assert(d[i] == q);
                        let k = choose|k: int| 0 <= k < u.len() && u[k] == q;
                        assert(t[k] == q);
                    }
                }
            },
        }
    }
}

/// An attribute stays among those gathered while no other of its name comes.
proof fn lemma_gathered(rs: Seq<Rec>, q: (Seq<char>, Seq<u8>), at: int, i: int)
    requires
        0 <= at < i <= rs.len(),
        content::xattr_of(rs[at]) == Some(q),
        forall|j: int|
            0 <= j < rs.len() && content::xattr_of(#[trigger] rs[j]) is Some
                && content::xattr_of(rs[j]).unwrap().0 == q.0 ==> content::xattr_of(rs[j])
                == Some(q),
    ensures
        content::xattrs_upto(rs, i).contains(q),
    decreases i,
{
    let s = content::xattrs_upto(rs, i - 1);
    match content::xattr_of(rs[i - 1]) {
        Some(p) => {
            lemma_put_pair(s, p, q);
            if i - 1 != at {
                lemma_gathered(rs, q, at, i - 1);
            }
        },
        None => {
            lemma_gathered(rs, q, at, i - 1);
        },
    }
}

/// Whether the records `all` give object `oid` the attribute `name` with the
/// value `value`, and no other of that name.
pub open spec fn attributed(
    all: Seq<Rec>,
    oid: u64,
    name: Seq<char>,
    value: Seq<u8>,
) -> bool {
    &&& oid < KIND_UNIT
    &&& fields::nameable(name)
    &&& value.len() <= 0xffff
    &&& all.contains((record::xattr_key(oid, name), record::xattr_value(value)))
    &&& forall|i: int|
        0 <= i < all.len() && tree::owner(#[trigger] all[i]) == (oid, APFS_TYPE_XATTR)
            && content::xattr_of(all[i]) is Some && content::xattr_of(all[i]).unwrap().0 == name
            ==> content::xattr_of(all[i]) == Some((name, value))
}

/// An attribute is found among the records of its object.
proof fn lemma_xattr_found(
    f: Found,
    all: Seq<Rec>,
    oid: u64,
    name: Seq<char>,
    value: Seq<u8>,
)
    requires
        all_of(f, all, (oid, APFS_TYPE_XATTR)),
        attributed(all, oid, name, value),
    ensures
        content::xattrs_upto(f.recs, f.recs.len() as int).contains((name, value)),
{
    let p = (oid, APFS_TYPE_XATTR);
    let r = (record::xattr_key(oid, name), record::xattr_value(value));
    let rs = f.recs;
    records::lemma_xattr_key(oid, name, r.1);
    fields::lemma_xattr(oid, name, value);
    assert(rs.contains(r));
    let at = choose|at: int| 0 <= at < rs.len() && rs[at] == r;
    assert forall|j: int|
        0 <= j < rs.len() && content::xattr_of(#[trigger] rs[j]) is Some && content::xattr_of(
            rs[j],
        ).unwrap().0 == name implies content::xattr_of(rs[j]) == Some((name, value)) by {
        assert(rs.contains(rs[j]));
        let k = choose|k: int| 0 <= k < all.len() && all[k] == rs[j];
        assert(tree::owner(all[k]) == p);
    }
    lemma_gathered(rs, (name, value), at, rs.len() as int);
}

/// Attributes read back: an extended attribute of an object is among its
/// attributes, with its value, where the object has no other of that name.
pub proof fn lemma_xattr_back(
    out: Seq<u8>,
    d: Draft,
    oid: u64,
    name: Seq<char>,
    value: Seq<u8>,
)
    requires
        image::reads(out, d),
        files::tidy(d),
        attributed(d.records, oid, name, value),
    ensures
        ({
            let x = content::xattrs(rw::first_open(out)->Ok_0, out, oid);
            &&& rw::first_open(out) is Ok
            &&& x is Ok
            &&& x->Ok_0.contains((name, value))
        }),
{
    lemma_entries(out, d, (oid, APFS_TYPE_XATTR));
    let f = volume::found(rw::first_open(out)->Ok_0, out, oid, APFS_TYPE_XATTR);
    lemma_xattr_found(f, d.records, oid, name, value);
}

// ---- the volume's own name ----

/// The volume's name reads back where it fits: at most 255 bytes, no NUL.
pub proof fn lemma_volume_name_back(out: Seq<u8>, d: Draft, bl: Seq<Placed>)
    requires
        image::sealed(out, d, bl),
        fields::nameable(d.name),
        text::utf8(d.name).len() <= 255,
    ensures
        ({
            &&& rw::first_open(out) is Ok
            &&& rw::first_open(out)->Ok_0.name == d.name
        }),
{
    image::lemma_volume(out, d, bl);
    lemma_volname(d, d.places().1, d.places().2);
}

proof fn lemma_volname(d: Draft, paddr: u64, omap: u64)
    requires
        d.wf(),
        d.block_size >= 1024,
        fields::nameable(d.name),
        text::utf8(d.name).len() <= 255,
    ensures
        text::text_of(superblock::volname_bytes(d.apsb(paddr, omap))) == d.name,
{
    let b = text::utf8(d.name);
    assert(d.volname() =~= b);
    let field = d.apsb(paddr, omap).subrange(704, 960);
    let n = b.len() as int;
    assert(field.len() == 256 && field.subrange(0, n) == b && field[n] == 0) by {
        lemma_name_field(d, paddr, omap);
    }
    let rest = field.subrange(n, 256);
    assert(field =~= b + rest);
    fields::lemma_until_nul(b, rest);
    text::lemma_text_of_utf8(d.name);
}

/// The name field of a volume superblock: the name, then zeros.
proof fn lemma_name_field(d: Draft, paddr: u64, omap: u64)
    requires
        d.wf(),
        d.block_size >= 1024,
        d.volname().len() <= 255,
    ensures
        ({
            let field = d.apsb(paddr, omap).subrange(704, 960);
            let n = d.volname().len() as int;
            &&& field.len() == 256
            &&& field.subrange(0, n) == d.volname()
            &&& field[n] == 0
        }),
{
    broadcast use {
        bytes::lemma_put_len,
        bytes::lemma_zeros_len,
        bytes::lemma_put_index,
        bytes::lemma_zeros_index,
        bytes::lemma_le16_len,
        bytes::lemma_le32_len,
        bytes::lemma_le64_len,
    };

    let a = d.apsb(paddr, omap);
    let n = d.volname().len() as int;
    assert(a.len() == d.block_size);
    assert forall|i: int| 0 <= i < n implies a[704 + i] == d.volname()[i] by {}
    assert(a[704 + n] == 0);
    assert(a.subrange(704, 960).subrange(0, n) =~= d.volname());
}

} // verus!
