//! Whole trips: what paths and readers give of what was written or changed.

use vstd::prelude::*;

use crate::apfs::change;
use crate::apfs::content::{self, ApfsFileReader};
use crate::apfs::fs::Fs;
use crate::apfs::fstree::DrecKeyLayout;
use crate::apfs::jrec::{
    APFS_TYPE_DIR_REC, APFS_TYPE_INODE, APFS_TYPE_XATTR, DT_DIR, DT_LNK, DT_REG, KIND_UNIT,
};
use crate::apfs::mutate;
use crate::apfs::ops;
use crate::apfs::pack::{self, Rec};
use crate::apfs::pending;
use crate::apfs::plan::Placed;
use crate::apfs::record;
use crate::apfs::rw;
use crate::apfs::volume::{self, Mounted};
use crate::apfs::write::Draft;
use crate::block;
use crate::bytes;
use crate::entry::{EntryKind, Listed};
use crate::error::{Error, Result};
use crate::num;
use crate::path;
use crate::text;

use super::edits::{self, live};
use super::{commit, contents, entries, fields, files, flush, image, inplace, names, objects};
use super::paths;
use super::{records, rewrite, tree};

verus! {

// ---- readers ----

/// Whether a reader over object `oid` of the volume `m` on the device `img` is to
/// be had, stands at the start, and reads just the bytes `data`.
pub open spec fn gives(m: Mounted, img: Seq<u8>, oid: u64, data: Seq<u8>) -> bool {
    forall|r: Result<ApfsFileReader>| #[trigger]
        content::opened(r, m, img, oid) ==> {
            &&& r matches Ok(f)
            &&& f.cursor == 0
            &&& f.size == data.len()
            &&& f.bytes(img, 0, data.len() as int) == data
            &&& forall|q: int| 0 <= q < data.len() ==> #[trigger] f.holds(img, q)
        }
}

/// A file or symbolic link with its contents in one run of blocks is read.
proof fn lemma_gives(out: Seq<u8>, d: Draft, oid: u64, paddr: u64, v: Seq<u8>, data: Seq<u8>)
    requires
        image::reads(out, d),
        files::tidy(d),
        contents::described(d.records, oid, v),
        contents::streams(v, oid, data.len() as u64),
        contents::body(out, d, oid, paddr, data),
    ensures
        rw::first_open(out) is Ok,
        gives(rw::first_open(out)->Ok_0, out, oid, data),
{
    contents::lemma_inode_back(out, d, oid, v);
    contents::lemma_body_back(out, d, oid, paddr, data);
    let m = rw::first_open(out)->Ok_0;
    assert(volume::stream_of(m, out, oid) == Ok::<(u64, u64), Error>((data.len() as u64, oid)));
    assert forall|r: Result<ApfsFileReader>| #[trigger] content::opened(r, m, out, oid) implies {
        &&& r matches Ok(f)
        &&& f.cursor == 0
        &&& f.size == data.len()
        &&& f.bytes(out, 0, data.len() as int) == data
        &&& forall|q: int| 0 <= q < data.len() ==> #[trigger] f.holds(out, q)
    } by {
        let f = r->Ok_0;
        assert forall|q: int| 0 <= q < data.len() implies #[trigger] f.holds(out, q) by {
            assert(content::readable(out, f.extents@, d.block_size as int, q));
        }
    }
}

/// What a writer stores as a file or symbolic link is read.
proof fn lemma_stored_gives(out: Seq<u8>, d: Draft, o: contents::Placement, data: Seq<u8>)
    requires
        image::reads(out, d),
        files::tidy(d),
        contents::stores(out, d, o, data),
    ensures
        rw::first_open(out) is Ok,
        gives(rw::first_open(out)->Ok_0, out, o.oid, data),
{
    let n = data.len() as u64;
    let v = record::inode_value(o.oid, o.parent, o.mode, n, d.block_size, o.time);
    fields::lemma_inode_value(o.oid, o.parent, o.mode, n, d.block_size, o.time);
    lemma_gives(out, d, o.oid, o.paddr, v, data);
}

// ---- a new container ----

/// A file that is added to the root directory of a new container reads back: once
/// the writer has finished, the device opens, the path of the file leads to it,
/// and a reader over it gives just its bytes, however many there are.
pub proof fn lemma_file_trip(
    img: Seq<u8>,
    d: Draft,
    name: Seq<char>,
    mode: u16,
    data: Seq<u8>,
    time: u64,
    bl: Seq<Placed>,
)
    requires
        d.wf(),
        d.fresh,
        d.within(img),
        image::ready(img, d),
        files::tidy(d),
        d.next_oid != 0,
        d.next_oid + 1 < KIND_UNIT,
        names::vacant(d, volume::ROOT_DIR_INO, name),
        fields::nameable(name),
        path::parts(seq!['/'] + name) == seq![name],
        data.len() <= u64::MAX,
        num::div_up(data.len() as int, d.block_size as int) * d.block_size
            < 0x0100_0000_0000_0000,
        d.file_added(volume::ROOT_DIR_INO, name, mode, data.len() as u64, time).1 is Ok,
        ({
            let (e, r) = d.file_added(volume::ROOT_DIR_INO, name, mode, data.len() as u64, time);
            image::written(files::stream_image(img, d, data, data.len() as u64, r), e, bl)
        }),
    ensures
        ({
            let n = data.len() as u64;
            let (e, r) = d.file_added(volume::ROOT_DIR_INO, name, mode, n, time);
            let now = files::stream_image(img, d, data, n, r);
            let out = block::store_all(now, e.block_size as int, bl).0;
            let m = rw::first_open(out)->Ok_0;
            &&& rw::first_open(out) is Ok
            &&& volume::resolve(m, out, seq!['/'] + name) == Ok::<u64, Error>(d.next_oid)
            &&& r == Ok::<u64, Error>(d.next_oid)
            &&& gives(m, out, d.next_oid, data)
        }),
{
    let n = data.len() as u64;
    let dir = volume::ROOT_DIR_INO;
    let (e, r) = d.file_added(dir, name, mode, n, time);
    let now = files::stream_image(img, d, data, n, r);
    let out = block::store_all(now, e.block_size as int, bl).0;
    let op = pending::Op::File { parent: dir, name, mode, time, data };
    assert(pending::step(d, img, op) == (e, now, r));
    flush::lemma_step(d, img, op);
    flush::lemma_added(d, op);
    names::lemma_entered_new(d, e, flush::added(d, op), dir, name, DT_REG);
    contents::lemma_file_stored(img, d, dir, name, mode, data, n, time);
    assert(crate::apfs::write::padded(data, n as int, n as int) =~= data);
    let o = contents::next_placement(d, dir, (0x8000 + mode % 0x1000) as u16, time);
    contents::lemma_stores_written(now, e, bl, o, data);
    paths::lemma_ready_kept(img, d, now, e);
    image::lemma_sealed(now, e, bl);
    image::lemma_read_back(out, e, bl);
    names::lemma_child_back(out, e, dir, name, d.next_oid, DT_REG);
    lemma_stored_gives(out, e, o, data);
    let m = rw::first_open(out)->Ok_0;
    let ps = seq![name];
    assert(ps.drop_first() =~= Seq::empty());
    reveal_with_fuel(volume::walk, 2);
}

// ---- paths ----

/// Paths in a live container lead where the records say.
pub(crate) proof fn lemma_resolve(f: Fs, img: Seq<u8>, d: Draft, mark: int, p: Seq<char>)
    requires
        live(f, img, d, mark),
    ensures
        f.resolve(img, p) == match entries::walk(
            d.records,
            volume::ROOT_DIR_INO,
            path::parts(p),
        ) {
            Some(o) => Ok::<u64, Error>(o),
            None => Err::<u64, Error>(Error::InvalidArgument),
        },
{
    commit::lemma_now(img, d, mark);
    entries::lemma_walk(img, d, volume::ROOT_DIR_INO, path::parts(p));
}

/// The directory of a path that resolves, and the name in it.
pub(crate) proof fn lemma_resolve_parent(f: Fs, img: Seq<u8>, d: Draft, mark: int, p: Seq<char>)
    requires
        live(f, img, d, mark),
        f.resolve_parent(img, p) is Ok,
    ensures
        path::parts(p).len() > 0,
        entries::walk(d.records, volume::ROOT_DIR_INO, path::parts(p).drop_last()) == Some(
            f.resolve_parent(img, p)->Ok_0.0,
        ),
        f.resolve_parent(img, p)->Ok_0.1 == path::parts(p).last(),
{
    commit::lemma_now(img, d, mark);
    entries::lemma_walk(img, d, volume::ROOT_DIR_INO, path::parts(p).drop_last());
}

/// Whether the way along the components `ps` from directory `dir`, by the records
/// `rs`, does not take the entry `name` of directory `from`.
pub open spec fn avoids(
    rs: Seq<Rec>,
    dir: u64,
    ps: Seq<Seq<char>>,
    from: u64,
    name: Seq<char>,
) -> bool
    decreases ps.len(),
{
    ps.len() == 0 || {
        &&& (dir, ps[0]) != (from, name)
        &&& entries::leads_to(rs, dir, ps[0]) matches Some(o) ==> avoids(
            rs,
            o,
            ps.drop_first(),
            from,
            name,
        )
    }
}

/// A way that does not take an entry that is dropped goes on to lead where it
/// did, also where an entry was added.
proof fn lemma_way_kept(
    rs: Seq<Rec>,
    t: Seq<Rec>,
    dir: u64,
    ps: Seq<Seq<char>>,
    new: (u64, Seq<char>),
    x: u64,
    gone: Option<(u64, Seq<char>)>,
)
    requires
        entries::leads_to(rs, new.0, new.1) is None,
        forall|a: u64, n: Seq<char>| #[trigger]
            entries::leads_to(t, a, n) == if (a, n) == new {
                Some(x)
            } else if gone == Some((a, n)) {
                None
            } else {
                entries::leads_to(rs, a, n)
            },
        entries::walk(rs, dir, ps) is Some,
        gone matches Some(g) ==> avoids(rs, dir, ps, g.0, g.1),
    ensures
        entries::walk(t, dir, ps) == entries::walk(rs, dir, ps),
    decreases ps.len(),
{
    if ps.len() > 0 {
        let o = entries::leads_to(rs, dir, ps[0]).unwrap();
        assert((dir, ps[0]) != new);
        lemma_way_kept(rs, t, o, ps.drop_first(), new, x, gone);
    }
}

/// A way that ends with an entry that was dropped leads nowhere.
proof fn lemma_way_gone(
    rs: Seq<Rec>,
    t: Seq<Rec>,
    dir: u64,
    ps: Seq<Seq<char>>,
    new: (u64, Seq<char>),
    x: u64,
    gone: (u64, Seq<char>),
)
    requires
        entries::leads_to(rs, new.0, new.1) is None,
        new != gone,
        forall|a: u64, n: Seq<char>| #[trigger]
            entries::leads_to(t, a, n) == if (a, n) == new {
                Some(x)
            } else if (a, n) == gone {
                None
            } else {
                entries::leads_to(rs, a, n)
            },
        ps.len() > 0,
        entries::walk(rs, dir, ps.drop_last()) == Some(gone.0),
        ps.last() == gone.1,
    ensures
        entries::walk(t, dir, ps) is None,
    decreases ps.len(),
{
    let rest = ps.drop_first();
    if ps.len() == 1 {
        assert(ps.drop_last() =~= Seq::empty());
    } else if (dir, ps[0]) != gone {
        assert(ps.drop_last().drop_first() =~= rest.drop_last());
        assert(ps.drop_last()[0] == ps[0]);
        let o = entries::leads_to(rs, dir, ps[0]).unwrap();
        assert((dir, ps[0]) != new);
        lemma_way_gone(rs, t, o, rest, new, x, gone);
    }
}

/// The last step of a way.
proof fn lemma_way_step(rs: Seq<Rec>, dir: u64, ps: Seq<Seq<char>>)
    requires
        ps.len() > 0,
        entries::walk(rs, dir, ps.drop_last()) is Some,
    ensures
        entries::walk(rs, dir, ps) == entries::leads_to(
            rs,
            entries::walk(rs, dir, ps.drop_last()).unwrap(),
            ps.last(),
        ),
    decreases ps.len(),
{
    let rest = ps.drop_first();
    if ps.len() == 1 {
        assert(ps.drop_last() =~= Seq::empty());
        assert(rest =~= Seq::empty());
        reveal_with_fuel(entries::walk, 2);
    } else {
        assert(ps.drop_last().drop_first() =~= rest.drop_last());
        assert(ps.drop_last()[0] == ps[0]);
        let o = entries::leads_to(rs, dir, ps[0]).unwrap();
        lemma_way_step(rs, o, rest);
    }
}

/// What the records of a live container say of a name is what is read.
proof fn lemma_leads(f: Fs, img: Seq<u8>, d: Draft, mark: int, dir: u64, name: Seq<char>)
    requires
        live(f, img, d, mark),
    ensures
        edits::read_child(f, img, dir, name) == Ok::<Option<u64>, Error>(
            entries::leads_to(d.records, dir, name),
        ),
{
    edits::lemma_live_child(f, img, d, mark, dir, name);
}

/// Where one name was added, its path leads to the object, and every path that
/// resolved leads where it did.
pub(crate) proof fn lemma_name_added(
    f: Fs,
    img: Seq<u8>,
    d: Draft,
    mark: int,
    g: Fs,
    out: Seq<u8>,
    c: Draft,
    end: int,
    q: Seq<char>,
    x: u64,
    other: Seq<char>,
)
    requires
        live(f, img, d, mark),
        live(g, out, c, end),
        f.resolve_parent(img, q) is Ok,
        f.resolve(img, q) is Err,
        ({
            let (np, nn) = f.resolve_parent(img, q)->Ok_0;
            forall|dir: u64, name: Seq<char>| #[trigger]
                edits::read_child(g, out, dir, name) == if (dir, name) == (np, nn) {
                    Ok::<Option<u64>, Error>(Some(x))
                } else {
                    edits::read_child(f, img, dir, name)
                }
        }),
    ensures
        g.resolve(out, q) == Ok::<u64, Error>(x),
        f.resolve(img, other) is Ok ==> g.resolve(out, other) == f.resolve(img, other),
{
    let (np, nn) = f.resolve_parent(img, q)->Ok_0;
    let root = volume::ROOT_DIR_INO;
    let (s, t) = (d.records, c.records);
    lemma_resolve_parent(f, img, d, mark, q);
    lemma_resolve(f, img, d, mark, q);
    lemma_resolve(f, img, d, mark, other);
    lemma_resolve(g, out, c, end, q);
    lemma_resolve(g, out, c, end, other);
    lemma_way_step(s, root, path::parts(q));
    assert(entries::leads_to(s, np, nn) is None);
    assert forall|a: u64, n: Seq<char>| #[trigger]
        entries::leads_to(t, a, n) == if (a, n) == (np, nn) {
            Some(x)
        } else {
            entries::leads_to(s, a, n)
        } by {
        lemma_leads(g, out, c, end, a, n);
        lemma_leads(f, img, d, mark, a, n);
        assert(edits::read_child(g, out, a, n) == if (a, n) == (np, nn) {
            Ok::<Option<u64>, Error>(Some(x))
        } else {
            edits::read_child(f, img, a, n)
        });
    }
    lemma_way_kept(s, t, root, path::parts(q).drop_last(), (np, nn), x, None);
    lemma_way_step(t, root, path::parts(q));
    if f.resolve(img, other) is Ok {
        lemma_way_kept(s, t, root, path::parts(other), (np, nn), x, None);
    }
}

// ---- renaming ----

/// Renaming is refused, and nothing is written, where the old path leads nowhere
/// or the new one is taken, the old path itself included.
pub proof fn lemma_rename_refused(
    f: Fs,
    img: Seq<u8>,
    d: Draft,
    mark: int,
    p: Seq<char>,
    q: Seq<char>,
)
    requires
        live(f, img, d, mark),
        f.resolve_parent(img, p) is Ok,
        f.resolve_parent(img, q) is Ok,
        f.resolve(img, p) is Err || f.resolve(img, q) is Ok,
    ensures
        f.renamed(img, p, q) == (f, img, Err::<(), Error>(Error::InvalidArgument)),
{
    let (op, on) = f.resolve_parent(img, p)->Ok_0;
    let (np, nn) = f.resolve_parent(img, q)->Ok_0;
    let root = volume::ROOT_DIR_INO;
    commit::lemma_now(img, d, mark);
    edits::lemma_orderly_sort(d.records, d.next_oid);
    lemma_resolve_parent(f, img, d, mark, p);
    lemma_resolve_parent(f, img, d, mark, q);
    lemma_resolve(f, img, d, mark, p);
    lemma_resolve(f, img, d, mark, q);
    lemma_way_step(d.records, root, path::parts(p));
    lemma_way_step(d.records, root, path::parts(q));
    let rs = pack::sort(d.records);
    assert(mutate::drec(rs, op, on) == mutate::drec(d.records, op, on));
    assert(mutate::drec(rs, np, nn) == mutate::drec(d.records, np, nn));
    assert(ops::renamed(rs, op, on, np, nn) == Err::<Seq<Rec>, Error>(Error::InvalidArgument));
}

/// Renaming, by paths: the new path leads to the object that the old one led to,
/// and the old one leads nowhere; every path that resolved and did not take the
/// old entry leads where it did. The new path must not lie inside the old one.
pub proof fn lemma_rename_trip(
    f: Fs,
    img: Seq<u8>,
    d: Draft,
    mark: int,
    p: Seq<char>,
    q: Seq<char>,
    other: Seq<char>,
) -> (r: (Draft, int))
    requires
        live(f, img, d, mark),
        f.renamed(img, p, q).2 is Ok,
        fields::nameable(path::parts(q).last()),
        ({
            let (op, on) = f.resolve_parent(img, p)->Ok_0;
            avoids(d.records, volume::ROOT_DIR_INO, path::parts(q).drop_last(), op, on)
        }),
    ensures
        ({
            let (g, out, _) = f.renamed(img, p, q);
            let (op, on) = f.resolve_parent(img, p)->Ok_0;
            &&& live(g, out, r.0, r.1)
            &&& f.resolve(img, p) is Ok
            &&& g.resolve(out, q) == f.resolve(img, p)
            &&& g.resolve(out, p) is Err
            &&& f.resolve(img, other) is Ok && avoids(
                d.records,
                volume::ROOT_DIR_INO,
                path::parts(other),
                op,
                on,
            ) ==> g.resolve(out, other) == f.resolve(img, other)
        }),
{
    let (g, out, _) = f.renamed(img, p, q);
    let (op, on) = f.resolve_parent(img, p)->Ok_0;
    let (np, nn) = f.resolve_parent(img, q)->Ok_0;
    let root = volume::ROOT_DIR_INO;
    if f.resolve(img, p) is Err || f.resolve(img, q) is Ok {
        lemma_rename_refused(f, img, d, mark, p, q);
    }
    let r = edits::lemma_renamed(f, img, d, mark, p, q);
    let (s, t) = (d.records, r.0.records);
    lemma_resolve_parent(f, img, d, mark, p);
    lemma_resolve_parent(f, img, d, mark, q);
    lemma_resolve(f, img, d, mark, p);
    lemma_resolve(f, img, d, mark, q);
    lemma_resolve(f, img, d, mark, other);
    lemma_resolve(g, out, r.0, r.1, p);
    lemma_resolve(g, out, r.0, r.1, q);
    lemma_resolve(g, out, r.0, r.1, other);
    lemma_way_step(s, root, path::parts(p));
    lemma_way_step(s, root, path::parts(q));
    let x = entries::leads_to(s, op, on).unwrap();
    assert(entries::leads_to(s, np, nn) is None);
    assert forall|a: u64, n: Seq<char>| #[trigger]
        entries::leads_to(t, a, n) == if (a, n) == (np, nn) {
            Some(x)
        } else if (a, n) == (op, on) {
            None
        } else {
            entries::leads_to(s, a, n)
        } by {
        lemma_leads(g, out, r.0, r.1, a, n);
        lemma_leads(f, img, d, mark, a, n);
        lemma_leads(f, img, d, mark, op, on);
        assert(edits::read_child(g, out, a, n) == if (a, n) == (np, nn) {
            edits::read_child(f, img, op, on)
        } else if (a, n) == (op, on) {
            Ok::<Option<u64>, Error>(None)
        } else {
            edits::read_child(f, img, a, n)
        });
    }
    let gone = Some((op, on));
    lemma_way_kept(s, t, root, path::parts(q).drop_last(), (np, nn), x, gone);
    lemma_way_step(t, root, path::parts(q));
    lemma_way_gone(s, t, root, path::parts(p), (np, nn), x, (op, on));
    if f.resolve(img, other) is Ok && avoids(s, root, path::parts(other), op, on) {
        lemma_way_kept(s, t, root, path::parts(other), (np, nn), x, gone);
    }
    r
}

/// Moving an entry leaves all records but entries and inodes.
proof fn lemma_rest_kept(
    rs: Seq<Rec>,
    op: u64,
    on: Seq<char>,
    np: u64,
    nn: Seq<char>,
    k: (u64, u8),
)
    requires
        ops::renamed(rs, op, on, np, nn) is Ok,
        k.1 != APFS_TYPE_DIR_REC,
    ensures
        ({
            let t = ops::renamed(rs, op, on, np, nn)->Ok_0;
            let x = mutate::drec(rs, op, on).unwrap();
            let a = mutate::without_drec(rs, op, on).push(ops::drec_rec(np, nn, x.0, x.1));
            &&& tree::those(a, k) == tree::those(rs, k)
            &&& k.1 != APFS_TYPE_INODE ==> tree::those(t, k) == tree::those(rs, k)
        }),
{
    let (x, dt) = mutate::drec(rs, op, on).unwrap();
    let keep = |w: Seq<u8>| !mutate::is_drec_of(w, op, text::utf8(on));
    let w = mutate::without_drec(rs, op, on);
    let e = ops::drec_rec(np, nn, x, dt);
    rewrite::lemma_those_kept(rs, keep, k);
    assert(tree::those(w, k) == tree::those(rs, k));
    let a = w.push(e);
    assert(a =~= w + seq![e]);
    records::lemma_drec_key(np, nn, e.1);
    records::lemma_those_add(w, seq![e], k);
    records::lemma_those_one(e, k);
    assert(tree::those(w, k) + Seq::<Rec>::empty() =~= tree::those(w, k));
    let b = mutate::patched(a, op, |v: Seq<u8>| mutate::fewer_links(v));
    let c = mutate::patched(b, np, |v: Seq<u8>| mutate::more_links(v));
    inplace::lemma_patched(a, op, |v: Seq<u8>| mutate::fewer_links(v), k);
    inplace::lemma_patched(b, np, |v: Seq<u8>| mutate::more_links(v), k);
    inplace::lemma_patched(c, x, |v: Seq<u8>| mutate::reparented(v, np), k);
}

/// The inode of an object whose entry moves, but for one of the two directories
/// themselves, keeps its count of links.
proof fn lemma_moved_inode(
    rs: Seq<Rec>,
    op: u64,
    on: Seq<char>,
    np: u64,
    nn: Seq<char>,
    v: Seq<u8>,
) -> (w: Seq<u8>)
    requires
        ops::renamed(rs, op, on, np, nn) is Ok,
        ({
            let x = mutate::drec(rs, op, on).unwrap().0;
            x != op && x != np && contents::described(rs, x, v)
        }),
        v.len() >= 92,
    ensures
        ({
            let x = mutate::drec(rs, op, on).unwrap().0;
            contents::described(ops::renamed(rs, op, on, np, nn)->Ok_0, x, w)
        }),
        w.len() == v.len(),
        bytes::get32(w, 56) == bytes::get32(v, 56),
{
    let (x, dt) = mutate::drec(rs, op, on).unwrap();
    let k = (x, APFS_TYPE_INODE);
    lemma_rest_kept(rs, op, on, np, nn, k);
    let a = mutate::without_drec(rs, op, on).push(ops::drec_rec(np, nn, x, dt));
    let b = mutate::patched(a, op, |u: Seq<u8>| mutate::fewer_links(u));
    let c = mutate::patched(b, np, |u: Seq<u8>| mutate::more_links(u));
    inplace::lemma_patched(a, op, |u: Seq<u8>| mutate::fewer_links(u), k);
    inplace::lemma_patched(b, np, |u: Seq<u8>| mutate::more_links(u), k);
    if op != np && dt == DT_DIR {
        let h = |u: Seq<u8>| mutate::reparented(u, np);
        let w = mutate::reparented(v, np);
        rewrite::lemma_patched_sole(c, x, h, record::inode_key(x), v);
        bytes::lemma_le_lens();
        bytes::lemma_put_len(v, 0, bytes::le64(np));
        bytes::lemma_sub_put_other(v, 0, bytes::le64(np), 56, 60);
        bytes::lemma_get_agree(w, 56, v, 56);
        w
    } else {
        v
    }
}

/// Renaming, by the object: it keeps its count of links, its contents and its
/// extended attributes. (One of the two directories, moved into itself or out of
/// itself, is left out.)
pub proof fn lemma_rename_object(
    f: Fs,
    img: Seq<u8>,
    d: Draft,
    mark: int,
    p: Seq<char>,
    q: Seq<char>,
    v: Seq<u8>,
) -> (r: (Draft, int))
    requires
        live(f, img, d, mark),
        f.renamed(img, p, q).2 is Ok,
        fields::nameable(path::parts(q).last()),
        ({
            let x = f.resolve(img, p)->Ok_0;
            &&& x != f.resolve_parent(img, p)->Ok_0.0
            &&& x != f.resolve_parent(img, q)->Ok_0.0
            &&& contents::described(d.records, x, v)
        }),
        v.len() >= 92,
    ensures
        ({
            let (g, out, _) = f.renamed(img, p, q);
            let x = f.resolve(img, p)->Ok_0;
            let w = volume::inode(g.mounted()->Ok_0, out, x);
            &&& live(g, out, r.0, r.1)
            &&& g.mounted() is Ok
            &&& w is Ok
            &&& bytes::get32(w->Ok_0, 56) == bytes::get32(v, 56)
            &&& forall|paddr: u64, data: Seq<u8>| #[trigger]
                contents::body(img, d, x, paddr, data) ==> contents::body(
                    out,
                    r.0,
                    x,
                    paddr,
                    data,
                )
            &&& forall|n: Seq<char>, a: Seq<u8>| #[trigger]
                names::attributed(d.records, x, n, a) ==> names::attributed(r.0.records, x, n, a)
        }),
{
    let (g, out, _) = f.renamed(img, p, q);
    let (op, on) = f.resolve_parent(img, p)->Ok_0;
    let (np, nn) = f.resolve_parent(img, q)->Ok_0;
    let x = f.resolve(img, p)->Ok_0;
    let rs = pack::sort(d.records);
    if f.resolve(img, p) is Err {
        lemma_rename_refused(f, img, d, mark, p, q);
    }
    let r = edits::lemma_renamed(f, img, d, mark, p, q);
    lemma_resolve_parent(f, img, d, mark, p);
    lemma_resolve(f, img, d, mark, p);
    lemma_way_step(d.records, volume::ROOT_DIR_INO, path::parts(p));
    edits::lemma_orderly_sort(d.records, d.next_oid);
    assert(mutate::drec(rs, op, on) == mutate::drec(d.records, op, on));
    records::lemma_sole(d.records, (x, APFS_TYPE_INODE), (record::inode_key(x), v));
    let w = lemma_moved_inode(rs, op, on, np, nn, v);
    commit::lemma_now(out, r.0, r.1);
    contents::lemma_inode_back(out, r.0, x, w);
    lemma_rest_kept(rs, op, on, np, nn, (x, APFS_TYPE_XATTR));
    assert forall|n: Seq<char>, a: Seq<u8>| #[trigger]
        names::attributed(d.records, x, n, a) implies names::attributed(r.0.records, x, n, a) by {
        records::lemma_those_sort(d.records, (x, APFS_TYPE_XATTR));
        lemma_attribute_kept(d.records, r.0.records, x, n, a);
    }
    r
}

/// An attribute stays where the same attribute records are there.
proof fn lemma_attribute_kept(s: Seq<Rec>, t: Seq<Rec>, x: u64, n: Seq<char>, a: Seq<u8>)
    requires
        names::attributed(s, x, n, a),
        forall|r: Rec| #[trigger]
            tree::those(t, (x, APFS_TYPE_XATTR)).contains(r) <==> tree::those(
                s,
                (x, APFS_TYPE_XATTR),
            ).contains(r),
    ensures
        names::attributed(t, x, n, a),
{
    let k = (x, APFS_TYPE_XATTR);
    let q = (record::xattr_key(x, n), record::xattr_value(a));
    records::lemma_xattr_key(x, n, q.1);
    records::lemma_those_in(s, k, q);
    records::lemma_those_in(t, k, q);
    assert(tree::those(t, k).contains(q));
    assert forall|i: int|
        0 <= i < t.len() && tree::owner(#[trigger] t[i]) == k && content::xattr_of(t[i]) is Some
            && content::xattr_of(t[i]).unwrap().0 == n implies content::xattr_of(t[i]) == Some(
        (n, a),
    ) by {
        records::lemma_those_in(t, k, t[i]);
        records::lemma_those_in(s, k, t[i]);
        assert(t.contains(t[i]));
        assert(tree::those(t, k).contains(t[i]));
        let j = choose|j: int| 0 <= j < s.len() && s[j] == t[i];
        assert(tree::owner(s[j]) == k);
    }
}

// ---- creation ----

/// Creating a file or symbolic link, by paths and readers: the path leads to the
/// new object, a reader over it gives just its contents, and every path that
/// resolved leads where it did.
pub proof fn lemma_create_trip(
    f: Fs,
    img: Seq<u8>,
    d: Draft,
    mark: int,
    p: Seq<char>,
    dtype: u16,
    mode: u16,
    time: u64,
    data: Seq<u8>,
    other: Seq<char>,
) -> (r: (Draft, int))
    requires
        live(f, img, d, mark),
        d.next_oid + 1 < KIND_UNIT,
        f.created(img, p, dtype, mode, time, data).2 is Ok,
        fields::nameable(path::parts(p).last()),
        record::type_bits(mode) == 0x8000 || record::type_bits(mode) == 0xa000,
        data.len() <= u64::MAX,
        num::div_up(data.len() as int, d.block_size as int) * d.block_size
            < 0x0100_0000_0000_0000,
    ensures
        ({
            let (g, out, _) = f.created(img, p, dtype, mode, time, data);
            let (np, nn) = f.resolve_parent(img, p)->Ok_0;
            let o = contents::Placement {
                oid: d.next_oid,
                parent: np,
                mode,
                time,
                paddr: f.mode->Write_0.bump,
            };
            &&& live(g, out, r.0, r.1)
            &&& r.0.next_oid == d.next_oid + 1
            &&& mutate::drec(r.0.records, np, nn) == Some((d.next_oid, dtype))
            &&& edits::keeps(img, d, out, r.0, set![d.next_oid, np], set![d.next_oid])
            &&& contents::stores(out, r.0, o, data)
            &&& g.resolve(out, p) == Ok::<u64, Error>(d.next_oid)
            &&& g.mounted() is Ok
            &&& gives(g.mounted()->Ok_0, out, d.next_oid, data)
            &&& f.resolve(img, other) is Ok ==> g.resolve(out, other) == f.resolve(img, other)
            &&& forall|dir: u64, name: Seq<char>| #[trigger]
                edits::read_child(g, out, dir, name) == if (dir, name) == (np, nn) {
                    Ok::<Option<u64>, Error>(Some(d.next_oid))
                } else {
                    edits::read_child(f, img, dir, name)
                }
        }),
{
    let (g, out, _) = f.created(img, p, dtype, mode, time, data);
    let (np, nn) = f.resolve_parent(img, p)->Ok_0;
    let x = d.next_oid;
    let r = objects::lemma_created(f, img, d, mark, p, dtype, mode, time, data);
    let o = contents::Placement {
        oid: x,
        parent: np,
        mode,
        time,
        paddr: f.mode->Write_0.bump,
    };
    commit::lemma_now(out, r.0, r.1);
    assert(r.0.block_size == d.block_size);
    assert(contents::stores(out, r.0, o, data));
    lemma_stored_gives(out, r.0, o, data);
    lemma_vacant(f, img, d, mark, p, dtype, mode, time, data);
    lemma_name_added(f, img, d, mark, g, out, r.0, r.1, p, x, other);
    r
}

/// Something is created only under a name that is free.
pub(crate) proof fn lemma_vacant(
    f: Fs,
    img: Seq<u8>,
    d: Draft,
    mark: int,
    p: Seq<char>,
    dtype: u16,
    mode: u16,
    time: u64,
    data: Seq<u8>,
)
    requires
        live(f, img, d, mark),
        f.created(img, p, dtype, mode, time, data).2 is Ok,
        f.resolve_parent(img, p) is Ok,
    ensures
        f.resolve(img, p) is Err,
{
    let (np, nn) = f.resolve_parent(img, p)->Ok_0;
    commit::lemma_now(img, d, mark);
    edits::lemma_orderly_sort(d.records, d.next_oid);
    lemma_resolve_parent(f, img, d, mark, p);
    lemma_resolve(f, img, d, mark, p);
    lemma_way_step(d.records, volume::ROOT_DIR_INO, path::parts(p));
    let rs = pack::sort(d.records);
    assert(mutate::drec(rs, np, nn) == mutate::drec(d.records, np, nn));
}

/// Two files, created one after the other under free names, both read back: each
/// got blocks of its own. The directories gained these two names and no others.
#[verifier::rlimit(60)]
#[verifier::spinoff_prover]
pub proof fn lemma_two_files(
    f: Fs,
    img: Seq<u8>,
    d: Draft,
    mark: int,
    p: Seq<char>,
    a: Seq<u8>,
    q: Seq<char>,
    b: Seq<u8>,
    mode: u16,
    time: u64,
) -> (r: (Draft, int))
    requires
        live(f, img, d, mark),
        d.next_oid + 2 < KIND_UNIT,
        f.created(img, p, DT_REG, change::reg(mode), time, a).2 is Ok,
        ({
            let (g, now, _) = f.created(img, p, DT_REG, change::reg(mode), time, a);
            &&& g.created(now, q, DT_REG, change::reg(mode), time, b).2 is Ok
            &&& g.resolve_parent(now, q)->Ok_0.0 != d.next_oid
        }),
        fields::nameable(path::parts(p).last()),
        fields::nameable(path::parts(q).last()),
        a.len() <= u64::MAX,
        b.len() <= u64::MAX,
        num::div_up(a.len() as int, d.block_size as int) * d.block_size < 0x0100_0000_0000_0000,
        num::div_up(b.len() as int, d.block_size as int) * d.block_size < 0x0100_0000_0000_0000,
    ensures
        ({
            let (g, now, _) = f.created(img, p, DT_REG, change::reg(mode), time, a);
            let (h, out, _) = g.created(now, q, DT_REG, change::reg(mode), time, b);
            let m = h.mounted()->Ok_0;
            &&& live(h, out, r.0, r.1)
            &&& h.mounted() is Ok
            &&& h.resolve(out, p) == Ok::<u64, Error>(d.next_oid)
            &&& gives(m, out, d.next_oid, a)
            &&& h.resolve(out, q) == Ok::<u64, Error>((d.next_oid + 1) as u64)
            &&& gives(m, out, (d.next_oid + 1) as u64, b)
            &&& forall|dir: u64, name: Seq<char>| #[trigger]
                edits::read_child(h, out, dir, name) == if Ok::<(u64, Seq<char>), Error>(
                    (dir, name),
                ) == g.resolve_parent(now, q) {
                    Ok::<Option<u64>, Error>(Some((d.next_oid + 1) as u64))
                } else if Ok::<(u64, Seq<char>), Error>((dir, name)) == f.resolve_parent(img, p) {
                    Ok::<Option<u64>, Error>(Some(d.next_oid))
                } else {
                    edits::read_child(f, img, dir, name)
                }
        }),
{
    let t = change::reg(mode);
    lemma_type_bits(mode);
    let (g, now, _) = f.created(img, p, DT_REG, t, time, a);
    let (h, out, _) = g.created(now, q, DT_REG, t, time, b);
    let (np, nn) = f.resolve_parent(img, p)->Ok_0;
    let o = contents::Placement {
        oid: d.next_oid,
        parent: np,
        mode: t,
        time,
        paddr: f.mode->Write_0.bump,
    };
    let r1 = lemma_create_trip(f, img, d, mark, p, DT_REG, t, time, a, p);
    assert(r1.0.block_size == d.block_size);
    let r2 = lemma_create_trip(g, now, r1.0, r1.1, q, DT_REG, t, time, b, p);
    let dir = g.resolve_parent(now, q)->Ok_0.0;
    edits::lemma_keeps_stores(
        now,
        r1.0,
        out,
        r2.0,
        set![r1.0.next_oid, dir],
        set![r1.0.next_oid],
        o,
        a,
    );
    commit::lemma_now(out, r2.0, r2.1);
    lemma_stored_gives(out, r2.0, o, a);
    r2
}

proof fn lemma_type_bits(mode: u16)
    ensures
        record::type_bits(change::reg(mode)) == 0x8000,
        record::type_bits(change::lnk(mode)) == 0xa000,
{
}

// ---- symbolic links ----

/// A symbolic link with an empty target is refused, and nothing is written.
pub proof fn lemma_empty_target(f: Fs, img: Seq<u8>, p: Seq<char>, mode: u16, time: u64)
    requires
        f.resolve_parent(img, p) is Ok,
    ensures
        f.symlink_written(img, p, Seq::empty(), mode, time) == (
            f,
            img,
            Err::<(), Error>(Error::InvalidArgument),
        ),
{
    let none = Seq::<char>::empty();
    assert(text::utf8(none) =~= Seq::empty());
}

/// What is listed of a record is in the listing.
proof fn lemma_listed(rs: Seq<Rec>, i: int, n: int)
    requires
        0 <= i < n <= rs.len(),
        volume::listed(rs[i], DrecKeyLayout::Plain) is Some,
    ensures
        volume::listed_upto(rs, DrecKeyLayout::Plain, n).contains(
            volume::listed(rs[i], DrecKeyLayout::Plain).unwrap(),
        ),
    decreases n,
{
    let e = volume::listed(rs[i], DrecKeyLayout::Plain).unwrap();
    let s = volume::listed_upto(rs, DrecKeyLayout::Plain, n - 1);
    let t = volume::listed_upto(rs, DrecKeyLayout::Plain, n);
    if i == n - 1 {
        assert(t[s.len() as int] == e);
    } else {
        lemma_listed(rs, i, n - 1);
        let k = choose|k: int| 0 <= k < s.len() && s[k] == e;
        assert(t[k] == e);
    }
}

/// What is listed of an entry.
proof fn lemma_drec_listed(dir: u64, name: Seq<char>, x: u64, dtype: u16)
    requires
        fields::nameable(name),
        dtype < 0x100,
    ensures
        volume::listed(ops::drec_rec(dir, name, x, dtype), DrecKeyLayout::Plain) == Some(
            Listed {
                name,
                inode: (x % 0x1_0000_0000) as u32,
                kind: volume::kind_of_dtype(dtype),
                size: 0,
            },
        ),
{
    fields::lemma_drec_name(dir, name);
    fields::lemma_drec_value(x, dtype);
}

/// An entry is in the listing of its directory, with the kind of its type code.
#[verifier::spinoff_prover]
#[verifier::rlimit(60)]
pub(crate) proof fn lemma_entry_listed(
    out: Seq<u8>,
    d: Draft,
    dir: u64,
    name: Seq<char>,
    x: u64,
    dtype: u16,
)
    requires
        image::reads(out, d),
        files::tidy(d),
        entries::booked(d.records),
        mutate::drec(d.records, dir, name) == Some((x, dtype)),
        fields::nameable(name),
        dtype < 0x100,
    ensures
        ({
            let l = volume::list_dir(rw::first_open(out)->Ok_0, out, dir);
            &&& rw::first_open(out) is Ok
            &&& l is Ok
            &&& l->Ok_0.contains(
                (Listed {
                    name,
                    inode: (x % 0x1_0000_0000) as u32,
                    kind: volume::kind_of_dtype(dtype),
                    size: 0,
                }),
            )
        }),
{
    let k = (dir, APFS_TYPE_DIR_REC);
    let q = ops::drec_rec(dir, name, x, dtype);
    let rs = tree::those(pack::sort(d.records), k);
    names::lemma_list_back(out, d, dir);
    entries::lemma_drec_in(d.records, dir, name);
    records::lemma_drec_key(dir, name, q.1);
    lemma_drec_listed(dir, name, x, dtype);
    assert(d.records.contains(q));
    records::lemma_those_sort(d.records, k);
    records::lemma_those_in(d.records, k, q);
    assert(rs.contains(q));
    let i = choose|i: int| 0 <= i < rs.len() && rs[i] == q;
    lemma_listed(rs, i, rs.len() as int);
}

/// A symbolic link, by paths and readers: the path leads to it, a reader over it
/// gives just the bytes of its target, and the listing of its directory shows it
/// as a symbolic link.
pub proof fn lemma_symlink_trip(
    f: Fs,
    img: Seq<u8>,
    d: Draft,
    mark: int,
    p: Seq<char>,
    target: Seq<char>,
    mode: u16,
    time: u64,
) -> (r: (Draft, int))
    requires
        live(f, img, d, mark),
        d.next_oid + 1 < KIND_UNIT,
        f.symlink_written(img, p, target, mode, time).2 is Ok,
        fields::nameable(path::parts(p).last()),
        text::utf8(target).len() <= u64::MAX,
        num::div_up(text::utf8(target).len() as int, d.block_size as int) * d.block_size
            < 0x0100_0000_0000_0000,
    ensures
        ({
            let (g, out, _) = f.symlink_written(img, p, target, mode, time);
            &&& live(g, out, r.0, r.1)
            &&& g.mounted() is Ok
            &&& g.resolve(out, p) == Ok::<u64, Error>(d.next_oid)
            &&& gives(g.mounted()->Ok_0, out, d.next_oid, text::utf8(target))
            &&& ({
                let (np, nn) = f.resolve_parent(img, p)->Ok_0;
                let l = volume::list_dir(g.mounted()->Ok_0, out, np);
                &&& l is Ok
                &&& l->Ok_0.contains(
                    (Listed {
                        name: nn,
                        inode: (d.next_oid % 0x1_0000_0000) as u32,
                        kind: EntryKind::Symlink,
                        size: 0,
                    }),
                )
            })
        }),
{
    let (g, out, _) = f.symlink_written(img, p, target, mode, time);
    let (np, nn) = f.resolve_parent(img, p)->Ok_0;
    let b = text::utf8(target);
    lemma_type_bits(mode);
    let r = lemma_create_trip(f, img, d, mark, p, DT_LNK, change::lnk(mode), time, b, p);
    lemma_resolve_parent(f, img, d, mark, p);
    commit::lemma_now(out, r.0, r.1);
    lemma_entry_listed(out, r.0, np, nn, d.next_oid, DT_LNK);
    r
}

// ---- hard links ----

/// A hard link is refused, and nothing is written, where the object is a directory
/// or the new path is taken.
pub proof fn lemma_link_refused(
    f: Fs,
    img: Seq<u8>,
    d: Draft,
    mark: int,
    p: Seq<char>,
    q: Seq<char>,
)
    requires
        live(f, img, d, mark),
        f.resolve(img, p) is Ok,
        f.resolve_parent(img, q) is Ok,
        f.mounted() is Ok,
        ({
            let b = volume::inode(f.mounted()->Ok_0, img, f.resolve(img, p)->Ok_0);
            &&& b is Ok
            &&& volume::dtype_of_mode(bytes::get16(b->Ok_0, 80)) == DT_DIR || f.resolve(
                img,
                q,
            ) is Ok
        }),
    ensures
        f.linked(img, p, q) == (f, img, Err::<(), Error>(Error::InvalidArgument)),
{
    let (np, nn) = f.resolve_parent(img, q)->Ok_0;
    commit::lemma_now(img, d, mark);
    edits::lemma_orderly_sort(d.records, d.next_oid);
    lemma_resolve_parent(f, img, d, mark, q);
    lemma_resolve(f, img, d, mark, q);
    lemma_way_step(d.records, volume::ROOT_DIR_INO, path::parts(q));
    let rs = pack::sort(d.records);
    assert(mutate::drec(rs, np, nn) == mutate::drec(d.records, np, nn));
}

/// A link is added only under a name that is free.
proof fn lemma_link_vacant(
    f: Fs,
    img: Seq<u8>,
    d: Draft,
    mark: int,
    p: Seq<char>,
    q: Seq<char>,
)
    requires
        live(f, img, d, mark),
        f.linked(img, p, q).2 is Ok,
    ensures
        f.resolve_parent(img, q) is Ok,
        f.resolve(img, q) is Err,
{
    if f.resolve(img, q) is Ok {
        lemma_link_refused(f, img, d, mark, p, q);
    }
}

/// One link more is counted.
pub(crate) proof fn lemma_one_more(v: Seq<u8>)
    requires
        v.len() >= 92,
        bytes::get32(v, 56) < u32::MAX,
    ensures
        mutate::more_links(v).len() == v.len(),
        bytes::get32(mutate::more_links(v), 56) == bytes::get32(v, 56) + 1,
{
    let up = (bytes::get32(v, 56) + 1) as u32;
    bytes::lemma_le_lens();
    bytes::lemma_put_len(v, 56, bytes::le32(up));
    bytes::lemma_get32_put_same(v, 56, up);
}

/// A hard link, by paths: both paths lead to the object, which counts one link
/// more, and every path that resolved leads where it did. (A link inside the
/// object itself is left out; so is a count that is full.)
pub proof fn lemma_link_trip(
    f: Fs,
    img: Seq<u8>,
    d: Draft,
    mark: int,
    p: Seq<char>,
    q: Seq<char>,
    other: Seq<char>,
    v: Seq<u8>,
) -> (r: (Draft, int))
    requires
        live(f, img, d, mark),
        f.linked(img, p, q).2 is Ok,
        fields::nameable(path::parts(q).last()),
        contents::described(d.records, f.resolve(img, p)->Ok_0, v),
        v.len() >= 92,
        bytes::get32(v, 56) < u32::MAX,
        f.resolve_parent(img, q)->Ok_0.0 != f.resolve(img, p)->Ok_0,
    ensures
        ({
            let (g, out, _) = f.linked(img, p, q);
            let x = f.resolve(img, p)->Ok_0;
            let w = volume::inode(g.mounted()->Ok_0, out, x);
            &&& live(g, out, r.0, r.1)
            &&& f.resolve(img, p) is Ok
            &&& g.resolve(out, p) == Ok::<u64, Error>(x)
            &&& g.resolve(out, q) == Ok::<u64, Error>(x)
            &&& g.mounted() is Ok
            &&& w is Ok
            &&& bytes::get32(w->Ok_0, 56) == bytes::get32(v, 56) + 1
            &&& f.resolve(img, other) is Ok ==> g.resolve(out, other) == f.resolve(img, other)
        }),
{
    let (g, out, _) = f.linked(img, p, q);
    let x = f.resolve(img, p)->Ok_0;
    let r = edits::lemma_linked(f, img, d, mark, p, q);
    let w = mutate::more_links(v);
    lemma_one_more(v);
    commit::lemma_now(out, r.0, r.1);
    contents::lemma_inode_back(out, r.0, x, w);
    lemma_link_vacant(f, img, d, mark, p, q);
    lemma_name_added(f, img, d, mark, g, out, r.0, r.1, q, x, other);
    lemma_name_added(f, img, d, mark, g, out, r.0, r.1, q, x, p);
    r
}

// ---- new contents ----

/// Giving a file or symbolic link new contents, by readers: a reader over it gives
/// just these, and every path leads where it did.
pub proof fn lemma_sync_trip(
    f: Fs,
    img: Seq<u8>,
    d: Draft,
    mark: int,
    o: contents::Placement,
    was: Seq<u8>,
    data: Seq<u8>,
    p: Seq<char>,
) -> (r: (Draft, int))
    requires
        live(f, img, d, mark),
        contents::stores(img, d, o, was),
        f.synced(img, o.oid, data).2 is Ok,
        data.len() <= u64::MAX,
        num::div_up(data.len() as int, d.block_size as int) * d.block_size
            < 0x0100_0000_0000_0000,
    ensures
        ({
            let (g, out, _) = f.synced(img, o.oid, data);
            let n = contents::Placement { paddr: f.mode->Write_0.bump, ..o };
            &&& live(g, out, r.0, r.1)
            &&& r.0.block_size == d.block_size
            &&& contents::stores(out, r.0, n, data)
            &&& g.mounted() is Ok
            &&& gives(g.mounted()->Ok_0, out, o.oid, data)
            &&& g.resolve(out, p) == f.resolve(img, p)
        }),
{
    let (g, out, _) = f.synced(img, o.oid, data);
    let n = contents::Placement { paddr: f.mode->Write_0.bump, ..o };
    let v = record::inode_value(
        o.oid,
        o.parent,
        o.mode,
        was.len() as u64,
        d.block_size,
        o.time,
    );
    let r = objects::lemma_synced(f, img, d, mark, o.oid, data, v);
    rewrite::lemma_resized(
        o.oid,
        o.parent,
        o.mode,
        was.len() as u64,
        data.len() as u64,
        d.block_size,
        o.time,
    );
    commit::lemma_now(out, r.0, r.1);
    assert(contents::stores(out, r.0, n, data));
    lemma_stored_gives(out, r.0, n, data);
    lemma_resolve(f, img, d, mark, p);
    lemma_resolve(g, out, r.0, r.1, p);
    lemma_same_way(f, img, d, mark, g, out, r.0, r.1, volume::ROOT_DIR_INO, path::parts(p));
    r
}

/// Where every name leads where it did, so does every way.
pub(crate) proof fn lemma_same_way(
    f: Fs,
    img: Seq<u8>,
    d: Draft,
    mark: int,
    g: Fs,
    out: Seq<u8>,
    c: Draft,
    end: int,
    dir: u64,
    ps: Seq<Seq<char>>,
)
    requires
        live(f, img, d, mark),
        live(g, out, c, end),
        forall|a: u64, n: Seq<char>| #[trigger]
            edits::read_child(g, out, a, n) == edits::read_child(f, img, a, n),
    ensures
        entries::walk(c.records, dir, ps) == entries::walk(d.records, dir, ps),
    decreases ps.len(),
{
    if ps.len() > 0 {
        lemma_leads(f, img, d, mark, dir, ps[0]);
        lemma_leads(g, out, c, end, dir, ps[0]);
        assert(edits::read_child(g, out, dir, ps[0]) == edits::read_child(f, img, dir, ps[0]));
        if let Some(o) = entries::leads_to(d.records, dir, ps[0]) {
            lemma_same_way(f, img, d, mark, g, out, c, end, o, ps.drop_first());
        }
    }
}

/// Writing and syncing twice: after the first time a reader over the file gives
/// the bytes `a`, and after the second the bytes `a + b`.
pub proof fn lemma_sync_twice(
    f: Fs,
    img: Seq<u8>,
    d: Draft,
    mark: int,
    o: contents::Placement,
    was: Seq<u8>,
    a: Seq<u8>,
    b: Seq<u8>,
) -> (r: (Draft, int))
    requires
        live(f, img, d, mark),
        contents::stores(img, d, o, was),
        f.synced(img, o.oid, a).2 is Ok,
        f.synced(img, o.oid, a).0.synced(f.synced(img, o.oid, a).1, o.oid, a + b).2 is Ok,
        a.len() + b.len() <= u64::MAX,
        num::div_up((a + b).len() as int, d.block_size as int) * d.block_size
            < 0x0100_0000_0000_0000,
    ensures
        ({
            let (g, now, _) = f.synced(img, o.oid, a);
            let (h, out, _) = g.synced(now, o.oid, a + b);
            &&& g.mounted() is Ok
            &&& gives(g.mounted()->Ok_0, now, o.oid, a)
            &&& live(h, out, r.0, r.1)
            &&& h.mounted() is Ok
            &&& gives(h.mounted()->Ok_0, out, o.oid, a + b)
        }),
{
    let (g, now, _) = f.synced(img, o.oid, a);
    let n = contents::Placement { paddr: f.mode->Write_0.bump, ..o };
    let bs = d.block_size as int;
    num::lemma_div_up(a.len() as int, bs);
    num::lemma_div_up((a + b).len() as int, bs);
    let (k, m) = (num::div_up(a.len() as int, bs), num::div_up((a + b).len() as int, bs));
    assert(k * bs <= m * bs) by (nonlinear_arith)
        requires
            (k - 1) * bs < a.len() || k == 0,
            a.len() <= (a + b).len(),
            (a + b).len() <= m * bs,
            bs > 0,
            m >= 0,
    ;
    let r1 = lemma_sync_trip(f, img, d, mark, o, was, a, Seq::empty());
    lemma_sync_trip(g, now, r1.0, r1.1, n, a, a + b, Seq::empty())
}

} // verus!
