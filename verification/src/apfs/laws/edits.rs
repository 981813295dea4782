//! Changes to a container that is open for them, and what is read afterwards.

use vstd::prelude::*;

use crate::apfs::fs::{Fs, Mode};
use crate::apfs::jrec::{APFS_TYPE_FILE_EXTENT, APFS_TYPE_INODE, DT_DIR, KIND_UNIT};
use crate::apfs::mutate::{self, InodePatch};
use crate::apfs::ops;
use crate::apfs::pack::{self, Rec};
use crate::apfs::plan::Placed;
use crate::apfs::record;
use crate::apfs::rw::{self, Edit, Live};
use crate::apfs::volume;
use crate::apfs::write::Draft;
use crate::block;
use crate::bytes;
use crate::error::{Error, Result};
use crate::num;
use crate::path;
use crate::text;

use super::{changes, commit, contents, entries, fields, files, image, inplace, layout, records};
use super::{rewrite, tree};

verus! {

/// Whether every entry among the records `rs` leads to an object that was given
/// out before `next`.
pub open spec fn known(rs: Seq<Rec>, next: u64) -> bool {
    forall|dir: u64, name: Seq<char>|
        #![trigger mutate::drec(rs, dir, name)]
        mutate::drec(rs, dir, name) matches Some((t, dt)) ==> t < next
}

/// Whether the records `rs` can be those of a volume with `next` as the next
/// object: no object is described twice, no directory has two entries of one
/// name, and no entry leads to an object that was not given out.
pub open spec fn orderly(rs: Seq<Rec>, next: u64) -> bool {
    &&& next >= 16
    &&& inplace::tidy_records(rs, next)
    &&& pack::keyed(rs)
    &&& entries::booked(rs)
    &&& known(rs, next)
}

/// Whether `f` is the container on the device `img`, whoever wrote it, open for
/// changes; the device reads as the records of `d`, which are orderly, and all
/// that is in use lies before block `mark`.
pub open spec fn live(f: Fs, img: Seq<u8>, d: Draft, mark: int) -> bool {
    &&& f.mode matches Mode::Write(l) && l.wf() && rw::writable(img) == Ok::<Live, Error>(l)
    &&& commit::settled(img, d, mark)
    &&& orderly(d.records, d.next_oid)
}

/// Whether the inodes of all objects but those in `but` are the same in `s` and
/// `t`.
pub open spec fn same_inodes(s: Seq<Rec>, t: Seq<Rec>, but: Set<u64>) -> bool {
    forall|oid: u64|
        #![trigger tree::those(t, (oid, APFS_TYPE_INODE))]
        !but.contains(oid) ==> tree::those(t, (oid, APFS_TYPE_INODE)) == tree::those(
            s,
            (oid, APFS_TYPE_INODE),
        )
}

/// Whether the extents of all objects but those in `but` are the same in `s` and
/// `t`.
pub open spec fn same_extents(s: Seq<Rec>, t: Seq<Rec>, but: Set<u64>) -> bool {
    forall|oid: u64|
        #![trigger tree::those(t, (oid, APFS_TYPE_FILE_EXTENT))]
        !but.contains(oid) ==> tree::those(t, (oid, APFS_TYPE_FILE_EXTENT)) == tree::those(
            s,
            (oid, APFS_TYPE_FILE_EXTENT),
        )
}

/// Whether every inode of the writer `d`, but those of the objects in `but`, is
/// one of the writer `c`; and all contents that `d` has on the device `img`, but
/// those of the objects in `gone`, are contents that `c` has on `out`.
pub open spec fn keeps(
    img: Seq<u8>,
    d: Draft,
    out: Seq<u8>,
    c: Draft,
    but: Set<u64>,
    gone: Set<u64>,
) -> bool {
    &&& c.block_size == d.block_size
    &&& c.next_oid >= d.next_oid
    &&& forall|oid: u64, v: Seq<u8>| #[trigger]
        contents::described(d.records, oid, v) && !but.contains(oid) ==> contents::described(
            c.records,
            oid,
            v,
        )
    &&& forall|oid: u64, paddr: u64, data: Seq<u8>| #[trigger]
        contents::body(img, d, oid, paddr, data) && !gone.contains(oid) ==> contents::body(
            out,
            c,
            oid,
            paddr,
            data,
        )
}

/// Files and symbolic links that a change does not touch keep mode, time and
/// contents.
pub proof fn lemma_keeps_stores(
    img: Seq<u8>,
    d: Draft,
    out: Seq<u8>,
    c: Draft,
    but: Set<u64>,
    gone: Set<u64>,
    o: contents::Placement,
    data: Seq<u8>,
)
    requires
        keeps(img, d, out, c, but, gone),
        contents::stores(img, d, o, data),
        !but.contains(o.oid),
        !gone.contains(o.oid),
    ensures
        contents::stores(out, c, o, data),
{
}

/// Whether `g` counts as many files, directories and symbolic links as `f`.
pub open spec fn same_counts(f: Fs, g: Fs) -> bool {
    let l = f.mode->Write_0;
    let m = g.mode->Write_0;
    &&& m.num_files == l.num_files
    &&& m.num_directories == l.num_directories
    &&& m.num_symlinks == l.num_symlinks
}

/// A change of the records alone, where it succeeds: the container is live with
/// the new records, and objects whose own records did not change are as they
/// were.
pub proof fn lemma_rewritten(
    f: Fs,
    img: Seq<u8>,
    d: Draft,
    mark: int,
    g: spec_fn(Seq<Rec>) -> Result<Seq<Rec>>,
    but: Set<u64>,
    gone: Set<u64>,
) -> (r: (Draft, int))
    requires
        live(f, img, d, mark),
        f.rewritten(img, g).2 is Ok,
        g(pack::sort(d.records)) is Ok ==> {
            let t = g(pack::sort(d.records))->Ok_0;
            &&& orderly(t, d.next_oid)
            &&& same_inodes(pack::sort(d.records), t, but)
            &&& same_extents(pack::sort(d.records), t, gone)
        },
    ensures
        g(pack::sort(d.records)) == Ok::<Seq<Rec>, Error>(r.0.records),
        r.0.next_oid == d.next_oid,
        same_counts(f, f.rewritten(img, g).0),
        live(f.rewritten(img, g).0, f.rewritten(img, g).1, r.0, r.1),
        keeps(img, d, f.rewritten(img, g).1, r.0, but, gone),
{
    let l = f.mode->Write_0;
    let rs = pack::sort(d.records);
    inplace::lemma_reopened(img, d, mark, l);
    assert(rw::all_records(l.m, img) == Ok::<Seq<Rec>, Error>(rs));
    let t = g(rs)->Ok_0;
    assert(g(rs) is Ok);
    let e = Edit { recs: t, ..l.edit(rs) };
    let (out, q) = l.committed(e, img);
    assert(q is Ok);
    commit::lemma_commit_settled(img, d, mark, img, l, e);
    let c = l.checkpoint(e)->Ok_0;
    let nb = c.plan()->Ok_0;
    commit::lemma_now(out, c, layout::end(c));
    assert(live(f.rewritten(img, g).0, out, c, layout::end(c)));
    lemma_carried(img, d, img, c, nb, but, gone);
    (c, layout::end(c))
}

/// What the records keep is kept when a checkpoint is written.
pub proof fn lemma_carried(
    img: Seq<u8>,
    d: Draft,
    now: Seq<u8>,
    c: Draft,
    nb: Seq<Placed>,
    but: Set<u64>,
    gone: Set<u64>,
)
    requires
        d.wf(),
        image::written(now, c, nb),
        commit::same_before(img, now, d.next_block as int, d.block_size as int),
        c.block_size == d.block_size,
        c.next_block >= d.next_block,
        c.next_oid >= d.next_oid,
        same_inodes(pack::sort(d.records), c.records, but),
        same_extents(pack::sort(d.records), c.records, gone),
    ensures
        keeps(img, d, block::store_all(now, c.block_size as int, nb).0, c, but, gone),
{
    let out = block::store_all(now, c.block_size as int, nb).0;
    assert forall|oid: u64, v: Seq<u8>| #[trigger]
        contents::described(d.records, oid, v) && !but.contains(oid) implies contents::described(
        c.records,
        oid,
        v,
    ) by {
        records::lemma_sole(d.records, (oid, APFS_TYPE_INODE), (record::inode_key(oid), v));
        assert(tree::those(c.records, (oid, APFS_TYPE_INODE)) == tree::those(
            pack::sort(d.records),
            (oid, APFS_TYPE_INODE),
        ));
    }
    assert forall|oid: u64, paddr: u64, data: Seq<u8>| #[trigger]
        contents::body(img, d, oid, paddr, data) && !gone.contains(oid) implies contents::body(
        out,
        c,
        oid,
        paddr,
        data,
    ) by {
        assert(tree::those(c.records, (oid, APFS_TYPE_FILE_EXTENT)) == tree::those(
            pack::sort(d.records),
            (oid, APFS_TYPE_FILE_EXTENT),
        ));
        inplace::lemma_body_kept(img, d, now, c, oid, paddr, data);
        contents::lemma_body_written(now, c, nb, oid, paddr, data);
    }
}

/// Where a change cannot be committed, the container stays as it was, and so does
/// what is on the device: opened again, it is live with the same records, every
/// name leads where it did, and all inodes and contents are kept.
pub proof fn lemma_failed(
    f: Fs,
    img: Seq<u8>,
    d: Draft,
    mark: int,
    now: Seq<u8>,
    e: Edit,
    g: Fs,
)
    requires
        live(f, img, d, mark),
        f.mode matches Mode::Write(l) && commit::same_before(
            img,
            now,
            l.bump as int,
            l.m.bs as int,
        ) && e.bump >= l.bump,
        pack::keyed(e.recs),
        f.changed(f.mode->Write_0.committed(e, now)).2 is Err,
        rw::writable(f.changed(f.mode->Write_0.committed(e, now)).1) is Ok ==> g.mode
            == Mode::Write(rw::writable(f.changed(f.mode->Write_0.committed(e, now)).1)->Ok_0),
    ensures
        ({
            let (h, out, _) = f.changed(f.mode->Write_0.committed(e, now));
            &&& h == f
            &&& rw::writable(out) is Ok
            &&& live(g, out, d, mark)
            &&& keeps(img, d, out, d, Set::empty(), Set::empty())
            &&& forall|dir: u64, name: Seq<char>| #[trigger]
                read_child(g, out, dir, name) == read_child(f, img, dir, name)
        }),
{
    let l = f.mode->Write_0;
    let (h, out, _) = f.changed(l.committed(e, now));
    let bs = d.block_size as int;
    commit::lemma_now(img, d, mark);
    commit::lemma_commit_settled(img, d, mark, now, l, e);
    commit::lemma_now(out, d, mark);
    num::lemma_mono(d.next_block as int, mark, bs);
    assert forall|oid: u64, paddr: u64, data: Seq<u8>| #[trigger]
        contents::body(img, d, oid, paddr, data) implies contents::body(
        out,
        d,
        oid,
        paddr,
        data,
    ) by {
        lemma_bytes_kept(img, d, out, oid, paddr, data);
    }
    assert forall|dir: u64, name: Seq<char>| #[trigger]
        read_child(g, out, dir, name) == read_child(f, img, dir, name) by {
        lemma_live_child(g, out, d, mark, dir, name);
        lemma_live_child(f, img, d, mark, dir, name);
    }
}

/// Contents stay while the bytes of allocated blocks do.
proof fn lemma_bytes_kept(
    img: Seq<u8>,
    d: Draft,
    out: Seq<u8>,
    oid: u64,
    paddr: u64,
    data: Seq<u8>,
)
    requires
        d.wf(),
        contents::body(img, d, oid, paddr, data),
        commit::same_before(img, out, d.next_block as int, d.block_size as int),
    ensures
        contents::body(out, d, oid, paddr, data),
{
    let bs = d.block_size as int;
    let n = data.len() as int;
    if n > 0 {
        let k = num::div_up(n, bs);
        let at = paddr * bs;
        num::lemma_div_up(n, bs);
        num::lemma_mono(paddr + k, d.next_block as int, bs);
        num::lemma_mono(0, paddr as int, bs);
        assert((paddr + k) * bs == paddr * bs + k * bs) by (nonlinear_arith);
        assert(0 * bs == 0) by (nonlinear_arith);
        assert forall|i: int| 0 <= i < n implies out[at + i] == data[i] by {
            assert(img.subrange(at, at + n)[i] == img[at + i]);
        }
        assert(out.subrange(at, at + n) =~= data);
    }
}

// ---- records ----

/// Sorting keeps records orderly.
pub proof fn lemma_orderly_sort(rs: Seq<Rec>, next: u64)
    requires
        orderly(rs, next),
    ensures
        orderly(pack::sort(rs), next),
        forall|dir: u64, name: Seq<char>| #[trigger]
            mutate::drec(pack::sort(rs), dir, name) == mutate::drec(rs, dir, name),
{
    let s = pack::sort(rs);
    pack::lemma_sort(rs);
    inplace::lemma_tidy_sort(rs, next);
    entries::lemma_entries_sort(rs);
    entries::lemma_same_entries(rs, s, 0, Seq::empty());
    assert forall|dir: u64, name: Seq<char>| #[trigger]
        mutate::drec(s, dir, name) == mutate::drec(rs, dir, name) by {
        entries::lemma_same_entries(rs, s, dir, name);
    }
}

/// Changing an inode keeps records orderly, the entries, and all other objects.
pub proof fn lemma_orderly_patched(rs: Seq<Rec>, oid: u64, g: spec_fn(Seq<u8>) -> Seq<u8>, next: u64)
    requires
        orderly(rs, next),
    ensures
        orderly(mutate::patched(rs, oid, g), next),
        same_inodes(rs, mutate::patched(rs, oid, g), set![oid]),
        same_extents(rs, mutate::patched(rs, oid, g), Set::empty()),
        forall|dir: u64, name: Seq<char>| #[trigger]
            mutate::drec(mutate::patched(rs, oid, g), dir, name) == mutate::drec(rs, dir, name),
{
    let t = mutate::patched(rs, oid, g);
    entries::lemma_entries_patched(rs, oid, g);
    entries::lemma_same_entries(rs, t, 0, Seq::empty());
    inplace::lemma_patched(rs, oid, g, (0, 0));
    inplace::lemma_tidy_keys(rs, t, next);
    assert forall|i: int| 0 <= i < t.len() implies (#[trigger] t[i]).0.len() >= 8 by {
        assert(rs[i].0 == t[i].0);
    }
    assert(same_inodes(rs, t, set![oid])) by {
        assert forall|o: u64|
            #![trigger tree::those(t, (o, APFS_TYPE_INODE))]
            !set![oid].contains(o) implies tree::those(t, (o, APFS_TYPE_INODE)) == tree::those(
            rs,
            (o, APFS_TYPE_INODE),
        ) by {
            inplace::lemma_patched(rs, oid, g, (o, APFS_TYPE_INODE));
        }
    }
    assert(same_extents(rs, t, Set::empty())) by {
        assert forall|o: u64|
            #![trigger tree::those(t, (o, APFS_TYPE_FILE_EXTENT))]
            tree::those(t, (o, APFS_TYPE_FILE_EXTENT)) == tree::those(
                rs,
                (o, APFS_TYPE_FILE_EXTENT),
            ) by {
            inplace::lemma_patched(rs, oid, g, (o, APFS_TYPE_FILE_EXTENT));
        }
    }
    assert forall|dir: u64, name: Seq<char>| #[trigger]
        mutate::drec(t, dir, name) == mutate::drec(rs, dir, name) by {
        entries::lemma_same_entries(rs, t, dir, name);
    }
}

/// Adding an entry under a free name keeps records orderly, and all objects.
pub proof fn lemma_orderly_entry(
    rs: Seq<Rec>,
    parent: u64,
    name: Seq<char>,
    x: u64,
    dt: u16,
    next: u64,
)
    requires
        orderly(rs, next),
        parent < KIND_UNIT,
        x < next,
        fields::nameable(name),
        mutate::drec(rs, parent, name) is None,
    ensures
        ({
            let t = rs.push(ops::drec_rec(parent, name, x, dt));
            &&& orderly(t, next)
            &&& same_inodes(rs, t, Set::empty())
            &&& same_extents(rs, t, Set::empty())
            &&& forall|dir: u64, other: Seq<char>| #[trigger]
                mutate::drec(t, dir, other) == if (dir, other) == (parent, name) {
                    Some((x, dt))
                } else {
                    mutate::drec(rs, dir, other)
                }
        }),
{
    let q = ops::drec_rec(parent, name, x, dt);
    let t = rs.push(q);
    records::lemma_drec_key(parent, name, q.1);
    entries::lemma_entry_added(rs, parent, name, x, dt, 0, Seq::empty());
    lemma_tidy_push(rs, q, next);
    lemma_same_push(rs, q);
    assert forall|dir: u64, other: Seq<char>| #[trigger]
        mutate::drec(t, dir, other) == if (dir, other) == (parent, name) {
            Some((x, dt))
        } else {
            mutate::drec(rs, dir, other)
        } by {
        entries::lemma_entry_added(rs, parent, name, x, dt, dir, other);
    }
}

/// A record that is no object's own leaves inodes and extents.
pub proof fn lemma_same_push(rs: Seq<Rec>, q: Rec)
    requires
        !files::own(q),
    ensures
        same_inodes(rs, rs.push(q), Set::empty()),
        same_extents(rs, rs.push(q), Set::empty()),
{
    let t = rs.push(q);
    assert(t =~= rs + seq![q]);
    assert forall|o: u64|
        #![trigger tree::those(t, (o, APFS_TYPE_INODE))]
        tree::those(t, (o, APFS_TYPE_INODE)) == tree::those(rs, (o, APFS_TYPE_INODE)) by {
        let p = (o, APFS_TYPE_INODE);
        records::lemma_those_add(rs, seq![q], p);
        records::lemma_those_one(q, p);
        assert(tree::those(rs, p) + Seq::<Rec>::empty() =~= tree::those(rs, p));
    }
    assert forall|o: u64|
        #![trigger tree::those(t, (o, APFS_TYPE_FILE_EXTENT))]
        tree::those(t, (o, APFS_TYPE_FILE_EXTENT)) == tree::those(
            rs,
            (o, APFS_TYPE_FILE_EXTENT),
        ) by {
        let p = (o, APFS_TYPE_FILE_EXTENT);
        records::lemma_those_add(rs, seq![q], p);
        records::lemma_those_one(q, p);
        assert(tree::those(rs, p) + Seq::<Rec>::empty() =~= tree::those(rs, p));
    }
}

/// Dropping records of other kinds leaves inodes and extents.
pub proof fn lemma_same_kept(rs: Seq<Rec>, keep: spec_fn(Seq<u8>) -> bool, but: Set<u64>)
    requires
        forall|i: int|
            0 <= i < rs.len() && !but.contains(tree::owner(#[trigger] rs[i]).0) && (tree::owner(
                rs[i],
            ).1 == APFS_TYPE_INODE || tree::owner(rs[i]).1 == APFS_TYPE_FILE_EXTENT) ==> keep(
                rs[i].0,
            ),
    ensures
        same_inodes(rs, mutate::kept(rs, keep), but),
        same_extents(rs, mutate::kept(rs, keep), but),
{
    let t = mutate::kept(rs, keep);
    assert forall|o: u64|
        #![trigger tree::those(t, (o, APFS_TYPE_INODE))]
        !but.contains(o) implies tree::those(t, (o, APFS_TYPE_INODE)) == tree::those(
        rs,
        (o, APFS_TYPE_INODE),
    ) by {
        rewrite::lemma_those_kept(rs, keep, (o, APFS_TYPE_INODE));
    }
    assert forall|o: u64|
        #![trigger tree::those(t, (o, APFS_TYPE_FILE_EXTENT))]
        !but.contains(o) implies tree::those(t, (o, APFS_TYPE_FILE_EXTENT)) == tree::those(
        rs,
        (o, APFS_TYPE_FILE_EXTENT),
    ) by {
        rewrite::lemma_those_kept(rs, keep, (o, APFS_TYPE_FILE_EXTENT));
    }
}

/// A record that is no object's own keeps a list tidy.
pub proof fn lemma_tidy_push(rs: Seq<Rec>, q: Rec, next: u64)
    requires
        inplace::tidy_records(rs, next),
        !files::own(q),
    ensures
        inplace::tidy_records(rs.push(q), next),
{
    let t = rs.push(q);
    assert forall|i: int| 0 <= i < t.len() && files::own(#[trigger] t[i]) implies tree::owner(
        t[i],
    ).0 < next by {
        assert(i < rs.len());
        assert(t[i] == rs[i]);
    }
    assert forall|i: int, j: int|
        #![trigger t[i], t[j]]
        0 <= i < j < t.len() && t[i].0.len() == 8 && t[j].0.len() == 8 implies tree::owner(t[i])
        != tree::owner(t[j]) by {
        assert(j < rs.len());
        assert(t[i] == rs[i] && t[j] == rs[j]);
    }
}

/// Taking an entry away keeps records orderly, and all objects.
pub proof fn lemma_orderly_dropped(rs: Seq<Rec>, parent: u64, name: Seq<char>, next: u64)
    requires
        orderly(rs, next),
    ensures
        ({
            let t = mutate::without_drec(rs, parent, name);
            &&& orderly(t, next)
            &&& same_inodes(rs, t, Set::empty())
            &&& same_extents(rs, t, Set::empty())
            &&& forall|dir: u64, other: Seq<char>| #[trigger]
                mutate::drec(t, dir, other) == if (dir, other) == (parent, name) {
                    None
                } else {
                    mutate::drec(rs, dir, other)
                }
        }),
{
    let keep = |k: Seq<u8>| !mutate::is_drec_of(k, parent, text::utf8(name));
    let t = mutate::without_drec(rs, parent, name);
    entries::lemma_entry_dropped(rs, parent, name, 0, Seq::empty());
    rewrite::lemma_tidy_kept(rs, keep, next);
    mutate::lemma_kept_keyed(rs, keep);
    lemma_same_kept(rs, keep, Set::empty());
    assert forall|dir: u64, other: Seq<char>| #[trigger]
        mutate::drec(t, dir, other) == if (dir, other) == (parent, name) {
            None
        } else {
            mutate::drec(rs, dir, other)
        } by {
        entries::lemma_entry_dropped(rs, parent, name, dir, other);
    }
}

// ---- renaming ----

/// The objects whose inodes change when the entry `on` of directory `op` moves
/// to directory `np`: the directories, and a directory that is moved.
pub open spec fn moved(rs: Seq<Rec>, op: u64, on: Seq<char>, np: u64) -> Set<u64> {
    match mutate::drec(rs, op, on) {
        Some((t, dt)) => if dt == DT_DIR {
            set![op, np, t]
        } else {
            set![op, np]
        },
        None => set![op, np],
    }
}

proof fn lemma_renamed_records(
    rs: Seq<Rec>,
    op: u64,
    on: Seq<char>,
    np: u64,
    nn: Seq<char>,
    next: u64,
)
    requires
        orderly(rs, next),
        np < KIND_UNIT,
        fields::nameable(nn),
        ops::renamed(rs, op, on, np, nn) is Ok,
    ensures
        ({
            let t = ops::renamed(rs, op, on, np, nn)->Ok_0;
            &&& orderly(t, next)
            &&& same_inodes(rs, t, moved(rs, op, on, np))
            &&& same_extents(rs, t, Set::empty())
            &&& forall|dir: u64, other: Seq<char>| #[trigger]
                mutate::drec(t, dir, other) == if (dir, other) == (np, nn) {
                    mutate::drec(rs, op, on)
                } else if (dir, other) == (op, on) {
                    None
                } else {
                    mutate::drec(rs, dir, other)
                }
        }),
{
    let (x, dt) = mutate::drec(rs, op, on).unwrap();
    let w = mutate::without_drec(rs, op, on);
    let a = w.push(ops::drec_rec(np, nn, x, dt));
    entries::lemma_drec_in(rs, op, on);
    lemma_orderly_dropped(rs, op, on, next);
    lemma_orderly_entry(w, np, nn, x, dt, next);
    let b = mutate::patched(a, op, |v: Seq<u8>| mutate::fewer_links(v));
    let c = mutate::patched(b, np, |v: Seq<u8>| mutate::more_links(v));
    lemma_orderly_patched(a, op, |v: Seq<u8>| mutate::fewer_links(v), next);
    lemma_orderly_patched(b, np, |v: Seq<u8>| mutate::more_links(v), next);
    lemma_orderly_patched(c, x, |v: Seq<u8>| mutate::reparented(v, np), next);
    let t = ops::renamed(rs, op, on, np, nn)->Ok_0;
    assert forall|o: u64|
        #![trigger tree::those(t, (o, APFS_TYPE_INODE))]
        !moved(rs, op, on, np).contains(o) implies tree::those(t, (o, APFS_TYPE_INODE))
        == tree::those(rs, (o, APFS_TYPE_INODE)) by {
        let k = (o, APFS_TYPE_INODE);
        assert(tree::those(w, k) == tree::those(rs, k));
        assert(tree::those(a, k) == tree::those(w, k));
        assert(tree::those(b, k) == tree::those(a, k));
        assert(tree::those(c, k) == tree::those(b, k));
    }
    assert forall|o: u64|
        #![trigger tree::those(t, (o, APFS_TYPE_FILE_EXTENT))]
        tree::those(t, (o, APFS_TYPE_FILE_EXTENT)) == tree::those(
            rs,
            (o, APFS_TYPE_FILE_EXTENT),
        ) by {
        let k = (o, APFS_TYPE_FILE_EXTENT);
        assert(tree::those(w, k) == tree::those(rs, k));
        assert(tree::those(a, k) == tree::those(w, k));
        assert(tree::those(b, k) == tree::those(a, k));
        assert(tree::those(c, k) == tree::those(b, k));
    }
}

/// The name in directory `dir`, as the container `f` on the device `img` reads
/// it.
pub open spec fn read_child(f: Fs, img: Seq<u8>, dir: u64, name: Seq<char>) -> Result<Option<u64>> {
    match f.mounted() {
        Ok(m) => volume::child(m, img, dir, name),
        Err(e) => Err(e),
    }
}

/// A live container reads its names as the records give them.
pub proof fn lemma_live_child(
    f: Fs,
    img: Seq<u8>,
    d: Draft,
    mark: int,
    dir: u64,
    name: Seq<char>,
)
    requires
        live(f, img, d, mark),
    ensures
        read_child(f, img, dir, name) == Ok::<Option<u64>, Error>(
            entries::leads_to(d.records, dir, name),
        ),
{
    commit::lemma_now(img, d, mark);
    entries::lemma_child(img, d, dir, name);
}

/// Entries lead from known objects to known objects.
pub proof fn lemma_known_walk(rs: Seq<Rec>, next: u64, dir: u64, ps: Seq<Seq<char>>)
    requires
        known(rs, next),
        dir < next,
    ensures
        entries::walk(rs, dir, ps) matches Some(o) ==> o < next,
    decreases ps.len(),
{
    if ps.len() > 0 {
        if let Some((o, dt)) = mutate::drec(rs, dir, ps[0]) {
            lemma_known_walk(rs, next, o, ps.drop_first());
        }
    }
}

/// The object at a path that resolves was given out.
pub proof fn lemma_live_object(f: Fs, img: Seq<u8>, d: Draft, mark: int, p: Seq<char>)
    requires
        live(f, img, d, mark),
        f.resolve(img, p) is Ok,
    ensures
        f.resolve(img, p)->Ok_0 < d.next_oid,
{
    commit::lemma_now(img, d, mark);
    entries::lemma_walk(img, d, volume::ROOT_DIR_INO, path::parts(p));
    lemma_known_walk(d.records, d.next_oid, volume::ROOT_DIR_INO, path::parts(p));
}

/// The directory of a path that resolves was given out.
pub proof fn lemma_live_parent(f: Fs, img: Seq<u8>, d: Draft, mark: int, p: Seq<char>)
    requires
        live(f, img, d, mark),
        f.resolve_parent(img, p) is Ok,
    ensures
        f.resolve_parent(img, p)->Ok_0.0 < d.next_oid,
        f.resolve_parent(img, p)->Ok_0.1 == path::parts(p).last(),
{
    commit::lemma_now(img, d, mark);
    entries::lemma_walk(img, d, volume::ROOT_DIR_INO, path::parts(p).drop_last());
    lemma_known_walk(d.records, d.next_oid, volume::ROOT_DIR_INO, path::parts(p).drop_last());
}

/// Renaming: the new name leads where the old one did, the old one is gone,
/// every other name leads where it did, and files and symbolic links keep their
/// contents.
pub proof fn lemma_renamed(
    f: Fs,
    img: Seq<u8>,
    d: Draft,
    mark: int,
    p: Seq<char>,
    q: Seq<char>,
) -> (r: (Draft, int))
    requires
        live(f, img, d, mark),
        f.renamed(img, p, q).2 is Ok,
        fields::nameable(path::parts(q).last()),
    ensures
        ({
            let (g, out, _) = f.renamed(img, p, q);
            let (op, on) = f.resolve_parent(img, p)->Ok_0;
            let (np, nn) = f.resolve_parent(img, q)->Ok_0;
            &&& f.resolve_parent(img, p) is Ok
            &&& f.resolve_parent(img, q) is Ok
            &&& live(g, out, r.0, r.1)
            &&& ops::renamed(pack::sort(d.records), op, on, np, nn) == Ok::<Seq<Rec>, Error>(
                r.0.records,
            )
            &&& keeps(img, d, out, r.0, moved(d.records, op, on, np), Set::empty())
            &&& forall|dir: u64, name: Seq<char>| #[trigger]
                read_child(g, out, dir, name) == if (dir, name) == (np, nn) {
                    read_child(f, img, op, on)
                } else if (dir, name) == (op, on) {
                    Ok::<Option<u64>, Error>(None)
                } else {
                    read_child(f, img, dir, name)
                }
        }),
{
    let (g, out, _) = f.renamed(img, p, q);
    let (op, on) = f.resolve_parent(img, p)->Ok_0;
    let (np, nn) = f.resolve_parent(img, q)->Ok_0;
    let rs = pack::sort(d.records);
    let e = |s: Seq<Rec>| ops::renamed(s, op, on, np, nn);
    lemma_live_parent(f, img, d, mark, q);
    lemma_orderly_sort(d.records, d.next_oid);
    assert(moved(rs, op, on, np) == moved(d.records, op, on, np));
    if e(rs) is Ok {
        lemma_renamed_records(rs, op, on, np, nn, d.next_oid);
    }
    let r = lemma_rewritten(f, img, d, mark, e, moved(d.records, op, on, np), Set::empty());
    assert forall|dir: u64, name: Seq<char>| #[trigger]
        read_child(g, out, dir, name) == if (dir, name) == (np, nn) {
            read_child(f, img, op, on)
        } else if (dir, name) == (op, on) {
            Ok::<Option<u64>, Error>(None)
        } else {
            read_child(f, img, dir, name)
        } by {
        lemma_live_child(g, out, r.0, r.1, dir, name);
        lemma_live_child(f, img, d, mark, dir, name);
        lemma_live_child(f, img, d, mark, op, on);
        assert(mutate::drec(r.0.records, dir, name) == if (dir, name) == (np, nn) {
            mutate::drec(rs, op, on)
        } else if (dir, name) == (op, on) {
            None
        } else {
            mutate::drec(rs, dir, name)
        });
        assert(mutate::drec(rs, dir, name) == mutate::drec(d.records, dir, name));
        assert(mutate::drec(rs, op, on) == mutate::drec(d.records, op, on));
    }
    r
}

// ---- hard links ----

proof fn lemma_linked_records(
    rs: Seq<Rec>,
    x: u64,
    dt: u16,
    parent: u64,
    name: Seq<char>,
    next: u64,
)
    requires
        orderly(rs, next),
        parent < KIND_UNIT,
        x < next,
        fields::nameable(name),
        ops::linked(rs, x, dt, parent, name) is Ok,
    ensures
        ({
            let t = ops::linked(rs, x, dt, parent, name)->Ok_0;
            &&& orderly(t, next)
            &&& same_inodes(rs, t, set![x, parent])
            &&& same_extents(rs, t, Set::empty())
            &&& forall|v: Seq<u8>| #[trigger]
                contents::described(rs, x, v) && x != parent ==> contents::described(
                    t,
                    x,
                    mutate::more_links(v),
                )
            &&& forall|dir: u64, other: Seq<char>| #[trigger]
                mutate::drec(t, dir, other) == if (dir, other) == (parent, name) {
                    Some((x, dt))
                } else {
                    mutate::drec(rs, dir, other)
                }
        }),
{
    let g = |v: Seq<u8>| mutate::more_links(v);
    let a = rs.push(ops::drec_rec(parent, name, x, dt));
    let b = mutate::patched(a, x, g);
    let t = mutate::patched(b, parent, g);
    lemma_orderly_entry(rs, parent, name, x, dt, next);
    lemma_orderly_patched(a, x, g, next);
    lemma_orderly_patched(b, parent, g, next);
    assert(same_inodes(rs, t, set![x, parent])) by {
        assert forall|o: u64|
            #![trigger tree::those(t, (o, APFS_TYPE_INODE))]
            !set![x, parent].contains(o) implies tree::those(t, (o, APFS_TYPE_INODE))
            == tree::those(rs, (o, APFS_TYPE_INODE)) by {
            let k = (o, APFS_TYPE_INODE);
            assert(tree::those(a, k) == tree::those(rs, k));
            assert(tree::those(b, k) == tree::those(a, k));
        }
    }
    assert(same_extents(rs, t, Set::empty())) by {
        assert forall|o: u64|
            #![trigger tree::those(t, (o, APFS_TYPE_FILE_EXTENT))]
            tree::those(t, (o, APFS_TYPE_FILE_EXTENT)) == tree::those(
                rs,
                (o, APFS_TYPE_FILE_EXTENT),
            ) by {
            let k = (o, APFS_TYPE_FILE_EXTENT);
            assert(tree::those(a, k) == tree::those(rs, k));
            assert(tree::those(b, k) == tree::those(a, k));
        }
    }
    assert forall|v: Seq<u8>| #[trigger]
        contents::described(rs, x, v) && x != parent implies contents::described(
        t,
        x,
        mutate::more_links(v),
    ) by {
        let k = (x, APFS_TYPE_INODE);
        assert(tree::those(a, k) == tree::those(rs, k));
        rewrite::lemma_patched_sole(a, x, g, record::inode_key(x), v);
        assert(tree::those(t, k) == tree::those(b, k));
    }
}

/// Adding a hard link: the new name leads to the object, every other name leads
/// where it did, the object counts one link more, and all contents are kept.
pub proof fn lemma_linked(
    f: Fs,
    img: Seq<u8>,
    d: Draft,
    mark: int,
    p: Seq<char>,
    q: Seq<char>,
) -> (r: (Draft, int))
    requires
        live(f, img, d, mark),
        f.linked(img, p, q).2 is Ok,
        fields::nameable(path::parts(q).last()),
    ensures
        ({
            let (g, out, _) = f.linked(img, p, q);
            let x = f.resolve(img, p)->Ok_0;
            let (np, nn) = f.resolve_parent(img, q)->Ok_0;
            &&& f.resolve(img, p) is Ok
            &&& f.resolve_parent(img, q) is Ok
            &&& live(g, out, r.0, r.1)
            &&& keeps(img, d, out, r.0, set![x, np], Set::empty())
            &&& forall|v: Seq<u8>| #[trigger]
                contents::described(d.records, x, v) && x != np ==> contents::described(
                    r.0.records,
                    x,
                    mutate::more_links(v),
                )
            &&& forall|dir: u64, name: Seq<char>| #[trigger]
                read_child(g, out, dir, name) == if (dir, name) == (np, nn) {
                    Ok::<Option<u64>, Error>(Some(x))
                } else {
                    read_child(f, img, dir, name)
                }
        }),
{
    let (g, out, _) = f.linked(img, p, q);
    let x = f.resolve(img, p)->Ok_0;
    let (np, nn) = f.resolve_parent(img, q)->Ok_0;
    let m = f.mounted()->Ok_0;
    let dt = volume::dtype_of_mode(bytes::get16(volume::inode(m, img, x)->Ok_0, 80));
    let rs = pack::sort(d.records);
    let e = |s: Seq<Rec>| ops::linked(s, x, dt, np, nn);
    lemma_live_parent(f, img, d, mark, q);
    lemma_live_object(f, img, d, mark, p);
    lemma_orderly_sort(d.records, d.next_oid);
    if e(rs) is Ok {
        lemma_linked_records(rs, x, dt, np, nn, d.next_oid);
    }
    let r = lemma_rewritten(f, img, d, mark, e, set![x, np], Set::empty());
    assert forall|dir: u64, name: Seq<char>| #[trigger]
        read_child(g, out, dir, name) == if (dir, name) == (np, nn) {
            Ok::<Option<u64>, Error>(Some(x))
        } else {
            read_child(f, img, dir, name)
        } by {
        lemma_live_child(g, out, r.0, r.1, dir, name);
        lemma_live_child(f, img, d, mark, dir, name);
        assert(mutate::drec(rs, dir, name) == mutate::drec(d.records, dir, name));
        assert(mutate::drec(r.0.records, dir, name) == if (dir, name) == (np, nn) {
            Some((x, dt))
        } else {
            mutate::drec(rs, dir, name)
        });
    }
    assert forall|v: Seq<u8>| #[trigger]
        contents::described(d.records, x, v) && x != np implies contents::described(
        r.0.records,
        x,
        mutate::more_links(v),
    ) by {
        records::lemma_sole(d.records, (x, APFS_TYPE_INODE), (record::inode_key(x), v));
        assert(contents::described(rs, x, v));
    }
    r
}

// ---- inodes ----

/// Changing fields of an inode: they are read as they were set, every name leads
/// where it did, all contents are kept, and other objects are as they were.
pub proof fn lemma_patched(
    f: Fs,
    img: Seq<u8>,
    d: Draft,
    mark: int,
    p: Seq<char>,
    patch: InodePatch,
    v: Seq<u8>,
) -> (r: (Draft, int))
    requires
        live(f, img, d, mark),
        f.patched(img, p, patch).2 is Ok,
        contents::described(d.records, f.resolve(img, p)->Ok_0, v),
        v.len() >= 92,
    ensures
        ({
            let (g, out, _) = f.patched(img, p, patch);
            let x = f.resolve(img, p)->Ok_0;
            &&& f.resolve(img, p) is Ok
            &&& live(g, out, r.0, r.1)
            &&& keeps(img, d, out, r.0, set![x], Set::empty())
            &&& contents::described(r.0.records, x, patch.apply(v))
            &&& g.mounted() is Ok
            &&& volume::inode(g.mounted()->Ok_0, out, x) == Ok::<Seq<u8>, Error>(patch.apply(v))
            &&& forall|dir: u64, name: Seq<char>| #[trigger]
                read_child(g, out, dir, name) == read_child(f, img, dir, name)
        }),
{
    let (g, out, _) = f.patched(img, p, patch);
    let x = f.resolve(img, p)->Ok_0;
    let rs = pack::sort(d.records);
    let h = |w: Seq<u8>| patch.apply(w);
    let e = |s: Seq<Rec>| Ok::<Seq<Rec>, Error>(mutate::patched(s, x, |w: Seq<u8>| patch.apply(w)));
    lemma_orderly_sort(d.records, d.next_oid);
    lemma_orderly_patched(rs, x, h, d.next_oid);
    records::lemma_sole(d.records, (x, APFS_TYPE_INODE), (record::inode_key(x), v));
    rewrite::lemma_patched_sole(rs, x, h, record::inode_key(x), v);
    let r = lemma_rewritten(f, img, d, mark, e, set![x], Set::empty());
    changes::lemma_patch(patch, v);
    commit::lemma_now(out, r.0, r.1);
    contents::lemma_inode_back(out, r.0, x, patch.apply(v));
    assert forall|dir: u64, name: Seq<char>| #[trigger]
        read_child(g, out, dir, name) == read_child(f, img, dir, name) by {
        lemma_live_child(g, out, r.0, r.1, dir, name);
        lemma_live_child(f, img, d, mark, dir, name);
        assert(mutate::drec(rs, dir, name) == mutate::drec(d.records, dir, name));
        assert(mutate::drec(r.0.records, dir, name) == mutate::drec(rs, dir, name));
    }
    r
}

} // verus!
