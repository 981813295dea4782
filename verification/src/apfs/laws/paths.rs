//! What is created in a new container is found again at its path.

use vstd::prelude::*;

use crate::apfs::content;
use crate::apfs::fs::{Fs, Mode};
use crate::apfs::jrec::{APFS_TYPE_INODE, KIND_UNIT};
use crate::apfs::pending::{self, Op, Pend};
use crate::apfs::plan::Placed;
use crate::apfs::record;
use crate::apfs::rw;
use crate::apfs::volume::{self, Mounted, ROOT_DIR_INO};
use crate::apfs::write::Draft;
use crate::block;
use crate::bytes;
use crate::error::Error;
use crate::path;

use super::{commit, contents, fields, files, flush, image, names, records};

verus! {

/// Going one component further.
proof fn lemma_walk_push(m: Mounted, img: Seq<u8>, dir: u64, ps: Seq<Seq<char>>, x: Seq<char>)
    requires
        volume::walk(m, img, dir, ps) is Ok,
    ensures
        volume::walk(m, img, dir, ps.push(x)) == match volume::child(
            m,
            img,
            volume::walk(m, img, dir, ps)->Ok_0,
            x,
        ) {
            Err(e) => Err(e),
            Ok(None) => Err(Error::InvalidArgument),
            Ok(Some(o)) => Ok(o),
        },
    decreases ps.len(),
{
    let qs = ps.push(x);
    if ps.len() == 0 {
        assert(qs[0] == x);
        assert(qs.drop_first() =~= Seq::empty());
        reveal_with_fuel(volume::walk, 2);
    } else {
        assert(qs[0] == ps[0]);
        assert(qs.drop_first() =~= ps.drop_first().push(x));
        let o = volume::child(m, img, dir, ps[0])->Ok_0.unwrap();
        lemma_walk_push(m, img, o, ps.drop_first(), x);
    }
}

/// Whether directory `k` of those that wait comes from operation `j`, which
/// created it in directory `up`.
pub open spec fn made_by(p: Pend, k: int, up: int, j: int) -> bool {
    let ps = p.dirs[k].0.1;
    &&& 0 <= up < k
    &&& 0 <= j < p.ops.len()
    &&& ps.len() > 0
    &&& p.dirs[up].0.1 == ps.drop_last()
    &&& p.dirs[k].1 == 16 + j
    &&& flush::parent_of(p.ops[j]) == p.dirs[up].1
    &&& flush::name_of(p.ops[j]) == ps.last()
}

/// Whether directory `k` of those that wait was created by an operation.
pub open spec fn made(p: Pend, k: int) -> bool {
    exists|up: int, j: int| #[trigger] made_by(p, k, up, j)
}

/// Whether what waits hangs together: each directory but the root was created by
/// an operation in one before it, and each operation creates in one of the
/// directories.
pub open spec fn coherent(p: Pend) -> bool {
    &&& p.next_oid == 16 + p.ops.len()
    &&& p.dirs.len() > 0
    &&& p.dirs[0] == (pending::root_path(), ROOT_DIR_INO)
    &&& forall|k: int| 0 < k < p.dirs.len() ==> #[trigger] made(p, k)
    &&& forall|j: int|
        #![trigger p.ops[j]]
        0 <= j < p.ops.len() ==> exists|k: int|
            0 <= k < p.dirs.len() && (#[trigger] p.dirs[k]).1 == flush::parent_of(p.ops[j])
}

/// A new container starts coherent.
pub proof fn lemma_coherent_new(total: u64)
    ensures
        coherent(
            (Pend {
                total_blocks: total,
                dirs: seq![(pending::root_path(), ROOT_DIR_INO)],
                ops: Seq::empty(),
                next_oid: 16,
            }),
        ),
{
}

/// A directory found by its path is one of those that wait.
proof fn lemma_dir_oid(dirs: Seq<(pending::DirPath, u64)>, q: pending::DirPath, n: int) -> (k: int)
    requires
        0 <= n <= dirs.len(),
        pending::dir_oid(dirs, q, n) is Some,
    ensures
        0 <= k < n,
        dirs[k].0 == q,
        dirs[k].1 == pending::dir_oid(dirs, q, n).unwrap(),
    decreases n,
{
    if dirs[n - 1].0 == q {
        n - 1
    } else {
        lemma_dir_oid(dirs, q, n - 1)
    }
}

/// Adding an operation in a directory that waits keeps things coherent.
pub proof fn lemma_coherent_op(p: Pend, s: Seq<char>, op: Op)
    requires
        coherent(p),
        p.next_oid < u64::MAX,
        p.resolve_parent(s) is Ok,
        flush::parent_of(op) == p.resolve_parent(s)->Ok_0.0,
    ensures
        coherent(p.with_op(op)),
{
    let q = p.with_op(op);
    let k0 = lemma_dir_oid(p.dirs, pending::parent_path(s), p.dirs.len() as int);
    assert(q.next_oid == 16 + q.ops.len());
    assert(q.dirs[0] == (pending::root_path(), ROOT_DIR_INO));
    assert forall|k: int| 0 < k < q.dirs.len() implies #[trigger] made(q, k) by {
        assert(q.dirs[k] == p.dirs[k]);
        assert(made(p, k));
        let (up, j) = choose|up: int, j: int| #[trigger] made_by(p, k, up, j);
        assert(q.ops[j] == p.ops[j]);
        assert(made_by(q, k, up, j));
    }
    assert forall|j: int|
        #![trigger q.ops[j]]
        0 <= j < q.ops.len() implies exists|k: int|
        0 <= k < q.dirs.len() && (#[trigger] q.dirs[k]).1 == flush::parent_of(q.ops[j]) by {
        if j == p.ops.len() {
            assert(q.dirs[k0].1 == flush::parent_of(q.ops[j]));
        } else {
            assert(q.ops[j] == p.ops[j]);
            let k = choose|k: int|
                0 <= k < p.dirs.len() && (#[trigger] p.dirs[k]).1 == flush::parent_of(p.ops[j]);
            assert(q.dirs[k].1 == flush::parent_of(q.ops[j]));
        }
    }
}

/// Creating a directory keeps things coherent.
pub proof fn lemma_coherent_dir(p: Pend, s: Seq<char>, mode: u16, time: u64)
    requires
        coherent(p),
        p.next_oid < u64::MAX,
        p.resolve_parent(s) is Ok,
    ensures
        ({
            let (dir, name) = p.resolve_parent(s)->Ok_0;
            let noted = Pend { dirs: p.dirs.push((pending::dir_path(s), p.next_oid)), ..p };
            coherent(noted.with_op(Op::Dir { parent: dir, name, mode, time }))
        }),
{
    let (dir, name) = p.resolve_parent(s)->Ok_0;
    let op = Op::Dir { parent: dir, name, mode, time };
    let noted = Pend { dirs: p.dirs.push((pending::dir_path(s), p.next_oid)), ..p };
    let q = noted.with_op(op);
    let n = p.dirs.len() as int;
    let last = p.ops.len() as int;
    let k0 = lemma_dir_oid(p.dirs, pending::parent_path(s), n);
    assert(q.dirs[0] == p.dirs[0]);
    assert(q.next_oid == 16 + q.ops.len());
    assert forall|k: int| 0 < k < q.dirs.len() implies #[trigger] made(q, k) by {
        if k == n {
            assert(q.dirs[k0] == p.dirs[k0]);
            assert(q.ops[last] == op);
            assert(q.dirs[k0].0.1 =~= path::parts(s).drop_last());
            assert(made_by(q, k, k0, last));
        } else {
            assert(q.dirs[k] == p.dirs[k]);
            assert(made(p, k));
            let (up, j) = choose|up: int, j: int| #[trigger] made_by(p, k, up, j);
            assert(q.ops[j] == p.ops[j]);
            assert(q.dirs[up] == p.dirs[up]);
            assert(made_by(q, k, up, j));
        }
    }
    assert forall|j: int|
        #![trigger q.ops[j]]
        0 <= j < q.ops.len() implies exists|k: int|
        0 <= k < q.dirs.len() && (#[trigger] q.dirs[k]).1 == flush::parent_of(q.ops[j]) by {
        if j == last {
            assert(q.dirs[k0] == p.dirs[k0]);
        } else {
            assert(q.ops[j] == p.ops[j]);
            let k = choose|k: int|
                0 <= k < p.dirs.len() && (#[trigger] p.dirs[k]).1 == flush::parent_of(p.ops[j]);
            assert(q.dirs[k] == p.dirs[k]);
        }
    }
}

/// The writer and device of a new container once what waits was carried out and
/// written, with the blocks of the image.
pub open spec fn flushed(
    p: Pend,
    img: Seq<u8>,
    bs: u32,
    name: Seq<char>,
    d: Draft,
    bl: Seq<Placed>,
    out: Seq<u8>,
) -> bool {
    let start = crate::apfs::write::new_draft(p.total_blocks, bs, name);
    let (e, now, r) = pending::replay(start, img, p.ops, p.ops.len() as int);
    &&& d == e
    &&& flush::able(start, img, p.ops)
    &&& image::sealed(out, d, bl)
    &&& files::tidy(d)
    &&& forall|o: contents::Placement, data: Seq<u8>| #[trigger]
        contents::stores(now, d, o, data) ==> contents::stores(out, d, o, data)
}

/// Where each operation's name leads to its object, each directory is found at
/// its path.
proof fn lemma_dir_found(p: Pend, m: Mounted, out: Seq<u8>, k: int)
    requires
        coherent(p),
        forall|j: int|
            #![trigger p.ops[j]]
            0 <= j < p.ops.len() ==> volume::child(
                m,
                out,
                flush::parent_of(p.ops[j]),
                flush::name_of(p.ops[j]),
            ) == Ok::<Option<u64>, Error>(Some((16 + j) as u64)),
        0 <= k < p.dirs.len(),
    ensures
        volume::walk(m, out, ROOT_DIR_INO, p.dirs[k].0.1) == Ok::<u64, Error>(p.dirs[k].1),
    decreases k,
{
    if k > 0 {
        assert(made(p, k));
        let (up, j) = choose|up: int, j: int| #[trigger] made_by(p, k, up, j);
        lemma_dir_found(p, m, out, up);
        let ps = p.dirs[k].0.1;
        assert(ps =~= ps.drop_last().push(ps.last()));
        lemma_walk_push(m, out, ROOT_DIR_INO, ps.drop_last(), ps.last());
        assert(flush::parent_of(p.ops[j]) == p.dirs[up].1);
    }
}

/// In a sealed image each operation's name leads to its object.
proof fn lemma_op_child(
    p: Pend,
    img: Seq<u8>,
    bs: u32,
    name: Seq<char>,
    d: Draft,
    bl: Seq<Placed>,
    out: Seq<u8>,
    j: int,
)
    requires
        flush::distinct(p.ops),
        flushed(p, img, bs, name, d, bl, out),
        0 <= j < p.ops.len(),
    ensures
        rw::first_open(out) is Ok,
        volume::child(
            rw::first_open(out)->Ok_0,
            out,
            flush::parent_of(p.ops[j]),
            flush::name_of(p.ops[j]),
        ) == Ok::<Option<u64>, Error>(Some((16 + j) as u64)),
{
    let start = crate::apfs::write::new_draft(p.total_blocks, bs, name);
    let n = p.ops.len() as int;
    let op = p.ops[j];
    let dir = flush::parent_of(op);
    records::lemma_inode_key(2, start.records[0].1);
    assert(names::vacant(start, dir, flush::name_of(op)));
    flush::lemma_replay_entered(start, img, p.ops, j, n);
    image::lemma_read_back(out, d, bl);
    names::lemma_child_back(
        out,
        d,
        dir,
        flush::name_of(op),
        (16 + j) as u64,
        flush::dtype_of(op),
    );
}

/// What was created at a path is found there: the path leads to its object, the
/// inode says what was asked for, and the contents of a file or symbolic link
/// are those that were given.
pub proof fn lemma_found_at(
    p: Pend,
    img: Seq<u8>,
    bs: u32,
    name: Seq<char>,
    d: Draft,
    bl: Seq<Placed>,
    out: Seq<u8>,
    j: int,
    k: int,
)
    requires
        coherent(p),
        flush::distinct(p.ops),
        flushed(p, img, bs, name, d, bl, out),
        0 <= j < p.ops.len(),
        0 <= k < p.dirs.len(),
        p.dirs[k].1 == flush::parent_of(p.ops[j]),
    ensures
        ({
            let m = rw::first_open(out)->Ok_0;
            let op = p.ops[j];
            let oid = (16 + j) as u64;
            let data = flush::data_of(op);
            let es = content::extents(m, out, oid)->Ok_0;
            &&& rw::first_open(out) is Ok
            &&& volume::walk(
                m,
                out,
                ROOT_DIR_INO,
                p.dirs[k].0.1.push(flush::name_of(op)),
            ) == Ok::<u64, Error>(oid)
            &&& volume::inode(m, out, oid) == Ok::<Seq<u8>, Error>(
                record::inode_value(
                    oid,
                    flush::parent_of(op),
                    flush::mode_of(op),
                    data.len() as u64,
                    bs,
                    flush::time_of(op),
                ),
            )
            &&& !(op is Dir) ==> {
                &&& volume::stream_of(m, out, oid) == Ok::<(u64, u64), Error>(
                    (data.len() as u64, oid),
                )
                &&& content::extents(m, out, oid) is Ok
                &&& forall|i: int|
                    0 <= i < data.len() ==> #[trigger] content::readable(out, es, bs as int, i)
                &&& content::file_bytes(out, es, bs as int, 0, data.len() as int) == data
            }
        }),
{
    let start = crate::apfs::write::new_draft(p.total_blocks, bs, name);
    let n = p.ops.len() as int;
    let op = p.ops[j];
    let oid = (16 + j) as u64;
    let m = rw::first_open(out)->Ok_0;
    assert forall|i: int|
        #![trigger p.ops[i]]
        0 <= i < p.ops.len() implies volume::child(
        m,
        out,
        flush::parent_of(p.ops[i]),
        flush::name_of(p.ops[i]),
    ) == Ok::<Option<u64>, Error>(Some((16 + i) as u64)) by {
        lemma_op_child(p, img, bs, name, d, bl, out, i);
    }
    lemma_dir_found(p, m, out, k);
    lemma_walk_push(m, out, ROOT_DIR_INO, p.dirs[k].0.1, flush::name_of(op));
    lemma_inode_found(p, img, bs, name, d, bl, out, j);
    if !(op is Dir) {
        flush::lemma_after(start, img, p.ops, j);
        flush::lemma_after(start, img, p.ops, n);
        flush::lemma_replay_stores(start, img, p.ops, j);
        let o = flush::placement(start, img, p.ops, j);
        assert(contents::stores(out, d, o, flush::data_of(op)));
        image::lemma_read_back(out, d, bl);
        contents::lemma_contents_back(out, d, o, flush::data_of(op));
    }
}

/// In a sealed image the inode of each operation's object is found.
proof fn lemma_inode_found(
    p: Pend,
    img: Seq<u8>,
    bs: u32,
    name: Seq<char>,
    d: Draft,
    bl: Seq<Placed>,
    out: Seq<u8>,
    j: int,
)
    requires
        flushed(p, img, bs, name, d, bl, out),
        0 <= j < p.ops.len(),
    ensures
        rw::first_open(out) is Ok,
        volume::inode(rw::first_open(out)->Ok_0, out, (16 + j) as u64) == Ok::<Seq<u8>, Error>(
            record::inode_value(
                (16 + j) as u64,
                flush::parent_of(p.ops[j]),
                flush::mode_of(p.ops[j]),
                flush::data_of(p.ops[j]).len() as u64,
                bs,
                flush::time_of(p.ops[j]),
            ),
        ),
{
    let start = crate::apfs::write::new_draft(p.total_blocks, bs, name);
    let op = p.ops[j];
    let oid = (16 + j) as u64;
    let q = (oid, APFS_TYPE_INODE);
    let v = record::inode_value(
        oid,
        flush::parent_of(op),
        flush::mode_of(op),
        flush::data_of(op).len() as u64,
        bs,
        flush::time_of(op),
    );
    flush::lemma_after(start, img, p.ops, p.ops.len() as int);
    flush::lemma_replay_inode(start, img, p.ops, j);
    records::lemma_unrepeated_sort(d.records);
    image::lemma_read_back(out, d, bl);
    records::lemma_sole(d.records, q, (record::inode_key(oid), v));
    let m = rw::first_open(out)->Ok_0;
    assert(volume::found(m, out, oid, APFS_TYPE_INODE).recs == seq![
        (record::inode_key(oid), v),
    ]);
    fields::lemma_inode_value(
        oid,
        flush::parent_of(op),
        flush::mode_of(op),
        flush::data_of(op).len() as u64,
        bs,
        flush::time_of(op),
    );
}

/// An identifier has sixteen bytes.
proof fn lemma_uuid_len(s: Seq<u8>)
    ensures
        crate::apfs::write::uuid_of(s).len() == 16,
{
    bytes::lemma_le_lens();
}

/// Whether a container that waits can be flushed to the device `img` and read
/// back: names are distinct, sizes and numbers small enough, and the device
/// holds no later superblock.
pub open spec fn flushable(f: Fs, p: Pend, img: Seq<u8>) -> bool {
    let start = crate::apfs::write::new_draft(p.total_blocks, f.bs, f.name);
    &&& f.mode == Mode::Pending(p)
    &&& coherent(p)
    &&& flush::distinct(p.ops)
    &&& 16 + p.ops.len() < KIND_UNIT
    &&& forall|i: int| 0 <= i < p.ops.len() ==> flush::sized(#[trigger] p.ops[i], f.bs)
    &&& image::ready(img, start)
}

/// Flushing writes a sealed image.
pub proof fn lemma_flush_sealed(f: Fs, p: Pend, img: Seq<u8>) -> (r: (Draft, Seq<Placed>))
    requires
        flushable(f, p, img),
        f.flushed(img).2 is Ok,
    ensures
        flushed(p, img, f.bs, f.name, r.0, r.1, f.flushed(img).1),
        rw::first_open(f.flushed(img).1) is Ok,
        f.flushed(img).0.mode == Mode::Read(rw::first_open(f.flushed(img).1)->Ok_0),
{
    let start = crate::apfs::write::new_draft(p.total_blocks, f.bs, f.name);
    let n = p.ops.len() as int;
    let (d, now, _) = pending::replay(start, img, p.ops, n);
    let bl = d.plan()->Ok_0;
    files::lemma_tidy_new(p.total_blocks, f.bs, f.name);
    lemma_uuid_len(crate::text::utf8(f.name) + crate::text::utf8("container"@));
    lemma_uuid_len(crate::text::utf8(f.name) + crate::text::utf8("volume"@));
    records::lemma_inode_key(2, start.records[0].1);
    assert(flush::able(start, img, p.ops));
    flush::lemma_after(start, img, p.ops, n);
    flush::lemma_later(start, img, p.ops, 0, n);
    lemma_plan_size(d);
    lemma_ready_kept(img, start, now, d);
    image::lemma_sealed(now, d, bl);
    let out = block::store_all(now, d.block_size as int, bl).0;
    assert forall|o: contents::Placement, data: Seq<u8>| #[trigger]
        contents::stores(now, d, o, data) implies contents::stores(out, d, o, data) by {
        contents::lemma_stores_written(now, d, bl, o, data);
    }
    (d, bl)
}

/// A new container that can be laid out has blocks of at least 2528 bytes.
proof fn lemma_plan_size(d: Draft)
    requires
        d.fresh,
        d.plan() is Ok,
    ensures
        d.block_size >= 2528,
{
    let t = d.trees()->Ok_0;
    assert(d.manager_blocks(t.2.next) is Ok);
    assert(d.manager_layout(t.2.next).refused() is None);
}

/// Storing contents leaves a device ready.
pub proof fn lemma_ready_kept(img: Seq<u8>, d: Draft, now: Seq<u8>, e: Draft)
    requires
        image::ready(img, d),
        files::carried_on(img, d, now, e),
        d.fresh,
        d.wf(),
        e.fresh,
        e.xid == d.xid,
        e.nxsb_paddr == d.nxsb_paddr,
    ensures
        image::ready(now, e),
{
    let bs = d.block_size as int;
    assert(commit::same_before(img, now, d.next_block as int, bs));
    assert forall|i: int| 0 <= i < 16 && 1 + i != e.nxsb_paddr && !(e.fresh && i == 0) implies
        #[trigger] image::older(now, bs, (1 + i) as u64, e.xid) by {
        commit::lemma_block_before(img, now, d.next_block as int, bs, (1 + i) as u64);
        assert(image::older(img, bs, (1 + i) as u64, d.xid));
    }
}

/// What was created in a new container is there after a flush: its path leads to
/// an object with the mode, time and contents that were asked for.
pub proof fn lemma_flush_back(f: Fs, p: Pend, img: Seq<u8>, j: int, k: int)
    requires
        flushable(f, p, img),
        f.flushed(img).2 is Ok,
        0 <= j < p.ops.len(),
        0 <= k < p.dirs.len(),
        p.dirs[k].1 == flush::parent_of(p.ops[j]),
    ensures
        ({
            let (g, out, _) = f.flushed(img);
            let m = g.mounted()->Ok_0;
            let op = p.ops[j];
            let oid = (16 + j) as u64;
            let data = flush::data_of(op);
            let es = content::extents(m, out, oid)->Ok_0;
            &&& g.mode == Mode::Read(m)
            &&& volume::walk(
                m,
                out,
                ROOT_DIR_INO,
                p.dirs[k].0.1.push(flush::name_of(op)),
            ) == Ok::<u64, Error>(oid)
            &&& volume::inode(m, out, oid) == Ok::<Seq<u8>, Error>(
                record::inode_value(
                    oid,
                    flush::parent_of(op),
                    flush::mode_of(op),
                    data.len() as u64,
                    f.bs,
                    flush::time_of(op),
                ),
            )
            &&& !(op is Dir) ==> {
                &&& volume::stream_of(m, out, oid) == Ok::<(u64, u64), Error>(
                    (data.len() as u64, oid),
                )
                &&& content::extents(m, out, oid) is Ok
                &&& forall|i: int|
                    0 <= i < data.len() ==> #[trigger] content::readable(out, es, f.bs as int, i)
                &&& content::file_bytes(out, es, f.bs as int, 0, data.len() as int) == data
            }
        }),
{
    let (d, bl) = lemma_flush_sealed(f, p, img);
    lemma_found_at(p, img, f.bs, f.name, d, bl, f.flushed(img).1, j, k);
}

} // verus!
