//! Operations that wait are found in the image once they are flushed.

use vstd::prelude::*;

use crate::apfs::jrec::{APFS_TYPE_DIR_REC, APFS_TYPE_INODE, DT_DIR, DT_LNK, DT_REG, KIND_UNIT};
use crate::apfs::pack::{self, Rec};
use crate::apfs::pending::{self, Op};
use crate::apfs::record;
use crate::apfs::write::Draft;
use crate::bytes;
use crate::error::Error;
use crate::num;
use crate::text;

use super::{contents, fields, files, names, records, tree};

verus! {

/// Directory in which an operation creates.
pub open spec fn parent_of(op: Op) -> u64 {
    match op {
        Op::Dir { parent, .. } => parent,
        Op::File { parent, .. } => parent,
        Op::Link { parent, .. } => parent,
    }
}

/// Name that an operation creates.
pub open spec fn name_of(op: Op) -> Seq<char> {
    match op {
        Op::Dir { name, .. } => name,
        Op::File { name, .. } => name,
        Op::Link { name, .. } => name,
    }
}

/// Type code of what an operation creates.
pub open spec fn dtype_of(op: Op) -> u16 {
    match op {
        Op::Dir { .. } => DT_DIR,
        Op::File { .. } => DT_REG,
        Op::Link { .. } => DT_LNK,
    }
}

/// Mode of what an operation creates.
pub open spec fn mode_of(op: Op) -> u16 {
    match op {
        Op::Dir { mode, .. } => (0x4000 + mode % 0x1000) as u16,
        Op::File { mode, .. } => (0x8000 + mode % 0x1000) as u16,
        Op::Link { mode, .. } => (0xa000 + mode % 0x1000) as u16,
    }
}

/// Time of what an operation creates.
pub open spec fn time_of(op: Op) -> u64 {
    match op {
        Op::Dir { time, .. } => time,
        Op::File { time, .. } => time,
        Op::Link { time, .. } => time,
    }
}

/// Contents of what an operation creates.
pub open spec fn data_of(op: Op) -> Seq<u8> {
    match op {
        Op::Dir { .. } => Seq::empty(),
        Op::File { data, .. } => data,
        Op::Link { target, .. } => text::utf8(target),
    }
}

/// Whether the contents of an operation have a length that an extent can tell.
pub open spec fn sized(op: Op, bs: u32) -> bool {
    &&& data_of(op).len() <= u64::MAX
    &&& num::div_up(data_of(op).len() as int, bs as int) * bs < 0x0100_0000_0000_0000
}

/// The records that an operation adds.
pub open spec fn added(d: Draft, op: Op) -> Seq<Rec> {
    let n = data_of(op).len() as u64;
    let first = seq![d.drec(parent_of(op), name_of(op), dtype_of(op))];
    let last = seq![d.inode(parent_of(op), mode_of(op), n, time_of(op))];
    if n > 0 {
        first + (record::extent_records(d.next_oid, 0, n, d.next_block, d.block_size) + last)
    } else {
        first + last
    }
}

/// What an operation does to a writer, where it succeeds.
pub proof fn lemma_step(d: Draft, img: Seq<u8>, op: Op)
    requires
        d.wf(),
        d.within(img),
        files::tidy(d),
        d.next_oid + 1 < KIND_UNIT,
        data_of(op).len() <= u64::MAX,
        pending::step(d, img, op).2 is Ok,
    ensures
        ({
            let (e, out, r) = pending::step(d, img, op);
            &&& e.records == d.records + added(d, op)
            &&& files::tidy(e)
            &&& files::carried_on(img, d, out, e)
            &&& e.next_oid == d.next_oid + 1
            &&& e.total_blocks == d.total_blocks
            &&& e.next_block <= e.total_blocks
            &&& e.xid == d.xid
            &&& e.fresh == d.fresh
            &&& e.nxsb_paddr == d.nxsb_paddr
            &&& e.name == d.name
            &&& e.container_uuid == d.container_uuid
            &&& e.volume_uuid == d.volume_uuid
        }),
{
    let n = data_of(op).len() as u64;
    match op {
        Op::Dir { parent, name, mode, time } => {
            files::lemma_dir_added(img, d, parent, name, mode, time);
            let e = pending::step(d, img, op).0;
            assert(e.records =~= d.records + added(d, op));
        },
        Op::File { parent, name, mode, time, data } => {
            files::lemma_file_added(img, d, parent, name, mode, data, n, time);
            let e = pending::step(d, img, op).0;
            assert(e.records =~= d.records + added(d, op));
        },
        Op::Link { parent, name, mode, time, target } => {
            files::lemma_link_added(img, d, parent, name, mode, target, time);
            let e = pending::step(d, img, op).0;
            assert(e.records =~= d.records + added(d, op));
        },
    }
}

/// The records that an operation adds: one directory record first, and the inode
/// of the next object.
pub proof fn lemma_added(d: Draft, op: Op)
    requires
        d.wf(),
        files::tidy(d),
    ensures
        ({
            let rs = added(d, op);
            let v = record::inode_value(
                d.next_oid,
                parent_of(op),
                mode_of(op),
                data_of(op).len() as u64,
                d.block_size,
                time_of(op),
            );
            &&& 2 <= rs.len() <= 4
            &&& rs[0] == d.drec(parent_of(op), name_of(op), dtype_of(op))
            &&& tree::owner(rs[0]) == (
                (parent_of(op) % KIND_UNIT) as u64,
                APFS_TYPE_DIR_REC,
            )
            &&& forall|i: int|
                1 <= i < rs.len() ==> tree::owner(#[trigger] rs[i]).1 != APFS_TYPE_DIR_REC
            &&& pack::keyed(rs)
            &&& tree::those(rs, (d.next_oid, APFS_TYPE_INODE)) == seq![
                (record::inode_key(d.next_oid), v),
            ]
        }),
{
    let n = data_of(op).len() as u64;
    let rs = added(d, op);
    let i = d.inode(parent_of(op), mode_of(op), n, time_of(op));
    let q = d.drec(parent_of(op), name_of(op), dtype_of(op));
    let p = (d.next_oid, APFS_TYPE_INODE);
    records::lemma_drec_key(parent_of(op), name_of(op), q.1);
    records::lemma_inode_key(d.next_oid, i.1);
    if n > 0 {
        files::lemma_stream_records(
            d,
            parent_of(op),
            name_of(op),
            dtype_of(op),
            n,
            i.1,
        );
        records::lemma_extent_key(
            d.next_oid,
            0,
            record::extent_record_value(n, d.next_block, d.block_size),
        );
        records::lemma_dstream_key(d.next_oid, bytes::zeros(4));
        contents::lemma_pick_four(rs, p, 3);
    } else {
        assert(rs =~= seq![q] + seq![i]);
        records::lemma_those_add(seq![q], seq![i], p);
        records::lemma_those_one(q, p);
        records::lemma_those_one(i, p);
        assert(tree::those(rs, p) =~= seq![i]);
    }
}

/// What holds after the first `i` operations were carried out on a writer.
pub open spec fn after(d: Draft, img: Seq<u8>, ops: Seq<Op>, i: int) -> bool {
    let (e, out, r) = pending::replay(d, img, ops, i);
    &&& r is Ok
    &&& e.wf()
    &&& e.within(out)
    &&& files::tidy(e)
    &&& e.next_oid == d.next_oid + i
    &&& e.block_size == d.block_size
    &&& e.total_blocks == d.total_blocks
    &&& e.xid == d.xid
    &&& e.fresh == d.fresh
    &&& e.nxsb_paddr == d.nxsb_paddr
    &&& e.name == d.name
    &&& out.len() == img.len()
    &&& e.records.len() <= d.records.len() + 4 * i
}

/// Whether a writer on a device can carry out the operations.
pub open spec fn able(d: Draft, img: Seq<u8>, ops: Seq<Op>) -> bool {
    &&& d.wf()
    &&& d.within(img)
    &&& files::tidy(d)
    &&& d.next_oid > 0
    &&& d.next_oid + ops.len() < KIND_UNIT
    &&& forall|i: int| 0 <= i < ops.len() ==> sized(#[trigger] ops[i], d.block_size)
    &&& pending::replay(d, img, ops, ops.len() as int).2 is Ok
}

/// Every first part of operations that succeed succeeds, and keeps the writer
/// in order.
pub proof fn lemma_after(d: Draft, img: Seq<u8>, ops: Seq<Op>, i: int)
    requires
        able(d, img, ops),
        0 <= i <= ops.len(),
    ensures
        after(d, img, ops, i),
    decreases i,
{
    if pending::replay(d, img, ops, i).2 is Err {
        pending::lemma_replay_err(d, img, ops, i, ops.len() as int);
    }
    if i > 0 {
        lemma_after(d, img, ops, i - 1);
        let (e, out, _) = pending::replay(d, img, ops, i - 1);
        assert(sized(ops[i - 1], d.block_size));
        lemma_step(e, out, ops[i - 1]);
        lemma_added(e, ops[i - 1]);
        let f = pending::replay(d, img, ops, i).0;
        assert forall|j: int| 0 <= j < f.records.len() implies (#[trigger] f.records[j]).0.len()
            >= 8 by {
            let n = e.records.len() as int;
            if j < n {
                assert(f.records[j] == e.records[j]);
            } else {
                assert(f.records[j] == added(e, ops[i - 1])[j - n]);
            }
        }
    }
}

/// Later operations carry on from earlier ones.
pub proof fn lemma_later(d: Draft, img: Seq<u8>, ops: Seq<Op>, i: int, n: int)
    requires
        able(d, img, ops),
        0 <= i <= n <= ops.len(),
    ensures
        ({
            let (e, a, _) = pending::replay(d, img, ops, i);
            let (f, b, _) = pending::replay(d, img, ops, n);
            files::carried_on(a, e, b, f)
        }),
    decreases n - i,
{
    let (e, a, _) = pending::replay(d, img, ops, i);
    lemma_after(d, img, ops, i);
    if i < n {
        lemma_later(d, img, ops, i, n - 1);
        lemma_after(d, img, ops, n - 1);
        lemma_after(d, img, ops, n);
        let (f, b, _) = pending::replay(d, img, ops, n - 1);
        assert(sized(ops[n - 1], d.block_size));
        lemma_step(f, b, ops[n - 1]);
        let (g, c, _) = pending::replay(d, img, ops, n);
        files::lemma_carried_trans(a, e, b, f, c, g);
    } else {
        assert(e.records.take(e.records.len() as int) =~= e.records);
    }
}

/// Where the contents of operation `j` go.
pub open spec fn placement(d: Draft, img: Seq<u8>, ops: Seq<Op>, j: int) -> contents::Placement {
    contents::next_placement(
        pending::replay(d, img, ops, j).0,
        parent_of(ops[j]),
        mode_of(ops[j]),
        time_of(ops[j]),
    )
}

/// A file or symbolic link that an operation created has its contents once all
/// operations are carried out.
pub proof fn lemma_replay_stores(d: Draft, img: Seq<u8>, ops: Seq<Op>, j: int)
    requires
        able(d, img, ops),
        0 <= j < ops.len(),
        !(ops[j] is Dir),
    ensures
        ({
            let (e, out, _) = pending::replay(d, img, ops, ops.len() as int);
            contents::stores(out, e, placement(d, img, ops, j), data_of(ops[j]))
        }),
{
    let n = ops.len() as int;
    lemma_after(d, img, ops, j);
    lemma_after(d, img, ops, j + 1);
    lemma_after(d, img, ops, n);
    lemma_later(d, img, ops, j + 1, n);
    let (e, a, _) = pending::replay(d, img, ops, j);
    let (f, b, _) = pending::replay(d, img, ops, j + 1);
    let (g, c, _) = pending::replay(d, img, ops, n);
    let op = ops[j];
    let m = data_of(op).len() as u64;
    assert(sized(op, d.block_size));
    assert(f == pending::step(e, a, op).0 && b == pending::step(e, a, op).1);
    match op {
        Op::Dir { parent, name, mode, time } => {},
        Op::File { parent, name, mode, time, data } => {
            contents::lemma_file_stored(a, e, parent, name, mode, data, m, time);
            assert(crate::apfs::write::padded(data, m as int, m as int) =~= data);
            assert(b == files::stream_image(
                a,
                e,
                data,
                m,
                e.file_added(parent, name, mode, m, time).1,
            ));
        },
        Op::Link { parent, name, mode, time, target } => {
            contents::lemma_link_stored(a, e, parent, name, mode, target, time);
            lemma_link_image(a, e, op);
        },
    }
    contents::lemma_stores_kept(b, f, c, g, placement(d, img, ops, j), data_of(op));
}

/// The target of a symbolic link that was created is not empty.
proof fn lemma_link_image(img: Seq<u8>, d: Draft, op: Op)
    requires
        op is Link,
        data_of(op).len() <= u64::MAX,
        pending::step(d, img, op).2 is Ok,
    ensures
        ({
            let b = data_of(op);
            pending::step(d, img, op).1 == files::stream_image(
                img,
                d,
                b,
                b.len() as u64,
                pending::step(d, img, op).2,
            )
        }),
{
}

/// The inode of what an operation created is found once all operations are
/// carried out.
pub proof fn lemma_replay_inode(d: Draft, img: Seq<u8>, ops: Seq<Op>, j: int)
    requires
        able(d, img, ops),
        0 <= j < ops.len(),
    ensures
        ({
            let e = pending::replay(d, img, ops, ops.len() as int).0;
            let oid = (d.next_oid + j) as u64;
            tree::those(e.records, (oid, APFS_TYPE_INODE)) == seq![
                (
                    record::inode_key(oid),
                    record::inode_value(
                        oid,
                        parent_of(ops[j]),
                        mode_of(ops[j]),
                        data_of(ops[j]).len() as u64,
                        d.block_size,
                        time_of(ops[j]),
                    ),
                ),
            ]
        }),
{
    let n = ops.len() as int;
    lemma_after(d, img, ops, j);
    lemma_after(d, img, ops, j + 1);
    lemma_later(d, img, ops, j + 1, n);
    let (e, a, _) = pending::replay(d, img, ops, j);
    let (f, b, _) = pending::replay(d, img, ops, j + 1);
    let (g, c, _) = pending::replay(d, img, ops, n);
    let p = (e.next_oid, APFS_TYPE_INODE);
    assert(sized(ops[j], d.block_size));
    lemma_step(e, a, ops[j]);
    lemma_added(e, ops[j]);
    contents::lemma_not_yet(e, APFS_TYPE_INODE);
    records::lemma_those_add(e.records, added(e, ops[j]), p);
    contents::lemma_no_more(f, g, e.next_oid, APFS_TYPE_INODE);
    assert(tree::those(f.records, p) =~= tree::those(added(e, ops[j]), p));
}

// ---- names ----

/// Whether the operations create no name twice, and each one under a name that
/// reads back.
pub open spec fn distinct(ops: Seq<Op>) -> bool {
    &&& forall|i: int|
        0 <= i < ops.len() ==> fields::nameable(name_of(#[trigger] ops[i])) && parent_of(ops[i])
            < KIND_UNIT
    &&& forall|i: int, j: int|
        0 <= i < j < ops.len() ==> (parent_of(#[trigger] ops[i]), name_of(ops[i])) != (
            parent_of(#[trigger] ops[j]),
            name_of(ops[j]),
        )
}

/// An operation leaves other names vacant.
proof fn lemma_step_vacant(d: Draft, e: Draft, op: Op, dir: u64, name: Seq<char>)
    requires
        d.wf(),
        files::tidy(d),
        names::vacant(d, dir, name),
        e.records == d.records + added(d, op),
        fields::nameable(name_of(op)),
        parent_of(op) < KIND_UNIT,
        (parent_of(op), name_of(op)) != (dir, name),
    ensures
        names::vacant(e, dir, name),
{
    let more = added(d, op);
    let n = d.records.len() as int;
    lemma_added(d, op);
    fields::lemma_drec_name(parent_of(op), name_of(op));
    let s = e.records;
    assert forall|i: int|
        0 <= i < s.len() && tree::owner(#[trigger] s[i]) == (
            dir,
            APFS_TYPE_DIR_REC,
        ) implies names::name_of(s[i]) is Ok && names::name_of(s[i]) != Ok::<Seq<char>, Error>(
        name,
    ) by {
        if i < n {
            assert(s[i] == d.records[i]);
        } else {
            assert(s[i] == more[i - n]);
        }
    }
}

/// A name that no operation creates stays vacant.
proof fn lemma_vacant(
    d: Draft,
    img: Seq<u8>,
    ops: Seq<Op>,
    i: int,
    dir: u64,
    name: Seq<char>,
)
    requires
        able(d, img, ops),
        distinct(ops),
        0 <= i <= ops.len(),
        names::vacant(d, dir, name),
        forall|k: int|
            0 <= k < i ==> (parent_of(#[trigger] ops[k]), name_of(ops[k])) != (dir, name),
    ensures
        names::vacant(pending::replay(d, img, ops, i).0, dir, name),
    decreases i,
{
    if i > 0 {
        lemma_vacant(d, img, ops, i - 1, dir, name);
        lemma_after(d, img, ops, i - 1);
        lemma_after(d, img, ops, i);
        let (e, a, _) = pending::replay(d, img, ops, i - 1);
        let op = ops[i - 1];
        assert(sized(op, d.block_size));
        lemma_step(e, a, op);
        lemma_step_vacant(e, pending::replay(d, img, ops, i).0, op, dir, name);
    }
}

/// Each operation's name leads to its object once the first `n` operations are
/// carried out.
pub proof fn lemma_replay_entered(d: Draft, img: Seq<u8>, ops: Seq<Op>, j: int, n: int)
    requires
        able(d, img, ops),
        distinct(ops),
        0 <= j < n <= ops.len(),
        names::vacant(d, parent_of(ops[j]), name_of(ops[j])),
    ensures
        names::entered(
            pending::replay(d, img, ops, n).0,
            parent_of(ops[j]),
            name_of(ops[j]),
            (d.next_oid + j) as u64,
            dtype_of(ops[j]),
        ),
    decreases n,
{
    let dir = parent_of(ops[j]);
    let name = name_of(ops[j]);
    lemma_after(d, img, ops, n - 1);
    lemma_after(d, img, ops, n);
    let (e, a, _) = pending::replay(d, img, ops, n - 1);
    let f = pending::replay(d, img, ops, n).0;
    let op = ops[n - 1];
    assert(sized(op, d.block_size));
    lemma_step(e, a, op);
    lemma_added(e, op);
    if n == j + 1 {
        lemma_vacant(d, img, ops, j, dir, name);
        names::lemma_entered_new(e, f, added(e, op), dir, name, dtype_of(op));
    } else {
        lemma_replay_entered(d, img, ops, j, n - 1);
        fields::lemma_drec_name(parent_of(op), name_of(op));
        let more = added(e, op);
        assert((parent_of(ops[j]), name_of(ops[j])) != (parent_of(ops[n - 1]), name_of(ops[n - 1])));
        assert forall|i: int|
            0 <= i < more.len() && tree::owner(#[trigger] more[i]) == (
                dir,
                APFS_TYPE_DIR_REC,
            ) implies names::name_of(more[i]) is Ok && names::name_of(more[i]) != Ok::<
            Seq<char>,
            Error,
        >(name) by {}
        names::lemma_entered_kept(
            e,
            f,
            more,
            dir,
            name,
            (d.next_oid + j) as u64,
            dtype_of(ops[j]),
        );
    }
}

} // verus!
