//! A new container can be opened for changes once it is flushed.

use vstd::prelude::*;

use crate::apfs::fs::{Fs, Mode};
use crate::apfs::jrec::KIND_UNIT;
use crate::apfs::mutate;
use crate::apfs::ops;
use crate::apfs::pack::Rec;
use crate::apfs::pending::{self, Op, Pend};
use crate::apfs::rw;
use crate::apfs::write::Draft;

use super::{commit, edits, entries, fields, files, flush, layout, paths, records};

verus! {

/// Where there is no directory record there is no entry.
proof fn lemma_no_entries(rs: Seq<Rec>, dir: u64, name: Seq<char>)
    requires
        forall|r: Rec| #[trigger] rs.contains(r) ==> !entries::is_dir_rec(r),
    ensures
        entries::booked(rs),
        mutate::drec(rs, dir, name) is None,
{
    entries::lemma_drec_in(rs, dir, name);
    if let Some((t, dt)) = mutate::drec(rs, dir, name) {
        let r = ops::drec_rec(dir, name, t, dt);
        records::lemma_drec_key(dir, name, r.1);
        assert(rs.contains(r));
    }
}

/// A new writer's records are orderly, and enter no name.
proof fn lemma_new(total: u64, bs: u32, name: Seq<char>)
    ensures
        ({
            let d = crate::apfs::write::new_draft(total, bs, name);
            &&& edits::orderly(d.records, d.next_oid)
            &&& forall|dir: u64, n: Seq<char>| #[trigger] mutate::drec(d.records, dir, n) is None
        }),
{
    let d = crate::apfs::write::new_draft(total, bs, name);
    let rs = d.records;
    files::lemma_tidy_new(total, bs, name);
    records::lemma_inode_key(2, rs[0].1);
    assert forall|r: Rec| #[trigger] rs.contains(r) implies !entries::is_dir_rec(r) by {
        let i = choose|i: int| 0 <= i < rs.len() && rs[i] == r;
        assert(i == 0);
    }
    lemma_no_entries(rs, 0, Seq::empty());
    assert forall|dir: u64, n: Seq<char>| #[trigger] mutate::drec(rs, dir, n) is None by {
        lemma_no_entries(rs, dir, n);
    }
}

/// An operation under a free name keeps the records orderly, and enters the
/// name.
proof fn lemma_step_orderly(d: Draft, img: Seq<u8>, op: Op, dir: u64, other: Seq<char>)
    requires
        d.wf(),
        d.within(img),
        files::tidy(d),
        edits::orderly(d.records, d.next_oid),
        d.next_oid + 1 < KIND_UNIT,
        flush::data_of(op).len() <= u64::MAX,
        pending::step(d, img, op).2 is Ok,
        pending::step(d, img, op).0.wf(),
        fields::nameable(flush::name_of(op)),
        flush::parent_of(op) < KIND_UNIT,
        mutate::drec(d.records, flush::parent_of(op), flush::name_of(op)) is None,
    ensures
        ({
            let e = pending::step(d, img, op).0;
            &&& edits::orderly(e.records, e.next_oid)
            &&& mutate::drec(e.records, dir, other) == if (dir, other) == (
                flush::parent_of(op),
                flush::name_of(op),
            ) {
                Some((d.next_oid, flush::dtype_of(op)))
            } else {
                mutate::drec(d.records, dir, other)
            }
        }),
{
    let e = pending::step(d, img, op).0;
    let parent = flush::parent_of(op);
    let name = flush::name_of(op);
    let dt = flush::dtype_of(op);
    let more = flush::added(d, op);
    let rest = more.drop_first();
    flush::lemma_step(d, img, op);
    flush::lemma_added(d, op);
    let q = ops::drec_rec(parent, name, d.next_oid, dt);
    let a = d.records.push(q);
    assert(more[0] == q);
    assert(a + rest =~= e.records);
    assert forall|i: int| 0 <= i < rest.len() implies !entries::is_dir_rec(#[trigger] rest[i]) by {
        assert(rest[i] == more[i + 1]);
    }
    entries::lemma_entries_add(a, rest);
    entries::lemma_entry_added(d.records, parent, name, d.next_oid, dt, dir, other);
    entries::lemma_same_entries(a, e.records, dir, other);
    assert forall|x: u64, n: Seq<char>|
        #![trigger mutate::drec(e.records, x, n)]
        mutate::drec(e.records, x, n) matches Some((t, k)) ==> t < e.next_oid by {
        entries::lemma_entry_added(d.records, parent, name, d.next_oid, dt, x, n);
        entries::lemma_same_entries(a, e.records, x, n);
        assert(mutate::drec(d.records, x, n) matches Some((t, k)) ==> t < d.next_oid);
    }
}

/// Operations under distinct names keep the records orderly, and leave the names
/// of those that are still to come free.
proof fn lemma_replay_orderly(d: Draft, img: Seq<u8>, ops: Seq<Op>, i: int)
    requires
        flush::able(d, img, ops),
        flush::distinct(ops),
        edits::orderly(d.records, d.next_oid),
        forall|dir: u64, n: Seq<char>| #[trigger] mutate::drec(d.records, dir, n) is None,
        0 <= i <= ops.len(),
    ensures
        ({
            let e = pending::replay(d, img, ops, i).0;
            &&& edits::orderly(e.records, e.next_oid)
            &&& forall|k: int|
                i <= k < ops.len() ==> mutate::drec(
                    e.records,
                    flush::parent_of(#[trigger] ops[k]),
                    flush::name_of(ops[k]),
                ) is None
        }),
    decreases i,
{
    flush::lemma_after(d, img, ops, i);
    if i > 0 {
        lemma_replay_orderly(d, img, ops, i - 1);
        flush::lemma_after(d, img, ops, i - 1);
        let (e, a, _) = pending::replay(d, img, ops, i - 1);
        let op = ops[i - 1];
        let f = pending::replay(d, img, ops, i).0;
        assert(flush::sized(op, d.block_size));
        assert(f == pending::step(e, a, op).0);
        lemma_step_orderly(e, a, op, 0, Seq::empty());
        assert forall|k: int| i <= k < ops.len() implies mutate::drec(
            f.records,
            flush::parent_of(#[trigger] ops[k]),
            flush::name_of(ops[k]),
        ) is None by {
            lemma_step_orderly(e, a, op, flush::parent_of(ops[k]), flush::name_of(ops[k]));
            assert((flush::parent_of(ops[i - 1]), flush::name_of(ops[i - 1])) != (
                flush::parent_of(ops[k]),
                flush::name_of(ops[k]),
            ));
        }
    }
}

/// Whatever was created under distinct names in a new container: once that is
/// flushed, the device opens for changes, with orderly records.
pub proof fn lemma_flush_live(f: Fs, p: Pend, img: Seq<u8>, g: Fs) -> (r: (Draft, int))
    requires
        paths::flushable(f, p, img),
        f.flushed(img).2 is Ok,
        rw::writable(f.flushed(img).1) is Ok ==> g.mode == Mode::Write(
            rw::writable(f.flushed(img).1)->Ok_0,
        ),
    ensures
        rw::writable(f.flushed(img).1) is Ok,
        edits::live(g, f.flushed(img).1, r.0, r.1),
{
    let start = crate::apfs::write::new_draft(p.total_blocks, f.bs, f.name);
    let out = f.flushed(img).1;
    let (d, bl) = paths::lemma_flush_sealed(f, p, img);
    lemma_new(p.total_blocks, f.bs, f.name);
    lemma_replay_orderly(start, img, p.ops, p.ops.len() as int);
    commit::lemma_sealed_settled(out, d, bl);
    (d, layout::end(d))
}

} // verus!
