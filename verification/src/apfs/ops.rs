//! The changes that can be made to a volume, as changes to its records.

use vstd::prelude::*;

use crate::apfs::fstree::DrecKeyLayout;
use crate::apfs::jrec::DT_DIR;
use crate::apfs::mutate::{
    self, add_link, drec_count_for, drop_link, find_drec, remove_all_records_for_oid, remove_drec,
    set_parent, unlink_inode,
};
use crate::apfs::pack::{self, Rec};
use crate::apfs::record::{
    self, build_drec_record, build_file_extent_records, build_inode_record, FsRecord,
};
use crate::apfs::rw::{self, Edit, Live, MutatorCx};
use crate::block::MemoryBackend;
use crate::bytes;
use crate::error::{Error, Result};
use crate::num;
use crate::text;

verus! {

/// The directory record of `name` in `parent`.
pub open spec fn drec_rec(parent: u64, name: Seq<char>, target: u64, dtype: u16) -> Rec {
    (
        record::drec_key(parent, name, DrecKeyLayout::Plain, false),
        record::drec_value(target, dtype),
    )
}

/// Whether `name` fits in a directory key.
pub open spec fn name_fits(name: Seq<char>) -> bool {
    text::utf8(name).len() + 1 <= 0xffff
}

/// The records without the entry `name` of directory `parent`. An object goes
/// with its last entry; a directory must be empty.
pub open spec fn removed(rs: Seq<Rec>, parent: u64, name: Seq<char>) -> Result<Seq<Rec>> {
    match mutate::drec(rs, parent, name) {
        None => Err(Error::InvalidArgument),
        Some((t, dtype)) => {
            let a = mutate::without_drec(rs, parent, name);
            if dtype == DT_DIR {
                if mutate::drec_count(rs, t) > 0 {
                    Err(Error::InvalidArgument)
                } else {
                    Ok(
                        mutate::patched(
                            mutate::without_object(a, t),
                            parent,
                            |v: Seq<u8>| mutate::fewer_links(v),
                        ),
                    )
                }
            } else {
                let b = mutate::patched(a, t, |v: Seq<u8>| mutate::unlinked(v));
                let c = if mutate::last_link(a, t) {
                    mutate::without_object(b, t)
                } else {
                    b
                };
                Ok(mutate::patched(c, parent, |v: Seq<u8>| mutate::fewer_links(v)))
            }
        },
    }
}

/// The records with the entry `on` of directory `op` moved to the name `nn` in
/// directory `np`.
pub open spec fn renamed(rs: Seq<Rec>, op: u64, on: Seq<char>, np: u64, nn: Seq<char>) -> Result<
    Seq<Rec>,
> {
    match mutate::drec(rs, op, on) {
        None => Err(Error::InvalidArgument),
        Some((t, dtype)) => if mutate::drec(rs, np, nn) is Some || !name_fits(nn) {
            Err(Error::InvalidArgument)
        } else {
            let a = mutate::without_drec(rs, op, on).push(drec_rec(np, nn, t, dtype));
            if op == np {
                Ok(a)
            } else {
                let b = mutate::patched(a, op, |v: Seq<u8>| mutate::fewer_links(v));
                let c = mutate::patched(b, np, |v: Seq<u8>| mutate::more_links(v));
                if dtype == DT_DIR {
                    Ok(mutate::patched(c, t, |v: Seq<u8>| mutate::reparented(v, np)))
                } else {
                    Ok(c)
                }
            }
        },
    }
}

/// The records with one more entry, `name` in `parent`, for object `t`.
pub open spec fn linked(rs: Seq<Rec>, t: u64, dtype: u16, parent: u64, name: Seq<char>) -> Result<
    Seq<Rec>,
> {
    if mutate::drec(rs, parent, name) is Some || !name_fits(name) {
        Err(Error::InvalidArgument)
    } else {
        let a = rs.push(drec_rec(parent, name, t, dtype));
        let b = mutate::patched(a, t, |v: Seq<u8>| mutate::more_links(v));
        Ok(mutate::patched(b, parent, |v: Seq<u8>| mutate::more_links(v)))
    }
}

/// What is created.
pub struct Newcomer {
    pub parent: u64,
    pub dtype: u16,
    pub mode: u16,
    pub time: u64,
}

/// A change that adds the object `n` named `name` with `size` bytes of
/// contents, which take the next free blocks. The counters of files,
/// directories and links are not touched.
pub open spec fn created(l: Live, e: Edit, n: Newcomer, name: Seq<char>, size: u64) -> Result<
    Edit,
> {
    if mutate::drec(e.recs, n.parent, name) is Some || !name_fits(name) || (size > 0
        && !l.has_room(e.bump, size)) {
        Err(Error::InvalidArgument)
    } else {
        let oid = e.next_oid;
        let stream = if size > 0 {
            record::extent_records(oid, 0, size, e.bump, l.m.bs)
        } else {
            Seq::empty()
        };
        let a = e.recs + stream + seq![
            (
                record::inode_key(oid),
                record::inode_value(oid, n.parent, n.mode, size, l.m.bs, n.time),
            ),
            drec_rec(n.parent, name, oid, n.dtype),
        ];
        Ok(
            Edit {
                recs: mutate::patched(a, n.parent, |v: Seq<u8>| mutate::more_links(v)),
                bump: if size > 0 {
                    (e.bump + num::div_up(size as int, l.m.bs as int)) as u64
                } else {
                    e.bump
                },
                next_oid: rw::bumped(oid),
                ..e
            },
        )
    }
}

/// The device after `data` was stored from block `paddr` on; `None` where it
/// does not fit.
pub open spec fn data_stored(img: Seq<u8>, bs: u32, paddr: u64, data: Seq<u8>) -> Option<Seq<u8>> {
    let n = num::div_up(data.len() as int, bs as int) * bs;
    if data.len() == 0 {
        Some(img)
    } else if paddr * bs + n > img.len() {
        None
    } else {
        Some(
            bytes::put(
                img,
                paddr * bs,
                crate::apfs::write::padded(data, data.len() as int, n),
            ),
        )
    }
}

/// A change that gives object `oid` the contents `data`, in newly allocated
/// blocks.
pub open spec fn rewritten(l: Live, e: Edit, oid: u64, size: u64) -> Result<Edit> {
    let a = mutate::patched_all(
        mutate::without_stream(e.recs, oid),
        oid,
        |v: Seq<u8>| mutate::resized(v, size, l.m.bs as u64),
    );
    if size == 0 {
        Ok(Edit { recs: a, ..e })
    } else if !l.has_room(e.bump, size) {
        Err(Error::InvalidArgument)
    } else {
        Ok(
            Edit {
                recs: a + record::extent_records(oid, 0, size, e.bump, l.m.bs),
                bump: (e.bump + num::div_up(size as int, l.m.bs as int)) as u64,
                ..e
            },
        )
    }
}

/// Append a record.
pub(crate) fn push_rec(records: &mut Vec<FsRecord>, rec: FsRecord)
    requires
        pack::keyed(record::recs(old(records)@)),
        rec@.0.len() >= 8,
    ensures
        record::recs(final(records)@) == record::recs(old(records)@).push(rec@),
        pack::keyed(record::recs(final(records)@)),
{
    let ghost before = records@;
    let ghost rv = rec@;
    records.push(rec);
    proof {
        assert(record::recs(records@) =~= record::recs(before).push(rv));
    }
}

proof fn lemma_drec_keyed(parent: u64, name: Seq<char>)
    ensures
        record::drec_key(parent, name, DrecKeyLayout::Plain, false).len() >= 8,
{
    bytes::lemma_le_lens();
}

/// Remove the entry `name` of directory `parent`.
pub fn remove_entry(records: &mut Vec<FsRecord>, parent: u64, name: &str) -> (r: Result<()>)
    requires
        pack::keyed(record::recs(old(records)@)),
    ensures
        pack::keyed(record::recs(final(records)@)),
        match removed(record::recs(old(records)@), parent, name@) {
            Ok(rs) => r is Ok && record::recs(final(records)@) == rs,
            Err(e) => r == Err::<(), Error>(e),
        },
{
    let (t, dtype) = match find_drec(records, parent, name) {
        None => {
            return Err(Error::InvalidArgument);
        },
        Some(p) => p,
    };
    if dtype == DT_DIR && drec_count_for(records, t) > 0 {
        return Err(Error::InvalidArgument);
    }
    remove_drec(records, parent, name);
    if dtype == DT_DIR {
        remove_all_records_for_oid(records, t);
        drop_link(records, parent);
        return Ok(());
    }
    let last = unlink_inode(records, t);
    if last {
        remove_all_records_for_oid(records, t);
    }
    drop_link(records, parent);
    Ok(())
}

/// Move an entry.
pub fn rename_entry(
    records: &mut Vec<FsRecord>,
    old_parent: u64,
    old_name: &str,
    new_parent: u64,
    new_name: &str,
) -> (r: Result<()>)
    requires
        pack::keyed(record::recs(old(records)@)),
    ensures
        pack::keyed(record::recs(final(records)@)),
        match renamed(
            record::recs(old(records)@),
            old_parent,
            old_name@,
            new_parent,
            new_name@,
        ) {
            Ok(rs) => r is Ok && record::recs(final(records)@) == rs,
            Err(e) => r == Err::<(), Error>(e),
        },
{
    let (t, dtype) = match find_drec(records, old_parent, old_name) {
        None => {
            return Err(Error::InvalidArgument);
        },
        Some(p) => p,
    };
    if find_drec(records, new_parent, new_name).is_some() {
        return Err(Error::InvalidArgument);
    }
    let rec = build_drec_record(new_parent, new_name, t, dtype, DrecKeyLayout::Plain, false)?;
    remove_drec(records, old_parent, old_name);
    proof {
        lemma_drec_keyed(new_parent, new_name@);
    }
    push_rec(records, rec);
    if old_parent != new_parent {
        drop_link(records, old_parent);
        add_link(records, new_parent);
        if dtype == DT_DIR {
            set_parent(records, t, new_parent);
        }
    }
    Ok(())
}

/// Add an entry for an object that is there already.
pub fn link_entry(
    records: &mut Vec<FsRecord>,
    target: u64,
    dtype: u16,
    parent: u64,
    name: &str,
) -> (r: Result<()>)
    requires
        pack::keyed(record::recs(old(records)@)),
    ensures
        pack::keyed(record::recs(final(records)@)),
        match linked(record::recs(old(records)@), target, dtype, parent, name@) {
            Ok(rs) => r is Ok && record::recs(final(records)@) == rs,
            Err(e) => r == Err::<(), Error>(e),
        },
{
    if find_drec(records, parent, name).is_some() {
        return Err(Error::InvalidArgument);
    }
    let rec = build_drec_record(parent, name, target, dtype, DrecKeyLayout::Plain, false)?;
    proof {
        lemma_drec_keyed(parent, name@);
    }
    push_rec(records, rec);
    add_link(records, target);
    add_link(records, parent);
    Ok(())
}

/// Store `data` and push the records of its extent.
fn push_stream(
    cx: &mut MutatorCx,
    dev: &mut MemoryBackend,
    oid: u64,
    data: &[u8],
    Ghost(l): Ghost<Live>,
) -> (r: Result<()>)
    requires
        old(cx).of(l),
        data@.len() > 0,
    ensures
        ({
            let e = old(cx)@;
            let size = data@.len() as u64;
            if !l.has_room(e.bump, size) {
                &&& r == Err::<(), Error>(Error::InvalidArgument)
                &&& final(dev)@ == old(dev)@
            } else {
                match data_stored(old(dev)@, l.m.bs, e.bump, data@) {
                    None => {
                        &&& r == Err::<(), Error>(Error::OutOfBounds)
                        &&& final(dev)@ == old(dev)@
                    },
                    Some(img) => {
                        &&& r is Ok
                        &&& final(dev)@ == img
                        &&& final(cx).of(l)
                        &&& final(cx)@ == (Edit {
                            recs: e.recs + record::extent_records(oid, 0, size, e.bump, l.m.bs),
                            bump: (e.bump + num::div_up(size as int, l.m.bs as int)) as u64,
                            ..e
                        })
                        &&& num::div_up(size as int, l.m.bs as int) * l.m.bs <= u64::MAX
                    },
                }
            }
        }),
{
    let size: u64 = data.len() as u64;
    let ghost e = cx@;
    let paddr: u64 = cx.alloc_extent(size)?;
    let held: usize = dev.as_slice().len();
    let res = cx.write_extent_bytes(dev, paddr, data);
    if let Err(x) = res {
        return Err(x);
    }
    proof {
        assert(paddr * l.m.bs >= 0) by (nonlinear_arith);
        bytes::lemma_le_lens();
    }
    let (fe, ds) = build_file_extent_records(oid, 0, size, paddr, cx.block_size);
    proof {
        let er = record::extent_records(oid, 0, size, paddr, l.m.bs);
        assert(er[0] == fe@ && er[1] == ds@);
    }
    let ghost rf = fe@;
    let ghost rd = ds@;
    push_rec(&mut cx.records, fe);
    push_rec(&mut cx.records, ds);
    proof {
        let er = record::extent_records(oid, 0, size, paddr, l.m.bs);
        assert(e.recs.push(rf).push(rd) =~= e.recs + er);
    }
    Ok(())
}

/// Add a new object with the contents `data`.
pub(crate) fn create_entry(
    cx: &mut MutatorCx,
    dev: &mut MemoryBackend,
    n: &Newcomer,
    name: &str,
    data: &[u8],
    Ghost(l): Ghost<Live>,
) -> (r: Result<()>)
    requires
        old(cx).of(l),
    ensures
        match created(l, old(cx)@, *n, name@, data@.len() as u64) {
            Err(e) => r == Err::<(), Error>(e) && final(dev)@ == old(dev)@,
            Ok(edit) => match data_stored(old(dev)@, l.m.bs, old(cx)@.bump, data@) {
                None => {
                    &&& r == Err::<(), Error>(Error::OutOfBounds)
                    &&& final(dev)@ == old(dev)@
                },
                Some(img) => {
                    &&& r is Ok
                    &&& final(dev)@ == img
                    &&& final(cx)@ == edit
                    &&& final(cx).of(l)
                },
            },
        },
{
    let size: u64 = data.len() as u64;
    let ghost e = cx@;
    if find_drec(&cx.records, n.parent, name).is_some() {
        return Err(Error::InvalidArgument);
    }
    let oid: u64 = cx.alloc_oid();
    let drec = build_drec_record(n.parent, name, oid, n.dtype, DrecKeyLayout::Plain, false)?;
    proof {
        lemma_drec_keyed(n.parent, name@);
        bytes::lemma_le_lens();
        assert(num::div_up(0, l.m.bs as int) * l.m.bs == 0) by (nonlinear_arith)
            requires
                l.m.bs > 0,
                num::div_up(0, l.m.bs as int) == (0 + l.m.bs - 1) / (l.m.bs as int),
        ;
    }
    if size > 0 {
        push_stream(cx, dev, oid, data, Ghost(l))?;
    }
    let ghost mid = cx@.recs;
    let inode = build_inode_record(oid, n.parent, n.mode, size, cx.block_size, n.time);
    let ghost ri = inode@;
    let ghost rd = drec@;
    push_rec(&mut cx.records, inode);
    push_rec(&mut cx.records, drec);
    proof {
        assert(e.recs + Seq::<Rec>::empty() =~= e.recs);
        assert(mid.push(ri).push(rd) =~= mid + seq![ri, rd]);
    }
    add_link(&mut cx.records, n.parent);
    Ok(())
}

/// Give object `oid` the contents `data`.
pub(crate) fn rewrite_contents(
    cx: &mut MutatorCx,
    dev: &mut MemoryBackend,
    oid: u64,
    data: &[u8],
    Ghost(l): Ghost<Live>,
) -> (r: Result<()>)
    requires
        old(cx).of(l),
        num::div_up(data@.len() as int, l.m.bs as int) * l.m.bs <= u64::MAX,
    ensures
        match rewritten(l, old(cx)@, oid, data@.len() as u64) {
            Err(e) => r == Err::<(), Error>(e) && final(dev)@ == old(dev)@,
            Ok(edit) => match data_stored(old(dev)@, l.m.bs, old(cx)@.bump, data@) {
                None => {
                    &&& r == Err::<(), Error>(Error::OutOfBounds)
                    &&& final(dev)@ == old(dev)@
                },
                Some(img) => {
                    &&& r is Ok
                    &&& final(dev)@ == img
                    &&& final(cx)@ == edit
                    &&& final(cx).of(l)
                },
            },
        },
{
    let size: u64 = data.len() as u64;
    mutate::remove_stream_records(&mut cx.records, oid);
    mutate::patch_inode_dstream_size(&mut cx.records, oid, size, cx.block_size as u64);
    if size > 0 {
        push_stream(cx, dev, oid, data, Ghost(l))?;
    }
    Ok(())
}

} // verus!
