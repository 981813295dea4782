//! Attributes: what is told of an object is what it was made with or set to, and
//! a listing and the attributes of an entry tell the same kind.

use vstd::prelude::*;

use crate::apfs::change;
use crate::apfs::fs::{self, Fs};
use crate::apfs::jrec::{DT_BLK, DT_CHR, DT_DIR, DT_FIFO, DT_LNK, DT_REG, DT_SOCK, KIND_UNIT};
use crate::apfs::mutate::{self, InodePatch};
use crate::apfs::pending::{Op, Pend};
use crate::apfs::record;
use crate::apfs::volume;
use crate::apfs::write::Draft;
use crate::bytes;
use crate::entry::{EntryKind, FileAttrs, FileMeta, Listed, SetAttrs};
use crate::error::Error;
use crate::num;
use crate::path;
use crate::text;

use super::edits::{self, live};
use super::{changes, commit, contents, fields, flush, objects, paths, trips};

verus! {

// ---- kinds ----

/// The type bits of a mode and the type codes of directory entries are those of
/// the system: pipes, devices, directories, files, symbolic links and sockets.
pub proof fn lemma_mode_kinds(perm: u16)
    requires
        perm < 0o10000,
    ensures
        fs::kind_of_mode((0o010000 + perm) as u16) == EntryKind::Fifo,
        fs::kind_of_mode((0o020000 + perm) as u16) == EntryKind::Char,
        fs::kind_of_mode((0o040000 + perm) as u16) == EntryKind::Dir,
        fs::kind_of_mode((0o060000 + perm) as u16) == EntryKind::Block,
        fs::kind_of_mode((0o100000 + perm) as u16) == EntryKind::Regular,
        fs::kind_of_mode((0o120000 + perm) as u16) == EntryKind::Symlink,
        fs::kind_of_mode((0o140000 + perm) as u16) == EntryKind::Socket,
        volume::kind_of_dtype(1) == EntryKind::Fifo,
        volume::kind_of_dtype(2) == EntryKind::Char,
        volume::kind_of_dtype(4) == EntryKind::Dir,
        volume::kind_of_dtype(6) == EntryKind::Block,
        volume::kind_of_dtype(8) == EntryKind::Regular,
        volume::kind_of_dtype(10) == EntryKind::Symlink,
        volume::kind_of_dtype(12) == EntryKind::Socket,
{
}

/// Whether `t` is the type code of an object with the mode `mode`: the type bits
/// without the permission bits.
pub open spec fn codes(t: u16, mode: u16) -> bool {
    &&& mode / 0o10000 == t
    &&& t == DT_FIFO || t == DT_CHR || t == DT_DIR || t == DT_BLK || t == DT_REG || t == DT_LNK || t
        == DT_SOCK
}

/// The kind that the mode of an object tells is the kind that the type code of its
/// entry tells.
pub proof fn lemma_kinds_agree(t: u16, mode: u16)
    requires
        codes(t, mode),
    ensures
        fs::kind_of_mode(mode) == volume::kind_of_dtype(t),
        volume::kind_of_dtype(t) != EntryKind::Unknown,
{
}

/// The modes and type codes with which files, directories and symbolic links are
/// made agree, and the mode keeps the permission bits that were asked for.
pub(crate) proof fn lemma_made(mode: u16)
    ensures
        codes(DT_REG, change::reg(mode)),
        codes(DT_DIR, change::dir(mode)),
        codes(DT_LNK, change::lnk(mode)),
        change::reg(mode) % 0o10000 == mode % 0o10000,
        change::dir(mode) % 0o10000 == mode % 0o10000,
        change::lnk(mode) % 0o10000 == mode % 0o10000,
{
}

// ---- new objects ----

/// Whether `a` tells what a new object of the kind `k` was made with: the
/// permission bits of `mode`, `size` bytes, and the time `s`, in seconds, for each
/// of its times. A directory has two links and everything else one.
pub open spec fn tells(a: FileAttrs, k: EntryKind, mode: u16, size: int, s: int) -> bool {
    &&& a.kind == k
    &&& a.mode == mode % 0o10000
    &&& a.size == size
    &&& a.blocks * 512 >= size
    &&& a.blocks > 0 ==> (a.blocks - 1) * 512 < size
    &&& a.nlink == if k == EntryKind::Dir {
        2u32
    } else {
        1u32
    }
    &&& a.uid == 0
    &&& a.gid == 0
    &&& a.mtime == s
    &&& a.ctime == s
    &&& a.atime == s
}

proof fn lemma_new_attrs(oid: u64, parent: u64, mode: u16, size: u64, bs: u32, time: u64)
    ensures
        tells(
            fs::attrs(oid, record::inode_value(oid, parent, mode, size, bs, time)),
            fs::kind_of_mode(mode),
            mode,
            size as int,
            time as int / 1_000_000_000 % 0x1_0000_0000,
        ),
{
    fields::lemma_inode_value(oid, parent, mode, size, bs, time);
    num::lemma_div_up(size as int, 512);
}

/// Whether the path `p` of the container `f` on the device `img` has attributes
/// that tell what a new object was made with, and the listing of the directory
/// `dir` shows the name `name` with the same kind and the same number.
pub open spec fn shows(
    f: Fs,
    img: Seq<u8>,
    p: Seq<char>,
    dir: u64,
    name: Seq<char>,
    k: EntryKind,
    mode: u16,
    size: int,
    s: int,
) -> bool {
    &&& f.attributes(img, p) matches Ok(a) && tells(a, k, mode, size, s) && {
        let l = volume::list_dir(f.mounted()->Ok_0, img, dir);
        l matches Ok(es) && es.contains(Listed { name, inode: a.inode, kind: k, size: 0 })
    }
}

/// What is created has the attributes it was created with.
#[verifier::spinoff_prover]
#[verifier::rlimit(60)]
proof fn lemma_created_shows(
    f: Fs,
    img: Seq<u8>,
    d: Draft,
    mark: int,
    p: Seq<char>,
    dtype: u16,
    mode: u16,
    time: u64,
    data: Seq<u8>,
) -> (r: (Draft, int))
    requires
        live(f, img, d, mark),
        d.next_oid + 1 < KIND_UNIT,
        f.created(img, p, dtype, mode, time, data).2 is Ok,
        fields::nameable(path::parts(p).last()),
        codes(dtype, mode),
        data.len() <= u64::MAX,
        num::div_up(data.len() as int, d.block_size as int) * d.block_size
            < 0x0100_0000_0000_0000,
    ensures
        f.resolve_parent(img, p) is Ok,
        ({
            let (g, out, _) = f.created(img, p, dtype, mode, time, data);
            let (np, nn) = f.resolve_parent(img, p)->Ok_0;
            &&& live(g, out, r.0, r.1)
            &&& shows(
                g,
                out,
                p,
                np,
                nn,
                fs::kind_of_mode(mode),
                mode,
                data.len() as int,
                time as int / 1_000_000_000 % 0x1_0000_0000,
            )
        }),
{
    let (g, out, _) = f.created(img, p, dtype, mode, time, data);
    let r = objects::lemma_created(f, img, d, mark, p, dtype, mode, time, data);
    let (np, nn) = f.resolve_parent(img, p)->Ok_0;
    let x = d.next_oid;
    let size = data.len() as u64;
    let v = record::inode_value(x, np, mode, size, d.block_size, time);
    commit::lemma_now(out, r.0, r.1);
    trips::lemma_vacant(f, img, d, mark, p, dtype, mode, time, data);
    trips::lemma_name_added(f, img, d, mark, g, out, r.0, r.1, p, x, p);
    fields::lemma_inode_value(x, np, mode, size, d.block_size, time);
    contents::lemma_inode_back(out, r.0, x, v);
    trips::lemma_resolve_parent(f, img, d, mark, p);
    trips::lemma_entry_listed(out, r.0, np, nn, x, dtype);
    lemma_new_attrs(x, np, mode, size, d.block_size, time);
    lemma_kinds_agree(dtype, mode);
    r
}

proof fn lemma_seconds(s: u32)
    ensures
        change::nanos(s) as int / 1_000_000_000 % 0x1_0000_0000 == s,
{
}

/// A new directory is one: its attributes tell a directory with two links and with
/// the permission bits and the time that it was made with, and the listing above it
/// shows it as a directory.
pub proof fn lemma_new_dir(
    f: Fs,
    img: Seq<u8>,
    d: Draft,
    mark: int,
    p: Seq<char>,
    meta: FileMeta,
) -> (r: (Draft, int))
    requires
        live(f, img, d, mark),
        d.next_oid + 1 < KIND_UNIT,
        f.dir_created(img, p, meta).2 is Ok,
        fields::nameable(path::parts(p).last()),
    ensures
        f.resolve_parent(img, p) is Ok,
        ({
            let (g, out, _) = f.dir_created(img, p, meta);
            let (np, nn) = f.resolve_parent(img, p)->Ok_0;
            &&& live(g, out, r.0, r.1)
            &&& shows(g, out, p, np, nn, EntryKind::Dir, meta.mode, 0, meta.mtime as int)
        }),
{
    lemma_made(meta.mode);
    lemma_seconds(meta.mtime);
    num::lemma_div_up(0, d.block_size as int);
    let none = Seq::<u8>::empty();
    assert(num::div_up(0, d.block_size as int) * d.block_size == 0) by {
        commit::lemma_now(img, d, mark);
        assert(num::div_up(0, d.block_size as int) == 0);
    }
    lemma_created_shows(
        f,
        img,
        d,
        mark,
        p,
        DT_DIR,
        change::dir(meta.mode),
        change::nanos(meta.mtime),
        none,
    )
}

/// A new file is a regular file, with the length of its contents, one link, and the
/// permission bits and the time that it was made with.
pub proof fn lemma_new_file(
    f: Fs,
    img: Seq<u8>,
    d: Draft,
    mark: int,
    p: Seq<char>,
    data: Seq<u8>,
    meta: FileMeta,
) -> (r: (Draft, int))
    requires
        live(f, img, d, mark),
        d.next_oid + 1 < KIND_UNIT,
        f.file_created(img, p, data, meta).2 is Ok,
        fields::nameable(path::parts(p).last()),
        data.len() <= u64::MAX,
        num::div_up(data.len() as int, d.block_size as int) * d.block_size
            < 0x0100_0000_0000_0000,
    ensures
        f.resolve_parent(img, p) is Ok,
        ({
            let (g, out, _) = f.file_created(img, p, data, meta);
            let (np, nn) = f.resolve_parent(img, p)->Ok_0;
            &&& live(g, out, r.0, r.1)
            &&& shows(
                g,
                out,
                p,
                np,
                nn,
                EntryKind::Regular,
                meta.mode,
                data.len() as int,
                meta.mtime as int,
            )
        }),
{
    lemma_made(meta.mode);
    lemma_seconds(meta.mtime);
    lemma_created_shows(
        f,
        img,
        d,
        mark,
        p,
        DT_REG,
        change::reg(meta.mode),
        change::nanos(meta.mtime),
        data,
    )
}

/// A new symbolic link is one, with the length of its target, one link, and the
/// permission bits and the time that it was made with.
pub proof fn lemma_new_symlink(
    f: Fs,
    img: Seq<u8>,
    d: Draft,
    mark: int,
    p: Seq<char>,
    target: Seq<char>,
    meta: FileMeta,
) -> (r: (Draft, int))
    requires
        live(f, img, d, mark),
        d.next_oid + 1 < KIND_UNIT,
        f.symlink_created(img, p, target, meta).2 is Ok,
        fields::nameable(path::parts(p).last()),
        text::utf8(target).len() <= u64::MAX,
        num::div_up(text::utf8(target).len() as int, d.block_size as int) * d.block_size
            < 0x0100_0000_0000_0000,
    ensures
        f.resolve_parent(img, p) is Ok,
        ({
            let (g, out, _) = f.symlink_created(img, p, target, meta);
            let (np, nn) = f.resolve_parent(img, p)->Ok_0;
            &&& live(g, out, r.0, r.1)
            &&& shows(
                g,
                out,
                p,
                np,
                nn,
                EntryKind::Symlink,
                meta.mode,
                text::utf8(target).len() as int,
                meta.mtime as int,
            )
        }),
{
    lemma_made(meta.mode);
    lemma_seconds(meta.mtime);
    lemma_created_shows(
        f,
        img,
        d,
        mark,
        p,
        DT_LNK,
        change::lnk(meta.mode),
        change::nanos(meta.mtime),
        text::utf8(target),
    )
}

/// The kind of what an operation creates.
pub open spec fn kind_made(op: Op) -> EntryKind {
    match op {
        Op::Dir { .. } => EntryKind::Dir,
        Op::File { .. } => EntryKind::Regular,
        Op::Link { .. } => EntryKind::Symlink,
    }
}

/// The permission bits that an operation asks for.
pub open spec fn perm_made(op: Op) -> u16 {
    match op {
        Op::Dir { mode, .. } => mode,
        Op::File { mode, .. } => mode,
        Op::Link { mode, .. } => mode,
    }
}

/// What was created in a new container has, after a flush, the attributes it was
/// created with: its kind, its permission bits, the length of its contents and its
/// time.
#[verifier::spinoff_prover]
#[verifier::rlimit(60)]
pub proof fn lemma_flushed_attributes(
    f: Fs,
    p: Pend,
    img: Seq<u8>,
    j: int,
    k: int,
    q: Seq<char>,
)
    requires
        paths::flushable(f, p, img),
        f.flushed(img).2 is Ok,
        0 <= j < p.ops.len(),
        0 <= k < p.dirs.len(),
        p.dirs[k].1 == flush::parent_of(p.ops[j]),
        path::parts(q) == p.dirs[k].0.1.push(flush::name_of(p.ops[j])),
    ensures
        ({
            let (g, out, _) = f.flushed(img);
            let op = p.ops[j];
            g.attributes(out, q) matches Ok(a) && tells(
                a,
                kind_made(op),
                perm_made(op),
                flush::data_of(op).len() as int,
                flush::time_of(op) as int / 1_000_000_000 % 0x1_0000_0000,
            )
        }),
{
    let op = p.ops[j];
    let oid = (16 + j) as u64;
    paths::lemma_flush_back(f, p, img, j, k);
    assert(flush::sized(op, f.bs));
    lemma_new_attrs(
        oid,
        flush::parent_of(op),
        flush::mode_of(op),
        flush::data_of(op).len() as u64,
        f.bs,
        flush::time_of(op),
    );
    lemma_made_of(op);
}

proof fn lemma_made_of(op: Op)
    ensures
        fs::kind_of_mode(flush::mode_of(op)) == kind_made(op),
        flush::mode_of(op) % 0o10000 == perm_made(op) % 0o10000,
{
    lemma_mode_kinds((perm_made(op) % 0o10000) as u16);
}

// ---- entries ----

/// An entry and what it leads to tell the same kind: where the type code of an
/// entry goes with the mode of its object, the kind in the listing of the directory
/// is the kind in the attributes, by every path that leads to the object.
pub proof fn lemma_listed_kind(
    f: Fs,
    img: Seq<u8>,
    d: Draft,
    mark: int,
    dir: u64,
    name: Seq<char>,
    p: Seq<char>,
    v: Seq<u8>,
)
    requires
        live(f, img, d, mark),
        fields::nameable(name),
        f.resolve(img, p) is Ok,
        contents::described(d.records, f.resolve(img, p)->Ok_0, v),
        v.len() >= 92,
        mutate::drec(d.records, dir, name) matches Some((x, t)) && x == f.resolve(img, p)->Ok_0
            && codes(t, bytes::get16(v, 80)),
    ensures
        f.attributes(img, p) matches Ok(a) && {
            let l = volume::list_dir(f.mounted()->Ok_0, img, dir);
            l matches Ok(es) && es.contains(
                Listed { name, inode: a.inode, kind: a.kind, size: 0 },
            )
        },
{
    let (x, t) = mutate::drec(d.records, dir, name).unwrap();
    commit::lemma_now(img, d, mark);
    contents::lemma_inode_back(img, d, x, v);
    trips::lemma_entry_listed(img, d, dir, name, x, t);
    lemma_kinds_agree(t, bytes::get16(v, 80));
}

// ---- changes ----

/// The attributes `a` with what `set` names changed.
pub open spec fn with_set(a: FileAttrs, set: SetAttrs) -> FileAttrs {
    FileAttrs {
        mode: match set.mode {
            Some(m) => (m % 0o10000) as u16,
            None => a.mode,
        },
        uid: match set.uid {
            Some(x) => x,
            None => a.uid,
        },
        gid: match set.gid {
            Some(x) => x,
            None => a.gid,
        },
        mtime: match set.mtime {
            Some(x) => x,
            None => a.mtime,
        },
        ctime: match set.ctime {
            Some(x) => x,
            None => a.ctime,
        },
        atime: match set.atime {
            Some(x) => x,
            None => a.atime,
        },
        ..a
    }
}

/// Attributes that are set are read as they were set, and all others, the kind, the
/// length and the links among them, as they were.
pub proof fn lemma_attributes_set(
    f: Fs,
    img: Seq<u8>,
    d: Draft,
    mark: int,
    p: Seq<char>,
    set: SetAttrs,
    v: Seq<u8>,
) -> (r: (Draft, int))
    requires
        live(f, img, d, mark),
        f.patched(img, p, change::patch_of(set)).2 is Ok,
        contents::described(d.records, f.resolve(img, p)->Ok_0, v),
        v.len() >= 92,
    ensures
        ({
            let (g, out, _) = f.patched(img, p, change::patch_of(set));
            &&& live(g, out, r.0, r.1)
            &&& f.attributes(img, p) matches Ok(a) && g.attributes(out, p) == Ok::<
                FileAttrs,
                Error,
            >(with_set(a, set))
        }),
{
    let patch = change::patch_of(set);
    let (g, out, _) = f.patched(img, p, patch);
    let x = f.resolve(img, p)->Ok_0;
    let r = edits::lemma_patched(f, img, d, mark, p, patch, v);
    commit::lemma_now(img, d, mark);
    contents::lemma_inode_back(img, d, x, v);
    trips::lemma_resolve(f, img, d, mark, p);
    trips::lemma_resolve(g, out, r.0, r.1, p);
    trips::lemma_same_way(
        f,
        img,
        d,
        mark,
        g,
        out,
        r.0,
        r.1,
        volume::ROOT_DIR_INO,
        path::parts(p),
    );
    changes::lemma_patch(patch, v);
    let w = patch.apply(v);
    assert(w.subrange(92, w.len() as int) == v.subrange(92, v.len() as int));
    assert(volume::inode_size(w) == volume::inode_size(v));
    if let Some(s) = set.mtime {
        lemma_seconds(s);
    }
    if let Some(s) = set.ctime {
        lemma_seconds(s);
    }
    if let Some(s) = set.atime {
        lemma_seconds(s);
    }
    assert(fs::attrs(x, w) == with_set(fs::attrs(x, v), set));
    r
}

/// A time in nanoseconds in whole seconds, or `was` where there is none.
#[verifier::opaque]
spec fn seconds_or(ns: Option<u64>, was: u32) -> u32 {
    match ns {
        Some(n) => fs::whole_seconds(n),
        None => was,
    }
}

/// What a changed inode tells, by the change.
proof fn lemma_patch_tells(x: u64, patch: InodePatch, v: Seq<u8>)
    requires
        v.len() >= 92,
    ensures
        ({
            let a = fs::attrs(x, v);
            fs::attrs(x, patch.apply(v)) == FileAttrs {
                mode: match patch.mode {
                    Some(m) => m % 0o10000,
                    None => a.mode,
                },
                uid: match patch.owner {
                    Some(o) => o,
                    None => a.uid,
                },
                gid: match patch.group {
                    Some(o) => o,
                    None => a.gid,
                },
                mtime: seconds_or(patch.mtime, a.mtime),
                ctime: seconds_or(patch.ctime, a.ctime),
                atime: seconds_or(patch.atime, a.atime),
                ..a
            }
        }),
{
    reveal(seconds_or);
    changes::lemma_patch(patch, v);
    let w = patch.apply(v);
    assert(w.subrange(92, w.len() as int) == v.subrange(92, v.len() as int));
    assert(volume::inode_size(w) == volume::inode_size(v));
}

/// What is read of the object at a path after its inode was changed is what the
/// changed inode tells.
#[verifier::spinoff_prover]
#[verifier::rlimit(60)]
proof fn lemma_patched_attributes(
    f: Fs,
    img: Seq<u8>,
    d: Draft,
    mark: int,
    p: Seq<char>,
    patch: InodePatch,
    v: Seq<u8>,
) -> (r: (Draft, int))
    requires
        live(f, img, d, mark),
        f.patched(img, p, patch).2 is Ok,
        contents::described(d.records, f.resolve(img, p)->Ok_0, v),
        v.len() >= 92,
    ensures
        ({
            let (g, out, _) = f.patched(img, p, patch);
            let x = f.resolve(img, p)->Ok_0;
            &&& live(g, out, r.0, r.1)
            &&& f.attributes(img, p) == Ok::<FileAttrs, Error>(fs::attrs(x, v))
            &&& g.attributes(out, p) == Ok::<FileAttrs, Error>(fs::attrs(x, patch.apply(v)))
        }),
{
    let (g, out, _) = f.patched(img, p, patch);
    let x = f.resolve(img, p)->Ok_0;
    let r = edits::lemma_patched(f, img, d, mark, p, patch, v);
    commit::lemma_now(img, d, mark);
    contents::lemma_inode_back(img, d, x, v);
    trips::lemma_resolve(f, img, d, mark, p);
    trips::lemma_resolve(g, out, r.0, r.1, p);
    trips::lemma_same_way(
        f,
        img,
        d,
        mark,
        g,
        out,
        r.0,
        r.1,
        volume::ROOT_DIR_INO,
        path::parts(p),
    );
    changes::lemma_patch(patch, v);
    r
}

/// Setting the permission bits sets them, and leaves the kind and every other
/// attribute.
pub proof fn lemma_chmod(
    f: Fs,
    img: Seq<u8>,
    d: Draft,
    mark: int,
    p: Seq<char>,
    perms: u16,
    v: Seq<u8>,
) -> (r: (Draft, int))
    requires
        live(f, img, d, mark),
        f.chmoded(img, p, perms).2 is Ok,
        contents::described(d.records, f.resolve(img, p)->Ok_0, v),
        v.len() >= 92,
    ensures
        ({
            let (g, out, _) = f.chmoded(img, p, perms);
            &&& live(g, out, r.0, r.1)
            &&& f.attributes(img, p) matches Ok(a) && g.attributes(out, p) == Ok::<
                FileAttrs,
                Error,
            >(FileAttrs { mode: perms % 0o10000, ..a })
        }),
{
    let patch = InodePatch {
        mode: Some(perms),
        owner: None,
        group: None,
        mtime: None,
        ctime: None,
        atime: None,
    };
    reveal(seconds_or);
    lemma_patch_tells(f.resolve(img, p)->Ok_0, patch, v);
    lemma_patched_attributes(f, img, d, mark, p, patch, v)
}

/// Setting owner and group sets just them.
pub proof fn lemma_chown(
    f: Fs,
    img: Seq<u8>,
    d: Draft,
    mark: int,
    p: Seq<char>,
    owner: u32,
    group: u32,
    v: Seq<u8>,
) -> (r: (Draft, int))
    requires
        live(f, img, d, mark),
        f.chowned(img, p, owner, group).2 is Ok,
        contents::described(d.records, f.resolve(img, p)->Ok_0, v),
        v.len() >= 92,
    ensures
        ({
            let (g, out, _) = f.chowned(img, p, owner, group);
            &&& live(g, out, r.0, r.1)
            &&& f.attributes(img, p) matches Ok(a) && g.attributes(out, p) == Ok::<
                FileAttrs,
                Error,
            >(FileAttrs { uid: owner, gid: group, ..a })
        }),
{
    let patch = InodePatch {
        mode: None,
        owner: Some(owner),
        group: Some(group),
        mtime: None,
        ctime: None,
        atime: None,
    };
    reveal(seconds_or);
    lemma_patch_tells(f.resolve(img, p)->Ok_0, patch, v);
    lemma_patched_attributes(f, img, d, mark, p, patch, v)
}

/// Whether `s` is the time `ns`, in nanoseconds, in whole seconds, or `was` where
/// there is none.
#[verifier::opaque]
pub open spec fn retimed(s: u32, ns: Option<u64>, was: u32) -> bool {
    match ns {
        Some(n) => n < 0x1_0000_0000 * 1_000_000_000 ==> s * 1_000_000_000 <= n < (s + 1)
            * 1_000_000_000,
        None => s == was,
    }
}

proof fn lemma_retimed(ns: Option<u64>, was: u32)
    ensures
        retimed(seconds_or(ns, was), ns, was),
{
    reveal(seconds_or);
    reveal(retimed);
}

/// Setting times sets those that are given, and leaves everything else. (A time
/// beyond what a count of seconds holds is left out.)
#[verifier::spinoff_prover]
#[verifier::rlimit(60)]
pub proof fn lemma_times(
    f: Fs,
    img: Seq<u8>,
    d: Draft,
    mark: int,
    p: Seq<char>,
    mtime: Option<u64>,
    ctime: Option<u64>,
    atime: Option<u64>,
    v: Seq<u8>,
) -> (r: (Draft, int))
    requires
        live(f, img, d, mark),
        f.timed(img, p, mtime, ctime, atime).2 is Ok,
        contents::described(d.records, f.resolve(img, p)->Ok_0, v),
        v.len() >= 92,
    ensures
        ({
            let (g, out, _) = f.timed(img, p, mtime, ctime, atime);
            &&& live(g, out, r.0, r.1)
            &&& f.attributes(img, p) matches Ok(a) && (g.attributes(out, p) matches Ok(b) && {
                &&& retimed(b.mtime, mtime, a.mtime)
                &&& retimed(b.ctime, ctime, a.ctime)
                &&& retimed(b.atime, atime, a.atime)
                &&& b == FileAttrs { mtime: b.mtime, ctime: b.ctime, atime: b.atime, ..a }
            })
        }),
{
    let patch = InodePatch { mode: None, owner: None, group: None, mtime, ctime, atime };
    let a = fs::attrs(f.resolve(img, p)->Ok_0, v);
    lemma_retimed(mtime, a.mtime);
    lemma_retimed(ctime, a.ctime);
    lemma_retimed(atime, a.atime);
    lemma_patch_tells(f.resolve(img, p)->Ok_0, patch, v);
    lemma_patched_attributes(f, img, d, mark, p, patch, v)
}

} // verus!
