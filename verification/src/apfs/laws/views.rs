//! What callers read by paths: listings, extended attributes, contents, and what
//! may be changed.

use vstd::prelude::*;

use crate::apfs::change;
use crate::apfs::content::{self, ApfsFileReader};
use crate::apfs::fs::{self, Fs};
use crate::apfs::jrec::{DT_REG, KIND_UNIT};
use crate::apfs::mutate::{self, InodePatch};
use crate::apfs::rw;
use crate::apfs::volume;
use crate::apfs::write::Draft;
use crate::entry::{FileMeta, Listed, MutationCapability};
use crate::error::{Error, Result};
use crate::num;
use crate::path;

use super::edits::live;
use super::{changes, commit, fields, kinds, objects, trips};

verus! {

/// The listing of a directory by its path shows every entry that the directory has,
/// with its kind; a path that does not start at the root is refused.
pub proof fn lemma_listed_at(
    f: Fs,
    img: Seq<u8>,
    d: Draft,
    mark: int,
    p: Seq<char>,
    name: Seq<char>,
    x: u64,
    dt: u16,
)
    requires
        live(f, img, d, mark),
        f.resolve(img, p) is Ok,
        fields::nameable(name),
        mutate::drec(d.records, f.resolve(img, p)->Ok_0, name) == Some((x, dt)),
        dt < 0x100,
    ensures
        p.len() == 0 || p[0] == '/' ==> (f.listing_at(img, p) matches Ok(es) && es.contains(
            Listed {
                name,
                inode: (x % 0x1_0000_0000) as u32,
                kind: volume::kind_of_dtype(dt),
                size: 0,
            },
        )),
        p.len() > 0 && p[0] != '/' ==> f.listing_at(img, p) == Err::<Seq<Listed>, Error>(
            Error::InvalidArgument,
        ),
{
    commit::lemma_now(img, d, mark);
    trips::lemma_entry_listed(img, d, f.resolve(img, p)->Ok_0, name, x, dt);
}

/// A new file is in the listing of its directory, taken by the path of the
/// directory, and is read by its own path with just the contents that it was made
/// with, from the start.
pub proof fn lemma_new_file_read(
    f: Fs,
    img: Seq<u8>,
    d: Draft,
    mark: int,
    q: Seq<char>,
    p: Seq<char>,
    data: Seq<u8>,
    meta: FileMeta,
    r: Result<ApfsFileReader>,
)
    requires
        live(f, img, d, mark),
        d.next_oid + 1 < KIND_UNIT,
        f.file_created(img, p, data, meta).2 is Ok,
        fields::nameable(path::parts(p).last()),
        data.len() <= u64::MAX,
        num::div_up(data.len() as int, d.block_size as int) * d.block_size
            < 0x0100_0000_0000_0000,
        path::parts(q) == path::parts(p).drop_last(),
        q.len() == 0 || q[0] == '/',
        f.file_created(img, p, data, meta).0.reader_at(
            f.file_created(img, p, data, meta).1,
            p,
            r,
        ),
    ensures
        ({
            let (g, out, _) = f.file_created(img, p, data, meta);
            &&& r matches Ok(h) && h.cursor == 0 && h.size == data.len() && h.bytes(
                out,
                0,
                data.len() as int,
            ) == data
            &&& g.listing_at(out, q) matches Ok(es) && (exists|e: Listed| #[trigger]
                es.contains(e) && e.name == path::parts(p).last())
        }),
{
    let (g, out, _) = f.file_created(img, p, data, meta);
    let mode = change::reg(meta.mode);
    let t = change::nanos(meta.mtime);
    kinds::lemma_made(meta.mode);
    let (np, nn) = f.resolve_parent(img, p)->Ok_0;
    let s = trips::lemma_create_trip(f, img, d, mark, p, DT_REG, mode, t, data, q);
    trips::lemma_resolve_parent(f, img, d, mark, p);
    trips::lemma_resolve(f, img, d, mark, q);
    trips::lemma_resolve(g, out, s.0, s.1, q);
    lemma_listed_at(g, out, s.0, s.1, q, nn, d.next_oid, DT_REG);
    let m = g.mounted()->Ok_0;
    assert(content::opened(r, m, out, d.next_oid));
}

/// An extended attribute that was set is read by the path with its value, and one
/// that was removed is not read any more.
pub proof fn lemma_attribute_at(
    f: Fs,
    img: Seq<u8>,
    d: Draft,
    mark: int,
    p: Seq<char>,
    name: Seq<char>,
    value: Seq<u8>,
)
    requires
        live(f, img, d, mark),
        fields::nameable(name),
        f.resolve(img, p) is Ok,
        changes::well_attributed(d.records, f.resolve(img, p)->Ok_0),
    ensures
        f.xattr_set(img, p, name, value).2 is Ok ==> {
            let (g, out, _) = f.xattr_set(img, p, name, value);
            g.xattrs_at(out, p) matches Ok(a) && a.contains((name, value))
        },
        f.xattr_removed(img, p, name).2 is Ok ==> {
            let (g, out, _) = f.xattr_removed(img, p, name);
            g.xattrs_at(out, p) matches Ok(a) && !a.contains((name, value))
        },
{
    trips::lemma_resolve(f, img, d, mark, p);
    if f.xattr_set(img, p, name, value).2 is Ok {
        let (g, out, _) = f.xattr_set(img, p, name, value);
        let r = objects::lemma_attribute_set(f, img, d, mark, p, name, value);
        trips::lemma_resolve(g, out, r.0, r.1, p);
        trips::lemma_same_way(
            f,
            img,
            d,
            mark,
            g,
            out,
            r.0,
            r.1,
            volume::ROOT_DIR_INO,
            path::parts(p),
        );
    }
    if f.xattr_removed(img, p, name).2 is Ok {
        let (g, out, _) = f.xattr_removed(img, p, name);
        let r = objects::lemma_attribute_removed(f, img, d, mark, p, name, value);
        trips::lemma_resolve(g, out, r.0, r.1, p);
        trips::lemma_same_way(
            f,
            img,
            d,
            mark,
            g,
            out,
            r.0,
            r.1,
            volume::ROOT_DIR_INO,
            path::parts(p),
        );
    }
}

/// A container that is not open for changes stays as it is, and so does its device:
/// what would change an entry or an object is refused; and one that was opened for
/// reading takes nothing new either.
pub proof fn lemma_kept_from_changes(
    f: Fs,
    img: Seq<u8>,
    p: Seq<char>,
    q: Seq<char>,
    name: Seq<char>,
    value: Seq<u8>,
    patch: InodePatch,
    meta: FileMeta,
)
    ensures
        f.capability() != MutationCapability::Mutable ==> {
            &&& f.removed(img, p) == f.refused(img, f.removed(img, p).2->Err_0)
            &&& f.renamed(img, p, q) == f.refused(img, f.renamed(img, p, q).2->Err_0)
            &&& f.linked(img, p, q) == f.refused(img, f.linked(img, p, q).2->Err_0)
            &&& f.patched(img, p, patch) == f.refused(img, f.patched(img, p, patch).2->Err_0)
            &&& f.xattr_set(img, p, name, value) == f.refused(
                img,
                f.xattr_set(img, p, name, value).2->Err_0,
            )
            &&& f.xattr_removed(img, p, name) == f.refused(
                img,
                f.xattr_removed(img, p, name).2->Err_0,
            )
        },
        f.capability() == MutationCapability::Immutable ==> {
            &&& f.file_created(img, p, value, meta) == f.refused(img, Error::Unsupported)
            &&& f.dir_created(img, p, meta) == f.refused(img, Error::Unsupported)
            &&& f.symlink_created(img, p, name, meta) == f.refused(img, Error::Unsupported)
        },
        f.capability() == MutationCapability::WholeFileOnly ==> {
            &&& f.file_created(img, p, value, meta).1 == img
            &&& f.dir_created(img, p, meta).1 == img
            &&& f.symlink_created(img, p, name, meta).1 == img
            &&& f.file_created(img, p, value, meta).0.capability() == f.capability()
        },
{
}

/// What may be changed goes by how the container came about: a new one takes whole
/// files until it is written, and then nothing; one that was opened for reading takes
/// nothing; and one that was opened for changes takes changes, and goes on to.
pub proof fn lemma_capabilities(
    f: Fs,
    img: Seq<u8>,
    total: u64,
    bs: u32,
    name: Seq<char>,
    p: Seq<char>,
)
    ensures
        fs::formatted(total, bs, name).capability() == MutationCapability::WholeFileOnly,
        fs::read_outcome(rw::first_open(img)) matches Ok(g) ==> g.capability()
            == MutationCapability::Immutable,
        f.mode is Pending && f.flushed(img).2 is Ok ==> f.flushed(img).0.capability()
            == MutationCapability::Immutable,
        f.capability() == MutationCapability::Mutable ==> f.removed(img, p).0.capability()
            == MutationCapability::Mutable && f.flushed(img) == (f, img, Ok::<(), Error>(())),
{
}

} // verus!
