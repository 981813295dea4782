//! Changes to a container: operations that wait, and operations that write a
//! checkpoint each.

use vstd::prelude::*;

use crate::apfs::fs::{self, Apfs, ApfsState, Fs, Mode};
use crate::apfs::jrec::{DT_DIR, DT_LNK, DT_REG};
use crate::apfs::mutate::{self, patch_inode_record, remove_xattr_record, InodePatch};
use crate::apfs::ops::{self, create_entry, link_entry, remove_entry, rename_entry, Newcomer};
use crate::apfs::pack::Rec;
use crate::apfs::pending::{self, replay_ops, Pend, PendingOp, PendingWrite};
use crate::apfs::record::{self, build_xattr_record, mode_dir, mode_lnk, mode_reg};
use crate::apfs::rw::{self, open_first, Edit, Live, MutatorCx};
use crate::apfs::volume;
use crate::apfs::write::ApfsWriter;
use crate::block::{self, MemoryBackend};
use crate::bytes::{self, copy_all};
use crate::entry::{DeviceKind, FileMeta, SetAttrs};
use crate::error::{Error, Result};
use crate::text::{self, copy_text};

verus! {

/// The state of a container and of its device after an operation, and what the
/// operation gave.
pub type Outcome = (Fs, Seq<u8>, Result<()>);

impl Fs {
    /// The operation is refused with `e`, and nothing changes.
    pub open spec fn refused(self, img: Seq<u8>, e: Error) -> Outcome {
        (self, img, Err(e))
    }

    /// The container after a checkpoint was written, or as before where none
    /// could be.
    pub open spec fn changed(self, out: (Seq<u8>, Result<Live>)) -> Outcome {
        match out.1 {
            Ok(l) => (Fs { name: l.m.name, mode: Mode::Write(l), ..self }, out.0, Ok(())),
            Err(e) => (self, out.0, Err(e)),
        }
    }

    /// The records of the volume are replaced by what `f` makes of them.
    pub open spec fn rewritten(
        self,
        img: Seq<u8>,
        f: spec_fn(Seq<Rec>) -> Result<Seq<Rec>>,
    ) -> Outcome {
        match self.mode {
            Mode::Write(l) => match rw::all_records(l.m, img) {
                Err(e) => self.refused(img, e),
                Ok(rs) => match f(rs) {
                    Err(e) => self.refused(img, e),
                    Ok(t) => self.changed(l.committed(Edit { recs: t, ..l.edit(rs) }, img)),
                },
            },
            _ => self.refused(img, Error::Unsupported),
        }
    }

    /// Fields of the inode of the object at the path `p` are changed.
    pub open spec fn patched(self, img: Seq<u8>, p: Seq<char>, patch: InodePatch) -> Outcome {
        match self.resolve(img, p) {
            Err(e) => self.refused(img, e),
            Ok(oid) => self.rewritten(
                img,
                |rs: Seq<Rec>| Ok(mutate::patched(rs, oid, |v: Seq<u8>| patch.apply(v))),
            ),
        }
    }

    /// The permission bits of the object at the path `p` are set.
    pub open spec fn chmoded(self, img: Seq<u8>, p: Seq<char>, perms: u16) -> Outcome {
        self.patched(
            img,
            p,
            InodePatch {
                mode: Some(perms),
                owner: None,
                group: None,
                mtime: None,
                ctime: None,
                atime: None,
            },
        )
    }

    /// Owner and group of the object at the path `p` are set.
    pub open spec fn chowned(
        self,
        img: Seq<u8>,
        p: Seq<char>,
        owner: u32,
        group: u32,
    ) -> Outcome {
        self.patched(
            img,
            p,
            InodePatch {
                mode: None,
                owner: Some(owner),
                group: Some(group),
                mtime: None,
                ctime: None,
                atime: None,
            },
        )
    }

    /// Times of the object at the path `p` are set, in nanoseconds; `None` leaves
    /// one as it is.
    pub open spec fn timed(
        self,
        img: Seq<u8>,
        p: Seq<char>,
        mtime: Option<u64>,
        ctime: Option<u64>,
        atime: Option<u64>,
    ) -> Outcome {
        self.patched(
            img,
            p,
            InodePatch { mode: None, owner: None, group: None, mtime, ctime, atime },
        )
    }

    /// The entry at the path `p` is removed.
    pub open spec fn removed(self, img: Seq<u8>, p: Seq<char>) -> Outcome {
        match self.resolve_parent(img, p) {
            Err(e) => self.refused(img, e),
            Ok((dir, name)) => self.rewritten(img, |rs: Seq<Rec>| ops::removed(rs, dir, name)),
        }
    }

    /// The entry at the path `p` is moved to the path `q`.
    pub open spec fn renamed(self, img: Seq<u8>, p: Seq<char>, q: Seq<char>) -> Outcome {
        match self.resolve_parent(img, p) {
            Err(e) => self.refused(img, e),
            Ok((d1, n1)) => match self.resolve_parent(img, q) {
                Err(e) => self.refused(img, e),
                Ok((d2, n2)) => self.rewritten(
                    img,
                    |rs: Seq<Rec>| ops::renamed(rs, d1, n1, d2, n2),
                ),
            },
        }
    }

    /// The object at the path `p`, which is no directory, gets a second entry
    /// at the path `q`.
    pub open spec fn linked(self, img: Seq<u8>, p: Seq<char>, q: Seq<char>) -> Outcome {
        match self.resolve(img, p) {
            Err(e) => self.refused(img, e),
            Ok(t) => match self.resolve_parent(img, q) {
                Err(e) => self.refused(img, e),
                Ok((dir, name)) => match self.mounted() {
                    Err(e) => self.refused(img, e),
                    Ok(m) => match volume::inode(m, img, t) {
                        Err(e) => self.refused(img, e),
                        Ok(b) => {
                            let dt = volume::dtype_of_mode(bytes::get16(b, 80));
                            if dt == DT_DIR {
                                self.refused(img, Error::InvalidArgument)
                            } else {
                                self.rewritten(
                                    img,
                                    |rs: Seq<Rec>| ops::linked(rs, t, dt, dir, name),
                                )
                            }
                        },
                    },
                },
            },
        }
    }

    /// An object is created at the path `p`.
    pub open spec fn created(
        self,
        img: Seq<u8>,
        p: Seq<char>,
        dtype: u16,
        mode: u16,
        time: u64,
        data: Seq<u8>,
    ) -> Outcome {
        match self.resolve_parent(img, p) {
            Err(e) => self.refused(img, e),
            Ok((dir, name)) => match self.mode {
                Mode::Write(l) => match rw::all_records(l.m, img) {
                    Err(e) => self.refused(img, e),
                    Ok(rs) => {
                        let n = Newcomer { parent: dir, dtype, mode, time };
                        match ops::created(l, l.edit(rs), n, name, data.len() as u64) {
                            Err(e) => self.refused(img, e),
                            Ok(edit) => match ops::data_stored(img, l.m.bs, l.bump, data) {
                                None => self.refused(img, Error::OutOfBounds),
                                Some(img2) => self.changed(l.committed(counted(edit, dtype), img2)),
                            },
                        }
                    },
                },
                _ => self.refused(img, Error::Unsupported),
            },
        }
    }

    /// The extended attribute `name` of the object at the path `p` is set.
    pub open spec fn xattr_set(
        self,
        img: Seq<u8>,
        p: Seq<char>,
        name: Seq<char>,
        value: Seq<u8>,
    ) -> Outcome {
        match self.resolve(img, p) {
            Err(e) => self.refused(img, e),
            Ok(oid) => self.rewritten(img, |rs: Seq<Rec>| with_xattr(rs, oid, name, value)),
        }
    }

    /// The extended attribute `name` of the object at the path `p` is removed,
    /// if there is one.
    pub open spec fn xattr_removed(self, img: Seq<u8>, p: Seq<char>, name: Seq<char>) -> Outcome {
        match self.resolve(img, p) {
            Err(e) => self.refused(img, e),
            Ok(oid) => self.rewritten(
                img,
                |rs: Seq<Rec>| Ok(mutate::without_xattr(rs, oid, name)),
            ),
        }
    }

    /// The operations that wait are written, and the volume is opened for
    /// reading. Where that fails nothing waits any more.
    pub open spec fn flushed(self, img: Seq<u8>) -> Outcome {
        match self.mode {
            Mode::Pending(p) => {
                let lost = Fs { mode: Mode::Pending(pending::nothing()), ..self };
                if !fs::geometry_ok(img.len() as int, p.total_blocks, self.bs) {
                    (lost, img, Err(Error::InvalidArgument))
                } else {
                    let d = crate::apfs::write::new_draft(p.total_blocks, self.bs, self.name);
                    let (d2, img2, r) = pending::replay(d, img, p.ops, p.ops.len() as int);
                    match r {
                        Err(e) => (lost, img2, Err(e)),
                        Ok(_) => match d2.plan() {
                            Err(e) => (lost, img2, Err(e)),
                            Ok(bl) => {
                                let (img3, ok) = block::store_all(img2, self.bs as int, bl);
                                if !ok {
                                    (lost, img3, Err(Error::OutOfBounds))
                                } else {
                                    match rw::first_open(img3) {
                                        Err(e) => (lost, img3, Err(e)),
                                        Ok(m) => (
                                            Fs {
                                                bs: m.bs,
                                                total_bytes: m.total_bytes,
                                                name: m.name,
                                                mode: Mode::Read(m),
                                            },
                                            img3,
                                            Ok(()),
                                        ),
                                    }
                                }
                            },
                        },
                    }
                }
            },
            _ => (self, img, Ok(())),
        }
    }

    /// An operation is added to those that wait.
    pub open spec fn queued(
        self,
        img: Seq<u8>,
        p: Pend,
        path: Seq<char>,
        make: spec_fn(u64, Seq<char>) -> pending::Op,
    ) -> Outcome {
        match p.resolve_parent(path) {
            Err(e) => self.refused(img, e),
            Ok((dir, name)) => (
                Fs { mode: Mode::Pending(p.with_op(make(dir, name))), ..self },
                img,
                Ok(()),
            ),
        }
    }

    /// A regular file is created: at once where the container is open for
    /// changes, and with the next flush where operations wait.
    pub open spec fn file_created(
        self,
        img: Seq<u8>,
        path: Seq<char>,
        data: Seq<u8>,
        meta: FileMeta,
    ) -> Outcome {
        let time = nanos(meta.mtime);
        match self.mode {
            Mode::Read(_) => self.refused(img, Error::Unsupported),
            Mode::Write(_) => self.created(img, path, DT_REG, reg(meta.mode), time, data),
            Mode::Pending(p) => self.queued(
                img,
                p,
                path,
                |dir: u64, name: Seq<char>|
                    pending::Op::File { parent: dir, name, mode: meta.mode, time, data },
            ),
        }
    }

    /// A directory is created, as a file is.
    pub open spec fn dir_created(self, img: Seq<u8>, path: Seq<char>, meta: FileMeta) -> Outcome {
        let time = nanos(meta.mtime);
        match self.mode {
            Mode::Read(_) => self.refused(img, Error::Unsupported),
            Mode::Write(_) => self.created(
                img,
                path,
                DT_DIR,
                dir(meta.mode),
                time,
                Seq::empty(),
            ),
            Mode::Pending(p) => match p.resolve_parent(path) {
                Err(e) => self.refused(img, e),
                Ok((dir, name)) => {
                    let noted = Pend {
                        dirs: p.dirs.push((pending::dir_path(path), p.next_oid)),
                        ..p
                    };
                    let op = pending::Op::Dir { parent: dir, name, mode: meta.mode, time };
                    (Fs { mode: Mode::Pending(noted.with_op(op)), ..self }, img, Ok(()))
                },
            },
        }
    }

    /// A symbolic link is created, as a file is.
    pub open spec fn symlink_created(
        self,
        img: Seq<u8>,
        path: Seq<char>,
        target: Seq<char>,
        meta: FileMeta,
    ) -> Outcome {
        let time = nanos(meta.mtime);
        match self.mode {
            Mode::Read(_) => self.refused(img, Error::Unsupported),
            Mode::Write(_) => self.symlink_written(img, path, target, meta.mode, time),
            Mode::Pending(p) => self.queued(
                img,
                p,
                path,
                |dir: u64, name: Seq<char>|
                    pending::Op::Link { parent: dir, name, mode: meta.mode, time, target },
            ),
        }
    }

    /// A symbolic link with a target that is not empty is written.
    pub open spec fn symlink_written(
        self,
        img: Seq<u8>,
        path: Seq<char>,
        target: Seq<char>,
        mode: u16,
        time: u64,
    ) -> Outcome {
        match self.resolve_parent(img, path) {
            Err(e) => self.refused(img, e),
            Ok(_) => if text::utf8(target).len() == 0 {
                self.refused(img, Error::InvalidArgument)
            } else {
                self.created(img, path, DT_LNK, lnk(mode), time, text::utf8(target))
            },
        }
    }

    /// An operation that needs a container that is open for changes: `out` is
    /// its outcome there.
    pub open spec fn where_writable(self, img: Seq<u8>, out: Outcome) -> Outcome {
        match self.mode {
            Mode::Write(_) => out,
            _ => self.refused(img, Error::Unsupported),
        }
    }
}

/// Mode of a regular file with the permission bits of `m`.
pub open spec fn reg(m: u16) -> u16 {
    (0x8000 + m % 0x1000) as u16
}

/// Mode of a directory with the permission bits of `m`.
pub open spec fn dir(m: u16) -> u16 {
    (0x4000 + m % 0x1000) as u16
}

/// Mode of a symbolic link with the permission bits of `m`.
pub open spec fn lnk(m: u16) -> u16 {
    (0xa000 + m % 0x1000) as u16
}

/// `s` seconds in nanoseconds.
pub open spec fn nanos(s: u32) -> u64 {
    (s * 1_000_000_000) as u64
}

/// The change `e` with one more object of the type `dtype` counted.
pub open spec fn counted(e: Edit, dtype: u16) -> Edit {
    if dtype == DT_DIR {
        Edit { num_directories: rw::bumped(e.num_directories), ..e }
    } else if dtype == DT_LNK {
        Edit { num_symlinks: rw::bumped(e.num_symlinks), ..e }
    } else {
        Edit { num_files: rw::bumped(e.num_files), ..e }
    }
}

/// The records with the extended attribute `name` of object `oid` set.
pub open spec fn with_xattr(rs: Seq<Rec>, oid: u64, name: Seq<char>, value: Seq<u8>) -> Result<
    Seq<Rec>,
> {
    if value.len() > record::APFS_XATTR_MAX_EMBEDDED_SIZE {
        Err(Error::Unsupported)
    } else if text::utf8(name).len() + 1 > 0xffff {
        Err(Error::InvalidArgument)
    } else {
        Ok(
            mutate::without_xattr(rs, oid, name).push(
                (record::xattr_key(oid, name), record::xattr_value(value)),
            ),
        )
    }
}

/// `attrs` as changes to an inode.
pub open spec fn patch_of(attrs: SetAttrs) -> InodePatch {
    InodePatch {
        mode: attrs.mode,
        owner: attrs.uid,
        group: attrs.gid,
        mtime: nanos_opt(attrs.mtime),
        ctime: nanos_opt(attrs.ctime),
        atime: nanos_opt(attrs.atime),
    }
}

/// Seconds in nanoseconds, where there are any.
pub open spec fn nanos_opt(s: Option<u32>) -> Option<u64> {
    match s {
        Some(t) => Some(nanos(t)),
        None => None,
    }
}

fn to_nanos(s: u32) -> (r: u64)
    ensures
        r == nanos(s),
{
    (s as u64) * 1_000_000_000
}

fn to_nanos_opt(s: Option<u32>) -> (r: Option<u64>)
    ensures
        r == nanos_opt(s),
{
    match s {
        Some(t) => Some(to_nanos(t)),
        None => None,
    }
}

impl Apfs {
    /// Start a change.
    pub(crate) fn begin(&self, dev: &MemoryBackend) -> (r: Result<MutatorCx>)
        requires
            self.wf(),
        ensures
            match self@.mode {
                Mode::Write(l) => match rw::all_records(l.m, dev@) {
                    Ok(rs) => r matches Ok(cx) && cx@ == l.edit(rs) && cx.of(l),
                    Err(e) => r == Err::<MutatorCx, Error>(e),
                },
                _ => r == Err::<MutatorCx, Error>(Error::Unsupported),
            },
    {
        match &self.state {
            ApfsState::Write(w) => w.begin(dev),
            _ => Err(Error::Unsupported),
        }
    }

    /// Write the checkpoint of a change.
    pub(crate) fn commit(&mut self, dev: &mut MemoryBackend, cx: MutatorCx) -> (r: Result<()>)
        requires
            old(self).wf(),
            old(self)@.mode matches Mode::Write(l) && cx.of(l),
        ensures
            final(self).wf(),
            (final(self)@, final(dev)@, r) == old(self)@.changed(
                old(self)@.mode->Write_0.committed(cx@, old(dev)@),
            ),
    {
        let res = match &self.state {
            ApfsState::Write(w) => w.commit(dev, cx),
            _ => Err(Error::Unsupported),
        };
        match res {
            Ok(w) => {
                self.volume_name = copy_text(w.read.volume_name.as_str());
                self.state = ApfsState::Write(w);
                Ok(())
            },
            Err(e) => Err(e),
        }
    }

    fn patch(&mut self, dev: &mut MemoryBackend, path: &str, p: &InodePatch) -> (r: Result<()>)
        requires
            old(self).wf(),
        ensures
            final(self).wf(),
            (final(self)@, final(dev)@, r) == old(self)@.patched(old(dev)@, path@, *p),
    {
        let oid: u64 = self.resolve_path_to_oid(dev, path)?;
        let mut cx = self.begin(dev)?;
        patch_inode_record(&mut cx.records, oid, p);
        self.commit(dev, cx)
    }

    /// Change the permission bits of the object at `path`; its type bits stay.
    pub fn chmod(&mut self, dev: &mut MemoryBackend, path: &str, mode_perms: u16) -> (r: Result<
        (),
    >)
        requires
            old(self).wf(),
        ensures
            final(self).wf(),
            (final(self)@, final(dev)@, r) == old(self)@.chmoded(
                old(dev)@,
                path@,
                mode_perms,
            ),
    {
        let p = InodePatch {
            mode: Some(mode_perms),
            owner: None,
            group: None,
            mtime: None,
            ctime: None,
            atime: None,
        };
        self.patch(dev, path, &p)
    }

    /// Change owner and group of the object at `path`.
    pub fn chown(&mut self, dev: &mut MemoryBackend, path: &str, owner: u32, group: u32) -> (r:
        Result<()>)
        requires
            old(self).wf(),
        ensures
            final(self).wf(),
            (final(self)@, final(dev)@, r) == old(self)@.chowned(
                old(dev)@,
                path@,
                owner,
                group,
            ),
    {
        let p = InodePatch {
            mode: None,
            owner: Some(owner),
            group: Some(group),
            mtime: None,
            ctime: None,
            atime: None,
        };
        self.patch(dev, path, &p)
    }

    /// Change the times of the object at `path`, in nanoseconds; `None` leaves
    /// one as it is.
    pub fn set_times(
        &mut self,
        dev: &mut MemoryBackend,
        path: &str,
        mtime_ns: Option<u64>,
        ctime_ns: Option<u64>,
        atime_ns: Option<u64>,
    ) -> (r: Result<()>)
        requires
            old(self).wf(),
        ensures
            final(self).wf(),
            (final(self)@, final(dev)@, r) == old(self)@.timed(
                old(dev)@,
                path@,
                mtime_ns,
                ctime_ns,
                atime_ns,
            ),
    {
        let p = InodePatch {
            mode: None,
            owner: None,
            group: None,
            mtime: mtime_ns,
            ctime: ctime_ns,
            atime: atime_ns,
        };
        self.patch(dev, path, &p)
    }

    /// Change several attributes of the object at `path` in one checkpoint.
    pub fn set_attrs(&mut self, dev: &mut MemoryBackend, path: &str, attrs: SetAttrs) -> (r: Result<
        (),
    >)
        requires
            old(self).wf(),
        ensures
            final(self).wf(),
            (final(self)@, final(dev)@, r) == old(self)@.where_writable(
                old(dev)@,
                old(self)@.patched(old(dev)@, path@, patch_of(attrs)),
            ),
    {
        match &self.state {
            ApfsState::Write(_) => {},
            _ => {
                return Err(Error::Unsupported);
            },
        }
        let p = InodePatch {
            mode: attrs.mode,
            owner: attrs.uid,
            group: attrs.gid,
            mtime: to_nanos_opt(attrs.mtime),
            ctime: to_nanos_opt(attrs.ctime),
            atime: to_nanos_opt(attrs.atime),
        };
        self.patch(dev, path, &p)
    }

    /// Remove the entry at `path`. A directory must be empty. Anything else
    /// goes when its last entry goes.
    pub fn remove_path(&mut self, dev: &mut MemoryBackend, path: &str) -> (r: Result<()>)
        requires
            old(self).wf(),
        ensures
            final(self).wf(),
            (final(self)@, final(dev)@, r) == old(self)@.removed(old(dev)@, path@),
    {
        let (dir, name) = self.resolve_parent_and_name(dev, path)?;
        let mut cx = self.begin(dev)?;
        remove_entry(&mut cx.records, dir, name.as_str())?;
        self.commit(dev, cx)
    }

    /// Move the entry at `old_path` to `new_path`, where there must be none.
    pub fn rename(&mut self, dev: &mut MemoryBackend, old_path: &str, new_path: &str) -> (r: Result<
        (),
    >)
        requires
            old(self).wf(),
        ensures
            final(self).wf(),
            (final(self)@, final(dev)@, r) == old(self)@.renamed(
                old(dev)@,
                old_path@,
                new_path@,
            ),
    {
        let (d1, n1) = self.resolve_parent_and_name(dev, old_path)?;
        let (d2, n2) = self.resolve_parent_and_name(dev, new_path)?;
        let mut cx = self.begin(dev)?;
        rename_entry(&mut cx.records, d1, n1.as_str(), d2, n2.as_str())?;
        self.commit(dev, cx)
    }

    /// Give the object at `existing_path`, which must not be a directory, a
    /// second entry at `new_path`.
    pub fn link(&mut self, dev: &mut MemoryBackend, existing_path: &str, new_path: &str) -> (r:
        Result<()>)
        requires
            old(self).wf(),
        ensures
            final(self).wf(),
            (final(self)@, final(dev)@, r) == old(self)@.linked(
                old(dev)@,
                existing_path@,
                new_path@,
            ),
    {
        let oid: u64 = self.resolve_path_to_oid(dev, existing_path)?;
        let (dir, name) = self.resolve_parent_and_name(dev, new_path)?;
        let rs = self.read_state()?;
        let dtype: u16 = rs.lookup_inode_dtype(dev, oid)?;
        if dtype == DT_DIR {
            return Err(Error::InvalidArgument);
        }
        let mut cx = self.begin(dev)?;
        link_entry(&mut cx.records, oid, dtype, dir, name.as_str())?;
        self.commit(dev, cx)
    }

    fn create(
        &mut self,
        dev: &mut MemoryBackend,
        path: &str,
        dtype: u16,
        mode: u16,
        time: u64,
        data: &[u8],
    ) -> (r: Result<()>)
        requires
            old(self).wf(),
        ensures
            final(self).wf(),
            (final(self)@, final(dev)@, r) == old(self)@.created(
                old(dev)@,
                path@,
                dtype,
                mode,
                time,
                data@,
            ),
    {
        let (dir, name) = self.resolve_parent_and_name(dev, path)?;
        let mut cx = self.begin(dev)?;
        let ghost l = self@.mode->Write_0;
        let n = Newcomer { parent: dir, dtype, mode, time };
        create_entry(&mut cx, dev, &n, name.as_str(), data, Ghost(l))?;
        if dtype == DT_DIR {
            cx.note_new_dir();
        } else if dtype == DT_LNK {
            cx.note_new_symlink();
        } else {
            cx.note_new_file();
        }
        self.commit(dev, cx)
    }

    /// Create a regular file at `path` with the contents `data`.
    pub fn create_file_at(
        &mut self,
        dev: &mut MemoryBackend,
        path: &str,
        data: &[u8],
        mode: u16,
        mtime_ns: u64,
    ) -> (r: Result<()>)
        requires
            old(self).wf(),
        ensures
            final(self).wf(),
            (final(self)@, final(dev)@, r) == old(self)@.created(
                old(dev)@,
                path@,
                DT_REG,
                reg(mode),
                mtime_ns,
                data@,
            ),
    {
        self.create(dev, path, DT_REG, mode_reg(mode), mtime_ns, data)
    }

    /// Create an empty directory at `path`.
    pub fn create_dir_at(
        &mut self,
        dev: &mut MemoryBackend,
        path: &str,
        mode: u16,
        mtime_ns: u64,
    ) -> (r: Result<()>)
        requires
            old(self).wf(),
        ensures
            final(self).wf(),
            (final(self)@, final(dev)@, r) == old(self)@.created(
                old(dev)@,
                path@,
                DT_DIR,
                dir(mode),
                mtime_ns,
                Seq::empty(),
            ),
    {
        let none: Vec<u8> = Vec::new();
        self.create(dev, path, DT_DIR, mode_dir(mode), mtime_ns, none.as_slice())
    }

    /// Create a symbolic link at `path`. The target is stored as it is.
    pub fn create_symlink_at(
        &mut self,
        dev: &mut MemoryBackend,
        path: &str,
        target: &str,
        mode: u16,
        mtime_ns: u64,
    ) -> (r: Result<()>)
        requires
            old(self).wf(),
        ensures
            final(self).wf(),
            (final(self)@, final(dev)@, r) == old(self)@.symlink_written(
                old(dev)@,
                path@,
                target@,
                mode,
                mtime_ns,
            ),
    {
        let _p = self.resolve_parent_and_name(dev, path)?;
        let b = target.as_bytes();
        if b.len() == 0 {
            return Err(Error::InvalidArgument);
        }
        self.create(dev, path, DT_LNK, mode_lnk(mode), mtime_ns, b)
    }

    /// Set the extended attribute `name` of the object at `path`.
    pub fn set_xattr(&mut self, dev: &mut MemoryBackend, path: &str, name: &str, value: &[u8]) -> (r:
        Result<()>)
        requires
            old(self).wf(),
        ensures
            final(self).wf(),
            (final(self)@, final(dev)@, r) == old(self)@.xattr_set(
                old(dev)@,
                path@,
                name@,
                value@,
            ),
    {
        let oid: u64 = self.resolve_path_to_oid(dev, path)?;
        let mut cx = self.begin(dev)?;
        remove_xattr_record(&mut cx.records, oid, name);
        let rec = build_xattr_record(oid, name, value)?;
        proof {
            bytes::lemma_le_lens();
        }
        ops::push_rec(&mut cx.records, rec);
        self.commit(dev, cx)
    }

    /// Remove the extended attribute `name` of the object at `path`; it need
    /// not be there.
    pub fn remove_xattr(&mut self, dev: &mut MemoryBackend, path: &str, name: &str) -> (r: Result<
        (),
    >)
        requires
            old(self).wf(),
        ensures
            final(self).wf(),
            (final(self)@, final(dev)@, r) == old(self)@.xattr_removed(old(dev)@, path@, name@),
    {
        let oid: u64 = self.resolve_path_to_oid(dev, path)?;
        let mut cx = self.begin(dev)?;
        remove_xattr_record(&mut cx.records, oid, name);
        self.commit(dev, cx)
    }

    /// Create a regular file with the contents `data`.
    pub fn create_file(
        &mut self,
        dev: &mut MemoryBackend,
        path: &str,
        data: &[u8],
        meta: FileMeta,
    ) -> (r: Result<()>)
        requires
            old(self).wf(),
        ensures
            final(self).wf(),
            (final(self)@, final(dev)@, r) == old(self)@.file_created(
                old(dev)@,
                path@,
                data@,
                meta,
            ),
    {
        let t: u64 = to_nanos(meta.mtime);
        match &mut self.state {
            ApfsState::Read(_) => Err(Error::Unsupported),
            ApfsState::Write(_) => self.create_file_at(dev, path, data, meta.mode, t),
            ApfsState::PendingWrite(p) => {
                let (dir, name) = p.resolve_parent(path)?;
                p.push(
                    PendingOp::File {
                        parent_oid: dir,
                        name,
                        mode: meta.mode,
                        mtime_ns: t,
                        data: copy_all(data),
                    },
                );
                Ok(())
            },
        }
    }

    /// Create a directory.
    pub fn create_dir(&mut self, dev: &mut MemoryBackend, path: &str, meta: FileMeta) -> (r: Result<
        (),
    >)
        requires
            old(self).wf(),
        ensures
            final(self).wf(),
            (final(self)@, final(dev)@, r) == old(self)@.dir_created(old(dev)@, path@, meta),
    {
        let t: u64 = to_nanos(meta.mtime);
        match &mut self.state {
            ApfsState::Read(_) => Err(Error::Unsupported),
            ApfsState::Write(_) => self.create_dir_at(dev, path, meta.mode, t),
            ApfsState::PendingWrite(p) => {
                let (dir, name) = p.resolve_parent(path)?;
                let oid: u64 = p.next_oid;
                p.note_dir(path, oid);
                p.push(
                    PendingOp::Dir { parent_oid: dir, name, mode: meta.mode, mtime_ns: t },
                );
                Ok(())
            },
        }
    }

    /// Create a symbolic link.
    pub fn create_symlink(
        &mut self,
        dev: &mut MemoryBackend,
        path: &str,
        target: &str,
        meta: FileMeta,
    ) -> (r: Result<()>)
        requires
            old(self).wf(),
        ensures
            final(self).wf(),
            (final(self)@, final(dev)@, r) == old(self)@.symlink_created(
                old(dev)@,
                path@,
                target@,
                meta,
            ),
    {
        let t: u64 = to_nanos(meta.mtime);
        match &mut self.state {
            ApfsState::Read(_) => Err(Error::Unsupported),
            ApfsState::Write(_) => self.create_symlink_at(dev, path, target, meta.mode, t),
            ApfsState::PendingWrite(p) => {
                let (dir, name) = p.resolve_parent(path)?;
                p.push(
                    PendingOp::Symlink {
                        parent_oid: dir,
                        name,
                        mode: meta.mode,
                        mtime_ns: t,
                        target: copy_text(target),
                    },
                );
                Ok(())
            },
        }
    }

    /// Device nodes cannot be created.
    pub fn create_device(
        &mut self,
        dev: &mut MemoryBackend,
        path: &str,
        kind: DeviceKind,
        major: u32,
        minor: u32,
        meta: FileMeta,
    ) -> (r: Result<()>)
        ensures
            (final(self)@, final(dev)@, r) == old(self)@.refused(old(dev)@, Error::Unsupported),
    {
        Err(Error::Unsupported)
    }

    /// Remove the entry at `path` of a container that is open for changes.
    pub fn remove(&mut self, dev: &mut MemoryBackend, path: &str) -> (r: Result<()>)
        requires
            old(self).wf(),
        ensures
            final(self).wf(),
            (final(self)@, final(dev)@, r) == old(self)@.where_writable(
                old(dev)@,
                old(self)@.removed(old(dev)@, path@),
            ),
    {
        match &self.state {
            ApfsState::Write(_) => self.remove_path(dev, path),
            _ => Err(Error::Unsupported),
        }
    }

    /// Link an object of a container that is open for changes a second time.
    pub fn hardlink(&mut self, dev: &mut MemoryBackend, target: &str, new_path: &str) -> (r: Result<
        (),
    >)
        requires
            old(self).wf(),
        ensures
            final(self).wf(),
            (final(self)@, final(dev)@, r) == old(self)@.where_writable(
                old(dev)@,
                old(self)@.linked(old(dev)@, target@, new_path@),
            ),
    {
        match &self.state {
            ApfsState::Write(_) => self.link(dev, target, new_path),
            _ => Err(Error::Unsupported),
        }
    }

    /// Write the operations that wait, and open the volume for reading.
    pub fn flush(&mut self, dev: &mut MemoryBackend) -> (r: Result<()>)
        requires
            old(self).wf(),
            old(self)@.mode matches Mode::Pending(p) ==> old(self)@.bs >= 1024 && p.ops.len()
                < 0x1000_0000_0000,
        ensures
            final(self).wf(),
            (final(self)@, final(dev)@, r) == old(self)@.flushed(old(dev)@),
    {
        let mut taken = PendingWrite::empty();
        match &mut self.state {
            ApfsState::PendingWrite(p) => {
                core::mem::swap(&mut taken, p);
            },
            _ => {
                return Ok(());
            },
        }
        let mut w = ApfsWriter::new(
            dev,
            taken.total_blocks,
            self.block_size,
            self.volume_name.as_str(),
        )?;
        replay_ops(&mut w, dev, &taken.ops)?;
        w.finish(dev)?;
        let s = open_first(dev)?;
        self.block_size = s.block_size;
        self.total_bytes = s.total_bytes;
        self.volume_name = copy_text(s.volume_name.as_str());
        self.state = ApfsState::Read(s);
        Ok(())
    }
}

} // verus!
