//! A container that is being made up: operations wait in memory until the image
//! is written in one pass.

use vstd::prelude::*;

use crate::apfs::volume::ROOT_DIR_INO;
use crate::apfs::write::{ApfsWriter, Draft};
use crate::block::MemoryBackend;
use crate::bytes;
use crate::error::{Error, Result};
use crate::path::{self, split_path};
use crate::text::{self, same_text, to_chars};

verus! {

/// An operation that waits.
pub enum Op {
    Dir { parent: u64, name: Seq<char>, mode: u16, time: u64 },
    File { parent: u64, name: Seq<char>, mode: u16, time: u64, data: Seq<u8> },
    Link { parent: u64, name: Seq<char>, mode: u16, time: u64, target: Seq<char> },
}

/// An operation that waits.
pub enum PendingOp {
    Dir { parent_oid: u64, name: String, mode: u16, mtime_ns: u64 },
    File { parent_oid: u64, name: String, mode: u16, mtime_ns: u64, data: Vec<u8> },
    Symlink { parent_oid: u64, name: String, mode: u16, mtime_ns: u64, target: String },
}

impl View for PendingOp {
    type V = Op;

    open spec fn view(&self) -> Op {
        match self {
            PendingOp::Dir { parent_oid, name, mode, mtime_ns } => Op::Dir {
                parent: *parent_oid,
                name: name@,
                mode: *mode,
                time: *mtime_ns,
            },
            PendingOp::File { parent_oid, name, mode, mtime_ns, data } => Op::File {
                parent: *parent_oid,
                name: name@,
                mode: *mode,
                time: *mtime_ns,
                data: data@,
            },
            PendingOp::Symlink { parent_oid, name, mode, mtime_ns, target } => Op::Link {
                parent: *parent_oid,
                name: name@,
                mode: *mode,
                time: *mtime_ns,
                target: target@,
            },
        }
    }
}

/// One operation carried out: writer, device and outcome after it.
pub open spec fn step(d: Draft, img: Seq<u8>, op: Op) -> (Draft, Seq<u8>, Result<u64>) {
    match op {
        Op::Dir { parent, name, mode, time } => {
            let (d2, r) = d.dir_added(parent, name, mode, time);
            (d2, img, r)
        },
        Op::File { parent, name, mode, time, data } => {
            let size = data.len() as u64;
            let (d2, r) = d.file_added(parent, name, mode, size, time);
            let img2 = if r is Ok && size > 0 {
                crate::apfs::write::stored(
                    img,
                    d.block_size,
                    d.next_block,
                    data,
                    size,
                    d.blocks_for(size),
                )
            } else {
                img
            };
            (d2, img2, r)
        },
        Op::Link { parent, name, mode, time, target } => {
            let b = text::utf8(target);
            let (d2, r) = d.link_added(parent, name, mode, target, time);
            let img2 = if r is Ok {
                crate::apfs::write::stored(
                    img,
                    d.block_size,
                    d.next_block,
                    b,
                    b.len() as u64,
                    d.blocks_for(b.len() as u64),
                )
            } else {
                img
            };
            (d2, img2, r)
        },
    }
}

/// The first `i` operations carried out in order, up to the first that fails.
pub open spec fn replay(d: Draft, img: Seq<u8>, ops: Seq<Op>, i: int) -> (
    Draft,
    Seq<u8>,
    Result<()>,
)
    decreases i,
{
    if i <= 0 {
        (d, img, Ok(()))
    } else {
        let (d1, img1, r1) = replay(d, img, ops, i - 1);
        match r1 {
            Err(e) => (d1, img1, Err(e)),
            Ok(_) => {
                let (d2, img2, r2) = step(d1, img1, ops[i - 1]);
                (
                    d2,
                    img2,
                    match r2 {
                        Ok(_) => Ok(()),
                        Err(e) => Err(e),
                    },
                )
            },
        }
    }
}

/// The path of a directory: whether it starts at the root, and its components.
pub type DirPath = (bool, Seq<Seq<char>>);

/// What is waiting to be written.
#[verifier::ext_equal]
pub struct Pend {
    pub total_blocks: u64,
    /// The directories so far, with their object ids; a later one hides an
    /// earlier one with the same path.
    pub dirs: Seq<(DirPath, u64)>,
    pub ops: Seq<Op>,
    /// The object id that the next operation will be given.
    pub next_oid: u64,
}

/// A directory that waits.
pub struct PendingDir {
    pub absolute: bool,
    pub parts: Vec<String>,
    pub oid: u64,
}

impl View for PendingDir {
    type V = (DirPath, u64);

    open spec fn view(&self) -> (DirPath, u64) {
        ((self.absolute, path::texts(self.parts@)), self.oid)
    }
}

/// What is waiting to be written.
pub struct PendingWrite {
    pub total_blocks: u64,
    pub dirs: Vec<PendingDir>,
    pub ops: Vec<PendingOp>,
    pub next_oid: u64,
}

/// The views of the operations that wait.
pub open spec fn op_views(s: Seq<PendingOp>) -> Seq<Op> {
    Seq::new(s.len(), |i: int| s[i]@)
}

/// The views of the directories that wait.
pub open spec fn dir_views(s: Seq<PendingDir>) -> Seq<(DirPath, u64)> {
    Seq::new(s.len(), |i: int| s[i]@)
}

impl View for PendingWrite {
    type V = Pend;

    open spec fn view(&self) -> Pend {
        Pend {
            total_blocks: self.total_blocks,
            dirs: dir_views(self.dirs@),
            ops: op_views(self.ops@),
            next_oid: self.next_oid,
        }
    }
}

/// The path of the root directory.
pub open spec fn root_path() -> DirPath {
    (true, Seq::empty())
}

/// Nothing waiting.
pub open spec fn nothing() -> Pend {
    Pend { total_blocks: 0, dirs: Seq::empty(), ops: Seq::empty(), next_oid: 16 }
}

/// Object id of the last of the first `n` directories with the path `p`.
pub open spec fn dir_oid(dirs: Seq<(DirPath, u64)>, p: DirPath, n: int) -> Option<u64>
    decreases n,
{
    if n <= 0 {
        None
    } else if dirs[n - 1].0 == p {
        Some(dirs[n - 1].1)
    } else {
        dir_oid(dirs, p, n - 1)
    }
}

/// Whether the path `s` starts at the root.
pub open spec fn is_absolute(s: Seq<char>) -> bool {
    s.len() > 0 && s[0] == '/'
}

/// The path of directory `s`.
pub open spec fn dir_path(s: Seq<char>) -> DirPath {
    (is_absolute(s), path::parts(s))
}

/// The path of the directory that holds `s`.
pub open spec fn parent_path(s: Seq<char>) -> DirPath {
    let ps = path::parts(s).drop_last();
    if ps.len() == 0 {
        root_path()
    } else {
        (is_absolute(s), ps)
    }
}

impl Pend {
    /// Object id of the directory that holds the path `s`, and the name in it.
    /// The directory must have been created before.
    pub open spec fn resolve_parent(self, s: Seq<char>) -> Result<(u64, Seq<char>)> {
        let ps = path::parts(s);
        if ps.len() == 0 || ps.last() == seq!['.', '.'] {
            Err(Error::InvalidArgument)
        } else {
            match dir_oid(self.dirs, parent_path(s), self.dirs.len() as int) {
                None => Err(Error::InvalidArgument),
                Some(o) => Ok((o, ps.last())),
            }
        }
    }

    /// With the operation `op` added; it will be given the next object id.
    pub open spec fn with_op(self, op: Op) -> Pend {
        Pend {
            ops: self.ops.push(op),
            next_oid: if self.next_oid == u64::MAX {
                self.next_oid
            } else {
                (self.next_oid + 1) as u64
            },
            ..self
        }
    }
}

fn same_parts(a: &Vec<String>, b: &Vec<String>, n: usize) -> (r: bool)
    requires
        n <= b@.len(),
    ensures
        r == (path::texts(a@) == path::texts(b@).take(n as int)),
{
    if a.len() != n {
        proof {
            assert(path::texts(a@).len() != path::texts(b@).take(n as int).len());
        }
        return false;
    }
    let mut i: usize = 0;
    while i < n
        invariant
            i <= n,
            n == a@.len(),
            n <= b@.len(),
            forall|k: int| 0 <= k < i ==> (#[trigger] a@[k])@ == b@[k]@,
        decreases n - i,
    {
        if !same_text(a[i].as_str(), b[i].as_str()) {
            proof {
                assert(path::texts(a@)[i as int] != path::texts(b@).take(n as int)[i as int]);
            }
            return false;
        }
        i = i + 1;
    }
    proof {
        assert(path::texts(a@) =~= path::texts(b@).take(n as int));
    }
    true
}

pub(crate) fn starts_at_root(s: &str) -> (r: bool)
    ensures
        r == is_absolute(s@),
{
    let c = to_chars(s);
    c.len() > 0 && c[0] == '/'
}

impl PendingWrite {
    /// Nothing but the root directory.
    pub fn new(total_blocks: u64) -> (r: Self)
        ensures
            r@ == (Pend {
                total_blocks,
                dirs: seq![(root_path(), ROOT_DIR_INO)],
                ops: Seq::empty(),
                next_oid: 16,
            }),
    {
        let mut dirs: Vec<PendingDir> = Vec::new();
        let root = PendingDir { absolute: true, parts: Vec::new(), oid: ROOT_DIR_INO };
        proof {
            assert(path::texts(root.parts@) =~= Seq::empty());
        }
        let ghost rv = root@;
        dirs.push(root);
        let r = PendingWrite { total_blocks, dirs, ops: Vec::new(), next_oid: 16 };
        proof {
            assert(dir_views(r.dirs@) =~= seq![rv]);
            assert(op_views(r.ops@) =~= Seq::empty());
        }
        r
    }

    /// Nothing at all.
    pub fn empty() -> (r: Self)
        ensures
            r@ == nothing(),
    {
        let r = PendingWrite {
            total_blocks: 0,
            dirs: Vec::new(),
            ops: Vec::new(),
            next_oid: 16,
        };
        proof {
            assert(dir_views(r.dirs@) =~= Seq::empty());
            assert(op_views(r.ops@) =~= Seq::empty());
        }
        r
    }

    /// Object id of the directory that holds `path`, and the name in it.
    pub fn resolve_parent(&self, path: &str) -> (r: Result<(u64, String)>)
        ensures
            match r {
                Ok((o, n)) => self@.resolve_parent(path@) == Ok::<(u64, Seq<char>), Error>(
                    (o, n@),
                ),
                Err(e) => self@.resolve_parent(path@) == Err::<(u64, Seq<char>), Error>(e),
            },
    {
        let ps = split_path(path);
        if ps.len() == 0 {
            return Err(Error::InvalidArgument);
        }
        let last: usize = ps.len() - 1;
        let leaf = to_chars(ps[last].as_str());
        let ghost dots = seq!['.', '.'];
        if leaf.len() == 2 && leaf[0] == '.' && leaf[1] == '.' {
            proof {
                assert(leaf@ =~= dots);
            }
            return Err(Error::InvalidArgument);
        }
        proof {
            if leaf@ == dots {
                assert(leaf@[0] == '.' && leaf@[1] == '.');
            }
        }
        let absolute = last == 0 || starts_at_root(path);
        let ghost want = parent_path(path@);
        let ghost dirs = self@.dirs;
        proof {
            assert(path::texts(ps@).take(last as int) =~= path::parts(path@).drop_last());
            if last == 0 {
                assert(path::parts(path@).drop_last() =~= Seq::empty());
            }
            assert(want == (absolute, path::parts(path@).drop_last()));
        }
        let mut i: usize = self.dirs.len();
        while i > 0
            invariant
                i <= self.dirs@.len(),
                dirs == dir_views(self.dirs@),
                last < ps@.len(),
                path::texts(ps@).take(last as int) == want.1,
                want.0 == absolute,
                want == parent_path(path@),
                path::texts(ps@) == path::parts(path@),
                ps@.len() == last + 1,
                ps@[last as int]@ != seq!['.', '.'],
                dirs == self@.dirs,
                dir_oid(dirs, want, dirs.len() as int) == dir_oid(dirs, want, i as int),
            decreases i,
        {
            let d = &self.dirs[i - 1];
            assert(dirs[i - 1] == d@);
            if d.absolute == absolute && same_parts(&d.parts, &ps, last) {
                return Ok((d.oid, text::copy_text(ps[last].as_str())));
            }
            i = i - 1;
        }
        Err(Error::InvalidArgument)
    }

    /// Add an operation.
    pub fn push(&mut self, op: PendingOp)
        ensures
            final(self)@ == old(self)@.with_op(op@),
    {
        let ghost before = self.ops@;
        let ghost ov = op@;
        self.ops.push(op);
        if self.next_oid < u64::MAX {
            self.next_oid = self.next_oid + 1;
        }
        proof {
            assert(op_views(self.ops@) =~= op_views(before).push(ov));
        }
    }

    /// Remember the directory at `path` under the object id `oid`.
    pub fn note_dir(&mut self, path: &str, oid: u64)
        ensures
            final(self)@ == (Pend {
                dirs: old(self)@.dirs.push((dir_path(path@), oid)),
                ..old(self)@
            }),
    {
        let ghost before = self.dirs@;
        let d = PendingDir { absolute: starts_at_root(path), parts: split_path(path), oid };
        let ghost dv = d@;
        self.dirs.push(d);
        proof {
            assert(dir_views(self.dirs@) =~= dir_views(before).push(dv));
        }
    }
}

/// How much a replay can add to a writer.
pub open spec fn grown(d: Draft, i: int) -> bool {
    &&& d.next_oid <= 16 + i
    &&& d.records.len() <= 1 + 4 * i
    &&& d.num_files <= i
    &&& d.num_directories <= i
    &&& d.num_symlinks <= i
    &&& d.fresh
    &&& d.xid == 2
}

proof fn lemma_step(d: Draft, img: Seq<u8>, op: Op, i: int)
    requires
        d.wf(),
        d.within(img),
        grown(d, i),
        i < 0x1000_0000_0000,
    ensures
        step(d, img, op).0.block_size == d.block_size,
        step(d, img, op).0.total_blocks == d.total_blocks,
        step(d, img, op).1.len() == img.len(),
        step(d, img, op).2 is Ok ==> grown(step(d, img, op).0, i + 1),
{
    broadcast use bytes::lemma_put_len;

}

/// Carry out one operation on the writer `w`.
fn apply_op(w: &mut ApfsWriter, dev: &mut MemoryBackend, op: &PendingOp) -> (r: Result<u64>)
    requires
        old(w)@.wf(),
        old(w)@.within(old(dev)@),
        old(w)@.num_files < u64::MAX,
        old(w)@.num_directories < u64::MAX,
        old(w)@.num_symlinks < u64::MAX,
    ensures
        final(w)@.wf(),
        (final(w)@, final(dev)@, r) == step(old(w)@, old(dev)@, op@),
{
    match op {
        PendingOp::Dir { parent_oid, name, mode, mtime_ns } => w.add_dir_at_time(
            *parent_oid,
            name.as_str(),
            *mode,
            *mtime_ns,
        ),
        PendingOp::File { parent_oid, name, mode, mtime_ns, data } => {
            w.add_file_from_reader_at_time(
                dev,
                *parent_oid,
                name.as_str(),
                *mode,
                data.as_slice(),
                data.len() as u64,
                *mtime_ns,
            )
        },
        PendingOp::Symlink { parent_oid, name, mode, mtime_ns, target } => w.add_symlink_at_time(
            dev,
            *parent_oid,
            name.as_str(),
            *mode,
            target.as_str(),
            *mtime_ns,
        ),
    }
}

/// Carry out the operations on the writer `w`.
pub fn replay_ops(w: &mut ApfsWriter, dev: &mut MemoryBackend, ops: &Vec<PendingOp>) -> (r: Result<
    (),
>)
    requires
        old(w)@.wf(),
        old(w)@.within(old(dev)@),
        grown(old(w)@, 0),
        ops@.len() < 0x1000_0000_0000,
    ensures
        final(w)@.wf(),
        final(w)@.block_size == old(w)@.block_size,
        r is Ok ==> grown(final(w)@, ops@.len() as int),
        (final(w)@, final(dev)@, r) == replay(
            old(w)@,
            old(dev)@,
            op_views(ops@),
            ops@.len() as int,
        ),
{
    let ghost d0 = w@;
    let ghost img0 = dev@;
    let ghost vs = op_views(ops@);
    let mut i: usize = 0;
    while i < ops.len()
        invariant
            i <= ops@.len(),
            ops@.len() < 0x1000_0000_0000,
            vs == op_views(ops@),
            d0 == old(w)@,
            img0 == old(dev)@,
            w@.wf(),
            w@.within(dev@),
            w@.block_size == d0.block_size,
            grown(w@, i as int),
            (w@, dev@, Ok::<(), Error>(())) == replay(d0, img0, vs, i as int),
        decreases ops@.len() - i,
    {
        assert(vs[i as int] == ops@[i as int]@);
        proof {
            lemma_step(w@, dev@, vs[i as int], i as int);
        }
        let res = apply_op(w, dev, &ops[i]);
        if let Err(e) = res {
            proof {
                lemma_replay_err(d0, img0, vs, i + 1, vs.len() as int);
            }
            return Err(e);
        }
        i = i + 1;
    }
    Ok(())
}

/// Nothing is carried out behind the first failure.
pub proof fn lemma_replay_err(d: Draft, img: Seq<u8>, ops: Seq<Op>, i: int, n: int)
    requires
        i <= n,
        replay(d, img, ops, i).2 is Err,
    ensures
        replay(d, img, ops, n) == replay(d, img, ops, i),
    decreases n - i,
{
    if i < n {
        lemma_replay_err(d, img, ops, i, n - 1);
    }
}

} // verus!
