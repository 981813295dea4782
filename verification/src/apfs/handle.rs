//! A file of a container that is open for changes, held in memory.

use vstd::prelude::*;

use crate::apfs::change::Outcome;
use crate::apfs::content;
use crate::apfs::fs::{Apfs, ApfsState, Fs, Mode};
use crate::apfs::ops::{self, rewrite_contents};
use crate::apfs::rw;
use crate::apfs::volume;
use crate::block::MemoryBackend;
use crate::bytes::{self, copy_range, put_bytes};
use crate::entry::{self, OpenFlags, SeekFrom};
use crate::error::{Error, Result};
use crate::num;

verus! {

/// A file held in memory, as a mathematical value.
#[verifier::ext_equal]
pub struct Handle {
    pub oid: u64,
    /// The bytes of the file.
    pub contents: Seq<u8>,
    /// Where the next read or write starts.
    pub pos: u64,
    /// Whether there is something to write.
    pub dirty: bool,
}

/// A file held in memory. Its changes reach the device with
/// [`ApfsFileHandle::sync`].
pub struct ApfsFileHandle {
    pub target_oid: u64,
    pub contents: Vec<u8>,
    pub pos: u64,
    pub dirty: bool,
}

impl View for ApfsFileHandle {
    type V = Handle;

    open spec fn view(&self) -> Handle {
        Handle {
            oid: self.target_oid,
            contents: self.contents@,
            pos: self.pos,
            dirty: self.dirty,
        }
    }
}

/// The first `n` bytes of `c`, filled up with zeros.
pub open spec fn cut(c: Seq<u8>, n: int) -> Seq<u8> {
    Seq::new(
        n as nat,
        |i: int|
            if i < c.len() {
                c[i]
            } else {
                0u8
            },
    )
}

/// `c`, filled up with zeros to `n` bytes where it is shorter.
pub open spec fn at_least(c: Seq<u8>, n: int) -> Seq<u8> {
    if n <= c.len() {
        c
    } else {
        cut(c, n)
    }
}

impl Handle {
    /// With the length `n`; the position stays inside.
    pub open spec fn with_len(self, n: u64) -> Handle {
        if n == self.contents.len() {
            self
        } else {
            Handle {
                contents: cut(self.contents, n as int),
                pos: if self.pos > n {
                    n
                } else {
                    self.pos
                },
                dirty: true,
                ..self
            }
        }
    }

    /// Number of bytes that a read of up to `n` gives.
    pub open spec fn readable(self, n: int) -> int {
        let left = self.contents.len() - self.pos;
        if left <= 0 {
            0
        } else if left < n {
            left
        } else {
            n
        }
    }

    /// The bytes that a read of up to `n` gives.
    pub open spec fn given(self, n: int) -> Seq<u8> {
        let k = self.readable(n);
        if k == 0 {
            Seq::empty()
        } else {
            self.contents.subrange(self.pos as int, self.pos + k)
        }
    }

    /// Behind a read of up to `n` bytes.
    pub open spec fn after_read(self, n: int) -> Handle {
        Handle { pos: (self.pos + self.readable(n)) as u64, ..self }
    }

    /// With the bytes `b` written at the position, and the position behind them. A
    /// gap between the end of the file and the position is filled with zeros.
    pub open spec fn written(self, b: Seq<u8>) -> Handle {
        let end = self.pos + b.len();
        if b.len() == 0 {
            self
        } else {
            Handle {
                contents: bytes::put(at_least(self.contents, end), self.pos as int, b),
                pos: end as u64,
                dirty: true,
                ..self
            }
        }
    }

    /// With the position moved; `None` where it would leave the range of positions.
    pub open spec fn moved(self, from: SeekFrom) -> Option<Handle> {
        let t = entry::seek_target(from, self.pos, self.contents.len() as u64);
        if t < 0 || t > u64::MAX {
            None
        } else {
            Some(Handle { pos: t as u64, ..self })
        }
    }
}

impl Fs {
    /// The file at the path `p`, held in memory.
    pub open spec fn held(self, img: Seq<u8>, p: Seq<char>, flags: OpenFlags) -> Result<Handle> {
        match self.mode {
            Mode::Write(l) => match volume::resolve(l.m, img, p) {
                Err(e) => Err(e),
                Ok(oid) => match volume::stream_of(l.m, img, oid) {
                    Err(e) => Err(e),
                    Ok((size, holder)) => match content::extents(l.m, img, holder) {
                        Err(e) => Err(e),
                        Ok(es) => if size > usize::MAX || exists|q: int|
                            0 <= q < size && !(#[trigger] content::readable(
                                img,
                                es,
                                l.m.bs as int,
                                q,
                            )) {
                            Err(Error::OutOfBounds)
                        } else {
                            let c = if flags.truncate {
                                Seq::empty()
                            } else {
                                content::file_bytes(img, es, l.m.bs as int, 0, size as int)
                            };
                            Ok(
                                Handle {
                                    oid,
                                    contents: c,
                                    pos: if flags.append {
                                        c.len() as u64
                                    } else {
                                        0
                                    },
                                    dirty: flags.truncate,
                                },
                            )
                        },
                    },
                },
            },
            _ => Err(Error::Unsupported),
        }
    }

    /// Object `oid` gets the contents `data`, in newly allocated blocks.
    pub open spec fn synced(self, img: Seq<u8>, oid: u64, data: Seq<u8>) -> Outcome {
        match self.mode {
            Mode::Write(l) => match rw::all_records(l.m, img) {
                Err(e) => self.refused(img, e),
                Ok(rs) => match ops::rewritten(l, l.edit(rs), oid, data.len() as u64) {
                    Err(e) => self.refused(img, e),
                    Ok(edit) => match ops::data_stored(img, l.m.bs, l.bump, data) {
                        None => self.refused(img, Error::OutOfBounds),
                        Some(img2) => self.changed(l.committed(edit, img2)),
                    },
                },
            },
            _ => self.refused(img, Error::Unsupported),
        }
    }

    /// The contents of the file `h` reach the device, if they were changed.
    pub open spec fn kept(self, img: Seq<u8>, h: Handle) -> Outcome {
        if h.dirty {
            self.synced(img, h.oid, h.contents)
        } else {
            (self, img, Ok(()))
        }
    }

    /// The file at the path `p` is cut, or filled up with zeros, to `n` bytes.
    /// Where it has that length already nothing is written.
    pub open spec fn truncated(self, img: Seq<u8>, p: Seq<char>, n: u64) -> Outcome {
        let plain = OpenFlags { create: false, truncate: false, append: false };
        match self.held(img, p, plain) {
            Err(e) => self.refused(img, e),
            Ok(h) => if h.contents.len() == n {
                (self, img, Ok(()))
            } else {
                self.synced(img, h.oid, cut(h.contents, n as int))
            },
        }
    }
}

/// Give `c` the length `n`, filled up with zeros.
fn resize(c: &mut Vec<u8>, n: usize)
    ensures
        final(c)@ == cut(old(c)@, n as int),
{
    let ghost before = c@;
    if n <= c.len() {
        c.truncate(n);
    } else {
        while c.len() < n
            invariant
                before.len() <= c@.len() <= n,
                c@ == cut(before, c@.len() as int),
            decreases n - c@.len(),
        {
            c.push(0);
            assert(c@ =~= cut(before, c@.len() as int));
        }
    }
    assert(c@ =~= cut(before, n as int));
}

impl ApfsFileHandle {
    /// Load the file at `path`. The container must be open for changes.
    pub fn open(fs: &Apfs, dev: &MemoryBackend, path: &str, flags: OpenFlags) -> (r: Result<Self>)
        requires
            fs.wf(),
        ensures
            match r {
                Ok(h) => fs@.held(dev@, path@, flags) == Ok::<Handle, Error>(h@),
                Err(e) => fs@.held(dev@, path@, flags) == Err::<Handle, Error>(e),
            },
    {
        let w = match &fs.state {
            ApfsState::Write(w) => w,
            _ => {
                return Err(Error::Unsupported);
            },
        };
        let target_oid: u64 = w.read.resolve_path_to_oid(dev, path)?;
        let mut f = w.read.open_oid(dev, target_oid)?;
        if f.size > usize::MAX as u64 {
            return Err(Error::OutOfBounds);
        }
        let ghost me = f;
        let mut contents = match f.read_to_end(dev) {
            Ok(c) => c,
            Err(e) => {
                proof {
                    let q = choose|q: int|
                        me.cursor <= q < me.size && !(#[trigger] me.holds(dev@, q));
                    assert(!content::readable(dev@, me.extents@, me.block_size as int, q));
                }
                return Err(e);
            },
        };
        proof {
            assert forall|q: int| 0 <= q < me.size implies #[trigger] content::readable(
                dev@,
                me.extents@,
                me.block_size as int,
                q,
            ) by {
                assert(me.holds(dev@, q));
            }
        }
        if flags.truncate {
            contents = Vec::new();
        }
        let pos: u64 = if flags.append {
            contents.len() as u64
        } else {
            0
        };
        Ok(ApfsFileHandle { target_oid, contents, pos, dirty: flags.truncate })
    }

    /// Length of the file.
    pub fn len(&self) -> (n: u64)
        ensures
            n == self@.contents.len(),
    {
        self.contents.len() as u64
    }

    /// Read up to `n` bytes.
    pub fn read(&mut self, n: usize) -> (r: Vec<u8>)
        ensures
            r@ == old(self)@.given(n as int),
            final(self)@ == old(self)@.after_read(n as int),
    {
        if self.pos >= self.contents.len() as u64 {
            return Vec::new();
        }
        let start: usize = self.pos as usize;
        let left: usize = self.contents.len() - start;
        let k: usize = if left < n {
            left
        } else {
            n
        };
        let out = copy_range(self.contents.as_slice(), start, start + k);
        self.pos = self.pos + k as u64;
        if k == 0 {
            assert(out@ =~= Seq::empty());
        }
        out
    }

    /// Write `b`. A gap between the end of the file and the position is filled
    /// with zeros.
    pub fn write(&mut self, b: &[u8]) -> (r: Result<usize>)
        ensures
            ({
                let h = old(self)@;
                if b@.len() > 0 && h.pos + b@.len() > usize::MAX {
                    r == Err::<usize, Error>(Error::InvalidArgument) && final(self)@ == h
                } else {
                    r == Ok::<usize, Error>(b@.len() as usize) && final(self)@ == h.written(b@)
                }
            }),
    {
        if b.len() == 0 {
            return Ok(0);
        }
        if self.pos > (usize::MAX - b.len()) as u64 {
            return Err(Error::InvalidArgument);
        }
        let start: usize = self.pos as usize;
        let end: usize = start + b.len();
        if end > self.contents.len() {
            resize(&mut self.contents, end);
        }
        put_bytes(&mut self.contents, start, b);
        self.pos = end as u64;
        self.dirty = true;
        Ok(b.len())
    }

    /// Move the position; it may lie behind the end.
    pub fn seek(&mut self, from: SeekFrom) -> (r: Result<u64>)
        ensures
            ({
                let h = old(self)@;
                match h.moved(from) {
                    None => r == Err::<u64, Error>(Error::InvalidArgument) && final(self)@ == h,
                    Some(g) => r == Ok::<u64, Error>(g.pos) && final(self)@ == g,
                }
            }),
    {
        let t: i128 = match from {
            SeekFrom::Start(n) => n as i128,
            SeekFrom::Current(d) => self.pos as i128 + d as i128,
            SeekFrom::End(d) => self.contents.len() as i128 + d as i128,
        };
        if t < 0 || t > u64::MAX as i128 {
            return Err(Error::InvalidArgument);
        }
        self.pos = t as u64;
        Ok(self.pos)
    }

    /// Cut the file, or fill it up with zeros, to `new_len` bytes.
    pub fn set_len(&mut self, new_len: u64)
        requires
            new_len <= usize::MAX,
        ensures
            final(self)@ == old(self)@.with_len(new_len),
    {
        if new_len != self.contents.len() as u64 {
            resize(&mut self.contents, new_len as usize);
            self.dirty = true;
            if self.pos > new_len {
                self.pos = new_len;
            }
        }
    }

    /// Write a checkpoint with the changed contents, if they were changed.
    pub fn sync(&mut self, fs: &mut Apfs, dev: &mut MemoryBackend) -> (r: Result<()>)
        requires
            old(fs).wf(),
            old(self)@.contents.len() + 0x1_0000 <= u64::MAX,
        ensures
            final(fs).wf(),
            ({
                let h = old(self)@;
                &&& (final(fs)@, final(dev)@, r) == old(fs)@.kept(old(dev)@, h)
                &&& final(self)@ == (Handle { dirty: r is Err, ..h })
            }),
    {
        if !self.dirty {
            return Ok(());
        }
        let mut cx = fs.begin(dev)?;
        let ghost l = fs@.mode->Write_0;
        proof {
            num::lemma_div_up(self.contents@.len() as int, l.m.bs as int);
            let q = num::div_up(self.contents@.len() as int, l.m.bs as int);
            assert(q * l.m.bs == (q - 1) * l.m.bs + l.m.bs) by (nonlinear_arith);
        }
        rewrite_contents(&mut cx, dev, self.target_oid, self.contents.as_slice(), Ghost(l))?;
        fs.commit(dev, cx)?;
        self.dirty = false;
        Ok(())
    }
}

impl Apfs {
    /// Open the file at `path` for reading and writing. It must be there.
    pub fn open_file_rw(&self, dev: &MemoryBackend, path: &str, flags: OpenFlags) -> (r: Result<
        ApfsFileHandle,
    >)
        requires
            self.wf(),
        ensures
            match r {
                Ok(h) => !flags.create && self@.held(dev@, path@, flags) == Ok::<Handle, Error>(h@),
                Err(e) => if flags.create {
                    e == Error::Unsupported
                } else {
                    self@.held(dev@, path@, flags) == Err::<Handle, Error>(e)
                },
            },
    {
        if flags.create {
            return Err(Error::Unsupported);
        }
        ApfsFileHandle::open(self, dev, path, flags)
    }

    /// Cut the file at `path`, or fill it up with zeros, to `new_size` bytes.
    pub fn truncate(&mut self, dev: &mut MemoryBackend, path: &str, new_size: u64) -> (r: Result<
        (),
    >)
        requires
            old(self).wf(),
            new_size <= usize::MAX,
            new_size + 0x1_0000 <= u64::MAX,
        ensures
            final(self).wf(),
            (final(self)@, final(dev)@, r) == old(self)@.truncated(old(dev)@, path@, new_size),
    {
        let mut h = ApfsFileHandle::open(
            self,
            dev,
            path,
            OpenFlags { create: false, truncate: false, append: false },
        )?;
        proof {
            assert(!h@.dirty);
        }
        h.set_len(new_size);
        h.sync(self, dev)
    }
}

} // verus!
