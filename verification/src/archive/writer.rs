//! Writing one run of bytes behind another.

use vstd::prelude::*;

use crate::block::MemoryBackend;
use crate::bytes;
use crate::error::{Error, Result};

verus! {

/// The device `img`, the position and the outcome after `b` was written at
/// `pos`.
pub open spec fn written(img: Seq<u8>, pos: u64, b: Seq<u8>) -> (Seq<u8>, u64, Result<()>) {
    if pos + b.len() > img.len() {
        (img, pos, Err(Error::OutOfBounds))
    } else {
        (bytes::put(img, pos as int, b), (pos + b.len()) as u64, Ok(()))
    }
}

/// The same after the first `n` of the runs `bs` were written one behind
/// another, up to the first that does not fit.
pub open spec fn run(img: Seq<u8>, pos: u64, bs: Seq<Seq<u8>>, n: int) -> (
    Seq<u8>,
    u64,
    Result<()>,
)
    decreases n,
{
    if n <= 0 {
        (img, pos, Ok(()))
    } else {
        let (i, p, r) = run(img, pos, bs, n - 1);
        if r is Err {
            (i, p, r)
        } else {
            written(i, p, bs[n - 1])
        }
    }
}

/// The same after all the runs `bs` were written.
pub open spec fn run_all(img: Seq<u8>, pos: u64, bs: Seq<Seq<u8>>) -> (Seq<u8>, u64, Result<()>) {
    run(img, pos, bs, bs.len() as int)
}

/// The runs `bs` one behind another.
pub open spec fn chained(bs: Seq<Seq<u8>>, n: int) -> Seq<u8>
    decreases n,
{
    if n <= 0 {
        Seq::empty()
    } else {
        chained(bs, n - 1) + bs[n - 1]
    }
}

/// Once a run did not fit, nothing more is written.
pub proof fn lemma_run_err(img: Seq<u8>, pos: u64, bs: Seq<Seq<u8>>, i: int, n: int)
    requires
        i <= n,
        run(img, pos, bs, i).2 is Err,
    ensures
        run(img, pos, bs, n) == run(img, pos, bs, i),
    decreases n - i,
{
    if i < n {
        lemma_run_err(img, pos, bs, i, n - 1);
    }
}

/// Where all runs fit they are written like one run.
pub proof fn lemma_run_ok(img: Seq<u8>, pos: u64, bs: Seq<Seq<u8>>, n: int)
    requires
        0 <= n <= bs.len(),
        run(img, pos, bs, n).2 is Ok,
        pos <= img.len() <= u64::MAX,
    ensures
        run(img, pos, bs, n) == written(img, pos, chained(bs, n)),
        pos + chained(bs, n).len() <= img.len(),
    decreases n,
{
    broadcast use bytes::lemma_put_len;

    if n > 0 {
        if run(img, pos, bs, n - 1).2 is Err {
            lemma_run_err(img, pos, bs, n - 1, n);
        }
        lemma_run_ok(img, pos, bs, n - 1);
        let a = chained(bs, n - 1);
        let b = bs[n - 1];
        assert(bytes::put(bytes::put(img, pos as int, a), pos + a.len(), b) =~= bytes::put(
            img,
            pos as int,
            a + b,
        )) by {
            reveal(bytes::put);
        }
    } else {
        assert(bytes::put(img, pos as int, Seq::empty()) =~= img) by {
            reveal(bytes::put);
        }
    }
}

/// Where the next run is written.
pub struct Cursor {
    pub pos: u64,
}

impl Cursor {
    /// At the start of the device.
    pub fn new() -> (r: Self)
        ensures
            r.pos == 0,
    {
        Cursor { pos: 0 }
    }

    /// Write `b` and move behind it.
    pub fn write(&mut self, dev: &mut MemoryBackend, b: &[u8]) -> (r: Result<()>)
        ensures
            (final(dev)@, final(self).pos, r) == written(old(dev)@, old(self).pos, b@),
    {
        let held: u64 = dev.total_size();
        dev.write_at(self.pos, b)?;
        self.pos = self.pos + b.len() as u64;
        Ok(())
    }

    /// Write the runs `bs` one behind another.
    pub fn write_all(&mut self, dev: &mut MemoryBackend, bs: &Vec<Vec<u8>>) -> (r: Result<()>)
        ensures
            (final(dev)@, final(self).pos, r) == run_all(old(dev)@, old(self).pos, views(bs@)),
    {
        let ghost img = dev@;
        let ghost pos = self.pos;
        let ghost all = views(bs@);
        let mut i: usize = 0;
        while i < bs.len()
            invariant
                i <= bs@.len(),
                all == views(bs@),
                img == old(dev)@,
                pos == old(self).pos,
                (dev@, self.pos, Ok::<(), Error>(())) == run(img, pos, all, i as int),
            decreases bs@.len() - i,
        {
            assert(all[i as int] == bs@[i as int]@);
            let res = self.write(dev, bs[i].as_slice());
            if let Err(e) = res {
                proof {
                    lemma_run_err(img, pos, all, i + 1, all.len() as int);
                }
                return Err(e);
            }
            i = i + 1;
        }
        Ok(())
    }

    /// Number of bytes written so far.
    pub fn position(&self) -> (n: u64)
        ensures
            n == self.pos,
    {
        self.pos
    }
}

/// The views of a list of runs.
pub open spec fn views(bs: Seq<Vec<u8>>) -> Seq<Seq<u8>> {
    Seq::new(bs.len(), |i: int| bs[i]@)
}

} // verus!
