//! The device that images live on.

use vstd::prelude::*;

use crate::bytes::{self, copy_range, put_bytes, zero_vec};
use crate::error::{self, Error, Result};

verus! {

/// What reading `len` bytes at `off` of a device that holds `img` gives.
pub open spec fn read(img: Seq<u8>, off: int, len: int) -> Result<Seq<u8>> {
    if off + len <= img.len() {
        Ok(img.subrange(off, off + len))
    } else {
        Err(Error::OutOfBounds)
    }
}

/// Block number `paddr` of a device that holds `img` in blocks of `bs` bytes.
pub open spec fn block_at(img: Seq<u8>, bs: int, paddr: u64) -> Result<Seq<u8>> {
    read(img, paddr * bs, bs)
}

/// `img` with each of the blocks `bl` written at its address, in order, up to
/// the first that does not fit; and whether all of them did.
pub open spec fn store_all(img: Seq<u8>, bs: int, bl: Seq<(u64, Seq<u8>)>) -> (Seq<u8>, bool)
    decreases bl.len(),
{
    if bl.len() == 0 {
        (img, true)
    } else if bl[0].0 * bs + bl[0].1.len() <= img.len() {
        store_all(bytes::put(img, bl[0].0 * bs, bl[0].1), bs, bl.skip(1))
    } else {
        (img, false)
    }
}

/// A device held in memory. Its view is the sequence of its bytes.
pub struct MemoryBackend {
    data: Vec<u8>,
}

impl View for MemoryBackend {
    type V = Seq<u8>;

    closed spec fn view(&self) -> Seq<u8> {
        self.data@
    }
}

impl MemoryBackend {
    /// A device of `size` zero bytes.
    pub fn new(size: u64) -> (r: Self)
        requires
            size <= usize::MAX,
        ensures
            r@ == bytes::zeros(size as nat),
    {
        MemoryBackend { data: zero_vec(size as usize) }
    }

    /// A device that holds `data`.
    pub fn from_vec(data: Vec<u8>) -> (r: Self)
        ensures
            r@ == data@,
    {
        MemoryBackend { data }
    }

    /// All the bytes of the device.
    pub fn as_slice(&self) -> (r: &[u8])
        ensures
            r@ == self@,
    {
        self.data.as_slice()
    }

    /// Number of bytes the device holds.
    pub fn total_size(&self) -> (n: u64)
        ensures
            n == self@.len(),
    {
        self.data.len() as u64
    }

    /// Read `len` bytes at `off`.
    pub fn read_at(&self, off: u64, len: usize) -> (r: Result<Vec<u8>>)
        ensures
            error::view_of(r) == read(self@, off as int, len as int),
    {
        let size: u64 = self.data.len() as u64;
        if off > size || (len as u64) > size - off {
            return Err(Error::OutOfBounds);
        }
        Ok(copy_range(self.data.as_slice(), off as usize, off as usize + len))
    }

    /// Read block number `paddr` of `bs` bytes.
    pub fn read_block(&self, paddr: u64, bs: usize) -> (r: Result<Vec<u8>>)
        ensures
            error::view_of(r) == block_at(self@, bs as int, paddr),
    {
        match paddr.checked_mul(bs as u64) {
            Some(off) => self.read_at(off, bs),
            None => {
                assert(self.data.len() <= u64::MAX);
                Err(Error::OutOfBounds)
            },
        }
    }

    /// Write the block `b` at address `paddr` of a device of blocks of `bs` bytes.
    pub fn write_block(&mut self, paddr: u64, bs: usize, b: &[u8]) -> (r: Result<()>)
        ensures
            r == (if paddr * bs + b@.len() <= old(self)@.len() {
                Ok(())
            } else {
                Err::<(), Error>(Error::OutOfBounds)
            }),
            final(self)@ == if r is Ok {
                bytes::put(old(self)@, paddr * bs, b@)
            } else {
                old(self)@
            },
    {
        match paddr.checked_mul(bs as u64) {
            Some(off) => self.write_at(off, b),
            None => {
                assert(self.data.len() <= u64::MAX);
                Err(Error::OutOfBounds)
            },
        }
    }

    /// Write the blocks `bl` in order.
    pub fn write_blocks(&mut self, bs: usize, bl: &Vec<(u64, Vec<u8>)>) -> (r: Result<()>)
        ensures
            ({
                let views = Seq::new(bl@.len(), |i: int| (bl@[i].0, bl@[i].1@));
                let done = store_all(old(self)@, bs as int, views);
                &&& final(self)@ == done.0
                &&& r == if done.1 {
                    Ok(())
                } else {
                    Err::<(), Error>(Error::OutOfBounds)
                }
            }),
    {
        let ghost views = Seq::new(bl@.len(), |i: int| (bl@[i].0, bl@[i].1@));
        let ghost start = self@;
        let mut i: usize = 0;
        proof {
            assert(views.skip(0) =~= views);
        }
        while i < bl.len()
            invariant
                i <= bl@.len(),
                views == Seq::new(bl@.len(), |k: int| (bl@[k].0, bl@[k].1@)),
                start == old(self)@,
                store_all(start, bs as int, views) == store_all(
                    self@,
                    bs as int,
                    views.skip(i as int),
                ),
            decreases bl@.len() - i,
        {
            proof {
                assert(views.skip(i as int)[0] == views[i as int]);
                assert(views.skip(i as int).skip(1) =~= views.skip(i + 1));
            }
            self.write_block(bl[i].0, bs, bl[i].1.as_slice())?;
            i = i + 1;
        }
        Ok(())
    }

    /// Overwrite the device from `off` on with `b`.
    pub fn write_at(&mut self, off: u64, b: &[u8]) -> (r: Result<()>)
        ensures
            r == (if off + b@.len() <= old(self)@.len() {
                Ok(())
            } else {
                Err::<(), Error>(Error::OutOfBounds)
            }),
            final(self)@ == if r is Ok {
                bytes::put(old(self)@, off as int, b@)
            } else {
                old(self)@
            },
    {
        let size: u64 = self.data.len() as u64;
        if off > size || (b.len() as u64) > size - off {
            return Err(Error::OutOfBounds);
        }
        put_bytes(&mut self.data, off as usize, b);
        Ok(())
    }
}

} // verus!
