//! Bytes of one file, held in memory.

use vstd::prelude::*;

use crate::bytes::copy_range;
use crate::entry::{self, SeekFrom};
use crate::error::{Error, Result};

verus! {

/// A seekable reader over bytes in memory.
pub struct MemHandle {
    pub bytes: Vec<u8>,
    /// Where the next read starts; it may lie behind the end.
    pub pos: u64,
}

/// A reader at the start of `bytes`.
pub fn mem_handle(bytes: Vec<u8>) -> (r: MemHandle)
    ensures
        r.bytes@ == bytes@,
        r.pos == 0,
{
    MemHandle { bytes, pos: 0 }
}

/// The bytes of `b` from `pos` on, up to `n` of them.
pub open spec fn window(b: Seq<u8>, pos: int, n: int) -> Seq<u8> {
    if pos >= b.len() || n <= 0 {
        Seq::empty()
    } else if pos + n > b.len() {
        b.subrange(pos, b.len() as int)
    } else {
        b.subrange(pos, pos + n)
    }
}

/// The bytes of `b` from `pos` on, up to `n` of them.
pub fn copy_window(b: &[u8], pos: u64, n: u64) -> (r: Vec<u8>)
    ensures
        r@ == window(b@, pos as int, n as int),
{
    if pos >= b.len() as u64 || n == 0 {
        return Vec::new();
    }
    let from: usize = pos as usize;
    let left: usize = b.len() - from;
    if n > left as u64 {
        copy_range(b, from, b.len())
    } else {
        copy_range(b, from, from + n as usize)
    }
}

/// Where a reader that stands at `pos` of `len` bytes stands once it was moved; that
/// may be behind the end.
pub open spec fn sought(from: SeekFrom, pos: u64, len: u64) -> Result<u64> {
    let t = entry::seek_target(from, pos, len);
    if t < 0 || t > u64::MAX {
        Err(Error::InvalidArgument)
    } else {
        Ok(t as u64)
    }
}

impl MemHandle {
    /// Number of bytes.
    pub fn len(&self) -> (n: u64)
        ensures
            n == self.bytes@.len(),
    {
        self.bytes.len() as u64
    }

    /// Read up to `n` bytes.
    pub fn read(&mut self, n: usize) -> (r: Vec<u8>)
        ensures
            r@ == window(old(self).bytes@, old(self).pos as int, n as int),
            final(self).bytes@ == old(self).bytes@,
            final(self).pos == old(self).pos + r@.len(),
    {
        let r = copy_window(self.bytes.as_slice(), self.pos, n as u64);
        let held: usize = self.bytes.len();
        self.pos = self.pos + r.len() as u64;
        r
    }

    /// Read all that is left.
    pub fn read_to_end(&mut self) -> (r: Vec<u8>)
        ensures
            r@ == window(old(self).bytes@, old(self).pos as int, old(self).bytes@.len() as int),
            final(self).bytes@ == old(self).bytes@,
            final(self).pos == old(self).pos + r@.len(),
    {
        let n: usize = self.bytes.len();
        self.read(n)
    }

    /// Move the reader.
    pub fn seek(&mut self, from: SeekFrom) -> (r: Result<u64>)
        ensures
            final(self).bytes@ == old(self).bytes@,
            r == sought(from, old(self).pos, old(self).bytes@.len() as u64),
            final(self).pos == match r {
                Ok(t) => t,
                Err(_) => old(self).pos,
            },
    {
        let t: i128 = match from {
            SeekFrom::Start(n) => n as i128,
            SeekFrom::Current(d) => self.pos as i128 + d as i128,
            SeekFrom::End(d) => self.bytes.len() as i128 + d as i128,
        };
        if t < 0 || t > u64::MAX as i128 {
            return Err(Error::InvalidArgument);
        }
        self.pos = t as u64;
        Ok(self.pos)
    }
}

/// What is left of the stream `s` once `n` bytes of it were skipped; it must be
/// that long.
pub open spec fn skipped(s: Seq<u8>, n: int) -> Result<Seq<u8>> {
    if n > s.len() {
        Err(Error::InvalidImage)
    } else {
        Ok(s.subrange(n, s.len() as int))
    }
}

/// Skip `n` bytes of the stream `s`.
pub fn skip_exact(s: &[u8], n: u64) -> (r: Result<Vec<u8>>)
    ensures
        match r {
            Ok(v) => skipped(s@, n as int) == Ok::<Seq<u8>, Error>(v@),
            Err(e) => skipped(s@, n as int) == Err::<Seq<u8>, Error>(e),
        },
{
    if n > s.len() as u64 {
        return Err(Error::InvalidImage);
    }
    Ok(copy_range(s, n as usize, s.len()))
}

/// A reader that gives at most `remaining` more bytes of a stream.
pub struct LimitReader {
    pub inner: MemHandle,
    pub remaining: u64,
}

impl LimitReader {
    /// A reader over the first `remaining` bytes of `inner`.
    pub fn new(inner: MemHandle, remaining: u64) -> (r: Self)
        ensures
            r.inner == inner,
            r.remaining == remaining,
    {
        LimitReader { inner, remaining }
    }

    /// Read up to `n` bytes.
    pub fn read(&mut self, n: usize) -> (r: Vec<u8>)
        ensures
            ({
                let k = if n < old(self).remaining {
                    n as int
                } else {
                    old(self).remaining as int
                };
                r@ == window(old(self).inner.bytes@, old(self).inner.pos as int, k)
            }),
            final(self).inner.bytes@ == old(self).inner.bytes@,
            final(self).inner.pos == old(self).inner.pos + r@.len(),
            final(self).remaining == old(self).remaining - r@.len(),
    {
        if self.remaining == 0 {
            return Vec::new();
        }
        let want: usize = if (n as u64) < self.remaining {
            n
        } else {
            self.remaining as usize
        };
        let r = self.inner.read(want);
        self.remaining = self.remaining - r.len() as u64;
        r
    }

    /// Read all that is left.
    pub fn read_to_end(&mut self) -> (r: Vec<u8>)
        ensures
            r@ == window(
                old(self).inner.bytes@,
                old(self).inner.pos as int,
                old(self).remaining as int,
            ),
            final(self).inner.bytes@ == old(self).inner.bytes@,
            final(self).inner.pos == old(self).inner.pos + r@.len(),
            final(self).remaining == old(self).remaining - r@.len(),
    {
        let r = copy_window(self.inner.bytes.as_slice(), self.inner.pos, self.remaining);
        let held: usize = self.inner.bytes.len();
        self.inner.pos = self.inner.pos + r.len() as u64;
        self.remaining = self.remaining - r.len() as u64;
        r
    }
}

/// The bytes `off..off + len` of a stream that starts with `s`: its first `off`
/// bytes must be there, and up to `len` more are taken.
pub open spec fn sliced(s: Seq<u8>, off: int, len: int) -> Result<Seq<u8>> {
    match skipped(s, off) {
        Err(e) => Err(e),
        Ok(rest) => Ok(window(rest, 0, len)),
    }
}

/// The bytes `off..off + len` of a stream that starts with `s`.
pub fn slice_stream(s: &[u8], off: u64, len: u64) -> (r: Result<Vec<u8>>)
    ensures
        match r {
            Ok(v) => sliced(s@, off as int, len as int) == Ok::<Seq<u8>, Error>(v@),
            Err(e) => sliced(s@, off as int, len as int) == Err::<Seq<u8>, Error>(e),
        },
{
    let rest = skip_exact(s, off)?;
    let mut lim = LimitReader::new(mem_handle(rest), len);
    Ok(lim.read_to_end())
}

/// How many bytes of a stream are needed for the bytes `off..off + len`.
pub open spec fn needed(off: u64, len: u64) -> u64 {
    if off + len > u64::MAX {
        u64::MAX
    } else {
        (off + len) as u64
    }
}

/// How many bytes of a stream are needed for the bytes `off..off + len`.
pub fn bytes_needed(off: u64, len: u64) -> (n: u64)
    ensures
        n == needed(off, len),
{
    if len > u64::MAX - off {
        u64::MAX
    } else {
        off + len
    }
}

// ---- laws ----

/// Reads go through the bytes in order: two reads one behind the other give what one
/// read of both lengths gives; a read of all from the start gives all; a read never
/// gives more than was asked for, and gives less only at the end.
pub proof fn lemma_windows(b: Seq<u8>, pos: int, n: int, m: int)
    requires
        0 <= pos,
        0 <= n,
        0 <= m,
    ensures
        window(b, pos, n) + window(b, pos + window(b, pos, n).len(), m) == window(b, pos, n + m),
        window(b, 0, b.len() as int) == b,
        window(b, pos, n).len() <= n,
        window(b, pos, n).len() < n && pos <= b.len() ==> pos + window(b, pos, n).len() == b.len(),
        pos + n <= b.len() ==> window(b, pos, n) == b.skip(pos).take(n),
{
    assert(window(b, pos, n) + window(b, pos + window(b, pos, n).len(), m) =~= window(
        b,
        pos,
        n + m,
    ));
    assert(window(b, 0, b.len() as int) =~= b);
    if pos + n <= b.len() {
        assert(window(b, pos, n) =~= b.skip(pos).take(n));
    }
}

/// A slice of a stream is the bytes from its offset on, as many as it is long, and
/// does not depend on how much more of the stream was read than is needed for it.
pub proof fn lemma_sliced(s: Seq<u8>, k: int, off: u64, len: u64)
    requires
        off + len <= u64::MAX,
        needed(off, len) <= k <= s.len(),
    ensures
        sliced(s, off as int, len as int) == Ok::<Seq<u8>, Error>(
            s.skip(off as int).take(len as int),
        ),
        sliced(s.take(k), off as int, len as int) == sliced(s, off as int, len as int),
{
    assert(window(s.skip(off as int), 0, len as int) =~= s.skip(off as int).take(len as int));
    assert(s.subrange(off as int, s.len() as int) =~= s.skip(off as int));
    let t = s.take(k);
    assert(window(t.subrange(off as int, k), 0, len as int) =~= s.skip(off as int).take(
        len as int,
    ));
}

/// A reader is moved to a position from the start, by a distance from where it
/// stands, or to a distance from the end; moving by `a` and then by `b` is moving by
/// both; and no move leads before the start.
pub proof fn lemma_sought(pos: u64, len: u64, n: u64, a: i64, b: i64)
    ensures
        sought(SeekFrom::Start(n), pos, len) == Ok::<u64, Error>(n),
        sought(SeekFrom::Current(0), pos, len) == Ok::<u64, Error>(pos),
        sought(SeekFrom::End(0), pos, len) == Ok::<u64, Error>(len),
        sought(SeekFrom::Current(a), pos, len) is Ok <==> 0 <= pos + a <= u64::MAX,
        sought(SeekFrom::End(a), pos, len) is Ok <==> 0 <= len + a <= u64::MAX,
        sought(SeekFrom::End(a), pos, len) == sought(SeekFrom::Current(a), len, len),
        sought(SeekFrom::Current(a), pos, len) matches Ok(q) ==> q == pos + a && (i64::MIN <= a + b
            <= i64::MAX ==> sought(SeekFrom::Current(b), q, len) == sought(
            SeekFrom::Current((a + b) as i64),
            pos,
            len,
        )),
{
}

} // verus!
