//! What a file that is open for changes does, from opening it to reading it back.

use vstd::prelude::*;

use crate::apfs::fs::Fs;
use crate::apfs::handle::Handle;
use crate::apfs::record;
use crate::apfs::rw;
use crate::apfs::volume;
use crate::apfs::write::Draft;
use crate::bytes;
use crate::entry::{OpenFlags, SeekFrom};
use crate::error::Error;
use crate::num;

use super::edits::live;
use super::trips::{self, gives};
use super::{commit, contents, fields};

verus! {

// ---- in memory ----

/// A write replaces just the bytes that it covers: before the position the file
/// has what it had, with zeros where it had nothing; then come the bytes `b`; and
/// behind them what the file had there. The position comes to lie behind `b`.
pub proof fn lemma_write(h: Handle, b: Seq<u8>)
    requires
        b.len() > 0,
        h.pos + b.len() <= u64::MAX,
    ensures
        ({
            let w = h.written(b);
            let (c, n, at) = (h.contents, h.contents.len() as int, h.pos as int);
            let end = at + b.len();
            &&& at <= n <= end ==> w.contents == c.take(at) + b
            &&& at <= end <= n ==> w.contents == c.take(at) + b + c.skip(end)
            &&& n <= at ==> w.contents == c + Seq::new((at - n) as nat, |i: int| 0u8) + b
            &&& w.pos == end
            &&& w.dirty
            &&& w.oid == h.oid
        }),
{
    reveal(bytes::put);
    let w = h.written(b);
    let (c, n, at) = (h.contents, h.contents.len() as int, h.pos as int);
    let end = at + b.len();
    if at <= n <= end {
        assert(w.contents =~= c.take(at) + b);
    }
    if at <= end <= n {
        assert(w.contents =~= c.take(at) + b + c.skip(end));
    }
    if n <= at {
        assert(w.contents =~= c + Seq::new((at - n) as nat, |i: int| 0u8) + b);
    }
}

/// What was written is what a read from the same position gives, and two writes
/// one behind the other are one write of both.
pub proof fn lemma_write_read(h: Handle, b: Seq<u8>, c: Seq<u8>)
    requires
        h.pos + b.len() + c.len() <= u64::MAX,
        b.len() > 0,
        c.len() > 0,
    ensures
        ({
            let w = h.written(b);
            let back = w.moved(SeekFrom::Start(h.pos));
            &&& back matches Some(g) && g.given(b.len() as int) == b && g.after_read(
                b.len() as int,
            ) == w
            &&& w.written(c) == h.written(b + c)
        }),
{
    reveal(bytes::put);
    let w = h.written(b);
    let g = w.moved(SeekFrom::Start(h.pos))->Some_0;
    assert(g.given(b.len() as int) =~= b);
    assert(w.written(c).contents =~= h.written(b + c).contents);
}

/// Reads go through the file in order: two reads one behind the other give what
/// one read of both lengths gives, a read from the start gives the front of the
/// file, and behind the end there is nothing.
pub proof fn lemma_reads(h: Handle, n: int, m: int)
    requires
        0 <= n,
        0 <= m,
        h.pos <= h.contents.len(),
        h.contents.len() <= u64::MAX,
    ensures
        h.given(n) + h.after_read(n).given(m) == h.given(n + m),
        h.after_read(n).after_read(m) == h.after_read(n + m),
        h.pos == 0 && n <= h.contents.len() ==> h.given(n) == h.contents.take(n),
        h.pos == h.contents.len() ==> h.given(n).len() == 0,
        h.given(n).len() < n ==> h.after_read(n).pos == h.contents.len(),
{
    assert(h.given(n) + h.after_read(n).given(m) =~= h.given(n + m));
    if h.pos == 0 && n <= h.contents.len() {
        assert(h.given(n) =~= h.contents.take(n));
    }
}

/// Positions count from the start of the file, from where the handle stands, or
/// from the end, and moving by `a` and by `b` is moving by both.
pub proof fn lemma_moves(h: Handle, n: u64, a: i64, b: i64)
    requires
        h.contents.len() <= u64::MAX,
        0 <= h.pos + a <= u64::MAX,
        i64::MIN <= a + b <= i64::MAX,
    ensures
        h.moved(SeekFrom::Start(n)) == Some(Handle { pos: n, ..h }),
        h.moved(SeekFrom::Current(0)) == Some(h),
        h.moved(SeekFrom::End(0)) == Some(Handle { pos: h.contents.len() as u64, ..h }),
        h.moved(SeekFrom::Current(a)) matches Some(g) && g.moved(SeekFrom::Current(b)) == h.moved(
            SeekFrom::Current((a + b) as i64),
        ),
        a < 0 && h.contents.len() + a >= 0 ==> h.moved(SeekFrom::End(a)) == Some(
            Handle { pos: (h.contents.len() + a) as u64, ..h },
        ),
{
}

/// A new length keeps what lies before it: a shorter file is the front of what
/// there was, and a longer one is filled up with zeros.
pub proof fn lemma_new_len(h: Handle, n: u64)
    requires
        h.contents.len() <= u64::MAX,
    ensures
        n <= h.contents.len() ==> h.with_len(n).contents == h.contents.take(n as int),
        n >= h.contents.len() ==> h.with_len(n).contents == h.contents + Seq::new(
            (n - h.contents.len()) as nat,
            |i: int| 0u8,
        ),
        n != h.contents.len() ==> h.with_len(n).dirty,
        h.with_len(n).oid == h.oid,
        h.pos <= n ==> h.with_len(n).pos == h.pos,
        h.pos <= h.contents.len() ==> h.with_len(n).pos <= n,
{
    if n <= h.contents.len() {
        assert(h.with_len(n).contents =~= h.contents.take(n as int));
    }
    if n >= h.contents.len() {
        assert(h.with_len(n).contents =~= h.contents + Seq::new(
            (n - h.contents.len()) as nat,
            |i: int| 0u8,
        ));
    }
}

// ---- on the device ----

/// Whether the path `p` of the live container `f` leads to the file or symbolic
/// link `o`, whose contents are `c`.
pub open spec fn file_at(
    f: Fs,
    img: Seq<u8>,
    d: Draft,
    mark: int,
    o: contents::Placement,
    c: Seq<u8>,
    p: Seq<char>,
) -> bool {
    &&& live(f, img, d, mark)
    &&& contents::stores(img, d, o, c)
    &&& f.resolve(img, p) == Ok::<u64, Error>(o.oid)
    &&& c.len() <= usize::MAX
    &&& c.len() <= u64::MAX
}

/// Opening a file brings its bytes into memory; with `truncate` none of them. The
/// position is the end with `append`, and the start without.
pub proof fn lemma_opened(
    f: Fs,
    img: Seq<u8>,
    d: Draft,
    mark: int,
    o: contents::Placement,
    c: Seq<u8>,
    p: Seq<char>,
    flags: OpenFlags,
)
    requires
        file_at(f, img, d, mark, o, c, p),
    ensures
        f.held(img, p, flags) matches Ok(h) && {
            &&& h.oid == o.oid
            &&& !flags.truncate ==> h.contents == c && !h.dirty
            &&& flags.truncate ==> h.contents.len() == 0 && h.dirty
            &&& flags.append ==> h.pos == h.contents.len()
            &&& !flags.append ==> h.pos == 0
        },
{
    commit::lemma_now(img, d, mark);
    let n = c.len() as u64;
    let v = record::inode_value(o.oid, o.parent, o.mode, n, d.block_size, o.time);
    fields::lemma_inode_value(o.oid, o.parent, o.mode, n, d.block_size, o.time);
    contents::lemma_inode_back(img, d, o.oid, v);
    contents::lemma_body_back(img, d, o.oid, o.paddr, c);
    let l = f.mode->Write_0;
    let m = rw::first_open(img)->Ok_0;
    assert(l.m == m);
    assert(volume::stream_of(m, img, o.oid) == Ok::<(u64, u64), Error>((n, o.oid)));
    assert(m.bs == d.block_size);
}

/// Whether a file of `n` bytes has a length that the records of a container of `d`
/// can tell.
pub open spec fn fits(d: Draft, n: int) -> bool {
    n <= u64::MAX && num::div_up(n, d.block_size as int) * d.block_size < 0x0100_0000_0000_0000
}

/// What a handle holds and hands to the device is what readers then give.
proof fn lemma_kept(
    f: Fs,
    img: Seq<u8>,
    d: Draft,
    mark: int,
    o: contents::Placement,
    c: Seq<u8>,
    p: Seq<char>,
    h: Handle,
) -> (r: (Draft, int))
    requires
        file_at(f, img, d, mark, o, c, p),
        h.oid == o.oid,
        h.dirty,
        fits(d, h.contents.len() as int),
        f.kept(img, h).2 is Ok,
    ensures
        ({
            let (g, out, _) = f.kept(img, h);
            &&& live(g, out, r.0, r.1)
            &&& g.resolve(out, p) == Ok::<u64, Error>(o.oid)
            &&& g.mounted() is Ok
            &&& gives(g.mounted()->Ok_0, out, o.oid, h.contents)
        }),
{
    trips::lemma_sync_trip(f, img, d, mark, o, c, h.contents, p)
}

/// Opening a file for appending, writing `b` and syncing adds `b` to its end: the
/// path then leads to a file whose bytes are those it had, followed by `b`.
pub proof fn lemma_append(
    f: Fs,
    img: Seq<u8>,
    d: Draft,
    mark: int,
    o: contents::Placement,
    c: Seq<u8>,
    p: Seq<char>,
    flags: OpenFlags,
    b: Seq<u8>,
) -> (r: (Draft, int))
    requires
        file_at(f, img, d, mark, o, c, p),
        flags.append,
        !flags.truncate,
        b.len() > 0,
        fits(d, (c.len() + b.len()) as int),
        f.held(img, p, flags) is Ok,
        f.kept(img, f.held(img, p, flags)->Ok_0.written(b)).2 is Ok,
    ensures
        ({
            let h = f.held(img, p, flags)->Ok_0;
            let (g, out, _) = f.kept(img, h.written(b));
            &&& live(g, out, r.0, r.1)
            &&& g.resolve(out, p) == Ok::<u64, Error>(o.oid)
            &&& g.mounted() is Ok
            &&& gives(g.mounted()->Ok_0, out, o.oid, c + b)
        }),
{
    lemma_opened(f, img, d, mark, o, c, p, flags);
    let h = f.held(img, p, flags)->Ok_0;
    lemma_write(h, b);
    assert(c.take(c.len() as int) =~= c);
    assert(h.written(b).contents == c + b);
    lemma_kept(f, img, d, mark, o, c, p, h.written(b))
}

/// Opening a file without `append`, writing `b` and syncing replaces its front:
/// the path then leads to a file whose bytes are `b`, followed by what the file
/// had behind them.
pub proof fn lemma_overwrite(
    f: Fs,
    img: Seq<u8>,
    d: Draft,
    mark: int,
    o: contents::Placement,
    c: Seq<u8>,
    p: Seq<char>,
    flags: OpenFlags,
    b: Seq<u8>,
) -> (r: (Draft, int))
    requires
        file_at(f, img, d, mark, o, c, p),
        !flags.append,
        !flags.truncate,
        b.len() > 0,
        fits(d, c.len() as int),
        fits(d, b.len() as int),
        f.held(img, p, flags) is Ok,
        f.kept(img, f.held(img, p, flags)->Ok_0.written(b)).2 is Ok,
    ensures
        ({
            let h = f.held(img, p, flags)->Ok_0;
            let (g, out, _) = f.kept(img, h.written(b));
            let now = if b.len() < c.len() {
                b + c.skip(b.len() as int)
            } else {
                b
            };
            &&& live(g, out, r.0, r.1)
            &&& g.resolve(out, p) == Ok::<u64, Error>(o.oid)
            &&& g.mounted() is Ok
            &&& gives(g.mounted()->Ok_0, out, o.oid, now)
        }),
{
    lemma_opened(f, img, d, mark, o, c, p, flags);
    let h = f.held(img, p, flags)->Ok_0;
    lemma_write(h, b);
    assert(c.take(0) + b =~= b);
    lemma_kept(f, img, d, mark, o, c, p, h.written(b))
}

/// Opening a file with `truncate` and syncing leaves it empty, and writing `b`
/// before that leaves it with just `b`, with and without `append`.
pub proof fn lemma_replace(
    f: Fs,
    img: Seq<u8>,
    d: Draft,
    mark: int,
    o: contents::Placement,
    c: Seq<u8>,
    p: Seq<char>,
    flags: OpenFlags,
    b: Seq<u8>,
) -> (r: (Draft, int))
    requires
        file_at(f, img, d, mark, o, c, p),
        flags.truncate,
        fits(d, b.len() as int),
        f.held(img, p, flags) is Ok,
        f.kept(img, f.held(img, p, flags)->Ok_0.written(b)).2 is Ok,
    ensures
        ({
            let h = f.held(img, p, flags)->Ok_0;
            let (g, out, _) = f.kept(img, h.written(b));
            &&& live(g, out, r.0, r.1)
            &&& g.resolve(out, p) == Ok::<u64, Error>(o.oid)
            &&& g.mounted() is Ok
            &&& gives(g.mounted()->Ok_0, out, o.oid, b)
        }),
{
    lemma_opened(f, img, d, mark, o, c, p, flags);
    let h = f.held(img, p, flags)->Ok_0;
    if b.len() > 0 {
        lemma_write(h, b);
        assert(h.contents.take(0) + b =~= b);
    } else {
        assert(h.contents =~= b);
    }
    lemma_kept(f, img, d, mark, o, c, p, h.written(b))
}

/// Opening a file and syncing it with nothing written leaves the container and the
/// device as they were.
pub proof fn lemma_untouched(
    f: Fs,
    img: Seq<u8>,
    d: Draft,
    mark: int,
    o: contents::Placement,
    c: Seq<u8>,
    p: Seq<char>,
    flags: OpenFlags,
)
    requires
        file_at(f, img, d, mark, o, c, p),
        !flags.truncate,
    ensures
        f.held(img, p, flags) matches Ok(h) && f.kept(img, h) == (f, img, Ok::<(), Error>(())),
{
    lemma_opened(f, img, d, mark, o, c, p, flags);
}

/// Truncating a file to `n` bytes leaves the first `n` of those it had, or all of
/// them and zeros behind them.
pub proof fn lemma_truncated(
    f: Fs,
    img: Seq<u8>,
    d: Draft,
    mark: int,
    o: contents::Placement,
    c: Seq<u8>,
    p: Seq<char>,
    n: u64,
) -> (r: (Draft, int))
    requires
        file_at(f, img, d, mark, o, c, p),
        fits(d, n as int),
        f.truncated(img, p, n).2 is Ok,
        n != c.len(),
    ensures
        ({
            let (g, out, _) = f.truncated(img, p, n);
            let now = if n < c.len() {
                c.take(n as int)
            } else {
                c + Seq::new((n - c.len()) as nat, |i: int| 0u8)
            };
            &&& live(g, out, r.0, r.1)
            &&& g.resolve(out, p) == Ok::<u64, Error>(o.oid)
            &&& g.mounted() is Ok
            &&& gives(g.mounted()->Ok_0, out, o.oid, now)
        }),
{
    let plain = OpenFlags { create: false, truncate: false, append: false };
    lemma_opened(f, img, d, mark, o, c, p, plain);
    let h = f.held(img, p, plain)->Ok_0;
    lemma_new_len(h, n);
    assert(f.truncated(img, p, n) == f.kept(img, h.with_len(n)));
    lemma_kept(f, img, d, mark, o, c, p, h.with_len(n))
}

} // verus!
