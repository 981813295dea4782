//! Contents and extended attributes of the objects of a volume.

use vstd::prelude::*;
use vstd::slice::slice_subrange;

use crate::apfs::jrec::{self, FileExtentVal, APFS_TYPE_FILE_EXTENT, APFS_TYPE_XATTR};
use crate::apfs::pack::Rec;
use crate::apfs::record::XATTR_DATA_EMBEDDED;
use crate::apfs::volume::{self, Mounted, ReadState};
use crate::block::MemoryBackend;
use crate::bytes::{self, copy_range, find_nul, get_u16, get_u64, push_all, zero_vec};
use crate::entry::{self, SeekFrom};
use crate::error::{Error, Result};
use crate::order::{self, order_bytes, Order};
use crate::text::{self, from_utf8_lossy};

verus! {

// ---- extents ----

/// A piece of a file: its position in the file, and where it is stored.
pub type Extent = (u64, FileExtentVal);

/// `s` with `x` put behind the last extent that does not start after it.
pub open spec fn insert_extent(s: Seq<Extent>, x: Extent) -> Seq<Extent>
    decreases s.len(),
{
    if s.len() == 0 || s.last().0 <= x.0 {
        s.push(x)
    } else {
        insert_extent(s.drop_last(), x).push(s.last())
    }
}

/// The extent of a record, where it decodes.
pub open spec fn extent_of(r: Rec) -> Option<Extent> {
    if r.0.len() < 16 {
        None
    } else {
        match jrec::extent_val(r.1) {
            Ok(v) => Some((bytes::get64(r.0, 8), v)),
            Err(_) => None,
        }
    }
}

/// The extents of the first `i` records, by position in the file.
pub open spec fn extents_upto(rs: Seq<Rec>, i: int) -> Seq<Extent>
    decreases i,
{
    if i <= 0 {
        Seq::empty()
    } else {
        let s = extents_upto(rs, i - 1);
        match extent_of(rs[i - 1]) {
            Some(x) => insert_extent(s, x),
            None => s,
        }
    }
}

/// The extents of object `oid`, by position in the file.
pub open spec fn extents(m: Mounted, img: Seq<u8>, oid: u64) -> Result<Seq<Extent>> {
    let f = volume::found(m, img, oid, APFS_TYPE_FILE_EXTENT);
    match f.err {
        Some(e) => Err(e),
        None => Ok(extents_upto(f.recs, f.recs.len() as int)),
    }
}

proof fn lemma_insert_extent_at(s: Seq<Extent>, x: Extent, p: int)
    requires
        0 <= p <= s.len(),
        forall|i: int| p <= i < s.len() ==> (#[trigger] s[i]).0 > x.0,
        p > 0 ==> s[p - 1].0 <= x.0,
    ensures
        insert_extent(s, x) == s.insert(p, x),
    decreases s.len(),
{
    if p < s.len() {
        assert(s.last() == s[s.len() - 1]);
        lemma_insert_extent_at(s.drop_last(), x, p);
        assert(s.drop_last().insert(p, x).push(s.last()) =~= s.insert(p, x));
    } else {
        assert(s.push(x) =~= s.insert(p, x));
    }
}

/// Extents stand by position in the file.
pub open spec fn by_position(es: Seq<Extent>) -> bool {
    forall|a: int, b: int| #![trigger es[a], es[b]] 0 <= a < b < es.len() ==> es[a].0 <= es[b].0
}

/// The extents of an object stand by position in the file.
pub proof fn lemma_extents_sorted(rs: Seq<Rec>, i: int)
    ensures
        by_position(extents_upto(rs, i)),
    decreases i,
{
    if i > 0 {
        lemma_extents_sorted(rs, i - 1);
        if let Some(x) = extent_of(rs[i - 1]) {
            lemma_insert_sorted(extents_upto(rs, i - 1), x);
        }
    }
}

proof fn lemma_insert_sorted(s: Seq<Extent>, x: Extent)
    requires
        by_position(s),
    ensures
        by_position(insert_extent(s, x)),
        forall|a: int|
            0 <= a < insert_extent(s, x).len() ==> (#[trigger] insert_extent(s, x)[a]).0 == x.0 || (
            s.len() > 0 && insert_extent(s, x)[a].0 <= s.last().0),
    decreases s.len(),
{
    if s.len() > 0 && s.last().0 > x.0 {
        let d = s.drop_last();
        lemma_insert_sorted(d, x);
        let u = insert_extent(d, x);
        let t = u.push(s.last());
        assert(insert_extent(s, x) == t);
        assert forall|a: int| 0 <= a < u.len() implies (#[trigger] u[a]).0 <= s.last().0 by {
            if u[a].0 != x.0 {
                assert(d.len() > 0 && u[a].0 <= d.last().0);
                assert(d.last() == s[d.len() - 1]);
                assert(s.last() == s[s.len() - 1]);
            }
        }
    } else if s.len() > 0 {
        assert(s.last() == s[s.len() - 1]);
    }
}

impl ReadState {
    /// The extents of object `oid`, by position in the file.
    pub fn collect_extents(&self, dev: &MemoryBackend, oid: u64) -> (r: Result<Vec<Extent>>)
        ensures
            match r {
                Ok(v) => extents(self@, dev@, oid) == Ok::<Seq<Extent>, Error>(v@),
                Err(e) => extents(self@, dev@, oid) == Err::<Seq<Extent>, Error>(e),
            },
    {
        let s = self.scan(dev, oid, APFS_TYPE_FILE_EXTENT);
        if let Some(e) = s.error {
            return Err(e);
        }
        let ghost f = s@;
        let mut out: Vec<Extent> = Vec::new();
        let mut i: usize = 0;
        while i < s.records.len()
            invariant
                f == s@,
                i <= s.records@.len(),
                out@ == extents_upto(f.recs, i as int),
            decreases s.records@.len() - i,
        {
            assert(f.recs[i as int] == s.records@[i as int]@);
            let rec = &s.records[i];
            if rec.key.len() >= 16 {
                if let Ok(v) = FileExtentVal::decode(rec.val.as_slice()) {
                    let x = (get_u64(rec.key.as_slice(), 8), v);
                    let mut p: usize = out.len();
                    while p > 0
                        invariant
                            p <= out@.len(),
                            forall|k: int| p <= k < out@.len() ==> (#[trigger] out@[k]).0 > x.0,
                        ensures
                            p > 0 ==> out@[p - 1].0 <= x.0,
                        decreases p,
                    {
                        if out[p - 1].0 <= x.0 {
                            break;
                        }
                        p = p - 1;
                    }
                    proof {
                        lemma_insert_extent_at(out@, x, p as int);
                    }
                    out.insert(p, x);
                }
            }
            i = i + 1;
        }
        Ok(out)
    }
}

/// Whether the extent `x` covers position `pos` of the file.
pub open spec fn covers(x: Extent, pos: int) -> bool {
    x.0 <= pos < x.0 + x.1.length
}

/// Index of the first extent from `i` on that covers `pos`.
pub open spec fn covering(es: Seq<Extent>, pos: int, i: int) -> Option<int>
    decreases es.len() - i,
{
    if i >= es.len() {
        None
    } else if covers(es[i], pos) {
        Some(i)
    } else {
        covering(es, pos, i + 1)
    }
}

/// Position on the device of the byte at `pos` of a file; `None` where it is in
/// a hole.
pub open spec fn device_pos(es: Seq<Extent>, bs: int, pos: int) -> Option<int> {
    match covering(es, pos, 0) {
        None => None,
        Some(i) => if es[i].1.phys_block_num == 0 {
            None
        } else {
            Some(es[i].1.phys_block_num * bs + (pos - es[i].0))
        },
    }
}

/// Whether the byte at `pos` of a file can be read off the device.
pub open spec fn readable(img: Seq<u8>, es: Seq<Extent>, bs: int, pos: int) -> bool {
    match device_pos(es, bs, pos) {
        None => true,
        Some(p) => p < img.len(),
    }
}

/// The byte at `pos` of a file: holes read as zero.
pub open spec fn byte_at(img: Seq<u8>, es: Seq<Extent>, bs: int, pos: int) -> u8 {
    match device_pos(es, bs, pos) {
        None => 0,
        Some(p) => img[p],
    }
}

/// The bytes `lo..hi` of a file.
pub open spec fn file_bytes(img: Seq<u8>, es: Seq<Extent>, bs: int, lo: int, hi: int) -> Seq<u8> {
    Seq::new((hi - lo) as nat, |i: int| byte_at(img, es, bs, lo + i))
}

/// Start of the first extent from `i` on that starts behind `pos`; `end` where
/// there is none.
pub open spec fn next_start(es: Seq<Extent>, pos: int, i: int, end: int) -> int
    decreases es.len() - i,
{
    if i >= es.len() {
        end
    } else if es[i].0 > pos {
        es[i].0 as int
    } else {
        next_start(es, pos, i + 1, end)
    }
}

/// How far one read from `pos` goes: to the end of the extent or of the hole
/// that it starts in, or of the file.
pub open spec fn run_end(es: Seq<Extent>, pos: int, size: int) -> int {
    let e = match covering(es, pos, 0) {
        Some(i) => es[i].0 + es[i].1.length,
        None => next_start(es, pos, 0, size),
    };
    if e < size {
        e
    } else {
        size
    }
}

/// Number of bytes that a read of up to `n` from `pos` gives.
pub open spec fn read_len(es: Seq<Extent>, pos: int, size: int, n: int) -> int {
    if pos >= size || n <= 0 {
        0
    } else if run_end(es, pos, size) - pos < n {
        run_end(es, pos, size) - pos
    } else {
        n
    }
}

/// Where a reader that stands at `cursor` of a file of `size` bytes stands once it
/// was moved; there is nothing before the start, and nothing behind the end.
pub open spec fn sought(from: SeekFrom, cursor: u64, size: u64) -> Result<u64> {
    let t = entry::seek_target(from, cursor, size);
    if t < 0 {
        Err(Error::InvalidArgument)
    } else if t > size {
        Ok(size)
    } else {
        Ok(t as u64)
    }
}

/// A reader over the contents of an object.
pub struct ApfsFileReader {
    pub block_size: u32,
    /// By position in the file.
    pub extents: Vec<Extent>,
    /// Length of the file.
    pub size: u64,
    /// Where the next read starts.
    pub cursor: u64,
}

proof fn lemma_covering(es: Seq<Extent>, pos: int, i: int)
    requires
        0 <= i <= es.len(),
    ensures
        match covering(es, pos, i) {
            Some(j) => i <= j < es.len() && covers(es[j], pos) && forall|k: int|
                i <= k < j ==> !covers(#[trigger] es[k], pos),
            None => forall|k: int| i <= k < es.len() ==> !covers(#[trigger] es[k], pos),
        },
    decreases es.len() - i,
{
    if i < es.len() && !covers(es[i], pos) {
        lemma_covering(es, pos, i + 1);
    }
}

/// The first extent that covers a position is the one that was found.
proof fn lemma_covering_is(es: Seq<Extent>, pos: int, j: int)
    requires
        0 <= j < es.len(),
        covers(es[j], pos),
        forall|k: int| 0 <= k < j ==> !covers(#[trigger] es[k], pos),
    ensures
        covering(es, pos, 0) == Some(j),
{
    lemma_covering(es, pos, 0);
}

/// Inside one run the bytes come from one place.
proof fn lemma_run(es: Seq<Extent>, pos: int, size: int, q: int)
    requires
        by_position(es),
        0 <= pos <= q < run_end(es, pos, size),
        pos < size,
    ensures
        covering(es, q, 0) == covering(es, pos, 0),
{
    lemma_covering(es, pos, 0);
    lemma_covering(es, q, 0);
    lemma_next_start(es, pos, 0, size);
    match covering(es, pos, 0) {
        Some(j) => {
            assert(covers(es[j], q));
            assert forall|k: int| 0 <= k < j implies !covers(#[trigger] es[k], q) by {
                assert(!covers(es[k], pos));
                assert(es[k].0 <= es[j].0);
            }
            lemma_covering_is(es, q, j);
        },
        None => {
            if let Some(k) = covering(es, q, 0) {
                assert(!covers(es[k], pos));
                assert(es[k].0 > pos);
            }
        },
    }
}

/// The bytes of one run are stored one behind another.
proof fn lemma_run_bytes(img: Seq<u8>, es: Seq<Extent>, bs: int, pos: int, size: int, k: int)
    requires
        by_position(es),
        0 <= pos < size,
        0 <= k <= run_end(es, pos, size) - pos,
    ensures
        match device_pos(es, bs, pos) {
            None => file_bytes(img, es, bs, pos, pos + k) == Seq::new(k as nat, |i: int| 0u8) && (
            forall|q: int| pos <= q < pos + k ==> #[trigger] readable(img, es, bs, q)),
            Some(p) => {
                &&& 0 <= p && p + k <= img.len() ==> file_bytes(img, es, bs, pos, pos + k)
                    == img.subrange(p, p + k)
                &&& p + k <= img.len() ==> forall|q: int|
                    pos <= q < pos + k ==> #[trigger] readable(img, es, bs, q)
                &&& p + k > img.len() && k > 0 ==> !readable(img, es, bs, pos + k - 1)
            },
        },
{
    assert forall|q: int| pos <= q < pos + k implies #[trigger] covering(es, q, 0) == covering(
        es,
        pos,
        0,
    ) by {
        lemma_run(es, pos, size, q);
    }
    let b = file_bytes(img, es, bs, pos, pos + k);
    match device_pos(es, bs, pos) {
        None => {
            assert forall|i: int| 0 <= i < k implies b[i] == 0 by {
                assert(covering(es, pos + i, 0) == covering(es, pos, 0));
            }
            assert(b =~= Seq::new(k as nat, |i: int| 0u8));
        },
        Some(p) => {
            if 0 <= p && p + k <= img.len() {
                assert forall|i: int| 0 <= i < k implies b[i] == img[p + i] by {
                    assert(covering(es, pos + i, 0) == covering(es, pos, 0));
                }
                assert(b =~= img.subrange(p, p + k));
            }
            if k > 0 {
                assert(covering(es, pos + k - 1, 0) == covering(es, pos, 0));
            }
        },
    }
}

proof fn lemma_next_start(es: Seq<Extent>, pos: int, i: int, end: int)
    requires
        0 <= i <= es.len(),
        by_position(es),
        forall|k: int| 0 <= k < i ==> (#[trigger] es[k]).0 <= pos,
        pos < end,
    ensures
        pos < next_start(es, pos, i, end),
        forall|k: int|
            0 <= k < es.len() && (#[trigger] es[k]).0 > pos ==> next_start(es, pos, i, end)
                <= es[k].0,
    decreases es.len() - i,
{
    if i < es.len() && es[i].0 <= pos {
        lemma_next_start(es, pos, i + 1, end);
    }
}

impl ApfsFileReader {
    /// Whether the reader stands inside its file.
    pub open spec fn wf(self) -> bool {
        &&& by_position(self.extents@)
        &&& self.cursor <= self.size
        &&& self.block_size > 0
    }

    /// The bytes `lo..hi` of the file on the device `img`.
    pub open spec fn bytes(self, img: Seq<u8>, lo: int, hi: int) -> Seq<u8> {
        file_bytes(img, self.extents@, self.block_size as int, lo, hi)
    }

    /// Whether the device `img` holds the byte at `pos`.
    pub open spec fn holds(self, img: Seq<u8>, pos: int) -> bool {
        readable(img, self.extents@, self.block_size as int, pos)
    }

    /// Length of the file.
    pub fn len(&self) -> (n: u64)
        ensures
            n == self.size,
    {
        self.size
    }

    /// Move the reader; a position behind the end becomes the end.
    pub fn seek(&mut self, from: SeekFrom) -> (r: Result<u64>)
        requires
            old(self).wf(),
        ensures
            final(self).wf(),
            r == sought(from, old(self).cursor, old(self).size),
            *final(self) == (ApfsFileReader {
                cursor: match r {
                    Ok(c) => c,
                    Err(_) => old(self).cursor,
                },
                ..*old(self)
            }),
    {
        let t: i128 = match from {
            SeekFrom::Start(n) => n as i128,
            SeekFrom::Current(d) => self.cursor as i128 + d as i128,
            SeekFrom::End(d) => self.size as i128 + d as i128,
        };
        if t < 0 {
            return Err(Error::InvalidArgument);
        }
        self.cursor = if t > self.size as i128 {
            self.size
        } else {
            t as u64
        };
        Ok(self.cursor)
    }

    /// Index of the extent that covers the cursor.
    fn find_covering(&self) -> (r: Option<usize>)
        ensures
            match r {
                Some(i) => i < self.extents@.len() && covering(
                    self.extents@,
                    self.cursor as int,
                    0,
                ) == Some(i as int),
                None => covering(self.extents@, self.cursor as int, 0) is None,
            },
    {
        let mut i: usize = 0;
        while i < self.extents.len()
            invariant
                i <= self.extents@.len(),
                covering(self.extents@, self.cursor as int, 0) == covering(
                    self.extents@,
                    self.cursor as int,
                    i as int,
                ),
            decreases self.extents@.len() - i,
        {
            let (la, ev) = self.extents[i];
            if la <= self.cursor && self.cursor - la < ev.length {
                return Some(i);
            }
            i = i + 1;
        }
        None
    }

    /// End of the hole that the cursor stands in.
    fn find_hole_end(&self) -> (r: u64)
        ensures
            r == next_start(self.extents@, self.cursor as int, 0, self.size as int),
    {
        let mut i: usize = 0;
        while i < self.extents.len()
            invariant
                i <= self.extents@.len(),
                next_start(self.extents@, self.cursor as int, 0, self.size as int) == next_start(
                    self.extents@,
                    self.cursor as int,
                    i as int,
                    self.size as int,
                ),
            decreases self.extents@.len() - i,
        {
            if self.extents[i].0 > self.cursor {
                return self.extents[i].0;
            }
            i = i + 1;
        }
        self.size
    }

    /// Read up to `n` bytes. A read stops at the end of an extent or of a hole,
    /// and fails where the device does not hold the bytes.
    pub fn read(&mut self, dev: &MemoryBackend, n: usize) -> (r: Result<Vec<u8>>)
        requires
            old(self).wf(),
        ensures
            final(self).wf(),
            ({
                let me = *old(self);
                let k = read_len(me.extents@, me.cursor as int, me.size as int, n as int);
                match r {
                    Ok(v) => {
                        &&& v@ == me.bytes(dev@, me.cursor as int, me.cursor + k)
                        &&& *final(self) == (ApfsFileReader {
                            cursor: (me.cursor + k) as u64,
                            ..me
                        })
                        &&& forall|q: int|
                            me.cursor <= q < me.cursor + k ==> #[trigger] me.holds(dev@, q)
                    },
                    Err(e) => {
                        &&& e == Error::OutOfBounds
                        &&& *final(self) == me
                        &&& k > 0
                        &&& !me.holds(dev@, me.cursor + k - 1)
                    },
                }
            }),
    {
        if self.cursor >= self.size || n == 0 {
            return Ok(Vec::new());
        }
        let ghost me = *self;
        let ghost es = self.extents@;
        let ghost k = read_len(es, self.cursor as int, self.size as int, n as int);
        proof {
            lemma_covering(es, self.cursor as int, 0);
            lemma_next_start(es, self.cursor as int, 0, self.size as int);
            lemma_run_bytes(
                dev@,
                es,
                self.block_size as int,
                self.cursor as int,
                self.size as int,
                k,
            );
        }
        let left: u64 = self.size - self.cursor;
        match self.find_covering() {
            None => {
                let next: u64 = self.find_hole_end();
                let mut want: u64 = if next < self.size {
                    next - self.cursor
                } else {
                    left
                };
                if want > n as u64 {
                    want = n as u64;
                }
                let out = zero_vec(want as usize);
                self.cursor = self.cursor + want;
                proof {
                    reveal(bytes::zeros);
                }
                Ok(out)
            },
            Some(i) => {
                let (la, ev) = self.extents[i];
                let off: u64 = self.cursor - la;
                let mut want: u64 = ev.length - off;
                if want > left {
                    want = left;
                }
                if want > n as u64 {
                    want = n as u64;
                }
                if ev.phys_block_num == 0 {
                    let out = zero_vec(want as usize);
                    self.cursor = self.cursor + want;
                    proof {
                        reveal(bytes::zeros);
                    }
                    return Ok(out);
                }
                let held: usize = dev.as_slice().len();
                proof {
                    assert(ev.phys_block_num * self.block_size >= 0) by (nonlinear_arith);
                }
                let start: u64 = match ev.phys_block_num.checked_mul(self.block_size as u64) {
                    Some(b) => match b.checked_add(off) {
                        Some(s) => s,
                        None => {
                            return Err(Error::OutOfBounds);
                        },
                    },
                    None => {
                        return Err(Error::OutOfBounds);
                    },
                };
                let out = dev.read_at(start, want as usize)?;
                self.cursor = self.cursor + want;
                Ok(out)
            },
        }
    }
}

impl ApfsFileReader {
    /// Read from the cursor to the end of the file. It fails where the device
    /// does not hold all of it.
    pub fn read_to_end(&mut self, dev: &MemoryBackend) -> (r: Result<Vec<u8>>)
        requires
            old(self).wf(),
            old(self).size <= usize::MAX,
        ensures
            ({
                let me = *old(self);
                match r {
                    Ok(v) => {
                        &&& v@ == me.bytes(dev@, me.cursor as int, me.size as int)
                        &&& *final(self) == (ApfsFileReader { cursor: me.size, ..me })
                        &&& forall|q: int|
                            me.cursor <= q < me.size ==> #[trigger] me.holds(dev@, q)
                    },
                    Err(e) => {
                        &&& e == Error::OutOfBounds
                        &&& exists|q: int|
                            me.cursor <= q < me.size && !(#[trigger] me.holds(dev@, q))
                    },
                }
            }),
    {
        let ghost me = *self;
        let mut out: Vec<u8> = Vec::new();
        proof {
            assert(out@ =~= me.bytes(dev@, me.cursor as int, me.cursor as int));
        }
        while self.cursor < self.size
            invariant
                self.wf(),
                me == *old(self),
                me.cursor <= self.cursor <= me.size,
                me.size <= usize::MAX,
                *self == (ApfsFileReader { cursor: self.cursor, ..me }),
                out@ == me.bytes(dev@, me.cursor as int, self.cursor as int),
                forall|q: int|
                    me.cursor <= q < self.cursor ==> #[trigger] me.holds(dev@, q),
            decreases self.size - self.cursor,
        {
            let ghost at = *self;
            let left: u64 = self.size - self.cursor;
            let ghost k = read_len(
                at.extents@,
                at.cursor as int,
                at.size as int,
                left as int,
            );
            proof {
                lemma_covering(at.extents@, at.cursor as int, 0);
                lemma_next_start(at.extents@, at.cursor as int, 0, at.size as int);
                assert(0 < k <= left);
            }
            match self.read(dev, left as usize) {
                Err(e) => {
                    proof {
                        assert(!me.holds(dev@, at.cursor + k - 1));
                    }
                    return Err(e);
                },
                Ok(v) => {
                    push_all(&mut out, v.as_slice());
                    proof {
                        assert(out@ =~= me.bytes(dev@, me.cursor as int, at.cursor + k));
                        assert forall|q: int| me.cursor <= q < at.cursor + k implies
                            #[trigger] me.holds(dev@, q) by {
                            if q >= at.cursor {
                                assert(at.holds(dev@, q));
                            }
                        }
                    }
                },
            }
        }
        Ok(out)
    }
}

impl ReadState {
    /// A reader over the contents of object `oid`.
    pub fn open_oid(&self, dev: &MemoryBackend, oid: u64) -> (r: Result<ApfsFileReader>)
        requires
            self.block_size > 0,
        ensures
            opened(r, self@, dev@, oid),
    {
        let (size, holder) = self.lookup_inode_size(dev, oid)?;
        let extents = self.collect_extents(dev, holder)?;
        proof {
            let f = volume::found(self@, dev@, holder, APFS_TYPE_FILE_EXTENT);
            lemma_extents_sorted(f.recs, f.recs.len() as int);
        }
        Ok(ApfsFileReader { block_size: self.block_size, extents, size, cursor: 0 })
    }
}

/// Whether `r` is the outcome of opening object `oid`: a reader at the start of
/// its contents, or the first error on the way.
pub open spec fn opened(r: Result<ApfsFileReader>, m: Mounted, img: Seq<u8>, oid: u64) -> bool {
    match volume::stream_of(m, img, oid) {
        Err(e) => r == Err::<ApfsFileReader, Error>(e),
        Ok((size, holder)) => match extents(m, img, holder) {
            Err(e) => r == Err::<ApfsFileReader, Error>(e),
            Ok(es) => {
                &&& r matches Ok(f)
                &&& f.wf()
                &&& f.extents@ == es
                &&& f.size == size
                &&& f.cursor == 0
                &&& f.block_size == m.bs
            },
        },
    }
}

// ---- extended attributes ----

/// An extended attribute.
#[derive(Debug)]
pub struct XattrPair {
    pub name: String,
    pub value: Vec<u8>,
}

impl View for XattrPair {
    type V = (Seq<char>, Seq<u8>);

    open spec fn view(&self) -> (Seq<char>, Seq<u8>) {
        (self.name@, self.value@)
    }
}

/// The views of a list of extended attributes.
pub open spec fn pairs(v: Seq<XattrPair>) -> Seq<(Seq<char>, Seq<u8>)> {
    Seq::new(v.len(), |i: int| v[i]@)
}

/// Name and value in an extended-attribute record; `None` where it does not
/// decode, or its value is stored elsewhere.
pub open spec fn xattr_of(r: Rec) -> Option<(Seq<char>, Seq<u8>)> {
    let (k, v) = r;
    let n = bytes::get16(k, 8);
    let len = bytes::get16(v, 2);
    if k.len() < 10 || 10 + n > k.len() || n == 0 || v.len() < 4 {
        None
    } else if bytes::get16(v, 0) / XATTR_DATA_EMBEDDED % 2 != 1 || 4 + len > v.len() {
        None
    } else {
        Some(
            (
                text::text_of(bytes::until_nul(k.subrange(10, 10 + n))),
                v.subrange(4, 4 + len),
            ),
        )
    }
}

/// `s`, which stands by name, with the pair `p` in its place; a pair of the same
/// name is replaced.
pub open spec fn put_pair(s: Seq<(Seq<char>, Seq<u8>)>, p: (Seq<char>, Seq<u8>)) -> Seq<
    (Seq<char>, Seq<u8>),
>
    decreases s.len(),
{
    if s.len() == 0 {
        seq![p]
    } else {
        match order::lex(text::utf8(s.last().0), text::utf8(p.0)) {
            Order::Less => s.push(p),
            Order::Equal => s.drop_last().push(p),
            Order::Greater => put_pair(s.drop_last(), p).push(s.last()),
        }
    }
}

/// The attributes of the first `i` records, by name.
pub open spec fn xattrs_upto(rs: Seq<Rec>, i: int) -> Seq<(Seq<char>, Seq<u8>)>
    decreases i,
{
    if i <= 0 {
        Seq::empty()
    } else {
        let s = xattrs_upto(rs, i - 1);
        match xattr_of(rs[i - 1]) {
            Some(p) => put_pair(s, p),
            None => s,
        }
    }
}

/// The extended attributes of object `oid`, by name.
pub open spec fn xattrs(m: Mounted, img: Seq<u8>, oid: u64) -> Result<
    Seq<(Seq<char>, Seq<u8>)>,
> {
    let f = volume::found(m, img, oid, APFS_TYPE_XATTR);
    match f.err {
        Some(e) => Err(e),
        None => Ok(xattrs_upto(f.recs, f.recs.len() as int)),
    }
}

/// The view of a fallible list of extended attributes.
pub open spec fn pairs_of(r: Result<Vec<XattrPair>>) -> Result<Seq<(Seq<char>, Seq<u8>)>> {
    match r {
        Ok(v) => Ok(pairs(v@)),
        Err(e) => Err(e),
    }
}

fn decode_xattr(k: &[u8], v: &[u8]) -> (r: Option<XattrPair>)
    ensures
        match r {
            Some(p) => xattr_of((k@, v@)) == Some(p@),
            None => xattr_of((k@, v@)) is None,
        },
{
    if k.len() < 10 {
        return None;
    }
    let n: usize = get_u16(k, 8) as usize;
    if n > k.len() - 10 || n == 0 || v.len() < 4 {
        return None;
    }
    if get_u16(v, 0) / XATTR_DATA_EMBEDDED % 2 != 1 {
        return None;
    }
    let len: usize = get_u16(v, 2) as usize;
    if len > v.len() - 4 {
        return None;
    }
    let raw = slice_subrange(k, 10, 10 + n);
    let end: usize = find_nul(raw);
    Some(
        XattrPair {
            name: from_utf8_lossy(slice_subrange(raw, 0, end)),
            value: copy_range(v, 4, 4 + len),
        },
    )
}

/// Put `p` in its place in a list that stands by name.
fn insert_pair(s: &mut Vec<XattrPair>, p: XattrPair)
    ensures
        pairs(final(s)@) == put_pair(pairs(old(s)@), p@),
{
    let ghost start = s@;
    let ghost all = pairs(start);
    let ghost pv = p@;
    let mut i: usize = s.len();
    proof {
        assert(all.take(i as int) =~= all);
        assert(all.skip(i as int) =~= Seq::empty());
        assert(put_pair(all.take(i as int), pv) + all.skip(i as int) =~= put_pair(all, pv));
    }
    while i > 0
        invariant
            i <= s@.len(),
            s@ == start,
            start == old(s)@,
            all == pairs(start),
            pv == p@,
            put_pair(all.take(i as int), pv) + all.skip(i as int) == put_pair(all, pv),
        decreases i,
    {
        let ghost t = all.take(i as int);
        proof {
            assert(t.last() == s@[i - 1]@);
            assert(t.drop_last() =~= all.take(i - 1));
        }
        match order_bytes(s[i - 1].name.as_str().as_bytes(), p.name.as_str().as_bytes()) {
            Order::Less => {
                s.insert(i, p);
                proof {
                    assert(pairs(s@) =~= t.push(pv) + all.skip(i as int));
                }
                return;
            },
            Order::Equal => {
                s.set(i - 1, p);
                proof {
                    assert(pairs(s@) =~= t.drop_last().push(pv) + all.skip(i as int));
                }
                return;
            },
            Order::Greater => {
                proof {
                    assert(put_pair(t, pv) == put_pair(all.take(i - 1), pv).push(t.last()));
                    assert(put_pair(t, pv) + all.skip(i as int) =~= put_pair(all.take(i - 1), pv)
                        + all.skip(i - 1));
                }
                i = i - 1;
            },
        }
    }
    s.insert(0, p);
    proof {
        assert(all.take(0) =~= Seq::empty());
        assert(pairs(s@) =~= seq![pv] + all.skip(0));
    }
}

impl ReadState {
    /// The extended attributes of object `oid` that are stored in their records,
    /// by name.
    pub fn xattrs_of(&self, dev: &MemoryBackend, oid: u64) -> (r: Result<Vec<XattrPair>>)
        ensures
            pairs_of(r) == xattrs(self@, dev@, oid),
    {
        let s = self.scan(dev, oid, APFS_TYPE_XATTR);
        if let Some(e) = s.error {
            return Err(e);
        }
        let ghost f = s@;
        let mut out: Vec<XattrPair> = Vec::new();
        let mut i: usize = 0;
        proof {
            assert(pairs(out@) =~= xattrs_upto(f.recs, 0));
        }
        while i < s.records.len()
            invariant
                f == s@,
                i <= s.records@.len(),
                pairs(out@) == xattrs_upto(f.recs, i as int),
            decreases s.records@.len() - i,
        {
            assert(f.recs[i as int] == s.records@[i as int]@);
            let rec = &s.records[i];
            if let Some(p) = decode_xattr(rec.key.as_slice(), rec.val.as_slice()) {
                insert_pair(&mut out, p);
            }
            i = i + 1;
        }
        Ok(out)
    }
}

} // verus!
