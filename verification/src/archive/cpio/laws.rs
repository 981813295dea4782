//! Reading back what was written.

use vstd::prelude::*;

use crate::archive::cpio::emit::{self, CpioW, CpioWriter, Fields};
use crate::archive::cpio::scan::{self, Hdr, Record};
use crate::archive::digits;
use crate::archive::fs::{self, ArchiveBuilder};
use crate::archive::index::{DataLocator, EntryKind, Item, Method, Tree};
use crate::archive::writer;
use crate::bytes;
use crate::entry::{DeviceKind, FileMeta};
use crate::error::{Error, Result};
use crate::text;

verus! {

proof fn lemma_digit(d: int)
    requires
        0 <= d < 16,
    ensures
        digits::digit(emit::hex_digit(d) as char, 16) == Some(d),
        emit::hex_digit(d) < 0x80,
        !digits::is_space(emit::hex_digit(d) as char),
        emit::hex_digit(d) as char != '+',
{
}

/// Value of eight digits.
proof fn lemma_eight(s: Seq<char>, d: Seq<int>)
    requires
        s.len() == 8,
        d.len() == 8,
        forall|i: int| 0 <= i < 8 ==> digits::digit(#[trigger] s[i], 16) == Some(d[i]),
    ensures
        digits::value(s, 16, 8) == Some(
            ((((((d[0] * 16 + d[1]) * 16 + d[2]) * 16 + d[3]) * 16 + d[4]) * 16 + d[5]) * 16 + d[6])
                * 16 + d[7],
        ),
{
    assert(digits::value(s, 16, 0) == Some(0int));
    assert(digits::value(s, 16, 1) == Some(d[0]));
    assert(digits::value(s, 16, 2) == Some(d[0] * 16 + d[1]));
    assert(digits::value(s, 16, 3) == Some((d[0] * 16 + d[1]) * 16 + d[2]));
    assert(digits::value(s, 16, 4) == Some(((d[0] * 16 + d[1]) * 16 + d[2]) * 16 + d[3]));
    assert(digits::value(s, 16, 5) == Some(
        (((d[0] * 16 + d[1]) * 16 + d[2]) * 16 + d[3]) * 16 + d[4],
    ));
    assert(digits::value(s, 16, 6) == Some(
        ((((d[0] * 16 + d[1]) * 16 + d[2]) * 16 + d[3]) * 16 + d[4]) * 16 + d[5],
    ));
    assert(digits::value(s, 16, 7) == Some(
        (((((d[0] * 16 + d[1]) * 16 + d[2]) * 16 + d[3]) * 16 + d[4]) * 16 + d[5]) * 16 + d[6],
    ));
}

/// The hexadecimal digits of `n`.
pub open spec fn hex_digits(n: int) -> Seq<int> {
    seq![
        n / 0x1000_0000 % 16,
        n / 0x100_0000 % 16,
        n / 0x10_0000 % 16,
        n / 0x1_0000 % 16,
        n / 0x1000 % 16,
        n / 0x100 % 16,
        n / 0x10 % 16,
        n % 16,
    ]
}

proof fn lemma_next_digit(n: int, k: int)
    requires
        0 <= n,
        0 < k,
    ensures
        n / k == n / (k * 16) * 16 + n / k % 16,
{
    vstd::arithmetic::div_mod::lemma_div_denominator(n, k, 16);
    vstd::arithmetic::div_mod::lemma_fundamental_div_mod(n / k, 16);
}

proof fn lemma_hex_sum(n: int)
    requires
        0 <= n < 0x1_0000_0000,
    ensures
        ({
            let d = hex_digits(n);
            n == ((((((d[0] * 16 + d[1]) * 16 + d[2]) * 16 + d[3]) * 16 + d[4]) * 16 + d[5]) * 16
                + d[6]) * 16 + d[7]
        }),
{
    lemma_next_digit(n, 1);
    lemma_next_digit(n, 0x10);
    lemma_next_digit(n, 0x100);
    lemma_next_digit(n, 0x1000);
    lemma_next_digit(n, 0x1_0000);
    lemma_next_digit(n, 0x10_0000);
    lemma_next_digit(n, 0x100_0000);
    lemma_next_digit(n, 0x1000_0000);
}

/// A number written as eight hexadecimal digits reads back.
pub proof fn lemma_hex8(v: u32)
    ensures
        emit::hex8(v).len() == 8,
        digits::field(emit::hex8(v), 16) == Some(v as u64),
{
    let b = emit::hex8(v);
    let n = v as int;
    let d = hex_digits(n);
    assert(b.len() == 8) by {
        reveal(emit::hex8);
    }
    assert forall|i: int| 0 <= i < 8 implies #[trigger] b[i] == emit::hex_digit(d[i]) && 0 <= d[i]
        < 16 by {
        reveal(emit::hex8);
    }
    assert forall|i: int| 0 <= i < 8 implies b[i] < 0x80 && !digits::is_space(b[i] as char)
        && digits::digit(b[i] as char, 16) == Some(d[i]) && b[i] as char != '+' by {
        lemma_digit(d[i]);
    }
    digits::lemma_plain_field(b, 16);
    let s = Seq::new(b.len(), |i: int| b[i] as char);
    lemma_eight(s, d);
    lemma_hex_sum(n);
    assert(s[0] != '+');
}

/// What a reader makes of the header with the fields `f`.
pub open spec fn read_fields(f: Fields) -> Hdr {
    Hdr {
        mode: f.mode,
        uid: f.uid,
        gid: f.gid,
        mtime: f.mtime as u64,
        filesize: f.filesize as u64,
        rdevmajor: f.major,
        rdevminor: f.minor,
        namesize: f.namesize as u64,
        header_len: 110,
        align: 4,
    }
}

/// A header that was written reads back.
pub proof fn lemma_header(f: Fields)
    ensures
        emit::header(f).len() == 110,
        scan::format_of(emit::header(f).subrange(0, 6)) == Some(scan::Format::Newc),
        scan::newc(emit::header(f)) == Some(read_fields(f)),
{
    reveal(emit::header);
    reveal(scan::newc);
    let h = emit::header(f);
    lemma_hex8(f.ino);
    lemma_hex8(f.mode);
    lemma_hex8(f.uid);
    lemma_hex8(f.gid);
    lemma_hex8(1);
    lemma_hex8(f.mtime);
    lemma_hex8(f.filesize);
    lemma_hex8(0);
    lemma_hex8(f.major);
    lemma_hex8(f.minor);
    lemma_hex8(f.namesize);
    assert(h.subrange(0, 6) =~= seq![48u8, 55, 48, 55, 48, 49]);
    assert(h.subrange(14, 22) =~= emit::hex8(f.mode));
    assert(h.subrange(22, 30) =~= emit::hex8(f.uid));
    assert(h.subrange(30, 38) =~= emit::hex8(f.gid));
    assert(h.subrange(46, 54) =~= emit::hex8(f.mtime));
    assert(h.subrange(54, 62) =~= emit::hex8(f.filesize));
    assert(h.subrange(78, 86) =~= emit::hex8(f.major));
    assert(h.subrange(86, 94) =~= emit::hex8(f.minor));
    assert(h.subrange(94, 102) =~= emit::hex8(f.namesize));
}

/// The bytes of a record.
pub open spec fn record_bytes(f: Fields, name: Seq<u8>, body: Seq<u8>) -> Seq<u8> {
    emit::header(f) + name + emit::nuls(1) + emit::nuls(emit::pad4(111 + name.len() as int))
        + body + emit::nuls(emit::pad4(body.len() as int))
}

/// Where the body of a record at `pos` is.
pub open spec fn body_at(pos: int, name: Seq<u8>) -> int {
    pos + 111 + name.len() + emit::pad4(111 + name.len() as int)
}

proof fn lemma_chain(f: Fields, name: Seq<u8>, body: Seq<u8>)
    ensures
        writer::chained(emit::record_runs(f, name, body), 6) == record_bytes(f, name, body),
        record_bytes(f, name, body).len() == 111 + name.len() + emit::pad4(
            111 + name.len() as int,
        ) + body.len() + emit::pad4(body.len() as int),
        record_bytes(f, name, body).len() % 4 == 0,
{
    broadcast use bytes::lemma_zeros_len;

    lemma_header(f);
    let rs = emit::record_runs(f, name, body);
    let e = Seq::<u8>::empty();
    reveal_with_fuel(writer::chained, 7);
    assert(e + emit::header(f) =~= emit::header(f));
}

/// Whether the bytes `b` stand on the device `img` from `pos` on.
pub open spec fn stands(img: Seq<u8>, pos: int, b: Seq<u8>) -> bool {
    0 <= pos && pos + b.len() <= img.len() && img.subrange(pos, pos + b.len()) == b
}

proof fn lemma_aligned(n: int)
    requires
        0 <= n,
    ensures
        scan::aligned(n, 4) == n + emit::pad4(n),
{
}

proof fn lemma_one_nul(n: Seq<u8>)
    requires
        n.len() > 0 ==> n.last() != 0,
    ensures
        scan::without_nuls(n + emit::nuls(1)) == n,
{
    reveal(bytes::zeros);
    let m = n + emit::nuls(1);
    assert(m.last() == 0);
    assert(m.drop_last() =~= n);
    assert(scan::without_nuls(n) == n);
}

/// A record that was written reads back.
#[verifier::spinoff_prover]
#[verifier::rlimit(50)]
pub proof fn lemma_record(img: Seq<u8>, pos: int, f: Fields, nb: Seq<u8>, body: Seq<u8>)
    requires
        pos % 4 == 0,
        stands(img, pos, record_bytes(f, nb, body)),
        f.namesize == nb.len() + 1,
        f.namesize <= scan::MAX_NAMESIZE,
        f.filesize == body.len(),
        nb.len() > 0 ==> nb.last() != 0,
    ensures
        scan::record(img, pos) == Ok::<Record, Error>(
            Record {
                hdr: read_fields(f),
                name: text::text_of(nb),
                body: body_at(pos, nb),
                next: pos + record_bytes(f, nb, body).len(),
            },
        ),
        img.subrange(body_at(pos, nb), body_at(pos, nb) + body.len()) == body,
{
    let b = record_bytes(f, nb, body);
    let at = pos + 110;
    let np = emit::pad4(111 + nb.len() as int);
    let k = 111 + nb.len() + np;
    let at_body = body_at(pos, nb);
    lemma_chain(f, nb, body);
    lemma_inside(f, nb, body);
    lemma_header(f);
    let h = emit::header(f);
    lemma_sub(img, pos, b, 0, 110);
    lemma_sub(img, pos, b, 110, 111 + nb.len() as int);
    lemma_sub(img, pos, b, k, k + body.len());
    lemma_sub(img, pos, h, 0, 6);
    lemma_one_nul(nb);
    lemma_pads(pos, nb.len() as int, body.len() as int);
    assert(scan::header(img, pos) == Ok::<Hdr, Error>(read_fields(f)));
    reveal(scan::record);
}

proof fn lemma_sub(img: Seq<u8>, pos: int, b: Seq<u8>, lo: int, hi: int)
    requires
        stands(img, pos, b),
        0 <= lo <= hi <= b.len(),
    ensures
        img.subrange(pos + lo, pos + hi) == b.subrange(lo, hi),
        stands(img, pos + lo, b.subrange(lo, hi)),
{
    assert(img.subrange(pos + lo, pos + hi) =~= img.subrange(pos, pos + b.len()).subrange(lo, hi));
}

proof fn lemma_pads(pos: int, n: int, m: int)
    requires
        0 <= pos,
        pos % 4 == 0,
        0 <= n,
        0 <= m,
    ensures
        scan::aligned(pos + 110 + (n + 1), 4) == pos + 111 + n + emit::pad4(111 + n),
        ({
            let at = pos + 111 + n + emit::pad4(111 + n);
            scan::aligned(at + m, 4) == at + m + emit::pad4(m)
        }),
{
    lemma_aligned(pos + 111 + n);
    let at = pos + 111 + n + emit::pad4(111 + n);
    assert(at % 4 == 0);
    lemma_aligned(at + m);
}

proof fn lemma_inside(f: Fields, nb: Seq<u8>, body: Seq<u8>)
    ensures
        ({
            let b = record_bytes(f, nb, body);
            let k = 111 + nb.len() + emit::pad4(111 + nb.len() as int);
            &&& b.subrange(0, 110) == emit::header(f)
            &&& b.subrange(110, 111 + nb.len() as int) == nb + emit::nuls(1)
            &&& b.subrange(k, k + body.len()) == body
        }),
{
    broadcast use bytes::lemma_zeros_len;

    lemma_header(f);
    let b = record_bytes(f, nb, body);
    let k = 111 + nb.len() + emit::pad4(111 + nb.len() as int);
    assert(b.subrange(0, 110) =~= emit::header(f));
    assert(b.subrange(110, 111 + nb.len() as int) =~= nb + emit::nuls(1));
    assert(b.subrange(k, k + body.len()) =~= body);
}

// ---- a whole archive ----

/// An entry that is added to an archive.
pub enum Added {
    File { path: Seq<char>, data: Seq<u8>, meta: FileMeta },
    Dir { path: Seq<char>, meta: FileMeta },
    Link { path: Seq<char>, target: Seq<char>, meta: FileMeta },
    Node { path: Seq<char>, kind: DeviceKind, major: u32, minor: u32, meta: FileMeta },
}

/// The record of an entry: name, mode, metadata, device numbers and body.
pub struct Shape {
    pub name: Seq<char>,
    pub mode: u32,
    pub meta: FileMeta,
    pub major: u32,
    pub minor: u32,
    pub body: Seq<u8>,
}

impl Added {
    /// The record of the entry.
    pub open spec fn shape(self) -> Shape {
        match self {
            Added::File { path, data, meta } => Shape {
                name: emit::bare(path),
                mode: 0x8000u32 | (meta.mode as u32),
                meta,
                major: 0,
                minor: 0,
                body: data,
            },
            Added::Dir { path, meta } => Shape {
                name: emit::bare(path),
                mode: 0x4000u32 | (meta.mode as u32),
                meta,
                major: 0,
                minor: 0,
                body: Seq::empty(),
            },
            Added::Link { path, target, meta } => Shape {
                name: emit::bare(path),
                mode: 0xa000u32 | (meta.mode as u32),
                meta,
                major: 0,
                minor: 0,
                body: text::utf8(target),
            },
            Added::Node { path, kind, major, minor, meta } => Shape {
                name: emit::bare(path),
                mode: emit::device_bits(kind) | (meta.mode as u32),
                meta,
                major,
                minor,
                body: Seq::empty(),
            },
        }
    }

    /// Kind of the entry.
    pub open spec fn kind(self) -> EntryKind {
        match self {
            Added::File { .. } => EntryKind::Regular,
            Added::Dir { .. } => EntryKind::Dir,
            Added::Link { .. } => EntryKind::Symlink,
            Added::Node { kind, .. } => match kind {
                DeviceKind::Char => EntryKind::Char,
                DeviceKind::Block => EntryKind::Block,
                DeviceKind::Fifo => EntryKind::Fifo,
                DeviceKind::Socket => EntryKind::Socket,
            },
        }
    }

    /// Whether the format can hold the entry: its mode has permission bits
    /// alone, its name is not too long, does not end in a zero byte, and is not
    /// the one that ends an archive.
    pub open spec fn fits(self) -> bool {
        let s = self.shape();
        let n = text::utf8(s.name);
        &&& s.meta.mode < 0x1000
        &&& n.len() < scan::MAX_NAMESIZE
        &&& n.len() > 0
        &&& n.last() != 0
        &&& s.name != scan::TRAILER@
        &&& s.body.len() <= u32::MAX
    }

    /// The writer, the device and the outcome after the entry was added.
    pub open spec fn added(self, w: CpioW, img: Seq<u8>) -> (CpioW, Seq<u8>, Result<()>) {
        match self {
            Added::File { path, data, meta } => CpioWriter::file_added(w, img, path, data, meta),
            Added::Dir { path, meta } => CpioWriter::dir_added(w, img, path, meta),
            Added::Link { path, target, meta } => CpioWriter::link_added(
                w,
                img,
                path,
                target,
                meta,
            ),
            Added::Node { path, kind, major, minor, meta } => CpioWriter::device_added(
                w,
                img,
                path,
                kind,
                major,
                minor,
                meta,
            ),
        }
    }

    /// The entry as a reader sees it, where its record is at `pos`.
    pub open spec fn item(self, pos: int) -> Item {
        let s = self.shape();
        let at = body_at(pos, text::utf8(s.name));
        Item {
            path: s.name,
            kind: self.kind(),
            mode: s.meta.mode,
            uid: s.meta.uid,
            gid: s.meta.gid,
            mtime: s.meta.mtime as u64,
            link: match self {
                Added::Link { target, .. } => Some(target),
                _ => None,
            },
            major: s.major,
            minor: s.minor,
            data: match self {
                Added::File { data, .. } => Some(
                    DataLocator {
                        offset: at as u64,
                        compressed_len: data.len() as u64,
                        uncompressed_len: data.len() as u64,
                        method: Method::Stored,
                    },
                ),
                _ => None,
            },
        }
    }
}

/// The writer, the device and the outcome after the first `n` of `es` were
/// added.
pub open spec fn all_added(img: Seq<u8>, es: Seq<Added>, n: int) -> (CpioW, Seq<u8>, Result<()>)
    decreases n,
{
    if n <= 0 {
        (CpioW { pos: 0, ino: 1 }, img, Ok(()))
    } else {
        let (w, i, r) = all_added(img, es, n - 1);
        if r is Err {
            (w, i, r)
        } else {
            es[n - 1].added(w, i)
        }
    }
}

/// The tree of the first `n` of `es`.
pub open spec fn tree_of(img: Seq<u8>, es: Seq<Added>, n: int) -> Tree
    decreases n,
{
    if n <= 0 {
        Tree::empty()
    } else {
        tree_of(img, es, n - 1).pushed(es[n - 1].item(all_added(img, es, n - 1).0.pos as int))
    }
}

proof fn lemma_mode(m: u16)
    requires
        m < 0x1000,
    ensures
        (0x8000u32 | (m as u32)) == 0x8000 + m,
        (0x4000u32 | (m as u32)) == 0x4000 + m,
        (0xa000u32 | (m as u32)) == 0xa000 + m,
        (0x2000u32 | (m as u32)) == 0x2000 + m,
        (0x6000u32 | (m as u32)) == 0x6000 + m,
        (0x1000u32 | (m as u32)) == 0x1000 + m,
        (0xc000u32 | (m as u32)) == 0xc000 + m,
{
    let x = m as u32;
    assert((0x8000u32 | x) == 0x8000 + x && (0x4000u32 | x) == 0x4000 + x && (0xa000u32 | x)
        == 0xa000 + x && (0x2000u32 | x) == 0x2000 + x && (0x6000u32 | x) == 0x6000 + x && (
    0x1000u32 | x) == 0x1000 + x && (0xc000u32 | x) == 0xc000 + x) by (bit_vector)
        requires
            x < 0x1000,
    ;
}

/// What adding one entry does to the device.
proof fn lemma_added(e: Added, w: CpioW, img: Seq<u8>)
    requires
        e.fits(),
        e.added(w, img).2 is Ok,
        w.pos <= img.len() <= u64::MAX,
        w.pos % 4 == 0,
    ensures
        ({
            let s = e.shape();
            let n = text::utf8(s.name);
            let f = emit::fields_of(w.ino, n, s.mode, s.meta, s.major, s.minor, s.body);
            let b = record_bytes(f, n, s.body);
            let (w2, img2, _) = e.added(w, img);
            &&& img2 == bytes::put(img, w.pos as int, b)
            &&& img2.len() == img.len()
            &&& w2.pos == w.pos + b.len()
            &&& w2.pos <= img.len()
            &&& w2.pos % 4 == 0
            &&& w2.pos > w.pos
        }),
{
    broadcast use bytes::lemma_put_len;

    let s = e.shape();
    let n = text::utf8(s.name);
    let f = emit::fields_of(w.ino, n, s.mode, s.meta, s.major, s.minor, s.body);
    let rs = emit::record_runs(f, n, s.body);
    assert(s.name.len() > 0) by {
        if s.name.len() == 0 {
            assert(text::utf8(s.name).len() == 0);
        }
    }
    assert(e.added(w, img) == emit::record_written(
        w,
        img,
        s.name,
        s.mode,
        s.meta,
        s.major,
        s.minor,
        s.body,
    ));
    writer::lemma_run_ok(img, w.pos, rs, 6);
    lemma_chain(f, n, s.body);
}

/// An entry whose record stands on a device is read back.
proof fn lemma_one(img: Seq<u8>, pos: int, ino: u32, e: Added, t: Tree)
    requires
        e.fits(),
        0 <= pos,
        pos % 4 == 0,
        ({
            let s = e.shape();
            let n = text::utf8(s.name);
            stands(
                img,
                pos,
                record_bytes(
                    emit::fields_of(ino, n, s.mode, s.meta, s.major, s.minor, s.body),
                    n,
                    s.body,
                ),
            )
        }),
        img.len() <= u64::MAX,
    ensures
        ({
            let s = e.shape();
            let n = text::utf8(s.name);
            let f = emit::fields_of(ino, n, s.mode, s.meta, s.major, s.minor, s.body);
            &&& scan::scan_from(img, pos, t) == scan::scan_from(
                img,
                pos + record_bytes(f, n, s.body).len(),
                t.pushed(e.item(pos)),
            )
            &&& img.subrange(body_at(pos, n), body_at(pos, n) + s.body.len()) == s.body
            &&& body_at(pos, n) + s.body.len() <= img.len()
        }),
{
    let s = e.shape();
    let n = text::utf8(s.name);
    let f = emit::fields_of(ino, n, s.mode, s.meta, s.major, s.minor, s.body);
    lemma_chain(f, n, s.body);
    lemma_record(img, pos, f, n, s.body);
    text::lemma_text_of_utf8(s.name);
    let r = scan::record(img, pos).unwrap();
    assert(scan::item(img, r) == e.item(pos)) by {
        lemma_item(img, pos, ino, e, r);
    }
}

proof fn lemma_item(img: Seq<u8>, pos: int, ino: u32, e: Added, r: Record)
    requires
        e.fits(),
        ({
            let s = e.shape();
            let n = text::utf8(s.name);
            &&& r.hdr == read_fields(
                emit::fields_of(ino, n, s.mode, s.meta, s.major, s.minor, s.body),
            )
            &&& r.name == s.name
            &&& r.body == body_at(pos, n)
            &&& img.subrange(body_at(pos, n), body_at(pos, n) + s.body.len()) == s.body
        }),
    ensures
        scan::item(img, r) == e.item(pos),
{
    let s = e.shape();
    lemma_mode(s.meta.mode);
    if let Added::Link { target, .. } = e {
        text::lemma_text_of_utf8(target);
    }
    assert(scan::kind_of(s.mode) == e.kind());
    assert(scan::item(img, r) =~= e.item(pos));
}

/// As far as a device agrees with one that `n` entries were written to, its scan
/// comes to the tree of those entries.
proof fn lemma_prefix(img0: Seq<u8>, es: Seq<Added>, n: int, img: Seq<u8>)
    requires
        0 <= n <= es.len(),
        forall|k: int| 0 <= k < n ==> (#[trigger] es[k]).fits(),
        all_added(img0, es, n).2 is Ok,
        img0.len() <= u64::MAX,
        img.len() == img0.len(),
        forall|i: int|
            0 <= i < all_added(img0, es, n).0.pos ==> img[i] == all_added(img0, es, n).1[i],
    ensures
        all_added(img0, es, n).0.pos <= img.len(),
        all_added(img0, es, n).0.pos % 4 == 0,
        all_added(img0, es, n).1.len() == img.len(),
        scan::scanned(img) == scan::scan_from(
            img,
            all_added(img0, es, n).0.pos as int,
            tree_of(img0, es, n),
        ),
    decreases n,
{
    if n > 0 {
        let (w, i0, r) = all_added(img0, es, n - 1);
        let (w1, i1, _) = all_added(img0, es, n);
        assert(r is Ok);
        lemma_all_len(img0, es, n - 1);
        lemma_added(es[n - 1], w, i0);
        let e = es[n - 1];
        let s = e.shape();
        let nb = text::utf8(s.name);
        let b = record_bytes(
            emit::fields_of(w.ino, nb, s.mode, s.meta, s.major, s.minor, s.body),
            nb,
            s.body,
        );
        reveal(bytes::put);
        assert forall|i: int| 0 <= i < w.pos implies img[i] == i0[i] by {
            assert(img[i] == i1[i]);
        }
        lemma_prefix(img0, es, n - 1, img);
        assert(img.subrange(w.pos as int, w.pos + b.len()) =~= b) by {
            assert forall|i: int| 0 <= i < b.len() implies img[w.pos + i] == b[i] by {
                assert(img[w.pos + i] == i1[w.pos + i]);
            }
        }
        lemma_one(img, w.pos as int, w.ino, e, tree_of(img0, es, n - 1));
    }
}

/// An archive that was written reads back: the scan of the device gives the tree
/// of the entries, in the order in which they were added.
#[verifier::rlimit(60)]
#[verifier::spinoff_prover]
pub proof fn lemma_read_back(img0: Seq<u8>, es: Seq<Added>)
    requires
        img0.len() <= u64::MAX,
        forall|k: int| 0 <= k < es.len() ==> (#[trigger] es[k]).fits(),
        all_added(img0, es, es.len() as int).2 is Ok,
        ({
            let (w, img, _) = all_added(img0, es, es.len() as int);
            CpioWriter::finished(w, img).2 is Ok
        }),
    ensures
        ({
            let (w, img, _) = all_added(img0, es, es.len() as int);
            let done = CpioWriter::finished(w, img).1;
            scan::scanned(done) == Ok::<Tree, Error>(tree_of(img0, es, es.len() as int))
        }),
{
    broadcast use bytes::lemma_put_len;

    let n = es.len() as int;
    let (w, img, _) = all_added(img0, es, n);
    let done = CpioWriter::finished(w, img).1;
    let f = emit::trailer_fields();
    let name = text::utf8(scan::TRAILER@);
    lemma_all_len(img0, es, n);
    lemma_prefix(img0, es, n, img);
    writer::lemma_run_ok(img, w.pos, emit::trailer_runs(), 6);
    lemma_chain(f, name, Seq::empty());
    let b = record_bytes(f, name, Seq::empty());
    reveal(bytes::put);
    lemma_prefix(img0, es, n, done);
    assert(done.subrange(w.pos as int, w.pos + b.len()) =~= b);
    reveal_strlit("TRAILER!!!");
    assert(scan::TRAILER@ =~= seq!['T', 'R', 'A', 'I', 'L', 'E', 'R', '!', '!', '!']);
    vstd::utf8::is_ascii_chars_encode_utf8(scan::TRAILER@);
    text::lemma_text_of_utf8(scan::TRAILER@);
    lemma_record(done, w.pos as int, f, name, Seq::empty());
}

proof fn lemma_all_len(img0: Seq<u8>, es: Seq<Added>, n: int)
    requires
        0 <= n <= es.len(),
        forall|k: int| 0 <= k < n ==> (#[trigger] es[k]).fits(),
        all_added(img0, es, n).2 is Ok,
        img0.len() <= u64::MAX,
    ensures
        all_added(img0, es, n).1.len() == img0.len(),
        all_added(img0, es, n).0.pos <= img0.len(),
        all_added(img0, es, n).0.pos % 4 == 0,
    decreases n,
{
    if n > 0 {
        let (w, i0, r) = all_added(img0, es, n - 1);
        assert(r is Ok);
        lemma_all_len(img0, es, n - 1);
        lemma_added(es[n - 1], w, i0);
    }
}

/// The contents of a file that was written are read back where its entry says.
pub proof fn lemma_contents(img0: Seq<u8>, es: Seq<Added>, k: int)
    requires
        img0.len() <= u64::MAX,
        0 <= k < es.len(),
        forall|j: int| 0 <= j < es.len() ==> (#[trigger] es[j]).fits(),
        es[k] is File,
        all_added(img0, es, es.len() as int).2 is Ok,
        ({
            let (w, img, _) = all_added(img0, es, es.len() as int);
            CpioWriter::finished(w, img).2 is Ok
        }),
    ensures
        ({
            let (w, img, _) = all_added(img0, es, es.len() as int);
            let done = CpioWriter::finished(w, img).1;
            let at = all_added(img0, es, k).0.pos as int;
            &&& es[k].item(at).data matches Some(d)
            &&& fs::located(done, d) == Ok::<Seq<u8>, Error>(es[k]->File_data)
        }),
{
    broadcast use bytes::lemma_put_len;

    let n = es.len() as int;
    let (w, img, _) = all_added(img0, es, n);
    let done = CpioWriter::finished(w, img).1;
    lemma_all_len(img0, es, n);
    writer::lemma_run_ok(img, w.pos, emit::trailer_runs(), 6);
    reveal(bytes::put);
    lemma_grows(img0, es, k + 1, n);
    let (w0, i0, r0) = all_added(img0, es, k);
    let (w1, i1, _) = all_added(img0, es, k + 1);
    assert(r0 is Ok);
    lemma_all_len(img0, es, k);
    let e = es[k];
    lemma_added(e, w0, i0);
    let s = e.shape();
    let nb = text::utf8(s.name);
    let b = record_bytes(
        emit::fields_of(w0.ino, nb, s.mode, s.meta, s.major, s.minor, s.body),
        nb,
        s.body,
    );
    assert(done.subrange(w0.pos as int, w0.pos + b.len()) =~= b) by {
        assert forall|i: int| 0 <= i < b.len() implies done[w0.pos + i] == b[i] by {
            assert(done[w0.pos + i] == img[w0.pos + i]);
            assert(img[w0.pos + i] == i1[w0.pos + i]);
        }
    }
    lemma_one(done, w0.pos as int, w0.ino, e, Tree::empty());
}

/// Later entries leave what was written before them alone.
proof fn lemma_grows(img0: Seq<u8>, es: Seq<Added>, k: int, n: int)
    requires
        0 <= k <= n <= es.len(),
        forall|j: int| 0 <= j < n ==> (#[trigger] es[j]).fits(),
        all_added(img0, es, n).2 is Ok,
        img0.len() <= u64::MAX,
    ensures
        all_added(img0, es, k).2 is Ok,
        all_added(img0, es, k).0.pos <= all_added(img0, es, n).0.pos,
        forall|i: int|
            0 <= i < all_added(img0, es, k).0.pos ==> all_added(img0, es, n).1[i] == all_added(
                img0,
                es,
                k,
            ).1[i],
    decreases n - k,
{
    if k < n {
        let (w, i0, r) = all_added(img0, es, n - 1);
        assert(r is Ok);
        lemma_grows(img0, es, k, n - 1);
        lemma_all_len(img0, es, n - 1);
        lemma_added(es[n - 1], w, i0);
        reveal(bytes::put);
    }
}

} // verus!
