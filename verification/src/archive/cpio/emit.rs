//! Writing `cpio` archives in the "newc" format.

use vstd::prelude::*;

use crate::archive::fs::ArchiveBuilder;
use crate::archive::names::{self, normalise_path};
use crate::archive::writer::{self, Cursor};
use crate::block::MemoryBackend;
use crate::bytes::{self, copy_all, zero_vec};
use crate::entry::{DeviceKind, FileMeta};
use crate::error::{Error, Result};
use crate::text;

verus! {

/// A writer as a mathematical value.
pub struct CpioW {
    /// Number of bytes written.
    pub pos: u64,
    /// Number of the next record.
    pub ino: u32,
}

/// A writer of "newc" records.
pub struct CpioWriter {
    pub cursor: Cursor,
    pub ino: u32,
}

impl View for CpioWriter {
    type V = CpioW;

    open spec fn view(&self) -> CpioW {
        CpioW { pos: self.cursor.pos, ino: self.ino }
    }
}

/// The hexadecimal digit `d`, as a byte of text.
pub open spec fn hex_digit(d: int) -> u8 {
    if d < 10 {
        (48 + d) as u8
    } else {
        (55 + d) as u8
    }
}

/// `v` as eight hexadecimal digits.
#[verifier::opaque]
pub open spec fn hex8(v: u32) -> Seq<u8> {
    let n = v as int;
    seq![
        hex_digit(n / 0x1000_0000 % 16),
        hex_digit(n / 0x100_0000 % 16),
        hex_digit(n / 0x10_0000 % 16),
        hex_digit(n / 0x1_0000 % 16),
        hex_digit(n / 0x1000 % 16),
        hex_digit(n / 0x100 % 16),
        hex_digit(n / 0x10 % 16),
        hex_digit(n % 16),
    ]
}

/// The fields of a header.
pub struct Fields {
    pub ino: u32,
    pub mode: u32,
    pub uid: u32,
    pub gid: u32,
    pub mtime: u32,
    pub filesize: u32,
    pub major: u32,
    pub minor: u32,
    pub namesize: u32,
}

/// The header with the fields `f`.
#[verifier::opaque]
pub open spec fn header(f: Fields) -> Seq<u8> {
    seq![48u8, 55, 48, 55, 48, 49] + hex8(f.ino) + hex8(f.mode) + hex8(f.uid) + hex8(f.gid) + hex8(
        1,
    ) + hex8(f.mtime) + hex8(f.filesize) + hex8(0) + hex8(0) + hex8(f.major) + hex8(f.minor)
        + hex8(f.namesize) + hex8(0)
}

/// Number of bytes that fill `n` up to a multiple of four.
pub open spec fn pad4(n: int) -> int {
    (4 - n % 4) % 4
}

/// `n` zero bytes.
pub open spec fn nuls(n: int) -> Seq<u8> {
    bytes::zeros(n as nat)
}

/// The runs of a record with the name `name` and the body `body`.
pub open spec fn record_runs(f: Fields, name: Seq<u8>, body: Seq<u8>) -> Seq<Seq<u8>> {
    seq![
        header(f),
        name,
        nuls(1),
        nuls(pad4(111 + name.len() as int)),
        body,
        nuls(pad4(body.len() as int)),
    ]
}

/// The path `p` as it is stored: in normal form, without the slash in front.
pub open spec fn bare(p: Seq<char>) -> Seq<char> {
    names::normal(p).skip(1)
}

/// `n` plus one, and one where that is too large.
pub open spec fn next_number(n: u32) -> u32 {
    if n == u32::MAX {
        1
    } else {
        (n + 1) as u32
    }
}

/// The low 32 bits of a length.
pub open spec fn len32(n: nat) -> u32 {
    (n % 0x1_0000_0000) as u32
}

/// The fields of the record for the name `name` and the body `body`.
pub open spec fn fields_of(
    ino: u32,
    name: Seq<u8>,
    mode: u32,
    meta: FileMeta,
    major: u32,
    minor: u32,
    body: Seq<u8>,
) -> Fields {
    Fields {
        ino,
        mode,
        uid: meta.uid,
        gid: meta.gid,
        mtime: meta.mtime,
        filesize: len32(body.len()),
        major,
        minor,
        namesize: len32(name.len() + 1),
    }
}

/// The writer, the device and the outcome after a record was written.
pub open spec fn record_written(
    w: CpioW,
    img: Seq<u8>,
    name: Seq<char>,
    mode: u32,
    meta: FileMeta,
    major: u32,
    minor: u32,
    body: Seq<u8>,
) -> (CpioW, Seq<u8>, Result<()>) {
    let n = text::utf8(name);
    let f = fields_of(w.ino, n, mode, meta, major, minor, body);
    let (img2, pos, r) = writer::run_all(img, w.pos, record_runs(f, n, body));
    (CpioW { pos, ino: next_number(w.ino) }, img2, r)
}

/// Type bits of a device node.
pub open spec fn device_bits(k: DeviceKind) -> u32 {
    match k {
        DeviceKind::Char => 0x2000,
        DeviceKind::Block => 0x6000,
        DeviceKind::Fifo => 0x1000,
        DeviceKind::Socket => 0xc000,
    }
}

/// The header of the record that ends an archive.
pub open spec fn trailer_fields() -> Fields {
    Fields {
        ino: 0,
        mode: 0,
        uid: 0,
        gid: 0,
        mtime: 0,
        filesize: 0,
        major: 0,
        minor: 0,
        namesize: 11,
    }
}

/// The runs of the record that ends an archive.
pub open spec fn trailer_runs() -> Seq<Seq<u8>> {
    record_runs(
        trailer_fields(),
        text::utf8(crate::archive::cpio::scan::TRAILER@),
        Seq::empty(),
    )
}

fn push_hex(h: &mut Vec<u8>, v: u32)
    ensures
        final(h)@ == old(h)@ + hex8(v),
{
    let ghost start = h@;
    h.push(hex(v / 0x1000_0000 % 16));
    h.push(hex(v / 0x100_0000 % 16));
    h.push(hex(v / 0x10_0000 % 16));
    h.push(hex(v / 0x1_0000 % 16));
    h.push(hex(v / 0x1000 % 16));
    h.push(hex(v / 0x100 % 16));
    h.push(hex(v / 0x10 % 16));
    h.push(hex(v % 16));
    proof {
        reveal(hex8);
        assert(h@ =~= start + hex8(v));
    }
}

fn hex(d: u32) -> (r: u8)
    requires
        d < 16,
    ensures
        r == hex_digit(d as int),
{
    if d < 10 {
        (48 + d) as u8
    } else {
        (55 + d) as u8
    }
}

fn newc_header(f: &Fields) -> (r: Vec<u8>)
    ensures
        r@ == header(*f),
{
    let m: [u8; 6] = [48, 55, 48, 55, 48, 49];
    let mut h = copy_all(m.as_slice());
    proof {
        reveal(header);
        assert(h@ =~= seq![48u8, 55, 48, 55, 48, 49]);
    }
    push_hex(&mut h, f.ino);
    push_hex(&mut h, f.mode);
    push_hex(&mut h, f.uid);
    push_hex(&mut h, f.gid);
    push_hex(&mut h, 1);
    push_hex(&mut h, f.mtime);
    push_hex(&mut h, f.filesize);
    push_hex(&mut h, 0);
    push_hex(&mut h, 0);
    push_hex(&mut h, f.major);
    push_hex(&mut h, f.minor);
    push_hex(&mut h, f.namesize);
    push_hex(&mut h, 0);
    h
}

fn pad_len(n: usize) -> (r: usize)
    ensures
        r == pad4(n as int),
{
    (4 - n % 4) % 4
}

/// The runs of a record.
fn build_runs(f: &Fields, name: &[u8], body: &[u8]) -> (r: Vec<Vec<u8>>)
    ensures
        writer::views(r@) == record_runs(*f, name@, body@),
{
    let mut out: Vec<Vec<u8>> = Vec::new();
    let h = newc_header(f);
    let np: usize = pad_len(name.len() % 4 + 111);
    proof {
        assert(pad4(name@.len() as int % 4 + 111) == pad4(111 + name@.len() as int));
    }
    out.push(h);
    out.push(copy_all(name));
    out.push(zero_vec(1));
    out.push(zero_vec(np));
    out.push(copy_all(body));
    out.push(zero_vec(pad_len(body.len())));
    proof {
        assert(writer::views(out@) =~= record_runs(*f, name@, body@));
    }
    out
}

fn truncated_len(n: usize) -> (r: u32)
    ensures
        r == len32(n as nat),
{
    (n as u64 % 0x1_0000_0000) as u32
}

impl CpioWriter {
    /// A writer at the start of the device.
    pub fn new() -> (r: Self)
        ensures
            r@ == (CpioW { pos: 0, ino: 1 }),
    {
        CpioWriter { cursor: Cursor::new(), ino: 1 }
    }

    fn next_ino(&mut self) -> (r: u32)
        ensures
            r == old(self)@.ino,
            final(self)@ == (CpioW { ino: next_number(old(self)@.ino), ..old(self)@ }),
    {
        let i: u32 = self.ino;
        self.ino = if i == u32::MAX {
            1
        } else {
            i + 1
        };
        i
    }

    fn write_record(
        &mut self,
        dev: &mut MemoryBackend,
        name: &str,
        mode: u32,
        meta: FileMeta,
        major: u32,
        minor: u32,
        body: &[u8],
    ) -> (r: Result<()>)
        ensures
            (final(self)@, final(dev)@, r) == record_written(
                old(self)@,
                old(dev)@,
                name@,
                mode,
                meta,
                major,
                minor,
                body@,
            ),
    {
        let n = name.as_bytes();
        let ino: u32 = self.next_ino();
        let low: u64 = n.len() as u64 % 0x1_0000_0000;
        let f = Fields {
            ino,
            mode,
            uid: meta.uid,
            gid: meta.gid,
            mtime: meta.mtime,
            filesize: truncated_len(body.len()),
            major,
            minor,
            namesize: ((low + 1) % 0x1_0000_0000) as u32,
        };
        proof {
            assert(f == fields_of(ino, n@, mode, meta, major, minor, body@));
        }
        let runs = build_runs(&f, n, body);
        self.cursor.write_all(dev, &runs)
    }
}

/// The path `p` as it is stored.
pub fn stored_name(p: &str) -> (r: String)
    ensures
        r@ == bare(p@),
{
    let n = normalise_path(p);
    let c = text::to_chars(n.as_str());
    proof {
        names::lemma_joined_head(crate::path::parts(p@));
    }
    let t = crate::path::chars_range(&c, 1, c.len());
    proof {
        assert(t@ =~= c@.skip(1));
    }
    text::from_chars(t.as_slice())
}

impl ArchiveBuilder for CpioWriter {
    open spec fn file_added(
        b: CpioW,
        img: Seq<u8>,
        path: Seq<char>,
        data: Seq<u8>,
        meta: FileMeta,
    ) -> (CpioW, Seq<u8>, Result<()>) {
        if bare(path).len() == 0 {
            (b, img, Err(Error::InvalidArgument))
        } else if data.len() > u32::MAX {
            (b, img, Err(Error::Unsupported))
        } else {
            record_written(b, img, bare(path), 0x8000u32 | (meta.mode as u32), meta, 0, 0, data)
        }
    }

    open spec fn dir_added(b: CpioW, img: Seq<u8>, path: Seq<char>, meta: FileMeta) -> (
        CpioW,
        Seq<u8>,
        Result<()>,
    ) {
        if bare(path).len() == 0 {
            (b, img, Ok(()))
        } else {
            record_written(
                b,
                img,
                bare(path),
                0x4000u32 | (meta.mode as u32),
                meta,
                0,
                0,
                Seq::empty(),
            )
        }
    }

    open spec fn link_added(
        b: CpioW,
        img: Seq<u8>,
        path: Seq<char>,
        target: Seq<char>,
        meta: FileMeta,
    ) -> (CpioW, Seq<u8>, Result<()>) {
        record_written(
            b,
            img,
            bare(path),
            0xa000u32 | (meta.mode as u32),
            meta,
            0,
            0,
            text::utf8(target),
        )
    }

    open spec fn device_added(
        b: CpioW,
        img: Seq<u8>,
        path: Seq<char>,
        kind: DeviceKind,
        major: u32,
        minor: u32,
        meta: FileMeta,
    ) -> (CpioW, Seq<u8>, Result<()>) {
        record_written(
            b,
            img,
            bare(path),
            device_bits(kind) | (meta.mode as u32),
            meta,
            major,
            minor,
            Seq::empty(),
        )
    }

    open spec fn finished(b: CpioW, img: Seq<u8>) -> (CpioW, Seq<u8>, Result<()>) {
        let (img2, pos, r) = writer::run_all(img, b.pos, trailer_runs());
        (CpioW { pos, ..b }, img2, r)
    }

    open spec fn written(b: CpioW) -> u64 {
        b.pos
    }

    fn add_file(&mut self, dev: &mut MemoryBackend, path: &str, data: &[u8], meta: FileMeta) -> (r:
        Result<()>) {
        let name = stored_name(path);
        let c = text::to_chars(name.as_str());
        if c.len() == 0 {
            return Err(Error::InvalidArgument);
        }
        if data.len() as u64 > u32::MAX as u64 {
            return Err(Error::Unsupported);
        }
        self.write_record(dev, name.as_str(), 0x8000u32 | (meta.mode as u32), meta, 0, 0, data)
    }

    fn add_dir(&mut self, dev: &mut MemoryBackend, path: &str, meta: FileMeta) -> (r: Result<()>) {
        let name = stored_name(path);
        let c = text::to_chars(name.as_str());
        if c.len() == 0 {
            return Ok(());
        }
        let none: Vec<u8> = Vec::new();
        self.write_record(
            dev,
            name.as_str(),
            0x4000u32 | (meta.mode as u32),
            meta,
            0,
            0,
            none.as_slice(),
        )
    }

    fn add_symlink(
        &mut self,
        dev: &mut MemoryBackend,
        path: &str,
        target: &str,
        meta: FileMeta,
    ) -> (r: Result<()>) {
        let name = stored_name(path);
        self.write_record(
            dev,
            name.as_str(),
            0xa000u32 | (meta.mode as u32),
            meta,
            0,
            0,
            target.as_bytes(),
        )
    }

    fn add_device(
        &mut self,
        dev: &mut MemoryBackend,
        path: &str,
        kind: DeviceKind,
        major: u32,
        minor: u32,
        meta: FileMeta,
    ) -> (r: Result<()>) {
        let name = stored_name(path);
        let bits: u32 = match kind {
            DeviceKind::Char => 0x2000,
            DeviceKind::Block => 0x6000,
            DeviceKind::Fifo => 0x1000,
            DeviceKind::Socket => 0xc000,
        };
        let none: Vec<u8> = Vec::new();
        self.write_record(
            dev,
            name.as_str(),
            bits | (meta.mode as u32),
            meta,
            major,
            minor,
            none.as_slice(),
        )
    }

    fn finish(&mut self, dev: &mut MemoryBackend) -> (r: Result<()>) {
        let f = Fields {
            ino: 0,
            mode: 0,
            uid: 0,
            gid: 0,
            mtime: 0,
            filesize: 0,
            major: 0,
            minor: 0,
            namesize: 11,
        };
        let none: Vec<u8> = Vec::new();
        let runs = build_runs(
            &f,
            crate::archive::cpio::scan::TRAILER.as_bytes(),
            none.as_slice(),
        );
        self.cursor.write_all(dev, &runs)
    }

    fn position(&self) -> (n: u64) {
        self.cursor.position()
    }
}

} // verus!
