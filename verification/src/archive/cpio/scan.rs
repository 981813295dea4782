//! Reading `cpio` archives.

use vstd::prelude::*;

use crate::archive::digits::{self, parse_field};
use crate::archive::fs::read_range;
use crate::archive::index::{ArchiveEntry, ArchiveIndex, DataLocator, EntryKind, Item, Method, Tree};
use crate::block::MemoryBackend;
use crate::bytes::same_bytes;
use crate::error::{Error, Result};
use crate::num;
use crate::text::{self, from_utf8_lossy, same_text};
use vstd::slice::slice_subrange;

verus! {

/// Longest name that is taken.
pub const MAX_NAMESIZE: u64 = 0x1_0000;

/// Name of the record that ends an archive.
pub const TRAILER: &'static str = "TRAILER!!!";

/// The formats of a record.
#[derive(Clone, Copy, Debug, PartialEq, Eq, Structural)]
pub enum Format {
    /// Hexadecimal fields, everything aligned to four bytes.
    Newc,
    /// Octal fields, nothing aligned.
    Odc,
}

/// The format that the six bytes `m` announce.
pub open spec fn format_of(m: Seq<u8>) -> Option<Format> {
    if m == seq![48u8, 55, 48, 55, 48, 49] || m == seq![48u8, 55, 48, 55, 48, 50] {
        Some(Format::Newc)
    } else if m == seq![48u8, 55, 48, 55, 48, 55] {
        Some(Format::Odc)
    } else {
        None
    }
}

/// The header of a record.
#[derive(Clone, Copy, Debug, PartialEq, Eq, Structural)]
pub struct Hdr {
    pub mode: u32,
    pub uid: u32,
    pub gid: u32,
    pub mtime: u64,
    pub filesize: u64,
    pub rdevmajor: u32,
    pub rdevminor: u32,
    pub namesize: u64,
    pub header_len: u64,
    /// Name and body are filled up to a multiple of this.
    pub align: u64,
}

/// The low 32 bits of `n`.
pub open spec fn low32(n: u64) -> u32 {
    (n % 0x1_0000_0000) as u32
}

/// The field of `h` from `lo` up to `hi`.
pub open spec fn field(h: Seq<u8>, lo: int, hi: int, radix: int) -> Option<u64> {
    digits::field(h.subrange(lo, hi), radix)
}

/// The header in the 110 bytes `h`.
#[verifier::opaque]
pub open spec fn newc(h: Seq<u8>) -> Option<Hdr> {
    match (
        (field(h, 14, 22, 16), field(h, 22, 30, 16), field(h, 30, 38, 16), field(h, 46, 54, 16)),
        (field(h, 54, 62, 16), field(h, 78, 86, 16), field(h, 86, 94, 16), field(h, 94, 102, 16)),
    ) {
        ((Some(mode), Some(uid), Some(gid), Some(mtime)), (
            Some(filesize),
            Some(major),
            Some(minor),
            Some(namesize),
        )) => Some(
            Hdr {
                mode: low32(mode),
                uid: low32(uid),
                gid: low32(gid),
                mtime,
                filesize,
                rdevmajor: low32(major),
                rdevminor: low32(minor),
                namesize,
                header_len: 110,
                align: 4,
            },
        ),
        _ => None,
    }
}

/// The header in the 76 bytes `h`.
#[verifier::opaque]
pub open spec fn odc(h: Seq<u8>) -> Option<Hdr> {
    match (
        (field(h, 18, 24, 8), field(h, 24, 30, 8), field(h, 30, 36, 8), field(h, 48, 59, 8)),
        (field(h, 65, 76, 8), field(h, 36, 42, 8), field(h, 59, 65, 8)),
    ) {
        ((Some(mode), Some(uid), Some(gid), Some(mtime)), (
            Some(filesize),
            Some(rdev),
            Some(namesize),
        )) => Some(
            Hdr {
                mode: low32(mode),
                uid: low32(uid),
                gid: low32(gid),
                mtime,
                filesize,
                rdevmajor: (low32(rdev) / 0x100 % 0x100) as u32,
                rdevminor: (low32(rdev) % 0x100) as u32,
                namesize,
                header_len: 76,
                align: 1,
            },
        ),
        _ => None,
    }
}

/// The header of the record at `pos`.
pub open spec fn header(img: Seq<u8>, pos: int) -> Result<Hdr> {
    match format_of(img.subrange(pos, pos + 6)) {
        None => Err(Error::InvalidImage),
        Some(f) => {
            let n = if f == Format::Newc {
                110int
            } else {
                76int
            };
            if pos + n > img.len() {
                Err(Error::OutOfBounds)
            } else {
                let h = img.subrange(pos, pos + n);
                let hdr = if f == Format::Newc {
                    newc(h)
                } else {
                    odc(h)
                };
                match hdr {
                    Some(x) => Ok(x),
                    None => Err(Error::InvalidImage),
                }
            }
        },
    }
}

/// The least multiple of `a` that is not below `n`.
pub open spec fn aligned(n: int, a: int) -> int {
    num::div_up(n, a) * a
}

/// `b` without zero bytes at its end.
pub open spec fn without_nuls(b: Seq<u8>) -> Seq<u8>
    decreases b.len(),
{
    if b.len() > 0 && b.last() == 0 {
        without_nuls(b.drop_last())
    } else {
        b
    }
}

/// A record: its header, its name, where its body is, and where the next record
/// is.
pub struct Record {
    pub hdr: Hdr,
    pub name: Seq<char>,
    pub body: int,
    pub next: int,
}

/// The record at `pos`.
#[verifier::opaque]
pub open spec fn record(img: Seq<u8>, pos: int) -> Result<Record> {
    match header(img, pos) {
        Err(e) => Err(e),
        Ok(hdr) => {
            let at = pos + hdr.header_len;
            let body = aligned(at + hdr.namesize, hdr.align as int);
            let next = aligned(body + hdr.filesize, hdr.align as int);
            if hdr.namesize > MAX_NAMESIZE || at + hdr.namesize > img.len() || body + hdr.filesize
                > img.len() || next > img.len() {
                Err(Error::InvalidImage)
            } else {
                Ok(
                    Record {
                        hdr,
                        name: text::text_of(without_nuls(img.subrange(at, at + hdr.namesize))),
                        body,
                        next,
                    },
                )
            }
        },
    }
}

/// Kind of an entry by its mode; one that tells no type is a regular file.
pub open spec fn kind_of(mode: u32) -> EntryKind {
    let t = mode / 0x1000 % 16;
    if t == 4 {
        EntryKind::Dir
    } else if t == 10 {
        EntryKind::Symlink
    } else if t == 2 {
        EntryKind::Char
    } else if t == 6 {
        EntryKind::Block
    } else if t == 1 {
        EntryKind::Fifo
    } else if t == 12 {
        EntryKind::Socket
    } else {
        EntryKind::Regular
    }
}

/// The entry of a record.
pub open spec fn item(img: Seq<u8>, r: Record) -> Item {
    let k = kind_of(r.hdr.mode);
    Item {
        path: r.name,
        kind: k,
        mode: (r.hdr.mode % 0x1000) as u16,
        uid: r.hdr.uid,
        gid: r.hdr.gid,
        mtime: r.hdr.mtime,
        link: if k == EntryKind::Symlink {
            Some(text::text_of(img.subrange(r.body, r.body + r.hdr.filesize)))
        } else {
            None
        },
        major: r.hdr.rdevmajor,
        minor: r.hdr.rdevminor,
        data: if k == EntryKind::Regular {
            Some(
                DataLocator {
                    offset: r.body as u64,
                    compressed_len: r.hdr.filesize,
                    uncompressed_len: r.hdr.filesize,
                    method: Method::Stored,
                },
            )
        } else {
            None
        },
    }
}

/// The tree `t` with the entries of the records from `pos` on, up to the record
/// that ends the archive or to the end of the device.
pub open spec fn scan_from(img: Seq<u8>, pos: int, t: Tree) -> Result<Tree>
    decreases img.len() - pos,
{
    if pos + 6 > img.len() {
        Ok(t)
    } else {
        match record(img, pos) {
            Err(e) => Err(e),
            Ok(r) => if r.next <= pos || r.next > img.len() {
                Err(Error::InvalidImage)
            } else if r.name == TRAILER@ {
                Ok(t)
            } else {
                scan_from(img, r.next, t.pushed(item(img, r)))
            },
        }
    }
}

/// The tree of the archive on the device `img`.
pub open spec fn scanned(img: Seq<u8>) -> Result<Tree> {
    scan_from(img, 0, Tree::empty())
}

fn truncate32(n: u64) -> (r: u32)
    ensures
        r == low32(n),
{
    (n % 0x1_0000_0000) as u32
}

fn parse(h: &Vec<u8>, lo: usize, hi: usize, radix: u32) -> (r: Result<u64>)
    requires
        lo <= hi <= h@.len(),
        2 <= radix <= 36,
    ensures
        match r {
            Ok(v) => field(h@, lo as int, hi as int, radix as int) == Some(v),
            Err(e) => e == Error::InvalidImage && field(
                h@,
                lo as int,
                hi as int,
                radix as int,
            ) is None,
        },
{
    match parse_field(slice_subrange(h.as_slice(), lo, hi), radix) {
        Some(v) => Ok(v),
        None => Err(Error::InvalidImage),
    }
}

fn read_newc(h: &Vec<u8>) -> (r: Result<Hdr>)
    requires
        h@.len() == 110,
    ensures
        match r {
            Ok(x) => newc(h@) == Some(x),
            Err(e) => newc(h@) is None && e == Error::InvalidImage,
        },
{
    proof {
        reveal(newc);
    }
    let mode: u64 = parse(h, 14, 22, 16)?;
    let uid: u64 = parse(h, 22, 30, 16)?;
    let gid: u64 = parse(h, 30, 38, 16)?;
    let mtime: u64 = parse(h, 46, 54, 16)?;
    let filesize: u64 = parse(h, 54, 62, 16)?;
    let major: u64 = parse(h, 78, 86, 16)?;
    let minor: u64 = parse(h, 86, 94, 16)?;
    let namesize: u64 = parse(h, 94, 102, 16)?;
    Ok(
        Hdr {
            mode: truncate32(mode),
            uid: truncate32(uid),
            gid: truncate32(gid),
            mtime,
            filesize,
            rdevmajor: truncate32(major),
            rdevminor: truncate32(minor),
            namesize,
            header_len: 110,
            align: 4,
        },
    )
}

fn read_odc(h: &Vec<u8>) -> (r: Result<Hdr>)
    requires
        h@.len() == 76,
    ensures
        match r {
            Ok(x) => odc(h@) == Some(x),
            Err(e) => odc(h@) is None && e == Error::InvalidImage,
        },
{
    proof {
        reveal(odc);
    }
    let rdev: u32 = truncate32(parse(h, 36, 42, 8)?);
    let mode: u64 = parse(h, 18, 24, 8)?;
    let uid: u64 = parse(h, 24, 30, 8)?;
    let gid: u64 = parse(h, 30, 36, 8)?;
    let mtime: u64 = parse(h, 48, 59, 8)?;
    let filesize: u64 = parse(h, 65, 76, 8)?;
    let namesize: u64 = parse(h, 59, 65, 8)?;
    Ok(
        Hdr {
            mode: truncate32(mode),
            uid: truncate32(uid),
            gid: truncate32(gid),
            mtime,
            filesize,
            rdevmajor: rdev / 0x100 % 0x100,
            rdevminor: rdev % 0x100,
            namesize,
            header_len: 76,
            align: 1,
        },
    )
}

/// The format that the magic `m` announces.
fn read_format(m: &[u8]) -> (r: Option<Format>)
    ensures
        r == format_of(m@),
{
    let a: [u8; 6] = [48, 55, 48, 55, 48, 49];
    let b: [u8; 6] = [48, 55, 48, 55, 48, 50];
    let c: [u8; 6] = [48, 55, 48, 55, 48, 55];
    proof {
        assert(a@ =~= seq![48u8, 55, 48, 55, 48, 49]);
        assert(b@ =~= seq![48u8, 55, 48, 55, 48, 50]);
        assert(c@ =~= seq![48u8, 55, 48, 55, 48, 55]);
    }
    if same_bytes(m, a.as_slice()) || same_bytes(m, b.as_slice()) {
        Some(Format::Newc)
    } else if same_bytes(m, c.as_slice()) {
        Some(Format::Odc)
    } else {
        None
    }
}

fn read_header(dev: &MemoryBackend, pos: u64) -> (r: Result<Hdr>)
    requires
        pos + 6 <= dev@.len(),
    ensures
        r == header(dev@, pos as int),
{
    let magic = dev.read_at(pos, 6)?;
    match read_format(magic.as_slice()) {
        None => Err(Error::InvalidImage),
        Some(Format::Newc) => {
            let h = dev.read_at(pos, 110)?;
            read_newc(&h)
        },
        Some(Format::Odc) => {
            let h = dev.read_at(pos, 76)?;
            read_odc(&h)
        },
    }
}

/// The least multiple of `a` that is not below `n`; `None` where it is too
/// large.
fn align_up(n: u64, a: u64) -> (r: Option<u64>)
    requires
        a == 4 || a == 1,
    ensures
        match r {
            Some(m) => m == aligned(n as int, a as int),
            None => aligned(n as int, a as int) > u64::MAX,
        },
{
    if a == 1 {
        assert(aligned(n as int, 1) == n);
        return Some(n);
    }
    let pad: u64 = (4 - n % 4) % 4;
    proof {
        assert(aligned(n as int, 4) == n + pad);
    }
    if pad > u64::MAX - n {
        return None;
    }
    Some(n + pad)
}

proof fn lemma_header(img: Seq<u8>, pos: int)
    ensures
        header(img, pos) matches Ok(h) ==> ((h.align == 4 && h.header_len == 110) || (h.align == 1
            && h.header_len == 76)) && pos + h.header_len <= img.len(),
{
    reveal(newc);
    reveal(odc);
}

fn strip_nuls(b: Vec<u8>) -> (r: Vec<u8>)
    ensures
        r@ == without_nuls(b@),
{
    let mut v = b;
    while v.len() > 0 && v[v.len() - 1] == 0
        invariant
            without_nuls(b@) == without_nuls(v@),
        decreases v@.len(),
    {
        v.pop();
    }
    v
}

/// Kind of an entry by its mode.
fn kind_from_mode(mode: u32) -> (r: EntryKind)
    ensures
        r == kind_of(mode),
{
    match mode / 0x1000 % 16 {
        4 => EntryKind::Dir,
        10 => EntryKind::Symlink,
        2 => EntryKind::Char,
        6 => EntryKind::Block,
        1 => EntryKind::Fifo,
        12 => EntryKind::Socket,
        _ => EntryKind::Regular,
    }
}

/// A record that was read.
struct Read {
    hdr: Hdr,
    name: String,
    body: u64,
    next: u64,
}

fn read_record(dev: &MemoryBackend, pos: u64) -> (r: Result<Read>)
    requires
        pos + 6 <= dev@.len(),
    ensures
        match r {
            Ok(x) => record(dev@, pos as int) == Ok::<Record, Error>(
                Record { hdr: x.hdr, name: x.name@, body: x.body as int, next: x.next as int },
            ) && x.next <= dev@.len(),
            Err(e) => record(dev@, pos as int) == Err::<Record, Error>(e),
        },
{
    let total: u64 = dev.total_size();
    proof {
        reveal(record);
    }
    let hdr = read_header(dev, pos)?;
    proof {
        lemma_header(dev@, pos as int);
    }
    let at: u64 = pos + hdr.header_len;
    let ghost body_at = aligned(at + hdr.namesize, hdr.align as int);
    proof {
        num::lemma_div_up(at + hdr.namesize, hdr.align as int);
        num::lemma_div_up(body_at + hdr.filesize, hdr.align as int);
    }
    if hdr.namesize > MAX_NAMESIZE {
        return Err(Error::InvalidImage);
    }
    if hdr.namesize > total - at {
        return Err(Error::InvalidImage);
    }
    let raw = dev.read_at(at, hdr.namesize as usize)?;
    let name = from_utf8_lossy(strip_nuls(raw).as_slice());
    let body: u64 = match align_up(at + hdr.namesize, hdr.align) {
        Some(b) => b,
        None => {
            return Err(Error::InvalidImage);
        },
    };
    if body > total || hdr.filesize > total - body {
        return Err(Error::InvalidImage);
    }
    let next: u64 = match align_up(body + hdr.filesize, hdr.align) {
        Some(n) => n,
        None => {
            return Err(Error::InvalidImage);
        },
    };
    if next > total {
        return Err(Error::InvalidImage);
    }
    Ok(Read { hdr, name, body, next })
}

/// Scan the archive on `dev`.
pub fn scan(dev: &MemoryBackend) -> (r: Result<ArchiveIndex>)
    ensures
        match r {
            Ok(ix) => scanned(dev@) == Ok::<Tree, Error>(ix@),
            Err(e) => scanned(dev@) == Err::<Tree, Error>(e),
        },
{
    let total: u64 = dev.total_size();
    let mut ix = ArchiveIndex::new("cpio");
    let mut pos: u64 = 0;
    while total - pos >= 6
        invariant
            total == dev@.len(),
            pos <= total,
            scanned(dev@) == scan_from(dev@, pos as int, ix@),
        decreases total - pos,
    {
        let rec = read_record(dev, pos)?;
        let ghost rv = record(dev@, pos as int).unwrap();
        if rec.next <= pos {
            return Err(Error::InvalidImage);
        }
        if same_text(rec.name.as_str(), TRAILER) {
            return Ok(ix);
        }
        let kind = kind_from_mode(rec.hdr.mode);
        proof {
            reveal(record);
            lemma_header(dev@, pos as int);
            num::lemma_div_up(rec.body + rec.hdr.filesize, rec.hdr.align as int);
        }
        let mut data: Option<DataLocator> = None;
        let mut link: Option<String> = None;
        match kind {
            EntryKind::Regular => {
                data = Some(
                    DataLocator {
                        offset: rec.body,
                        compressed_len: rec.hdr.filesize,
                        uncompressed_len: rec.hdr.filesize,
                        method: Method::Stored,
                    },
                );
            },
            EntryKind::Symlink => {
                let t = read_range(dev, rec.body, rec.hdr.filesize)?;
                link = Some(from_utf8_lossy(t.as_slice()));
            },
            _ => {},
        }
        let e = ArchiveEntry {
            path: rec.name,
            kind,
            mode: (rec.hdr.mode % 0x1000) as u16,
            uid: rec.hdr.uid,
            gid: rec.hdr.gid,
            mtime: rec.hdr.mtime,
            link_target: link,
            device_major: rec.hdr.rdevmajor,
            device_minor: rec.hdr.rdevminor,
            data,
        };
        proof {
            assert(e@ =~= item(dev@, rv));
        }
        ix.push(e);
        pos = rec.next;
    }
    Ok(ix)
}

} // verus!
