//! RAR5 archives. The packed streams are put together here: literals, and
//! matches of nine bytes at distance four.

use fstool::archive::rar::{skip_to, LiveSolid, RarFs, SolidReader};
use fstool::block::MemoryBackend;
use fstool::error::{Error, Result};

struct Bits {
    out: Vec<u8>,
    used: u32,
}

impl Bits {
    fn put(&mut self, value: u32, n: u32) {
        for i in (0..n).rev() {
            if self.used % 8 == 0 {
                self.out.push(0);
            }
            let bit = ((value >> i) & 1) as u8;
            let last = self.out.len() - 1;
            self.out[last] |= bit << (7 - self.used % 8);
            self.used += 1;
        }
    }
}

/// One block. Literals have nine bits, a match one; both are described by the
/// tables, which a later block may leave out.
fn block(matches: usize, literals: &[u8], tables: bool, last: bool) -> Vec<u8> {
    let mut b = Bits { out: Vec::new(), used: 0 };
    if tables {
        for i in 0..20 {
            b.put(match i { 0 => 1, 1 | 9 => 2, _ => 0 }, 4);
        }
        for i in 0..430 {
            if i < 256 {
                b.put(0b11, 2);
            } else if i == 269 || i == 306 + 3 {
                b.put(0b10, 2);
            } else {
                b.put(0, 1);
            }
        }
    }
    for _ in 0..matches {
        b.put(0, 1);
        b.put(0, 1);
    }
    for &c in literals {
        b.put(256 + c as u32, 9);
    }
    framed(b, tables, last)
}

/// A block with the bits `b`.
fn framed(b: Bits, tables: bool, last: bool) -> Vec<u8> {
    let size = b.out.len();
    let bit_size = if b.used % 8 == 0 { 8 } else { b.used % 8 };
    let flags = (if tables { 0x80 } else { 0 })
        | (if last { 0x40u8 } else { 0 })
        | (2 << 3)
        | (bit_size as u8 - 1);
    let s = [size as u8, (size >> 8) as u8, (size >> 16) as u8];
    let mut out = vec![flags, 0x5a ^ flags ^ s[0] ^ s[1] ^ s[2], s[0], s[1], s[2]];
    out.extend_from_slice(&b.out);
    out
}

/// Tables with codes of one bit: literal 65 and the main code `other`, distance
/// slot 63, and low distance 15.
fn two_codes(other: u32) -> Bits {
    let mut b = Bits { out: Vec::new(), used: 0 };
    for i in 0..20 {
        b.put(match i { 0 => 1, 1 => 1, _ => 0 }, 4);
    }
    for i in 0..430u32 {
        let one = i == 65 || i == other || i == 306 + 63 || i == 306 + 64 + 15;
        b.put(one as u32, 1);
    }
    b
}

fn vint(mut v: u64) -> Vec<u8> {
    let mut out = Vec::new();
    loop {
        let low = (v & 0x7f) as u8;
        v >>= 7;
        if v == 0 {
            out.push(low);
            return out;
        }
        out.push(low | 0x80);
    }
}

fn header(fields: &[u8]) -> Vec<u8> {
    let mut out = vec![0u8; 4];
    out.extend_from_slice(&vint(fields.len() as u64));
    out.extend_from_slice(fields);
    out
}

/// A file: its header and its packed bytes.
fn member(name: &str, packing: u64, unpacked: usize, packed: &[u8]) -> Vec<u8> {
    member_with(name, packing, unpacked, packed, 0, &[])
}

/// A file with further header flags, and with records at the end of its header.
fn member_with(
    name: &str,
    packing: u64,
    unpacked: usize,
    packed: &[u8],
    flags: u8,
    records: &[u8],
) -> Vec<u8> {
    let mut f = vec![2u8, 2 | flags];
    if !records.is_empty() {
        f[1] |= 1;
        f.extend_from_slice(&vint(records.len() as u64));
    }
    f.extend_from_slice(&vint(packed.len() as u64));
    f.push(4);
    f.extend_from_slice(&vint(unpacked as u64));
    f.push(0x20);
    f.extend_from_slice(&[0u8; 4]);
    f.extend_from_slice(&vint(packing));
    f.push(1);
    f.extend_from_slice(&vint(name.len() as u64));
    f.extend_from_slice(name.as_bytes());
    f.extend_from_slice(records);
    let mut out = header(&f);
    out.extend_from_slice(packed);
    out
}

fn archive(members: &[Vec<u8>]) -> Vec<u8> {
    let mut out = b"Rar!\x1a\x07\x01\x00".to_vec();
    out.extend_from_slice(&header(&[1, 0, 0]));
    for m in members {
        out.extend_from_slice(m);
    }
    out.extend_from_slice(&header(&[5, 0, 0]));
    out
}

const STORED: u64 = 0;
const PACKED: u64 = 3 << 7;
const SOLID: u64 = 1 << 6;

fn packed(content: &[u8]) -> Vec<u8> {
    block(0, content, true, true)
}

fn hello() -> Vec<u8> {
    b"Hello, RAR5 reader!\n".repeat(50)
}

fn lorem() -> Vec<u8> {
    b"Lorem ipsum dolor sit amet, consectetur adipiscing elit. ".repeat(40)
}

fn read_file(arc: &[u8], path: &str) -> Result<Vec<u8>> {
    let dev = MemoryBackend::from_vec(arc.to_vec());
    let mut fs = RarFs::open(&dev)?;
    fs.read_file(&dev, path)
}

#[test]
fn store_archive_round_trip() {
    let arc = archive(&[
        member("hello.txt", STORED, hello().len(), &hello()),
        member("lorem.txt", STORED, lorem().len(), &lorem()),
    ]);
    assert_eq!(read_file(&arc, "/hello.txt").unwrap(), hello());
    assert_eq!(read_file(&arc, "/lorem.txt").unwrap(), lorem());
    let dev = MemoryBackend::from_vec(arc);
    let fs = RarFs::open(&dev).ok().unwrap();
    let root = fs.fs.list("/").ok().unwrap();
    let names: Vec<_> = root.iter().map(|e| e.name.as_str()).collect();
    assert!(names.contains(&"hello.txt") && names.contains(&"lorem.txt"), "{names:?}");
}

#[test]
fn compressed_archive_round_trip() {
    let arc = archive(&[
        member("hello.txt", PACKED, hello().len(), &packed(&hello())),
        member("lorem.txt", PACKED, lorem().len(), &packed(&lorem())),
    ]);
    assert_eq!(read_file(&arc, "/hello.txt").unwrap(), hello());
    assert_eq!(read_file(&arc, "/lorem.txt").unwrap(), lorem());
}

/// The second member goes on with the tables of the first.
fn solid_two() -> Vec<u8> {
    archive(&[
        member("hello.txt", PACKED, hello().len(), &block(0, &hello(), true, false)),
        member("lorem.txt", PACKED | SOLID, lorem().len(), &block(0, &lorem(), false, true)),
    ])
}

#[test]
fn solid_two_member_round_trip() {
    let arc = solid_two();
    assert_eq!(read_file(&arc, "/hello.txt").unwrap(), hello());
    assert_eq!(read_file(&arc, "/lorem.txt").unwrap(), lorem());
}

const SHARED: &str = "The quick brown fox jumps over the lazy dog while the lazy dog sleeps. ";

fn alpha() -> Vec<u8> {
    format!("{}{}", SHARED.repeat(30), "alpha-unique-padding ".repeat(20)).into_bytes()
}

fn beta() -> Vec<u8> {
    format!("{}{}", "beta intro ".repeat(5), SHARED.repeat(50)).into_bytes()
}

fn gamma() -> Vec<u8> {
    format!("{}{}", "Lorem ipsum dolor sit amet. ".repeat(15), SHARED.repeat(25)).into_bytes()
}

fn big() -> Vec<u8> {
    format!("{}{}", SHARED.repeat(200), "0123456789 ".repeat(500)).into_bytes()
}

fn multi_members() -> [(&'static str, Vec<u8>); 4] {
    [
        ("alpha.txt", alpha()),
        ("beta.txt", beta()),
        ("big.txt", big()),
        ("gamma.txt", gamma()),
    ]
}

fn solid_multi() -> Vec<u8> {
    let m: Vec<Vec<u8>> = multi_members()
        .iter()
        .enumerate()
        .map(|(i, (name, c))| {
            let packing = if i == 0 { PACKED } else { PACKED | SOLID };
            member(name, packing, c.len(), &block(0, c, i == 0, i == 3))
        })
        .collect();
    archive(&m)
}

#[test]
fn solid_multi_member_round_trip() {
    let arc = solid_multi();
    for (name, want) in multi_members() {
        assert_eq!(read_file(&arc, &format!("/{name}")).unwrap(), want, "mismatch for {name}");
    }
}

#[test]
fn solid_group_decoded_once_in_order() {
    let dev = MemoryBackend::from_vec(solid_multi());
    let mut fs = RarFs::open(&dev).ok().unwrap();
    for (name, want) in multi_members() {
        let out = fs.read_file(&dev, &format!("/{name}")).unwrap();
        assert_eq!(out, want, "mismatch for {name}");
    }
    assert_eq!(fs.rebuilds, 1, "group should decode exactly once in order");
    let live = fs.live.as_ref().unwrap();
    assert_eq!(live.out_pos, fs.groups[live.group].total);
    let out = fs.read_file(&dev, "/alpha.txt").unwrap();
    assert_eq!(out, alpha());
    assert_eq!(fs.rebuilds, 2, "backward seek should rebuild once");
}

/// The second member starts with a match: nine bytes that go on the last four of
/// the first member.
#[test]
fn solid_member_looks_back_into_the_one_before() {
    let arc = archive(&[
        member("a", PACKED, 8, &block(0, b"....abcd", true, false)),
        member("b", PACKED | SOLID, 12, &block(1, b"xyz", false, true)),
    ]);
    assert_eq!(read_file(&arc, "/b").unwrap(), b"abcdabcdaxyz");
    assert_eq!(read_file(&arc, "/a").unwrap(), b"....abcd");
}

#[test]
fn stored_member_in_a_solid_group_is_refused() {
    let arc = archive(&[
        member("a", PACKED, 3, &block(0, b"abc", true, false)),
        member("b", STORED | SOLID, 3, b"def"),
    ]);
    assert_eq!(read_file(&arc, "/a"), Err(Error::Unsupported));
    assert_eq!(read_file(&arc, "/b"), Err(Error::Unsupported));
}

/// The second record says that the data is encrypted; another kind does not.
#[test]
fn encrypted_members_are_refused() {
    let records = [3u8, 3, 0, 0, 4, 1, 0, 0, 15];
    let arc = archive(&[
        member_with("secret", STORED, 3, b"abc", 0, &records),
        member_with("timed", STORED, 3, b"def", 0, &records[..4]),
    ]);
    assert_eq!(read_file(&arc, "/secret"), Err(Error::Unsupported));
    assert_eq!(read_file(&arc, "/timed").unwrap(), b"def");
    let arc = archive(&[
        member("a", PACKED, 3, &block(0, b"abc", true, false)),
        member_with("b", PACKED | SOLID, 3, &block(0, b"def", false, true), 0, &records),
    ]);
    assert_eq!(read_file(&arc, "/a"), Err(Error::Unsupported));
    assert_eq!(read_file(&arc, "/b"), Err(Error::Unsupported));
    let mut arc = b"Rar!\x1a\x07\x01\x00".to_vec();
    arc.extend_from_slice(&header(&[4, 0, 0, 0, 15]));
    assert_eq!(read_file(&arc, "/a"), Err(Error::Unsupported));
}

#[test]
fn members_in_several_volumes_are_refused() {
    for flag in [8u8, 16] {
        let arc = archive(&[
            member_with("part", STORED, 3, b"abc", flag, &[]),
            member("whole", STORED, 3, b"def"),
        ]);
        assert_eq!(read_file(&arc, "/part"), Err(Error::Unsupported));
        assert_eq!(read_file(&arc, "/whole").unwrap(), b"def");
    }
    let mut arc = b"Rar!\x1a\x07\x01\x00".to_vec();
    arc.extend_from_slice(&header(&[1, 0, 1]));
    arc.extend_from_slice(&member("whole", STORED, 3, b"def"));
    assert_eq!(read_file(&arc, "/whole"), Err(Error::Unsupported));
}

/// A group that holds less than its members say: what is there is read, and the
/// rest is an error.
#[test]
fn short_solid_groups() {
    let arc = archive(&[
        member("a", PACKED, 3, &block(0, b"abc", true, false)),
        member("b", PACKED | SOLID, 9, &block(0, b"def", false, true)),
        member("c", PACKED | SOLID, 2, b""),
    ]);
    assert_eq!(read_file(&arc, "/a").unwrap(), b"abc");
    assert_eq!(read_file(&arc, "/b"), Err(Error::InvalidImage));
    assert_eq!(read_file(&arc, "/c"), Err(Error::InvalidImage));
}

/// A reader of part of a member, and a jump over more than one chunk.
#[test]
fn solid_cursor_is_skipped_and_read_in_pieces() {
    let long: Vec<u8> = (0..0x3_0000u32).map(|i| (i % 251) as u8).collect();
    let arc = archive(&[
        member("a", PACKED, long.len(), &block(0, &long, true, false)),
        member("b", PACKED | SOLID, 6, &block(0, b"abcdef", false, true)),
    ]);
    let dev = MemoryBackend::from_vec(arc);
    let fs = RarFs::open(&dev).ok().unwrap();
    let g = &fs.groups[0];
    let mut l = LiveSolid::new(0, g.window, g.total);
    skip_to(&mut l, g, &dev, g.starts[1]).unwrap();
    assert_eq!(l.out_pos, long.len() as u64);
    let mut r = SolidReader { remaining: 6 };
    assert_eq!(r.read(&mut l, g, &dev, 2).unwrap(), b"ab");
    assert_eq!(r.read_to_end(&mut l, g, &dev).unwrap(), b"cdef");
    assert_eq!(r.remaining, 0);
    let mut l = LiveSolid::new(0, g.window, g.total);
    let mut r = SolidReader { remaining: long.len() as u64 };
    assert_eq!(r.read_to_end(&mut l, g, &dev).unwrap(), long);
    assert_eq!(skip_to(&mut l, g, &dev, g.total + 1), Err(Error::InvalidImage));
}

#[test]
fn damaged_streams_are_refused() {
    let mut p = packed(&hello());
    p[1] ^= 1;
    let arc = archive(&[member("hello.txt", PACKED, hello().len(), &p)]);
    assert_eq!(read_file(&arc, "/hello.txt"), Err(Error::InvalidImage));
    let mut q = block(0, b"abc", true, false);
    q[1] ^= 1;
    let arc = archive(&[
        member("a", PACKED, 3, &q),
        member("b", PACKED | SOLID, 3, &block(0, b"def", false, true)),
    ]);
    assert_eq!(read_file(&arc, "/a"), Err(Error::InvalidImage));
    assert_eq!(read_file(&arc, "/b"), Err(Error::InvalidImage));
}

/// A distance of more than 32 bits.
#[test]
fn wide_distances_are_refused() {
    let mut b = two_codes(262);
    b.put(0, 1);
    b.put(1, 1);
    b.put(0, 1);
    b.put(0x3ff_ffff, 26);
    b.put(0, 1);
    b.put(0, 1);
    let packed = framed(b, true, true);
    let lone = archive(&[member("f", PACKED, 4, &packed)]);
    assert_eq!(read_file(&lone, "/f"), Err(Error::InvalidImage));
    let group = archive(&[member("f", PACKED, 2, &packed), member("g", PACKED | SOLID, 2, &[])]);
    assert_eq!(read_file(&group, "/f"), Err(Error::InvalidImage));
    assert_eq!(read_file(&group, "/g"), Err(Error::InvalidImage));
}

/// A stream of four literals under a filter.
fn filtered(kind: u32) -> Vec<u8> {
    let mut b = two_codes(256);
    b.put(1, 1);
    b.put(0, 2);
    b.put(0, 8);
    b.put(0, 2);
    b.put(4, 8);
    b.put(kind, 3);
    for _ in 0..4 {
        b.put(0, 1);
    }
    framed(b, true, true)
}

#[test]
fn filters_that_are_not_known_are_unsupported() {
    let plain = |kind: u32| read_file(&archive(&[member("f", PACKED, 4, &filtered(kind))]), "/f");
    assert_eq!(plain(1).unwrap(), b"AAAA");
    for kind in [3, 4, 7] {
        assert_eq!(plain(kind), Err(Error::Unsupported));
        let group =
            archive(&[member("f", PACKED, 2, &filtered(kind)), member("g", PACKED | SOLID, 2, &[])]);
        assert_eq!(read_file(&group, "/f"), Err(Error::Unsupported));
        assert_eq!(read_file(&group, "/g"), Err(Error::Unsupported));
    }
}

#[test]
fn other_versions_are_recognised_only() {
    let dev = MemoryBackend::from_vec(b"Rar!\x1a\x07\x00\x00".to_vec());
    let mut fs = RarFs::open(&dev).ok().unwrap();
    assert_eq!(fs.read_file(&dev, "/x"), Err(Error::Unsupported));
    let dev = MemoryBackend::from_vec(b"Rar!".to_vec());
    assert_eq!(RarFs::open(&dev).err(), Some(Error::OutOfBounds));
    assert_eq!(RarFs::format(&dev).err(), Some(Error::Unsupported));
}
