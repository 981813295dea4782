//! Archive formats.

use fstool::archive::arc::ArcFs;
use fstool::archive::ar::emit::ArWriter;
use fstool::archive::cab::CabFs;
use fstool::archive::cpio::scan::scan as scan_cpio;
use fstool::archive::cpio::{CpioFormatOpts, CpioFs};
use fstool::archive::dos::dos_to_unix;
use fstool::archive::fs::read_located;
use fstool::archive::lha::LhaFs;
use fstool::archive::lzx::LzxFs;
use fstool::archive::mem::{mem_handle, skip_exact, LimitReader};
use fstool::archive::{ArchiveEntry, ArchiveFs, ArchiveIndex, DataLocator, Method};
use fstool::block::MemoryBackend;
use fstool::entry::{DeviceKind, EntryKind, FileMeta, MutationCapability, SeekFrom};
use fstool::error::{Error, Result};
use fstool::options::OptionMap;

fn loc(len: u64) -> DataLocator {
    DataLocator { offset: 0, compressed_len: len, uncompressed_len: len, method: Method::Stored }
}

#[test]
fn listings_show_what_lies_directly_below_in_order() {
    let mut idx = ArchiveIndex::new("test");
    idx.push(ArchiveEntry::regular("b/x/1".to_string(), loc(1)));
    idx.push(ArchiveEntry::regular("a".to_string(), loc(2)));
    idx.push(ArchiveEntry::dir("c/d".to_string()));
    idx.push(ArchiveEntry::regular("b/y".to_string(), loc(3)));
    idx.push(ArchiveEntry::regular("b/x/2".to_string(), loc(4)));
    let names = |p: &str| -> Vec<String> {
        idx.list(p).ok().unwrap().into_iter().map(|e| e.name).collect()
    };
    assert_eq!(names("/"), ["b", "a", "c"]);
    assert_eq!(names("/b"), ["x", "y"]);
    assert_eq!(names("b/x/"), ["1", "2"]);
    assert!(names("/c/d").is_empty());
    for p in ["/a", "/b/y", "/none", "/b/x/1/2"] {
        assert_eq!(idx.list(p).err(), Some(Error::InvalidArgument));
    }
}

#[test]
fn synthesises_intermediate_dirs() {
    let mut idx = ArchiveIndex::new("test");
    idx.push(ArchiveEntry::regular("a/b/c.txt".to_string(), loc(10)));
    let root = idx.list("/").ok().unwrap();
    assert_eq!(root.len(), 1);
    assert_eq!(root[0].name, "a");
    assert_eq!(root[0].kind, EntryKind::Dir);
    let a = idx.list("/a").ok().unwrap();
    assert_eq!(a.len(), 1);
    assert_eq!(a[0].name, "b");
    let b = idx.list("/a/b").ok().unwrap();
    assert_eq!(b.len(), 1);
    assert_eq!(b[0].name, "c.txt");
    assert_eq!(b[0].kind, EntryKind::Regular);
    assert_eq!(b[0].size, 10);
}

#[test]
fn last_write_wins_on_duplicate_path() {
    let mut idx = ArchiveIndex::new("test");
    idx.push(ArchiveEntry::regular("dup".to_string(), loc(1)));
    idx.push(ArchiveEntry::regular("dup".to_string(), loc(99)));
    assert_eq!(idx.lookup("/dup").unwrap().logical_size(), 99);
    assert_eq!(idx.list("/").ok().unwrap().len(), 1);
}

#[test]
fn explicit_dir_record_merges_with_synthesised() {
    let mut idx = ArchiveIndex::new("test");
    idx.push(ArchiveEntry::regular("d/f".to_string(), loc(1)));
    idx.push(ArchiveEntry::dir("d".to_string()));
    let root = idx.list("/").ok().unwrap();
    assert_eq!(root.len(), 1);
    assert_eq!(root[0].kind, EntryKind::Dir);
    assert_eq!(idx.list("/d").ok().unwrap()[0].name, "f");
}

#[test]
fn listing_what_is_no_directory_fails() {
    let mut idx = ArchiveIndex::new("test");
    idx.push(ArchiveEntry::regular("f".to_string(), loc(1)));
    assert_eq!(idx.list("/f").err(), Some(Error::InvalidArgument));
    assert_eq!(idx.list("/none").err(), Some(Error::InvalidArgument));
}

// ---- cpio ----

const NEWC_HEADER_LEN: u64 = 110;

fn newc_fields(fields: &[(usize, u32)]) -> Vec<u8> {
    let mut h = Vec::new();
    h.extend_from_slice(b"070701");
    for i in 0..13 {
        let v = fields.iter().find(|f| f.0 == i).map(|f| f.1).unwrap_or(0);
        h.extend_from_slice(format!("{v:08X}").as_bytes());
    }
    assert_eq!(h.len(), NEWC_HEADER_LEN as usize);
    h
}

fn newc_header(namesize: u32, filesize: u32) -> Vec<u8> {
    newc_fields(&[(6, filesize), (10, namesize)])
}

#[test]
fn name_and_contents_must_lie_on_the_device() {
    let mut dev = MemoryBackend::new(4096);
    dev.write_at(0, &newc_fields(&[(11, 0xFFFF_FFFF)])).unwrap();
    assert_eq!(scan_cpio(&dev).err(), Some(Error::InvalidImage));
    dev.write_at(0, &newc_fields(&[(6, 0xFFFF_FFF0), (11, 2)])).unwrap();
    dev.write_at(NEWC_HEADER_LEN, b"a\0").unwrap();
    assert_eq!(scan_cpio(&dev).err(), Some(Error::InvalidImage));
}

#[test]
fn rejects_oversized_namesize() {
    let hdr = newc_header(0xFFFF_FFFF, 0);
    let mut dev = MemoryBackend::new(4096);
    dev.write_at(0, &hdr).unwrap();
    assert_eq!(scan_cpio(&dev).err(), Some(Error::InvalidImage));
}

#[test]
fn rejects_filesize_past_end() {
    let hdr = newc_header(2, 0xFFFF_FFF0);
    let mut dev = MemoryBackend::new(4096);
    dev.write_at(0, &hdr).unwrap();
    dev.write_at(NEWC_HEADER_LEN, b"a\0").unwrap();
    assert_eq!(scan_cpio(&dev).err(), Some(Error::InvalidImage));
}

#[test]
fn cpio_reads_back_what_it_writes() {
    let mut dev = MemoryBackend::new(8192);
    let mut opts = CpioFormatOpts;
    let mut bag = OptionMap::new();
    opts.apply_options(&mut bag).unwrap();
    let mut a = CpioFs::format(&opts).ok().unwrap().0;
    assert!(a.streams_immediately());
    a.create_dir(&mut dev, "/d", FileMeta::with_mode(0o755)).unwrap();
    a.create_file(&mut dev, "/d/f", b"some bytes", FileMeta::with_mode(0o640)).unwrap();
    a.create_symlink(&mut dev, "/l", "d/f", FileMeta::with_mode(0o777)).unwrap();
    a.create_device(&mut dev, "/null", DeviceKind::Char, 1, 3, FileMeta::with_mode(0o666)).unwrap();
    a.flush(&mut dev).unwrap();
    let n = a.image_len().unwrap();
    let dev = MemoryBackend::from_vec(dev.read_at(0, n as usize).unwrap());
    let b = CpioFs::open(&dev).ok().unwrap().0;
    assert_eq!(b.read_file(&dev, "/d/f").unwrap(), b"some bytes");
    assert_eq!(b.read_symlink("/l").unwrap(), "d/f");
    let names: Vec<String> = b.list("/").ok().unwrap().into_iter().map(|e| e.name).collect();
    assert_eq!(names, vec!["d", "l", "null"]);
    let at = b.getattr("/d/f").ok().unwrap();
    assert_eq!((at.mode, at.size, at.kind), (0o640, 10, EntryKind::Regular));
    assert_eq!(b.getattr("/null").ok().unwrap().kind, EntryKind::Char);
    assert_eq!(b.mutation_capability(), MutationCapability::Streaming);
}

#[test]
fn archives_that_are_open_for_reading_refuse_changes() {
    let dev = MemoryBackend::from_vec(Vec::new());
    let mut b = ArcFs::open(&dev).ok().unwrap().fs;
    let mut dev = dev;
    let r = b.create_file(&mut dev, "/x", b"", FileMeta::with_mode(0o644));
    assert_eq!(r, Err(Error::Streaming));
    assert_eq!(b.remove("/x"), Err(Error::Streaming));
    assert_eq!(ArcFs::format(&dev).err(), Some(Error::Unsupported));
    assert_eq!(LhaFs::format(&dev).err(), Some(Error::Unsupported));
    assert_eq!(LzxFs::format(&dev).err(), Some(Error::Unsupported));
    assert_eq!(CabFs::format(&dev).err(), Some(Error::Unsupported));
}

// ---- ar ----

#[test]
fn ar_reads_back_what_it_writes() {
    let mut dev = MemoryBackend::new(4096);
    let mut a = ArchiveFs::writer("ar", ArWriter::new());
    a.create_file(&mut dev, "/short.o", b"abc", FileMeta::with_mode(0o644)).unwrap();
    let long = "/a_name_that_is_longer_than_its_field.o";
    a.create_file(&mut dev, long, b"defg", FileMeta::with_mode(0o600)).unwrap();
    a.flush(&mut dev).unwrap();
    let n = a.image_len().unwrap();
    let dev = MemoryBackend::from_vec(dev.read_at(0, n as usize).unwrap());
    let ix = fstool::archive::ar::scan::scan(&dev).ok().unwrap();
    let b: ArchiveFs<ArWriter> = ArchiveFs::from_index(ix);
    assert_eq!(b.read_file(&dev, "/short.o").unwrap(), b"abc");
    assert_eq!(b.read_file(&dev, long).unwrap(), b"defg");
    assert_eq!(b.getattr(long).ok().unwrap().mode, 0o600);
}

#[test]
fn ar_has_no_links() {
    let mut dev = MemoryBackend::new(4096);
    let mut a = ArchiveFs::writer("ar", ArWriter::new());
    let r = a.create_symlink(&mut dev, "/l", "x", FileMeta::with_mode(0o777));
    assert_eq!(r, Err(Error::Unsupported));
}

// ---- ARC ----

fn arc_member(method: u8, name: &str, body: &[u8], size: u32) -> Vec<u8> {
    let mut h = vec![0x1a, method];
    let mut field = [0u8; 13];
    field[..name.len()].copy_from_slice(name.as_bytes());
    h.extend_from_slice(&field);
    h.extend_from_slice(&(body.len() as u32).to_le_bytes());
    h.extend_from_slice(&[0u8; 6]);
    if method != 1 {
        h.extend_from_slice(&size.to_le_bytes());
    }
    h.extend_from_slice(body);
    h
}

fn read_arc(arc: &[u8], path: &str) -> Result<Vec<u8>> {
    let dev = MemoryBackend::from_vec(arc.to_vec());
    ArcFs::open(&dev)?.read_file(&dev, path)
}

#[test]
fn store_round_trip_and_crunch_unsupported() {
    let hello = b"Hello, ARC reader!\n".repeat(3);
    let lorem = b"Lorem ipsum dolor sit amet. ".repeat(40);
    let mut arc = arc_member(2, "hello.txt", &hello, hello.len() as u32);
    arc.extend_from_slice(&arc_member(2, "lorem.txt", &lorem, lorem.len() as u32));
    arc.extend_from_slice(&arc_member(8, "crunch.bin", b"\x0c\x00\x01", 100));
    arc.extend_from_slice(&[0x1a, 0]);
    assert_eq!(read_arc(&arc, "/hello.txt").unwrap(), b"Hello, ARC reader!\n".repeat(3));
    assert_eq!(read_arc(&arc, "/lorem.txt").unwrap(), b"Lorem ipsum dolor sit amet. ".repeat(40));
    let dev = MemoryBackend::from_vec(arc.clone());
    let n: Vec<String> = ArcFs::open(&dev)
        .ok()
        .unwrap()
        .fs
        .list("/")
        .ok()
        .unwrap()
        .into_iter()
        .map(|e| e.name)
        .collect();
    assert!(
        ["hello.txt", "lorem.txt", "crunch.bin"].iter().all(|x| n.iter().any(|y| y == x)),
        "{n:?}"
    );
    let err = read_arc(&arc, "/crunch.bin").unwrap_err();
    assert!(matches!(err, Error::Unsupported), "expected Unsupported, got {err:?}");
}

#[test]
fn method1_old_store() {
    let mut arc = arc_member(1, "old.txt", b"old-style ARC stored entry\n", 0);
    arc.extend_from_slice(&[0x1a, 0]);
    assert_eq!(read_arc(&arc, "/old.txt").unwrap(), b"old-style ARC stored entry\n");
}

// ---- LHA ----

fn lha_member(level: u8, tag: &str, name: &str, body: &[u8]) -> Vec<u8> {
    lha_member_with(level, tag, name, body, &[0, 0x12, 0x34])
}

fn lha_member_with(level: u8, tag: &str, name: &str, body: &[u8], ext: &[u8]) -> Vec<u8> {
    let mut h = Vec::new();
    let method = format!("-{tag}-");
    if level == 2 {
        let size = 26 + 3 + name.len() + 2;
        h.extend_from_slice(&(size as u16).to_le_bytes());
        h.extend_from_slice(method.as_bytes());
        h.extend_from_slice(&(body.len() as u32).to_le_bytes());
        h.extend_from_slice(&(body.len() as u32).to_le_bytes());
        h.extend_from_slice(&[0u8; 4]);
        h.push(0x20);
        h.push(2);
        h.extend_from_slice(&[0u8; 3]);
        h.extend_from_slice(&((3 + name.len()) as u16).to_le_bytes());
        h.push(1);
        h.extend_from_slice(name.as_bytes());
        h.extend_from_slice(&0u16.to_le_bytes());
        h.extend_from_slice(&[0u8; 2]);
    } else {
        // A level 1 header has extended headers behind it.
        let ext: Vec<u8> = if level == 1 {
            let mut e = ext.to_vec();
            e.extend_from_slice(&0u16.to_le_bytes());
            e
        } else {
            Vec::new()
        };
        h.push(0);
        h.push(0);
        h.extend_from_slice(method.as_bytes());
        h.extend_from_slice(&((body.len() + ext.len()) as u32).to_le_bytes());
        h.extend_from_slice(&(body.len() as u32).to_le_bytes());
        h.extend_from_slice(&[0u8; 4]);
        h.push(0x20);
        h.push(level);
        h.push(name.len() as u8);
        h.extend_from_slice(name.as_bytes());
        h.extend_from_slice(&[0u8; 2]);
        if level == 1 {
            h.push(b'U');
            h.extend_from_slice(&(ext.len() as u16).to_le_bytes());
        }
        h[0] = (h.len() - 2) as u8;
        h.extend_from_slice(&ext);
    }
    h.extend_from_slice(body);
    h
}

fn lha_hello() -> Vec<u8> {
    b"Hello, LHA reader!\n".repeat(3)
}

fn lha_lorem() -> Vec<u8> {
    b"Lorem ipsum dolor sit amet. ".repeat(40)
}

fn lha(level: u8, tag: &str) -> Vec<u8> {
    let mut a = lha_member(level, tag, "hello.txt", &lha_hello());
    a.extend_from_slice(&lha_member(level, tag, "lorem.txt", &lha_lorem()));
    a.push(0);
    a.extend_from_slice(&[0u8; 24]);
    a
}

fn read_lha(a: &[u8], path: &str) -> Result<Vec<u8>> {
    let dev = MemoryBackend::from_vec(a.to_vec());
    LhaFs::open(&dev)?.read_file(&dev, path)
}

fn lha_names(a: &[u8], path: &str) -> Vec<String> {
    let dev = MemoryBackend::from_vec(a.to_vec());
    let fs = LhaFs::open(&dev).ok().unwrap();
    fs.fs.list(path).ok().unwrap().into_iter().map(|e| e.name).collect()
}

#[test]
fn store_levels_0_1_2_round_trip() {
    for level in [0u8, 1, 2] {
        let a = lha(level, "lh0");
        assert_eq!(read_lha(&a, "/hello.txt").unwrap(), lha_hello());
        assert_eq!(read_lha(&a, "/lorem.txt").unwrap(), lha_lorem());
        let n = lha_names(&a, "/");
        assert!(
            n.iter().any(|x| x == "hello.txt") && n.iter().any(|x| x == "lorem.txt"),
            "{n:?}"
        );
    }
}

#[test]
fn directory_in_an_extended_header() {
    let mut a = lha_member_with(1, "lh0", "hello.txt", &lha_hello(), b"\x02sub\xff");
    a.push(0);
    a.extend_from_slice(&[0u8; 24]);
    assert_eq!(read_lha(&a, "/sub/hello.txt").unwrap(), lha_hello());
    assert_eq!(lha_names(&a, "/"), ["sub"]);
    assert_eq!(lha_names(&a, "/sub"), ["hello.txt"]);
}

#[test]
fn lh5_parses_but_read_is_unsupported() {
    let a = lha(2, "lh5");
    let n = lha_names(&a, "/");
    assert!(
        n.iter().any(|x| x == "hello.txt") && n.iter().any(|x| x == "lorem.txt"),
        "{n:?}"
    );
    let err = read_lha(&a, "/hello.txt").unwrap_err();
    assert!(matches!(err, Error::Unsupported), "expected Unsupported, got {err:?}");
}

#[test]
fn lha_directories_are_listed_and_bad_chains_refused() {
    let mut a = lha_member(0, "lhd", "dir\\", b"");
    a.extend_from_slice(&[0u8; 24]);
    assert_eq!(lha_names(&a, "/"), vec!["dir"]);
    let mut b = lha_member(2, "lh0", "x", b"abc");
    b[24] = 2;
    assert_eq!(read_lha(&b, "/x"), Err(Error::InvalidImage));
}

// ---- Amiga LZX ----

fn lzx_entry(name: &str, unpack: usize, pack: usize, mode: u8) -> Vec<u8> {
    let mut h = vec![0u8; 31];
    h[2..6].copy_from_slice(&(unpack as u32).to_le_bytes());
    h[6..10].copy_from_slice(&(pack as u32).to_le_bytes());
    h[11] = mode;
    h[30] = name.len() as u8;
    h.extend_from_slice(name.as_bytes());
    h
}

fn read_lzx(a: &[u8], path: &str) -> Result<Vec<u8>> {
    let dev = MemoryBackend::from_vec(a.to_vec());
    LzxFs::open(&dev)?.read_file(&dev, path)
}

#[test]
fn genuine_unlzx_store_fixture() {
    let a = b"first merged store file AAAAAAAA\n".repeat(4);
    let b = b"second merged store file BBBBBBBB\n".repeat(4);
    let mut arc = b"LZX".to_vec();
    arc.extend_from_slice(&[0u8; 7]);
    arc.extend_from_slice(&lzx_entry("a.txt", a.len(), 0, 0));
    arc.extend_from_slice(&lzx_entry("b.txt", b.len(), a.len() + b.len(), 0));
    arc.extend_from_slice(&a);
    arc.extend_from_slice(&b);
    assert_eq!(read_lzx(&arc, "/a.txt").unwrap(), a);
    assert_eq!(read_lzx(&arc, "/b.txt").unwrap(), b);
    let dev = MemoryBackend::from_vec(arc);
    let fs = LzxFs::open(&dev).ok().unwrap();
    let root = fs.fs.list("/").ok().unwrap();
    let names: Vec<_> = root.iter().map(|e| e.name.as_str()).collect();
    assert!(names.contains(&"a.txt") && names.contains(&"b.txt"), "{names:?}");
}

#[test]
fn lzx_mode_round_trip() {
    let data = b"Amiga LZX pack-mode-2 payload, repeated to have some bulk. ".repeat(20);
    let framed = compcol::vec::compress_to_vec::<compcol::amiga_lzx::AmigaLzx>(&data).unwrap();
    let bitstream = &framed[4..];
    let mut arc = b"LZX".to_vec();
    arc.extend_from_slice(&[0u8; 7]);
    arc.extend_from_slice(&lzx_entry("data.bin", data.len(), bitstream.len(), 2));
    arc.extend_from_slice(bitstream);
    assert_eq!(read_lzx(&arc, "/data.bin").unwrap(), data);
}

/// What lies early in a run can be read though the device ends before the run.
#[test]
fn lzx_run_past_the_end_of_the_device() {
    let a: Vec<u8> = (0..3000u32).map(|i| (i * i / 7) as u8).collect();
    let framed = compcol::vec::compress_to_vec::<compcol::amiga_lzx::AmigaLzx>(&a).unwrap();
    let bitstream = &framed[4..];
    let mut arc = b"LZX\0\0\0\0\0\0\0".to_vec();
    arc.extend_from_slice(&lzx_entry("a.bin", 100, 0, 2));
    arc.extend_from_slice(&lzx_entry("b.bin", a.len() - 100, bitstream.len(), 2));
    arc.extend_from_slice(bitstream);
    assert_eq!(read_lzx(&arc, "/a.bin").unwrap(), &a[..100]);
    assert_eq!(read_lzx(&arc, "/b.bin").unwrap(), &a[100..]);
    arc.truncate(arc.len() - 40);
    assert_eq!(read_lzx(&arc, "/a.bin").unwrap(), &a[..100]);
    assert_eq!(read_lzx(&arc, "/b.bin"), Err(Error::OutOfBounds));
}

#[test]
fn lzx_errors() {
    let mut arc = b"LZX".to_vec();
    arc.extend_from_slice(&[0u8; 7]);
    arc.extend_from_slice(&lzx_entry("odd", 3, 3, 7));
    arc.extend_from_slice(b"abc");
    arc.extend_from_slice(&lzx_entry("lost", 3, 0, 0));
    assert_eq!(read_lzx(&arc, "/odd"), Err(Error::Unsupported));
    assert_eq!(read_lzx(&arc, "/lost"), Err(Error::Unsupported));
    assert_eq!(read_lzx(b"LZY0000000", "/x"), Err(Error::InvalidImage));
    assert_eq!(read_lzx(b"LZX", "/x"), Err(Error::OutOfBounds));
}

// ---- cabinets ----

fn build_cab_files(
    type_compress: u16,
    blocks: &[(Vec<u8>, u16)],
    files: &[(&str, u32, u32)],
) -> Vec<u8> {
    let coff_files: u32 = 36 + 8;
    let cffile_size: usize = files.iter().map(|(n, _, _)| 16 + n.len() + 1).sum();
    let coff_cab_start = coff_files as usize + cffile_size;
    let mut out = Vec::new();
    out.extend_from_slice(b"MSCF");
    out.extend_from_slice(&0u32.to_le_bytes());
    out.extend_from_slice(&0u32.to_le_bytes());
    out.extend_from_slice(&0u32.to_le_bytes());
    out.extend_from_slice(&coff_files.to_le_bytes());
    out.extend_from_slice(&0u32.to_le_bytes());
    out.push(3);
    out.push(1);
    out.extend_from_slice(&1u16.to_le_bytes());
    out.extend_from_slice(&(files.len() as u16).to_le_bytes());
    out.extend_from_slice(&0u16.to_le_bytes());
    out.extend_from_slice(&0u16.to_le_bytes());
    out.extend_from_slice(&0u16.to_le_bytes());
    out.extend_from_slice(&(coff_cab_start as u32).to_le_bytes());
    out.extend_from_slice(&(blocks.len() as u16).to_le_bytes());
    out.extend_from_slice(&type_compress.to_le_bytes());
    for (name, cb_file, uoff) in files {
        out.extend_from_slice(&cb_file.to_le_bytes());
        out.extend_from_slice(&uoff.to_le_bytes());
        out.extend_from_slice(&[0u8; 8]);
        out.extend_from_slice(name.as_bytes());
        out.push(0);
    }
    for (payload, cb_uncomp) in blocks {
        out.extend_from_slice(&0u32.to_le_bytes());
        out.extend_from_slice(&(payload.len() as u16).to_le_bytes());
        out.extend_from_slice(&cb_uncomp.to_le_bytes());
        out.extend_from_slice(payload);
    }
    let total = out.len() as u32;
    out[8..12].copy_from_slice(&total.to_le_bytes());
    out
}

fn build_cab(type_compress: u16, blocks: &[(Vec<u8>, u16)], cb_file: u32, name: &str) -> Vec<u8> {
    build_cab_files(type_compress, blocks, &[(name, cb_file, 0)])
}

fn mszip_block(content: &[u8]) -> Vec<u8> {
    let mut p = b"CK".to_vec();
    p.extend_from_slice(
        &compcol::vec::compress_to_vec::<compcol::deflate::Deflate>(content).unwrap(),
    );
    p
}

fn lzx_block(content: &[u8]) -> (Vec<u8>, u16) {
    let framed = compcol::vec::compress_to_vec::<compcol::lzx::Lzx>(content).unwrap();
    let window_bits = framed[0] as u16;
    (framed[5..].to_vec(), (window_bits << 8) | 3)
}

fn read_cab(cab: &[u8], path: &str) -> Result<Vec<u8>> {
    let dev = MemoryBackend::from_vec(cab.to_vec());
    CabFs::open(&dev)?.read_file(&dev, path)
}

#[test]
fn store_round_trip() {
    let content = b"hello cab store method, verbatim bytes!".repeat(4);
    let cab = build_cab(
        0,
        &[(content.clone(), content.len() as u16)],
        content.len() as u32,
        "a.txt",
    );
    assert_eq!(read_cab(&cab, "/a.txt").unwrap(), content);
}

#[test]
fn mszip_single_block_round_trip() {
    let content = b"mszip single block payload; ".repeat(50);
    let block = mszip_block(&content);
    let cab = build_cab(1, &[(block, content.len() as u16)], content.len() as u32, "m.txt");
    assert_eq!(read_cab(&cab, "/m.txt").unwrap(), content);
}

#[test]
fn mszip_multi_block_round_trip() {
    let chunk1 = b"first MSZIP block contents, repeated. ".repeat(30);
    let chunk2 = b"second MSZIP block contents, also repeated. ".repeat(30);
    let mut content = chunk1.clone();
    content.extend_from_slice(&chunk2);
    let blocks = vec![
        (mszip_block(&chunk1), chunk1.len() as u16),
        (mszip_block(&chunk2), chunk2.len() as u16),
    ];
    let cab = build_cab(1, &blocks, content.len() as u32, "m2.txt");
    assert_eq!(read_cab(&cab, "/m2.txt").unwrap(), content);
}

/// The second block is a stream that copies from what the first one held.
#[test]
fn mszip_block_looks_back_into_the_one_before() {
    // A final block with fixed codes: a match of three bytes at distance three,
    // then the end mark. Bits, lowest first: 1, 01; 0000001; 00010; 0000000.
    let second = vec![b'C', b'K', 0x03, 0x22, 0x00];
    let blocks = vec![(mszip_block(b"abc"), 3u16), (second, 3u16)];
    let cab = build_cab(1, &blocks, 6, "m3.txt");
    assert_eq!(read_cab(&cab, "/m3.txt").unwrap(), b"abcabc");
}

#[test]
fn lzx_round_trip() {
    let content = b"LZX compressed cab folder data, repeated to compress well. ".repeat(40);
    let (payload, type_compress) = lzx_block(&content);
    let cab = build_cab(
        type_compress,
        &[(payload, content.len() as u16)],
        content.len() as u32,
        "l.txt",
    );
    assert_eq!(read_cab(&cab, "/l.txt").unwrap(), content);
}

/// The second block of the folder lies past the end of the device: a file in
/// front of what it holds is read all the same.
#[test]
fn lzx_folder_past_the_end_of_the_device() {
    let mut x: u32 = 1;
    let mut content = Vec::new();
    while content.len() < 60_000 {
        x = x.wrapping_mul(1_664_525).wrapping_add(1_013_904_223);
        content.push((x >> 28) as u8);
    }
    let (payload, type_compress) = lzx_block(&content);
    let cut = payload.len() - 64;
    let cab = build_cab_files(
        type_compress,
        &[(payload[..cut].to_vec(), 32_768), (payload[cut..].to_vec(), 27_232)],
        &[("first", 1000, 0), ("last", 1000, 59_000)],
    );
    assert_eq!(read_cab(&cab, "/first").unwrap(), &content[..1000]);
    assert_eq!(read_cab(&cab, "/last").unwrap(), &content[59_000..]);
    let short = &cab[..cab.len() - 10];
    assert_eq!(read_cab(short, "/first").unwrap(), &content[..1000]);
    assert_eq!(read_cab(short, "/last"), Err(Error::OutOfBounds));
}

/// Bits in little-endian words, the highest first.
struct Words {
    bits: Vec<u8>,
}

impl Words {
    fn put(&mut self, value: u32, n: u32) {
        for i in (0..n).rev() {
            self.bits.push(((value >> i) & 1) as u8);
        }
    }

    /// Code lengths of a tree: runs of zeros, each but the last followed by a one.
    fn lengths(&mut self, runs: &[u32]) {
        for i in 0..20u32 {
            self.put(if i == 0 || i >= 16 && i <= 18 { 2 } else { 0 }, 4);
        }
        for (i, &run) in runs.iter().enumerate() {
            let mut left = run;
            while left >= 20 {
                let n = left.min(51);
                self.put(3, 2);
                self.put(n - 20, 5);
                left -= n;
            }
            if left >= 4 {
                self.put(2, 2);
                self.put(left - 4, 4);
                left = 0;
            }
            self.put(0, 2 * left);
            if i + 1 < runs.len() {
                self.put(1, 2);
            }
        }
    }

    fn bytes(mut self) -> Vec<u8> {
        while self.bits.len() % 16 != 0 {
            self.bits.push(0);
        }
        let byte = |b: &[u8]| b.iter().fold(0u8, |a, x| a << 1 | x);
        self.bits.chunks(16).flat_map(|w| [byte(&w[8..]), byte(&w[..8])]).collect()
    }
}

/// A match whose source lies across the end of the window.
#[test]
fn lzx_match_across_the_window() {
    let mut w = Words { bits: Vec::new() };
    w.put(0, 1);
    w.put(1, 3);
    w.put(7, 24);
    // Literal 65, and matches of four bytes at the farthest slot.
    w.lengths(&[65, 190]);
    w.lengths(&[234, 5]);
    w.lengths(&[249]);
    w.put(1, 1);
    w.put(8191, 13);
    w.put(0, 3);
    let payload = w.bytes();
    let cab = build_cab((15 << 8) | 3, &[(payload, 7)], 7, "w");
    assert_eq!(read_cab(&cab, "/w").unwrap(), [0, 0, 0, 0, 65, 65, 65]);
}

/// Whatever the blocks hold, reading them ends.
#[test]
fn blocks_of_anything_are_read_to_an_end() {
    let mut x: u32 = 7;
    for round in 0..300u16 {
        let mut p = b"CK".to_vec();
        for _ in 0..400 {
            x = x.wrapping_mul(1_664_525).wrapping_add(1_013_904_223);
            p.push((x >> 24) as u8);
        }
        let window = 10 + round % 12;
        for kind in [1, (window << 8) | 2, (15 + round % 7) << 8 | 3] {
            let cab = build_cab(kind, &[(p.clone(), 0x7fff)], 0x7fff, "f");
            match read_cab(&cab, "/f") {
                Ok(b) => assert!(b.len() <= 0x7fff),
                Err(e) => assert_eq!(e, Error::InvalidImage),
            }
        }
    }
}

/// A file that ends with a block is read though the next block is damaged.
#[test]
fn lzx_file_in_front_of_a_damaged_block() {
    let content: Vec<u8> = (0..60_000u32).map(|i| (i % 251) as u8).collect();
    let (mut payload, type_compress) = lzx_block(&content);
    let cut = 16 + 32_768;
    for b in &mut payload[cut..cut + 4] {
        *b = 0xff;
    }
    let cab = build_cab_files(
        type_compress,
        &[(payload[..cut].to_vec(), 32_768), (payload[cut..].to_vec(), 27_232)],
        &[("whole", 32_768, 0), ("part", 32_767, 0), ("next", 1, 32_768)],
    );
    assert_eq!(read_cab(&cab, "/whole").unwrap(), &content[..32_768]);
    assert_eq!(read_cab(&cab, "/part").unwrap(), &content[..32_767]);
    assert_eq!(read_cab(&cab, "/next"), Err(Error::InvalidImage));
}

/// What lies behind the stream of an MSZIP block is left out of account.
#[test]
fn mszip_bytes_behind_the_stream() {
    let content = b"one block, and more behind it; ".repeat(20);
    let mut block = mszip_block(&content);
    block.extend_from_slice(&[0xa5; 40]);
    let cab = build_cab(1, &[(block, content.len() as u16)], content.len() as u32, "m.txt");
    assert_eq!(read_cab(&cab, "/m.txt").unwrap(), content);
}

/// Entries are stored or raw DEFLATE; other methods are refused.
#[test]
fn entries_are_decoded_by_their_method() {
    let content = b"an entry, packed or not; ".repeat(30);
    let packed = compcol::vec::compress_to_vec::<compcol::deflate::Deflate>(&content).unwrap();
    let dev = MemoryBackend::from_vec(packed.clone());
    let at = |method: Method| DataLocator {
        offset: 0,
        compressed_len: packed.len() as u64,
        uncompressed_len: content.len() as u64,
        method,
    };
    assert_eq!(read_located(&dev, &at(Method::Stored)).unwrap(), packed);
    assert_eq!(read_located(&dev, &at(Method::Deflate)).unwrap(), content);
    assert_eq!(read_located(&dev, &at(Method::Codec(1))), Err(Error::Unsupported));
    assert_eq!(read_located(&dev, &at(Method::Unsupported(9))), Err(Error::Unsupported));
    let bad = MemoryBackend::from_vec(vec![0xff; 20]);
    let d = DataLocator { offset: 0, compressed_len: 20, uncompressed_len: 20, method: Method::Deflate };
    assert_eq!(read_located(&bad, &d), Err(Error::InvalidImage));
    let past = DataLocator { offset: 1, ..d };
    assert_eq!(read_located(&bad, &past), Err(Error::OutOfBounds));
}

#[test]
fn second_file_in_folder_skips_to_offset() {
    let a = b"first file contents AAAA".repeat(3);
    let b = b"second file contents BBBB".repeat(3);
    let mut folder = a.clone();
    folder.extend_from_slice(&b);
    let cab = build_cab_files(
        0,
        &[(folder.clone(), folder.len() as u16)],
        &[("a.txt", a.len() as u32, 0), ("b.txt", b.len() as u32, a.len() as u32)],
    );
    assert_eq!(read_cab(&cab, "/a.txt").unwrap(), a);
    assert_eq!(read_cab(&cab, "/b.txt").unwrap(), b);
}

#[test]
fn lists_the_file() {
    let content = b"x".repeat(10);
    let cab = build_cab(0, &[(content.clone(), 10)], 10, "dir\\nested.txt");
    let dev = MemoryBackend::from_vec(cab);
    let fs = CabFs::open(&dev).ok().unwrap();
    let root = fs.fs.list("/").ok().unwrap();
    assert!(root.iter().any(|e| e.name == "dir"));
    let sub = fs.fs.list("/dir").ok().unwrap();
    assert_eq!(sub.len(), 1);
    assert_eq!(sub[0].name, "nested.txt");
    assert_eq!(sub[0].size, 10);
}

#[test]
fn cab_errors() {
    let good = build_cab(0, &[(b"abc".to_vec(), 3)], 3, "a");
    let mut spanned = good.clone();
    spanned[30] = 2;
    assert_eq!(read_cab(&spanned, "/a"), Err(Error::Unsupported));
    let mut other = good.clone();
    other[0] = b'N';
    assert_eq!(read_cab(&other, "/a"), Err(Error::InvalidImage));
    assert_eq!(read_cab(b"MSCF", "/a"), Err(Error::OutOfBounds));
    // A file of a folder that is not there.
    let mut away = good.clone();
    away[44 + 8] = 9;
    assert_eq!(read_cab(&away, "/a"), Err(Error::Unsupported));
    // An offset behind the end of the folder.
    let past = build_cab_files(0, &[(b"abc".to_vec(), 3)], &[("a", 1, 4)]);
    assert_eq!(read_cab(&past, "/a"), Err(Error::InvalidImage));
    // A method without a decoder, and blocks that are no streams of theirs.
    assert_eq!(
        read_cab(&build_cab(4, &[(b"abc".to_vec(), 3)], 3, "a"), "/a"),
        Err(Error::Unsupported)
    );
    assert_eq!(
        read_cab(&build_cab(1, &[(b"abc".to_vec(), 3)], 3, "a"), "/a"),
        Err(Error::InvalidImage)
    );
    assert_eq!(
        read_cab(&build_cab(2, &[(b"abc".to_vec(), 3)], 3, "a"), "/a"),
        Err(Error::InvalidImage)
    );
}

#[test]
fn dos_times() {
    assert_eq!(dos_to_unix((1 << 5) | 1, 0), 315_532_800);
    // 2000-02-29 12:34:56.
    let date = (20 << 9) | (2 << 5) | 29;
    let time = (12 << 11) | (34 << 5) | 28;
    assert_eq!(dos_to_unix(date, time), 951_827_696);
}

#[test]
fn streams_are_skipped_and_capped() {
    assert_eq!(skip_exact(b"abcdef", 2).unwrap(), b"cdef");
    assert_eq!(skip_exact(b"ab", 3), Err(Error::InvalidImage));
    let mut l = LimitReader::new(mem_handle(b"abcdef".to_vec()), 4);
    assert_eq!(l.read(3), b"abc");
    assert_eq!(l.read(3), b"d");
    assert_eq!(l.read(3), b"");
    let mut l = LimitReader::new(mem_handle(b"abcdef".to_vec()), 4);
    assert_eq!(l.read(1), b"a");
    assert_eq!(l.read_to_end(), b"bcd");
    assert_eq!((l.remaining, l.inner.pos), (0, 4));
    let mut h = mem_handle(b"abcdef".to_vec());
    assert_eq!(h.seek(SeekFrom::End(-2)), Ok(4));
    assert_eq!(h.read_to_end(), b"ef");
    assert_eq!(h.seek(SeekFrom::Current(-9)), Err(Error::InvalidArgument));
}
