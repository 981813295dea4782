//! Whole containers: what is written is read back.

use fstool::apfs::fs::ApfsState;
use fstool::apfs::pack::pack_records_into_leaves;
use fstool::apfs::record::{FsRecord, APFS_XATTR_MAX_EMBEDDED_SIZE};
use fstool::apfs::spaceman::{count_used_bits, decode_cib_entries, decode_spaceman};
use fstool::apfs::superblock::NX_MAGIC;
use fstool::apfs::write::{ApfsWriter, CHKMAP_PADDR, NXSB_LIVE_PADDR, SPACEMAN_PADDR};
use fstool::apfs::obj::OBJECT_TYPE_NX_SUPERBLOCK;
use fstool::apfs::{probe, Apfs, ApfsFormatOpts};
use fstool::block::MemoryBackend;
use fstool::entry::{EntryKind, FileMeta, MutationCapability, OpenFlags, SeekFrom, SetAttrs};
use fstool::error::Error;
use fstool::options::OptionMap;
use fstool::path::split_path;

fn read(apfs: &Apfs, dev: &MemoryBackend, path: &str) -> Vec<u8> {
    let mut r = apfs.open_file_reader(dev, path).ok().unwrap();
    r.read_to_end(dev).unwrap()
}

fn names(apfs: &Apfs, dev: &MemoryBackend, path: &str) -> Vec<String> {
    apfs.list_path(dev, path).ok().unwrap().into_iter().map(|e| e.name).collect()
}

fn truncating() -> OpenFlags {
    OpenFlags { create: false, truncate: true, append: false }
}

#[test]
fn probe_blank_device_false() {
    let dev = MemoryBackend::new(8192);
    assert!(!probe(&dev).unwrap());
}

#[test]
fn probe_with_magic() {
    let mut dev = MemoryBackend::new(8192);
    dev.write_at(32, b"NXSB").unwrap();
    assert!(probe(&dev).unwrap());
}

#[test]
fn open_blank_fails() {
    let dev = MemoryBackend::new(64 * 1024);
    assert_eq!(Apfs::open(&dev).err(), Some(Error::InvalidImage));
}

#[test]
fn split_path_basics() {
    assert!(split_path("/").is_empty());
    assert!(split_path("").is_empty());
    assert!(split_path(".").is_empty());
    assert_eq!(split_path("/foo/bar"), vec!["foo", "bar"]);
    assert_eq!(split_path("foo/./bar/"), vec!["foo", "bar"]);
}

#[test]
fn open_with_nxsb_only_errors_cleanly() {
    let mut dev = MemoryBackend::new(64 * 4096);
    let mut buf = vec![0u8; 4096];
    buf[24..28].copy_from_slice(&OBJECT_TYPE_NX_SUPERBLOCK.to_le_bytes());
    buf[32..36].copy_from_slice(&NX_MAGIC.to_le_bytes());
    buf[36..40].copy_from_slice(&4096u32.to_le_bytes());
    buf[40..48].copy_from_slice(&64u64.to_le_bytes());
    buf[104..108].copy_from_slice(&0u32.to_le_bytes());
    buf[112..120].copy_from_slice(&0u64.to_le_bytes());
    buf[160..168].copy_from_slice(&u64::MAX.to_le_bytes());
    buf[180..184].copy_from_slice(&1u32.to_le_bytes());
    buf[184..192].copy_from_slice(&7u64.to_le_bytes());
    dev.write_at(0, &buf).unwrap();
    let e = Apfs::open(&dev).err().unwrap();
    assert!(matches!(e, Error::InvalidImage | Error::OutOfBounds));
}

#[test]
fn list_volumes_blank_fails() {
    let dev = MemoryBackend::new(64 * 1024);
    let e = Apfs::list_volumes(&dev).err().unwrap();
    assert!(matches!(e, Error::InvalidImage));
}

#[test]
fn trait_round_trip_format_create_flush_read() {
    let total_blocks = 128u64;
    let bs = 4096u32;
    let mut dev = MemoryBackend::new(total_blocks * bs as u64);
    let mut apfs = Apfs::format(&dev, total_blocks, bs, "TraitVol").ok().unwrap();
    assert!(matches!(apfs.mutation_capability(), MutationCapability::WholeFileOnly));
    apfs.create_dir(&mut dev, "/sub", FileMeta::with_mode(0o755)).unwrap();
    let payload: Vec<u8> = b"hello via trait".to_vec();
    apfs.create_file(&mut dev, "/sub/hello.txt", &payload, FileMeta::with_mode(0o644)).unwrap();
    apfs.create_file(&mut dev, "/note", b"top-level", FileMeta::with_mode(0o600)).unwrap();
    apfs.flush(&mut dev).unwrap();
    assert!(matches!(apfs.mutation_capability(), MutationCapability::Immutable));

    let root = names(&apfs, &dev, "/");
    assert!(root.iter().any(|n| n == "sub"), "root listing: {root:?}");
    assert!(root.iter().any(|n| n == "note"), "root listing: {root:?}");
    let sub = names(&apfs, &dev, "/sub");
    assert!(sub.iter().any(|n| n == "hello.txt"), "/sub listing: {sub:?}");
    assert_eq!(read(&apfs, &dev, "/sub/hello.txt"), payload);
    assert_eq!(read(&apfs, &dev, "/note"), b"top-level");
}

#[test]
fn open_file_ro_random_seek_round_trip() {
    let total_blocks = 128u64;
    let bs = 4096u32;
    let mut dev = MemoryBackend::new(total_blocks * bs as u64);
    let body: Vec<u8> = (0..4096u32).map(|i| (i & 0xff) as u8).collect();
    let mut apfs = Apfs::format(&dev, total_blocks, bs, "Vol").ok().unwrap();
    apfs.create_file(&mut dev, "/data.bin", &body, FileMeta::with_mode(0o644)).unwrap();
    apfs.flush(&mut dev).unwrap();
    let mut h = apfs.open_file_reader(&dev, "/data.bin").ok().unwrap();
    assert_eq!(h.len(), body.len() as u64);
    h.seek(SeekFrom::Start(1000)).unwrap();
    let chunk = h.read(&dev, 32).unwrap();
    assert_eq!(&chunk[..], &body[1000..1032]);
    let at = h.seek(SeekFrom::End(100)).unwrap();
    assert_eq!(at, body.len() as u64);
    assert_eq!(h.read(&dev, 32).unwrap().len(), 0);
    assert_eq!(h.seek(SeekFrom::Current(-5000)), Err(Error::InvalidArgument));
}

#[test]
fn open_file_ro_refused_pre_flush() {
    let total_blocks = 64u64;
    let bs = 4096u32;
    let dev = MemoryBackend::new(total_blocks * bs as u64);
    let apfs = Apfs::format(&dev, total_blocks, bs, "Vol").ok().unwrap();
    let err = apfs.open_file_reader(&dev, "/x").err().unwrap();
    assert!(matches!(err, Error::Unsupported));
}

#[test]
fn trait_create_after_flush_is_unsupported() {
    let total_blocks = 64u64;
    let bs = 4096u32;
    let mut dev = MemoryBackend::new(total_blocks * bs as u64);
    let mut apfs = Apfs::format(&dev, total_blocks, bs, "Vol").ok().unwrap();
    apfs.flush(&mut dev).unwrap();
    let e = apfs
        .create_file(&mut dev, "/late", &[], FileMeta::with_mode(0o644))
        .unwrap_err();
    assert!(matches!(e, Error::Unsupported));
}

#[test]
fn trait_create_file_requires_existing_parent() {
    let total_blocks = 64u64;
    let bs = 4096u32;
    let mut dev = MemoryBackend::new(total_blocks * bs as u64);
    let mut apfs = Apfs::format(&dev, total_blocks, bs, "Vol").ok().unwrap();
    let e = apfs
        .create_file(&mut dev, "/nope/file", &[], FileMeta::with_mode(0o644))
        .unwrap_err();
    assert!(matches!(e, Error::InvalidArgument));
}

#[test]
fn read_before_flush_is_unsupported() {
    let total_blocks = 64u64;
    let bs = 4096u32;
    let dev = MemoryBackend::new(total_blocks * bs as u64);
    let apfs = Apfs::format(&dev, total_blocks, bs, "Vol").ok().unwrap();
    let e = apfs.list_path(&dev, "/").err().unwrap();
    assert!(matches!(e, Error::Unsupported));
}

fn formatted(files: &[(&str, &[u8])]) -> MemoryBackend {
    let total_blocks = 256u64;
    let bs = 4096u32;
    let mut dev = MemoryBackend::new(total_blocks * bs as u64);
    let mut apfs = Apfs::format(&dev, total_blocks, bs, "Vol").ok().unwrap();
    for (p, b) in files {
        apfs.create_file(&mut dev, p, b, FileMeta::with_mode(0o644)).unwrap();
    }
    apfs.flush(&mut dev).unwrap();
    dev
}

#[test]
fn open_writable_round_trip_basic() {
    let dev = formatted(&[("/note.txt", b"hello")]);
    let apfs = Apfs::open_writable(&dev).ok().unwrap();
    assert!(matches!(apfs.state, ApfsState::Write(_)));
    assert!(matches!(apfs.mutation_capability(), MutationCapability::Mutable));
}

fn overwrite(dev: &mut MemoryBackend, path: &str, data: &[u8]) {
    let mut apfs = Apfs::open_writable(dev).ok().unwrap();
    let mut h = apfs.open_file_rw(dev, path, truncating()).ok().unwrap();
    h.write(data).unwrap();
    h.sync(&mut apfs, dev).unwrap();
}

#[test]
fn rw_round_trip_overwrite_existing_file() {
    let mut dev = formatted(&[("/note.txt", b"original-payload")]);
    overwrite(&mut dev, "/note.txt", b"REWRITTEN-PAYLOAD-DATA");
    let apfs = Apfs::open(&dev).ok().unwrap();
    assert_eq!(read(&apfs, &dev, "/note.txt"), b"REWRITTEN-PAYLOAD-DATA");
}

#[test]
fn rw_round_trip_two_consecutive_sessions() {
    let mut dev = formatted(&[("/log", b"v0")]);
    overwrite(&mut dev, "/log", b"v1-after-first-commit");
    overwrite(&mut dev, "/log", b"v2-final-payload-here");
    let apfs = Apfs::open(&dev).ok().unwrap();
    assert_eq!(read(&apfs, &dev, "/log"), b"v2-final-payload-here");
}

#[test]
fn write_then_read_single_small_file() {
    let total_blocks = 64u64;
    let bs = 4096u32;
    let mut dev = MemoryBackend::new(total_blocks * bs as u64);
    let mut w = ApfsWriter::new(&dev, total_blocks, bs, "TestVol").ok().unwrap();
    let data = b"hello apfs world";
    w.add_file_from_reader(&mut dev, 2, "hi.txt", 0o644, data, data.len() as u64).unwrap();
    w.finish(&mut dev).unwrap();
    let apfs = Apfs::open(&dev).ok().expect("opens the new image");
    assert_eq!(apfs.volume_name(), "TestVol");
    let names = names(&apfs, &dev, "/");
    assert!(names.iter().any(|n| n == "hi.txt"), "got names: {names:?}");
    assert_eq!(read(&apfs, &dev, "/hi.txt"), b"hello apfs world");
}

#[test]
fn write_then_read_nested_dir() {
    let total_blocks = 64u64;
    let bs = 4096u32;
    let mut dev = MemoryBackend::new(total_blocks * bs as u64);
    let mut w = ApfsWriter::new(&dev, total_blocks, bs, "Vol").ok().unwrap();
    let dir = w.add_dir(2, "sub", 0o755).unwrap();
    w.add_file_from_reader(&mut dev, dir, "f", 0o644, b"nested", 6).unwrap();
    w.finish(&mut dev).unwrap();
    let apfs = Apfs::open(&dev).ok().unwrap();
    assert!(names(&apfs, &dev, "/").iter().any(|n| n == "sub"));
    assert!(names(&apfs, &dev, "/sub").iter().any(|n| n == "f"));
    assert_eq!(read(&apfs, &dev, "/sub/f"), b"nested");
}

#[test]
fn write_then_read_symlink() {
    let total_blocks = 64u64;
    let bs = 4096u32;
    let mut dev = MemoryBackend::new(total_blocks * bs as u64);
    let mut w = ApfsWriter::new(&dev, total_blocks, bs, "Vol").ok().unwrap();
    w.add_symlink(&mut dev, 2, "link", 0o777, "/dev/null").unwrap();
    w.finish(&mut dev).unwrap();
    let apfs = Apfs::open(&dev).ok().unwrap();
    let entries = apfs.list_path(&dev, "/").ok().unwrap();
    let link = entries.iter().find(|e| e.name == "link").unwrap();
    assert!(matches!(link.kind, EntryKind::Symlink));
}

#[test]
fn list_and_open_single_volume_slot() {
    let total_blocks = 64u64;
    let bs = 4096u32;
    let mut dev = MemoryBackend::new(total_blocks * bs as u64);
    let w = ApfsWriter::new(&dev, total_blocks, bs, "OnlyVol").ok().unwrap();
    w.finish(&mut dev).unwrap();
    let vols = Apfs::list_volumes(&dev).ok().unwrap();
    assert_eq!(vols.len(), 1);
    assert_eq!(vols[0].name, "OnlyVol");
    assert!(!vols[0].encrypted);
    assert_eq!(vols[0].index, 0);
    let apfs = Apfs::open_volume(&dev, 0).ok().unwrap();
    assert_eq!(apfs.volume_name(), "OnlyVol");
    let e = Apfs::open_volume(&dev, 5).err().unwrap();
    assert!(matches!(e, Error::InvalidArgument));
}

#[test]
fn list_snapshots_empty_when_no_tree() {
    let total_blocks = 64u64;
    let bs = 4096u32;
    let mut dev = MemoryBackend::new(total_blocks * bs as u64);
    let w = ApfsWriter::new(&dev, total_blocks, bs, "Vol").ok().unwrap();
    w.finish(&mut dev).unwrap();
    let apfs = Apfs::open(&dev).ok().unwrap();
    let snaps = apfs.list_snapshots(&dev).ok().unwrap();
    assert!(snaps.is_empty());
    let e = apfs.open_snapshot(&dev, 42).err().unwrap();
    assert!(matches!(e, Error::InvalidArgument));
}

#[test]
fn write_then_read_multiblock_file() {
    let total_blocks = 128u64;
    let bs = 4096u32;
    let mut dev = MemoryBackend::new(total_blocks * bs as u64);
    let payload: Vec<u8> = (0..(20 * 1024)).map(|i| (i % 256) as u8).collect();
    let mut w = ApfsWriter::new(&dev, total_blocks, bs, "Vol").ok().unwrap();
    w.add_file_from_reader(&mut dev, 2, "blob", 0o644, &payload, payload.len() as u64).unwrap();
    w.finish(&mut dev).unwrap();
    let apfs = Apfs::open(&dev).ok().unwrap();
    assert_eq!(read(&apfs, &dev, "/blob"), payload);
}

fn xattr(apfs: &Apfs, dev: &MemoryBackend, path: &str, name: &str) -> Option<Vec<u8>> {
    let xs = apfs.read_xattrs(dev, path).ok().unwrap();
    xs.into_iter().find(|x| x.name == name).map(|x| x.value)
}

#[test]
fn write_then_read_embedded_xattrs() {
    let total_blocks = 64u64;
    let bs = 4096u32;
    let mut dev = MemoryBackend::new(total_blocks * bs as u64);
    let mut w = ApfsWriter::new(&dev, total_blocks, bs, "Vol").ok().unwrap();
    w.add_file_from_reader(&mut dev, 2, "f", 0o644, b"x", 1).unwrap();
    w.add_xattr(2, "user.note", b"hello world").unwrap();
    w.add_xattr(2, "user.lang", b"en_US").unwrap();
    w.finish(&mut dev).unwrap();
    let apfs = Apfs::open(&dev).ok().unwrap();
    assert_eq!(xattr(&apfs, &dev, "/", "user.note"), Some(b"hello world".to_vec()));
    assert_eq!(xattr(&apfs, &dev, "/", "user.lang"), Some(b"en_US".to_vec()));
}

#[test]
fn xattr_attached_to_file_path() {
    let total_blocks = 64u64;
    let bs = 4096u32;
    let mut dev = MemoryBackend::new(total_blocks * bs as u64);
    let mut w = ApfsWriter::new(&dev, total_blocks, bs, "Vol").ok().unwrap();
    let oid = w.add_file_from_reader(&mut dev, 2, "doc.txt", 0o644, b"data", 4).unwrap();
    w.add_xattr(oid, "com.apple.lastuseddate#PS", &[1, 2, 3, 4]).unwrap();
    w.finish(&mut dev).unwrap();
    let apfs = Apfs::open(&dev).ok().unwrap();
    assert!(apfs.read_xattrs(&dev, "/").ok().unwrap().is_empty());
    assert_eq!(
        xattr(&apfs, &dev, "/doc.txt", "com.apple.lastuseddate#PS"),
        Some(vec![1u8, 2, 3, 4])
    );
}

#[test]
fn xattr_too_big_unsupported() {
    let total_blocks = 64u64;
    let bs = 4096u32;
    let dev = MemoryBackend::new(total_blocks * bs as u64);
    let mut w = ApfsWriter::new(&dev, total_blocks, bs, "Vol").ok().unwrap();
    let big = vec![0u8; APFS_XATTR_MAX_EMBEDDED_SIZE + 1];
    let e = w.add_xattr(2, "user.too_big", &big).unwrap_err();
    assert!(matches!(e, Error::Unsupported));
}

#[test]
fn write_then_read_multi_leaf_fs_tree() {
    let total_blocks = 256u64;
    let bs = 4096u32;
    let mut dev = MemoryBackend::new(total_blocks * bs as u64);
    let n_files: usize = 80;
    let payloads: Vec<Vec<u8>> =
        (0..n_files).map(|i| format!("file-{i:03}-payload").into_bytes()).collect();
    let mut w = ApfsWriter::new(&dev, total_blocks, bs, "Vol").ok().unwrap();
    for (i, p) in payloads.iter().enumerate() {
        let name = format!("f{i:03}");
        w.add_file_from_reader(&mut dev, 2, &name, 0o644, p, p.len() as u64).unwrap();
    }
    w.finish(&mut dev).unwrap();
    let apfs = Apfs::open(&dev).ok().unwrap();
    let entries = apfs.list_path(&dev, "/").ok().unwrap();
    assert!(
        entries.len() >= n_files,
        "expected at least {} entries, got {}",
        n_files,
        entries.len()
    );
    for &i in &[0usize, 1, n_files / 2, n_files - 1] {
        let name = format!("/f{i:03}");
        assert_eq!(read(&apfs, &dev, &name), payloads[i], "mismatch for {name}");
    }
}

#[test]
fn pack_records_splits_on_capacity() {
    let r = |k: u8, v_len: usize| FsRecord { key: vec![k; 8], val: vec![0u8; v_len] };
    let recs = vec![r(1, 100), r(2, 100), r(3, 100)];
    let leaves = pack_records_into_leaves(&recs, 116).ok().unwrap();
    assert_eq!(leaves.len(), 3);
    let leaves = pack_records_into_leaves(&recs, 232).ok().unwrap();
    assert_eq!(leaves.len(), 2);
    assert_eq!(leaves[0].len(), 2);
    assert_eq!(leaves[1].len(), 1);
}

fn read_block(dev: &MemoryBackend, paddr: u64, bs: u32) -> Vec<u8> {
    dev.read_at(paddr * bs as u64, bs as usize).unwrap()
}

fn assert_spaceman_consistent(dev: &MemoryBackend, bs: u32, total_blocks: u64) {
    let sm = read_block(dev, SPACEMAN_PADDR, bs);
    let dec = decode_spaceman(&sm).expect("decode spaceman_phys_t");
    assert_eq!(dec.block_size, bs);
    assert_eq!(dec.blocks_per_chunk, bs * 8);
    assert_eq!(dec.main_block_count, total_blocks);
    assert_eq!(dec.main_cab_count, 0);
    assert_eq!(dec.main_cib_count, 1);
    assert_eq!(dec.main_chunk_count, total_blocks.div_ceil((bs * 8) as u64));
    let cib = read_block(dev, dec.cib_paddr, bs);
    let entries = decode_cib_entries(&cib).expect("decode CIB");
    assert_eq!(entries.len() as u64, dec.main_chunk_count);
    let mut free_total: u64 = 0;
    let bpc = bs * 8;
    for (i, e) in entries.iter().enumerate() {
        assert_eq!(e.addr, (i as u64) * bpc as u64, "chunk addr off");
        let expected_blocks =
            ((i as u64 + 1) * bpc as u64).min(total_blocks) - (i as u64) * bpc as u64;
        assert_eq!(e.block_count as u64, expected_blocks, "chunk {} block_count off", i);
        let bmap = read_block(dev, e.bitmap_addr, bs);
        let used = count_used_bits(&bmap, e.block_count);
        let free = e.block_count - used;
        assert_eq!(
            free, e.free_count,
            "chunk {} free_count {} disagrees with bitmap (used={})",
            i, e.free_count, used
        );
        free_total += free as u64;
    }
    assert_eq!(
        free_total, dec.main_free_count,
        "spaceman free_count disagrees with sum of chunk free counts",
    );
}

#[test]
fn spaceman_reflects_bump_allocations() {
    let total_blocks = 64u64;
    let bs = 4096u32;
    let mut dev = MemoryBackend::new(total_blocks * bs as u64);
    let mut w = ApfsWriter::new(&dev, total_blocks, bs, "Vol").ok().unwrap();
    w.add_file_from_reader(&mut dev, 2, "f", 0o644, b"abc", 3).unwrap();
    w.finish(&mut dev).unwrap();
    assert_spaceman_consistent(&dev, bs, total_blocks);
    let sm = read_block(&dev, SPACEMAN_PADDR, bs);
    let dec = decode_spaceman(&sm).unwrap();
    let cib = read_block(&dev, dec.cib_paddr, bs);
    let entries = decode_cib_entries(&cib).unwrap();
    let bmap = read_block(&dev, entries[0].bitmap_addr, bs);
    assert!(bmap[0] & 0x01 != 0, "block 0 (NXSB label) must be used");
    let last_bit = (total_blocks - 1) as usize;
    assert!(
        bmap[last_bit / 8] & (1 << (last_bit % 8)) == 0,
        "last block of container must be free"
    );
}

#[test]
fn spaceman_marks_file_extent_used() {
    let total_blocks = 256u64;
    let bs = 4096u32;
    let mut dev = MemoryBackend::new(total_blocks * bs as u64);
    let payload: Vec<u8> = (0..(20 * 1024)).map(|i| (i % 256) as u8).collect();
    let used_blocks_before = {
        let mut dev1 = MemoryBackend::new(total_blocks * bs as u64);
        let w1 = ApfsWriter::new(&dev1, total_blocks, bs, "V").ok().unwrap();
        w1.finish(&mut dev1).unwrap();
        let sm1 = read_block(&dev1, SPACEMAN_PADDR, bs);
        total_blocks - decode_spaceman(&sm1).unwrap().main_free_count
    };
    let mut w = ApfsWriter::new(&dev, total_blocks, bs, "V").ok().unwrap();
    w.add_file_from_reader(&mut dev, 2, "blob", 0o644, &payload, payload.len() as u64).unwrap();
    w.finish(&mut dev).unwrap();
    assert_spaceman_consistent(&dev, bs, total_blocks);
    let sm = read_block(&dev, SPACEMAN_PADDR, bs);
    let used_blocks_after = total_blocks - decode_spaceman(&sm).unwrap().main_free_count;
    assert!(
        used_blocks_after >= used_blocks_before + 5,
        "expected at least 5 more used blocks after adding 20 KiB file \
         (was {used_blocks_before}, now {used_blocks_after})"
    );
}

#[test]
fn spaceman_populates_ip_sfq_and_datazone() {
    let total_blocks = 128u64;
    let bs = 4096u32;
    let mut dev = MemoryBackend::new(total_blocks * bs as u64);
    let w = ApfsWriter::new(&dev, total_blocks, bs, "Vol").ok().unwrap();
    w.finish(&mut dev).unwrap();
    let sm = read_block(&dev, SPACEMAN_PADDR, bs);
    let dec = decode_spaceman(&sm).expect("decode spaceman_phys_t");
    assert_eq!(dec.flags & 0x1, 0x1, "SM_FLAG_VERSIONED must be set");
    assert_ne!(dec.ip_bm_tx_multiplier, 0, "sm_ip_bm_tx_multiplier must be populated");
    assert_ne!(dec.ip_block_count, 0, "sm_ip_block_count must be non-zero");
    assert_ne!(dec.ip_bm_size_in_blocks, 0, "sm_ip_bm_size_in_blocks must be non-zero");
    assert_ne!(dec.ip_bm_block_count, 0, "sm_ip_bm_block_count must be non-zero");
    assert_ne!(dec.ip_bm_base, 0, "sm_ip_bm_base must be non-zero");
    assert_ne!(dec.ip_base, 0, "sm_ip_base must be non-zero");
    assert!(
        dec.ip_base + dec.ip_block_count <= total_blocks,
        "IP ring (base={}, len={}) extends past container ({} blocks)",
        dec.ip_base,
        dec.ip_block_count,
        total_blocks
    );
    for (i, oid) in dec.sfq_tree_oids.iter().enumerate() {
        assert_ne!(*oid, 0, "sm_fq[{i}].sfq_tree_oid must be non-zero");
    }
    for (i, &paddr) in dec.sfq_tree_oids.iter().enumerate() {
        let node_block = read_block(&dev, paddr, bs);
        let flags = u16::from_le_bytes(node_block[32..34].try_into().unwrap());
        assert_eq!(
            flags & 0x0007,
            0x0007,
            "SFQ[{i}] root must be a fixed-KV leaf root (flags={flags:#x})"
        );
        let nkeys = u32::from_le_bytes(node_block[36..40].try_into().unwrap());
        assert_eq!(nkeys, 0, "SFQ[{i}] root must be empty (nkeys={nkeys})");
        let info_off = bs as usize - 40;
        let bt_key_size =
            u32::from_le_bytes(node_block[info_off + 8..info_off + 12].try_into().unwrap());
        let bt_val_size =
            u32::from_le_bytes(node_block[info_off + 12..info_off + 16].try_into().unwrap());
        assert_eq!(bt_key_size, 16, "SFQ[{i}] bt_key_size must be 16");
        assert_eq!(bt_val_size, 8, "SFQ[{i}] bt_val_size must be 8");
    }
    assert_eq!(dec.datazone_main_zone0_start, 0, "main-device zone 0 must start at block 0");
    assert_ne!(
        dec.datazone_main_zone0_end, 0,
        "main-device zone 0 saz_zone_end must be populated"
    );
    assert_eq!(
        dec.datazone_main_zone0_end, total_blocks,
        "main-device zone 0 must cover the whole device"
    );
    assert_spaceman_consistent(&dev, bs, total_blocks);
}

#[test]
fn checkpoint_map_resolves_spaceman_oid() {
    let total_blocks = 64u64;
    let bs = 4096u32;
    let mut dev = MemoryBackend::new(total_blocks * bs as u64);
    let w = ApfsWriter::new(&dev, total_blocks, bs, "V").ok().unwrap();
    w.finish(&mut dev).unwrap();
    let nxsb = read_block(&dev, NXSB_LIVE_PADDR, bs);
    let sm_oid = u64::from_le_bytes(nxsb[152..160].try_into().unwrap());
    let chk = read_block(&dev, CHKMAP_PADDR, bs);
    let cpm_count = u32::from_le_bytes(chk[36..40].try_into().unwrap());
    assert_eq!(cpm_count, 1, "expected one checkpoint-map entry");
    let entry = 40usize;
    let cpm_oid = u64::from_le_bytes(chk[entry + 16..entry + 24].try_into().unwrap());
    let cpm_paddr = u64::from_le_bytes(chk[entry + 24..entry + 32].try_into().unwrap());
    assert_eq!(cpm_oid, sm_oid, "chkmap oid must match NXSB nx_spaceman_oid");
    assert_eq!(cpm_paddr, SPACEMAN_PADDR, "spaceman lives at SPACEMAN_PADDR");
}

#[test]
fn geometry_is_checked() {
    let dev = MemoryBackend::new(64 * 4096);
    assert_eq!(Apfs::format(&dev, 64, 1000, "V").err(), Some(Error::InvalidArgument));
    assert_eq!(Apfs::format(&dev, 65, 4096, "V").err(), Some(Error::InvalidArgument));
    assert_eq!(Apfs::format(&dev, 31, 4096, "V").err(), Some(Error::InvalidArgument));
}

#[test]
fn small_containers_hold_files() {
    let mut dev = MemoryBackend::new(48 * 4096);
    let mut w = ApfsWriter::new(&dev, 48, 4096, "V").ok().unwrap();
    w.add_file_from_reader(&mut dev, 2, "f", 0o644, b"in little room", 14).unwrap();
    w.finish(&mut dev).unwrap();
    let apfs = Apfs::open(&dev).ok().unwrap();
    assert_eq!(read(&apfs, &dev, "/f"), b"in little room");
    let mut dev = MemoryBackend::new(32 * 4096);
    let w = ApfsWriter::new(&dev, 32, 4096, "V").ok().unwrap();
    assert!(w.finish(&mut dev).is_err());
}

#[test]
fn relative_paths_are_not_listed() {
    let mut dev = MemoryBackend::new(64 * 4096);
    let mut w = ApfsWriter::new(&dev, 64, 4096, "Vol").ok().unwrap();
    w.add_dir(2, "sub", 0o755).unwrap();
    w.finish(&mut dev).unwrap();
    let apfs = Apfs::open(&dev).ok().unwrap();
    assert_eq!(apfs.list_path(&dev, "sub").err(), Some(Error::InvalidArgument));
    assert!(apfs.list_path(&dev, "/sub").ok().unwrap().is_empty());
    assert_eq!(names(&apfs, &dev, ""), vec!["sub"]);
}

#[test]
fn modes_and_owners_are_changed_in_place() {
    let mut dev = formatted(&[("/f", b"abc")]);
    let mut apfs = Apfs::open_writable(&dev).ok().unwrap();
    apfs.chmod(&mut dev, "/f", 0o600).unwrap();
    apfs.chown(&mut dev, "/f", 7, 8).unwrap();
    apfs.set_attrs(
        &mut dev,
        "/f",
        SetAttrs { mode: None, uid: None, gid: None, mtime: Some(5), ctime: None, atime: None },
    )
    .unwrap();
    let apfs = Apfs::open(&dev).ok().unwrap();
    let a = apfs.getattr(&dev, "/f").ok().unwrap();
    assert_eq!(a.kind, EntryKind::Regular);
    assert_eq!((a.mode & 0o7777, a.uid, a.gid, a.mtime), (0o600, 7, 8, 5));
    assert_eq!(read(&apfs, &dev, "/f"), b"abc");
}

#[test]
fn names_are_added_moved_and_removed_in_place() {
    let mut dev = formatted(&[("/f", b"abc")]);
    let mut apfs = Apfs::open_writable(&dev).ok().unwrap();
    apfs.create_dir_at(&mut dev, "/d", 0o755, 0).unwrap();
    apfs.create_file_at(&mut dev, "/d/g", b"new file", 0o644, 0).unwrap();
    apfs.create_symlink_at(&mut dev, "/l", "/d/g", 0o777, 0).unwrap();
    apfs.rename(&mut dev, "/f", "/d/moved").unwrap();
    apfs.link(&mut dev, "/d/g", "/twin").unwrap();
    let apfs2 = Apfs::open(&dev).ok().unwrap();
    assert_eq!(read(&apfs2, &dev, "/d/moved"), b"abc");
    assert_eq!(read(&apfs2, &dev, "/twin"), b"new file");
    assert_eq!(apfs2.open_file_reader(&dev, "/f").err(), Some(Error::InvalidArgument));
    apfs.remove_path(&mut dev, "/d/g").unwrap();
    assert_eq!(apfs.remove_path(&mut dev, "/d").err(), Some(Error::InvalidArgument));
    let apfs3 = Apfs::open(&dev).ok().unwrap();
    assert_eq!(read(&apfs3, &dev, "/twin"), b"new file");
    assert_eq!(names(&apfs3, &dev, "/d"), vec!["moved"]);
}

#[test]
fn attributes_are_set_and_removed_in_place() {
    let mut dev = formatted(&[("/f", b"abc")]);
    let mut apfs = Apfs::open_writable(&dev).ok().unwrap();
    apfs.set_xattr(&mut dev, "/f", "user.a", b"one").unwrap();
    apfs.set_xattr(&mut dev, "/f", "user.a", b"two").unwrap();
    apfs.set_xattr(&mut dev, "/f", "user.b", b"three").unwrap();
    let a = Apfs::open(&dev).ok().unwrap();
    assert_eq!(xattr(&a, &dev, "/f", "user.a"), Some(b"two".to_vec()));
    apfs.remove_xattr(&mut dev, "/f", "user.a").unwrap();
    let a = Apfs::open(&dev).ok().unwrap();
    assert_eq!(xattr(&a, &dev, "/f", "user.a"), None);
    assert_eq!(xattr(&a, &dev, "/f", "user.b"), Some(b"three".to_vec()));
}

#[test]
fn truncate_cuts_and_extends() {
    let mut dev = formatted(&[("/f", b"abcdef")]);
    let mut apfs = Apfs::open_writable(&dev).ok().unwrap();
    apfs.truncate(&mut dev, "/f", 3).unwrap();
    let a = Apfs::open(&dev).ok().unwrap();
    assert_eq!(read(&a, &dev, "/f"), b"abc");
    apfs.truncate(&mut dev, "/f", 5).unwrap();
    let a = Apfs::open(&dev).ok().unwrap();
    assert_eq!(read(&a, &dev, "/f"), b"abc\0\0");
}

#[test]
fn a_commit_keeps_the_blocks_of_the_checkpoint_before() {
    let mut dev = formatted(&[("/f", b"before")]);
    let old = dev.read_at(0, 256 * 4096).unwrap();
    overwrite(&mut dev, "/f", b"after");
    let new = dev.read_at(0, 256 * 4096).unwrap();
    // Up to the first block that was free, only descriptor slots differ.
    let used = 256 - decode_spaceman(&old[17 * 4096..18 * 4096]).unwrap().main_free_count as usize;
    let changed: Vec<usize> = (0..used)
        .filter(|i| old[i * 4096..(i + 1) * 4096] != new[i * 4096..(i + 1) * 4096])
        .collect();
    assert_eq!(changed, vec![3]);
}

#[test]
fn format_options_are_taken_out_of_the_bag() {
    let mut opts = ApfsFormatOpts::default();
    assert_eq!((opts.total_blocks, opts.block_size), (64, 4096));
    assert_eq!(opts.volume_name, "APFS");
    let mut bag = OptionMap::new();
    bag.insert("block_size", "8K");
    bag.insert("total_blocks", "100");
    bag.insert("volume_label", "Label");
    bag.insert("other", "x");
    opts.apply_options(&mut bag).unwrap();
    assert_eq!((opts.total_blocks, opts.block_size), (100, 8192));
    assert_eq!(opts.volume_name, "Label");
    assert_eq!(bag.take_str("other"), Some("x".to_string()));
    assert_eq!(bag.take_str("block_size"), None);
    bag.insert("total_blocks", "many");
    assert_eq!(opts.apply_options(&mut bag), Err(Error::InvalidArgument));
}
