//! Checkpoints, snapshots and changes in place.

use fstool::apfs::node::build_fs_leaf;
use fstool::apfs::record::FsRecord;
use fstool::apfs::superblock::{APFS_MAGIC, NX_MAGIC};
use fstool::apfs::{Apfs, ApfsFileHandle};
use fstool::block::MemoryBackend;
use fstool::entry::{EntryKind, FileMeta, OpenFlags, SeekFrom};
use fstool::error::Error;

const BS: usize = 4096;
const BLOCKS: u64 = 256;

fn formatted(files: &[(&str, &[u8])]) -> MemoryBackend {
    let mut dev = MemoryBackend::new(BLOCKS * BS as u64);
    let mut apfs = Apfs::format(&dev, BLOCKS, BS as u32, "Vol").ok().unwrap();
    for (p, b) in files {
        apfs.create_file(&mut dev, p, b, FileMeta::with_mode(0o644)).unwrap();
    }
    apfs.flush(&mut dev).unwrap();
    dev
}

fn read(apfs: &Apfs, dev: &MemoryBackend, path: &str) -> Vec<u8> {
    let mut r = apfs.open_file_reader(dev, path).ok().unwrap();
    r.read_to_end(dev).unwrap()
}

fn names(apfs: &Apfs, dev: &MemoryBackend, path: &str) -> Vec<String> {
    apfs.list_path(dev, path).ok().unwrap().into_iter().map(|e| e.name).collect()
}

fn overwrite(dev: &mut MemoryBackend, path: &str, data: &[u8]) {
    let mut apfs = Apfs::open_writable(dev).ok().unwrap();
    let flags = OpenFlags { create: false, truncate: true, append: false };
    let mut h = apfs.open_file_rw(dev, path, flags).ok().unwrap();
    h.write(data).unwrap();
    h.sync(&mut apfs, dev).unwrap();
}

fn copy(dev: &MemoryBackend) -> MemoryBackend {
    MemoryBackend::from_vec(dev.as_slice().to_vec())
}

fn u32_at(b: &[u8], off: usize) -> u32 {
    u32::from_le_bytes(b[off..off + 4].try_into().unwrap())
}

fn u64_at(b: &[u8], off: usize) -> u64 {
    u64::from_le_bytes(b[off..off + 8].try_into().unwrap())
}

/// Blocks with a magic number and a transaction.
fn blocks_with(dev: &MemoryBackend, magic: u32, xid: u64) -> Vec<usize> {
    dev.as_slice()
        .chunks(BS)
        .enumerate()
        .filter(|(_, b)| u32_at(b, 32) == magic && u64_at(b, 16) == xid)
        .map(|(i, _)| i)
        .collect()
}

#[test]
fn an_interrupted_commit_leaves_the_volume_as_it_was() {
    let before = formatted(&[("/f", b"before"), ("/g", b"other")]);
    let mut dev = copy(&before);
    overwrite(&mut dev, "/f", b"after");
    let slots = blocks_with(&dev, NX_MAGIC, 3);
    assert_eq!(slots.len(), 1);
    // All the blocks of the commit but the last one written.
    let at = slots[0] * BS;
    let old = before.as_slice()[at..at + BS].to_vec();
    let mut cut_off = copy(&dev);
    cut_off.write_at(at as u64, &old).unwrap();
    let apfs = Apfs::open(&cut_off).ok().unwrap();
    assert_eq!(read(&apfs, &cut_off, "/f"), b"before");
    assert_eq!(read(&apfs, &cut_off, "/g"), b"other");
    assert_eq!(names(&apfs, &cut_off, "/"), vec!["f", "g"]);
    // With that block the new contents are there.
    let apfs = Apfs::open(&dev).ok().unwrap();
    assert_eq!(read(&apfs, &dev, "/f"), b"after");
    assert_eq!(read(&apfs, &dev, "/g"), b"other");
}

/// A superblock of which only some bytes arrived is passed over, and the next
/// commit takes its slot.
#[test]
fn a_torn_superblock_is_passed_over() {
    let before = formatted(&[("/f", b"before")]);
    let mut dev = copy(&before);
    overwrite(&mut dev, "/f", b"after");
    let at = blocks_with(&dev, NX_MAGIC, 3)[0] * BS;
    let new = dev.as_slice()[at..at + BS].to_vec();
    for kept in [40usize, 128, 162] {
        let mut part = before.as_slice()[at..at + BS].to_vec();
        part[..kept].copy_from_slice(&new[..kept]);
        let mut torn = copy(&dev);
        torn.write_at(at as u64, &part).unwrap();
        let apfs = Apfs::open(&torn).ok().unwrap();
        assert_eq!(read(&apfs, &torn, "/f"), b"before");
        overwrite(&mut torn, "/f", b"again");
        assert_eq!(blocks_with(&torn, NX_MAGIC, 3), vec![at / BS]);
        let apfs = Apfs::open(&torn).ok().unwrap();
        assert_eq!(read(&apfs, &torn, "/f"), b"again");
    }
    // One changed byte is enough.
    let mut torn = copy(&dev);
    torn.write_at((at + 200) as u64, &[new[200] ^ 1]).unwrap();
    let apfs = Apfs::open(&torn).ok().unwrap();
    assert_eq!(read(&apfs, &torn, "/f"), b"before");
    // A superblock without a checksum counts.
    let mut bare = copy(&dev);
    bare.write_at(at as u64, &[0u8; 8]).unwrap();
    let apfs = Apfs::open(&bare).ok().unwrap();
    assert_eq!(read(&apfs, &bare, "/f"), b"after");
}

#[test]
fn many_commits_go_round_the_descriptor_slots() {
    let mut dev = formatted(&[("/f", b"0"), ("/g", b"kept")]);
    for i in 1..=20u64 {
        overwrite(&mut dev, "/f", i.to_string().as_bytes());
        let apfs = Apfs::open(&dev).ok().unwrap();
        assert_eq!(read(&apfs, &dev, "/f"), i.to_string().as_bytes());
        assert_eq!(read(&apfs, &dev, "/g"), b"kept");
        // Transaction 2 is that of the format.
        assert_eq!(blocks_with(&dev, NX_MAGIC, 2 + i).len(), 1);
    }
}

#[test]
fn a_commit_that_does_not_fit_leaves_the_volume_as_it_was() {
    let mut dev = formatted(&[("/f", b"before")]);
    let mut apfs = Apfs::open_writable(&dev).ok().unwrap();
    let big = vec![7u8; 255 * BS];
    let meta = FileMeta::with_mode(0o644);
    assert_eq!(apfs.create_file(&mut dev, "/big", &big, meta), Err(Error::InvalidArgument));
    let again = Apfs::open(&dev).ok().unwrap();
    assert_eq!(read(&again, &dev, "/f"), b"before");
    assert_eq!(names(&again, &dev, "/"), vec!["f"]);
}

#[test]
fn snapshots_are_opened_by_number_and_by_name() {
    let mut dev = formatted(&[("/f", b"before")]);
    overwrite(&mut dev, "/f", b"after");
    // A snapshot of the first checkpoint, whose volume superblock is still there.
    let old = blocks_with(&dev, APFS_MAGIC, 2);
    let live = blocks_with(&dev, APFS_MAGIC, 3);
    assert_eq!((old.len(), live.len()), (1, 1));
    let key = (1u64 << 60 | 2).to_le_bytes().to_vec();
    let mut val = vec![0u8; 50];
    val[8..16].copy_from_slice(&(old[0] as u64).to_le_bytes());
    val[16..24].copy_from_slice(&77u64.to_le_bytes());
    val[48..50].copy_from_slice(&6u16.to_le_bytes());
    val.extend_from_slice(b"first\0");
    let leaf = build_fs_leaf(&vec![FsRecord { key, val }], BS, 5, true, 3).unwrap();
    dev.write_at(250 * BS as u64, &leaf).unwrap();
    dev.write_at((live[0] * BS + 152) as u64, &250u64.to_le_bytes()).unwrap();
    let apfs = Apfs::open(&dev).ok().unwrap();
    let list = apfs.list_snapshots(&dev).ok().unwrap();
    assert_eq!(list.len(), 1);
    assert_eq!((list[0].xid, list[0].name.as_str(), list[0].create_time), (2, "first", 77));
    assert_eq!(read(&apfs, &dev, "/f"), b"after");
    let by_name = apfs.open_snapshot_by_name(&dev, "first").ok().unwrap();
    assert_eq!(read(&by_name, &dev, "/f"), b"before");
    let by_xid = apfs.open_snapshot(&dev, 2).ok().unwrap();
    assert_eq!(read(&by_xid, &dev, "/f"), b"before");
    assert_eq!(
        apfs.open_snapshot_by_name(&dev, "second").err(),
        Some(Error::InvalidArgument)
    );
    assert_eq!(apfs.open_snapshot(&dev, 9).err(), Some(Error::InvalidArgument));
}

#[test]
fn times_are_set_in_place() {
    let mut dev = formatted(&[("/f", b"x")]);
    let mut apfs = Apfs::open_writable(&dev).ok().unwrap();
    let s = 1_000_000_000u64;
    apfs.set_times(&mut dev, "/f", Some(11 * s), None, Some(33 * s)).unwrap();
    let a = apfs.getattr(&dev, "/f").ok().unwrap();
    assert_eq!((a.mtime, a.ctime, a.atime), (11, 0, 33));
    assert_eq!((a.kind, a.mode, a.size), (EntryKind::Regular, 0o644, 1));
}

#[test]
fn a_second_link_keeps_the_object() {
    let mut dev = formatted(&[("/f", b"body")]);
    let mut apfs = Apfs::open_writable(&dev).ok().unwrap();
    apfs.link(&mut dev, "/f", "/second").unwrap();
    let a = apfs.getattr(&dev, "/f").ok().unwrap();
    let b = apfs.getattr(&dev, "/second").ok().unwrap();
    assert_eq!(a.inode, b.inode);
    assert_eq!(a.nlink, 2);
    apfs.remove_path(&mut dev, "/f").unwrap();
    assert_eq!(names(&apfs, &dev, "/"), vec!["second"]);
    assert_eq!(read(&apfs, &dev, "/second"), b"body");
    assert_eq!(apfs.getattr(&dev, "/second").ok().unwrap().nlink, 1);
    apfs.remove_path(&mut dev, "/second").unwrap();
    assert!(names(&apfs, &dev, "/").is_empty());
    assert_eq!(apfs.remove_path(&mut dev, "/second"), Err(Error::InvalidArgument));
}

#[test]
fn only_empty_directories_are_removed() {
    let mut dev = formatted(&[]);
    let mut apfs = Apfs::open_writable(&dev).ok().unwrap();
    let meta = FileMeta::with_mode(0o755);
    apfs.create_dir(&mut dev, "/d", meta).unwrap();
    apfs.create_file(&mut dev, "/d/f", b"in", meta).unwrap();
    assert_eq!(apfs.remove_path(&mut dev, "/d"), Err(Error::InvalidArgument));
    apfs.rename(&mut dev, "/d/f", "/f").unwrap();
    assert!(names(&apfs, &dev, "/d").is_empty());
    apfs.remove_path(&mut dev, "/d").unwrap();
    assert_eq!(names(&apfs, &dev, "/"), vec!["f"]);
    assert_eq!(read(&apfs, &dev, "/f"), b"in");
}

#[test]
fn a_name_is_given_once() {
    let mut dev = formatted(&[("/a", b"1"), ("/b", b"2")]);
    let mut apfs = Apfs::open_writable(&dev).ok().unwrap();
    let meta = FileMeta::with_mode(0o644);
    assert_eq!(apfs.create_file(&mut dev, "/a", b"3", meta), Err(Error::InvalidArgument));
    assert_eq!(apfs.rename(&mut dev, "/a", "/b"), Err(Error::InvalidArgument));
    assert_eq!(apfs.link(&mut dev, "/a", "/b"), Err(Error::InvalidArgument));
    assert_eq!(read(&apfs, &dev, "/a"), b"1");
    assert_eq!(read(&apfs, &dev, "/b"), b"2");
}

#[test]
fn handles_read_and_write_at_their_position() {
    let mut dev = formatted(&[("/f", b"0123456789")]);
    let mut apfs = Apfs::open_writable(&dev).ok().unwrap();
    let flags = OpenFlags { create: false, truncate: false, append: false };
    let mut h = ApfsFileHandle::open(&apfs, &dev, "/f", flags).ok().unwrap();
    assert_eq!(h.seek(SeekFrom::Start(3)), Ok(3));
    assert_eq!(h.read(2), b"34");
    assert_eq!(h.write(b"XY"), Ok(2));
    assert_eq!(h.seek(SeekFrom::End(2)), Ok(12));
    assert_eq!(h.write(b"Z"), Ok(1));
    assert_eq!(h.seek(SeekFrom::Current(-20)), Err(Error::InvalidArgument));
    h.sync(&mut apfs, &mut dev).unwrap();
    assert_eq!(read(&apfs, &dev, "/f"), b"01234XY789\0\0Z");
    h.set_len(4);
    h.sync(&mut apfs, &mut dev).unwrap();
    assert_eq!(read(&apfs, &dev, "/f"), b"0123");
    let create = OpenFlags { create: true, truncate: false, append: false };
    assert_eq!(apfs.open_file_rw(&dev, "/new", create).err(), Some(Error::Unsupported));
}

#[test]
fn volume_names_read_back() {
    for name in ["Vol", "Übung", "x", &"n".repeat(255)] {
        let mut dev = MemoryBackend::new(BLOCKS * BS as u64);
        let mut apfs = Apfs::format(&dev, BLOCKS, BS as u32, name).ok().unwrap();
        apfs.flush(&mut dev).unwrap();
        assert_eq!(Apfs::open(&dev).ok().unwrap().volume_name(), name);
    }
}

#[test]
fn changes_leave_what_they_do_not_name() {
    let mut dev = formatted(&[("/a", b"alpha"), ("/b", b"beta"), ("/c", b"")]);
    let mut apfs = Apfs::open_writable(&dev).ok().unwrap();
    let meta = FileMeta::with_mode(0o755);
    apfs.create_dir(&mut dev, "/d", meta).unwrap();
    apfs.rename(&mut dev, "/a", "/d/a2").unwrap();
    apfs.link(&mut dev, "/b", "/d/b2").unwrap();
    apfs.chmod(&mut dev, "/d/a2", 0o600).unwrap();
    apfs.set_xattr(&mut dev, "/c", "k", b"v").unwrap();
    apfs.set_xattr(&mut dev, "/c", "k2", b"v2").unwrap();
    apfs.set_xattr(&mut dev, "/c", "k", b"w").unwrap();
    apfs.remove_path(&mut dev, "/b").unwrap();
    // Opened again, the device says the same.
    for fs in [apfs, Apfs::open(&dev).ok().unwrap()] {
        assert_eq!(names(&fs, &dev, "/"), vec!["c", "d"]);
        assert_eq!(names(&fs, &dev, "/d"), vec!["a2", "b2"]);
        assert_eq!(read(&fs, &dev, "/d/a2"), b"alpha");
        assert_eq!(read(&fs, &dev, "/d/b2"), b"beta");
        assert_eq!(read(&fs, &dev, "/c"), b"");
        let a = fs.getattr(&dev, "/d/a2").ok().unwrap();
        assert_eq!((a.kind, a.mode, a.size), (EntryKind::Regular, 0o600, 5));
        assert_eq!(fs.getattr(&dev, "/d/b2").ok().unwrap().nlink, 1);
        let x = fs.read_xattrs(&dev, "/c").ok().unwrap();
        let pairs: Vec<(&str, &[u8])> =
            x.iter().map(|p| (p.name.as_str(), p.value.as_slice())).collect();
        assert_eq!(pairs, vec![("k", &b"w"[..]), ("k2", &b"v2"[..])]);
    }
}

#[test]
fn attributes_are_removed_one_by_one() {
    let mut dev = formatted(&[("/f", b"x")]);
    let mut apfs = Apfs::open_writable(&dev).ok().unwrap();
    apfs.set_xattr(&mut dev, "/f", "one", b"1").unwrap();
    apfs.set_xattr(&mut dev, "/f", "two", b"2").unwrap();
    apfs.remove_xattr(&mut dev, "/f", "one").unwrap();
    apfs.remove_xattr(&mut dev, "/f", "none").unwrap();
    let x = apfs.read_xattrs(&dev, "/f").ok().unwrap();
    assert_eq!(x.len(), 1);
    assert_eq!((x[0].name.as_str(), x[0].value.as_slice()), ("two", &b"2"[..]));
}

#[test]
fn files_created_one_after_the_other_both_read_back() {
    let mut dev = formatted(&[("/f", b"abc")]);
    let mut apfs = Apfs::open_writable(&dev).ok().unwrap();
    let before = names(&apfs, &dev, "/");
    let a = vec![0xa5u8; 2 * BS + 17];
    let b = vec![0x5au8; BS];
    apfs.create_file_at(&mut dev, "/a", &a, 0o644, 0).unwrap();
    apfs.create_file_at(&mut dev, "/b", &b, 0o644, 0).unwrap();
    let apfs = Apfs::open(&dev).ok().unwrap();
    assert_eq!(read(&apfs, &dev, "/a"), a);
    assert_eq!(read(&apfs, &dev, "/b"), b);
    assert_eq!(read(&apfs, &dev, "/f"), b"abc");
    let mut gained = names(&apfs, &dev, "/");
    gained.retain(|n| !before.contains(n));
    gained.sort();
    assert_eq!(gained, ["a", "b"]);
}

#[test]
fn a_handle_goes_on_after_it_was_synced() {
    let mut dev = formatted(&[("/f", b"old contents")]);
    let mut apfs = Apfs::open_writable(&dev).ok().unwrap();
    let flags = OpenFlags { create: false, truncate: true, append: false };
    let mut h = apfs.open_file_rw(&mut dev, "/f", flags).ok().unwrap();
    h.write(b"abc").unwrap();
    h.sync(&mut apfs, &mut dev).unwrap();
    assert_eq!(h.len(), 3);
    assert_eq!(read(&Apfs::open(&dev).ok().unwrap(), &dev, "/f"), b"abc");
    h.write(b"d").unwrap();
    h.sync(&mut apfs, &mut dev).unwrap();
    assert_eq!(read(&Apfs::open(&dev).ok().unwrap(), &dev, "/f"), b"abcd");
}

#[test]
fn a_rename_keeps_the_object() {
    let mut dev = formatted(&[("/f", b"abc"), ("/g", b"taken")]);
    let mut apfs = Apfs::open_writable(&dev).ok().unwrap();
    apfs.create_dir_at(&mut dev, "/d", 0o755, 0).unwrap();
    apfs.link(&mut dev, "/f", "/twin").unwrap();
    apfs.set_xattr(&mut dev, "/f", "user.tag", b"red").unwrap();
    let oid = apfs.resolve_path_to_oid(&dev, "/f").unwrap();
    let links = apfs.getattr(&dev, "/f").ok().unwrap().nlink;
    let image = dev.as_slice().to_vec();
    for (from, to) in [("/none", "/new"), ("/f", "/g"), ("/f", "/f")] {
        assert_eq!(apfs.rename(&mut dev, from, to), Err(Error::InvalidArgument));
        assert_eq!(dev.as_slice(), image);
    }
    apfs.rename(&mut dev, "/f", "/d/moved").unwrap();
    assert_eq!(apfs.resolve_path_to_oid(&dev, "/d/moved"), Ok(oid));
    assert_eq!(apfs.resolve_path_to_oid(&dev, "/f"), Err(Error::InvalidArgument));
    assert_eq!(apfs.resolve_path_to_oid(&dev, "/twin"), Ok(oid));
    assert_eq!(apfs.getattr(&dev, "/d/moved").ok().unwrap().nlink, links);
    assert_eq!(read(&apfs, &dev, "/d/moved"), b"abc");
    let x = apfs.read_xattrs(&dev, "/d/moved").ok().unwrap();
    assert_eq!(x.len(), 1);
    assert_eq!((x[0].name.as_str(), x[0].value.as_slice()), ("user.tag", b"red".as_slice()));
}

#[test]
fn links_are_counted_and_refused() {
    let mut dev = formatted(&[("/f", b"abc"), ("/g", b"taken")]);
    let mut apfs = Apfs::open_writable(&dev).ok().unwrap();
    apfs.create_dir_at(&mut dev, "/d", 0o755, 0).unwrap();
    let oid = apfs.resolve_path_to_oid(&dev, "/f").unwrap();
    let links = apfs.getattr(&dev, "/f").ok().unwrap().nlink;
    let image = dev.as_slice().to_vec();
    assert_eq!(apfs.link(&mut dev, "/d", "/e"), Err(Error::InvalidArgument));
    assert_eq!(apfs.link(&mut dev, "/f", "/g"), Err(Error::InvalidArgument));
    assert_eq!(dev.as_slice(), image);
    apfs.link(&mut dev, "/f", "/d/twin").unwrap();
    assert_eq!(apfs.resolve_path_to_oid(&dev, "/d/twin"), Ok(oid));
    assert_eq!(apfs.resolve_path_to_oid(&dev, "/f"), Ok(oid));
    assert_eq!(apfs.getattr(&dev, "/f").ok().unwrap().nlink, links + 1);
}

#[test]
fn symbolic_links_are_listed_and_read() {
    let mut dev = formatted(&[("/f", b"abc")]);
    let mut apfs = Apfs::open_writable(&dev).ok().unwrap();
    let image = dev.as_slice().to_vec();
    assert_eq!(
        apfs.create_symlink_at(&mut dev, "/l", "", 0o777, 0),
        Err(Error::InvalidArgument)
    );
    assert_eq!(dev.as_slice(), image);
    apfs.create_symlink_at(&mut dev, "/l", "../f//x", 0o777, 0).unwrap();
    assert_eq!(read(&apfs, &dev, "/l"), b"../f//x");
    let l = apfs.list_path(&dev, "/").ok().unwrap();
    let e = l.iter().find(|e| e.name == "l").unwrap();
    assert_eq!(e.kind, EntryKind::Symlink);
}

/// A commit changes nothing before the blocks that it allocates but one slot.
#[test]
fn a_commit_copies_on_write() {
    let mut dev = formatted(&[("/f", b"abc")]);
    let image = dev.as_slice().to_vec();
    let used = image.chunks(BS).rposition(|b| b.iter().any(|&c| c != 0)).unwrap();
    let mut apfs = Apfs::open_writable(&dev).ok().unwrap();
    apfs.create_file_at(&mut dev, "/a", b"new", 0o644, 0).unwrap();
    let changed: Vec<usize> = (0..=used)
        .filter(|i| dev.as_slice()[i * BS..(i + 1) * BS] != image[i * BS..(i + 1) * BS])
        .collect();
    assert_eq!(changed, [3]);
}
