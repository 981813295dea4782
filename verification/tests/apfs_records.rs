//! Decoders of on-disk structures.

use std::cmp::Ordering;

use fstool::apfs::btree::{
    BTreeNode, NodeCache, BTNODE_FIXED_KV_SIZE, BTNODE_LEAF, BTNODE_ROOT, BTREE_INFO_SIZE,
};
use fstool::apfs::checksum::{fletcher64, fletcher64_payload, sign_block, verify};
use fstool::apfs::fstree::{
    cmp_fs_key, make_drec_target_tail, make_file_extent_tail, DrecKeyLayout, FsKey, FsKeyTarget,
    FsTreeCtx,
};
use fstool::apfs::jrec::{
    join_obj_id, split_obj_id, DrecKey, DrecVal, FileExtentKey, FileExtentVal, InodeVal,
    APFS_TYPE_DIR_REC, APFS_TYPE_FILE_EXTENT, APFS_TYPE_INODE, APFS_TYPE_SNAP_METADATA, DT_DIR,
    DT_REG, INO_EXT_TYPE_DSTREAM, INO_EXT_TYPE_NAME, J_DREC_LEN_MASK, J_INODE_VAL_FIXED_SIZE,
    OBJ_ID_MASK, OBJ_TYPE_SHIFT,
};
use fstool::apfs::obj::{
    ObjPhys, OBJECT_TYPE_BTREE_NODE, OBJECT_TYPE_NX_SUPERBLOCK, OBJECT_TYPE_OMAP,
};
use fstool::apfs::omap::{lookup_with_cache, OmapKey, OmapPhys, OmapVal};
use fstool::apfs::rangescan::RangeScan;
use fstool::apfs::record::{
    apfs_drec_name_len_and_hash, build_drec_record, build_xattr_record, mode_dir, mode_lnk,
    mode_reg,
};
use fstool::apfs::snap::{decode_snap_meta_key, SnapMetaVal, SnapNameVal};
use fstool::apfs::superblock::{ApfsSuperblock, NxSuperblock, APFS_MAGIC, NX_MAGIC};
use fstool::block::MemoryBackend;
use fstool::error::Error;

#[test]
fn decode_variable_kv_leaf() {
    let block_size = 256usize;
    let mut block = vec![0u8; block_size];
    block[24..28].copy_from_slice(&OBJECT_TYPE_BTREE_NODE.to_le_bytes());
    block[32..34].copy_from_slice(&BTNODE_LEAF.to_le_bytes());
    block[34..36].copy_from_slice(&0u16.to_le_bytes());
    block[36..40].copy_from_slice(&2u32.to_le_bytes());
    block[40..42].copy_from_slice(&0u16.to_le_bytes());
    block[42..44].copy_from_slice(&16u16.to_le_bytes());
    let toc_base = 56;
    block[toc_base..toc_base + 2].copy_from_slice(&0u16.to_le_bytes());
    block[toc_base + 2..toc_base + 4].copy_from_slice(&2u16.to_le_bytes());
    block[toc_base + 4..toc_base + 6].copy_from_slice(&2u16.to_le_bytes());
    block[toc_base + 6..toc_base + 8].copy_from_slice(&2u16.to_le_bytes());
    block[toc_base + 8..toc_base + 10].copy_from_slice(&2u16.to_le_bytes());
    block[toc_base + 10..toc_base + 12].copy_from_slice(&2u16.to_le_bytes());
    block[toc_base + 12..toc_base + 14].copy_from_slice(&4u16.to_le_bytes());
    block[toc_base + 14..toc_base + 16].copy_from_slice(&2u16.to_le_bytes());
    let keys_start = toc_base + 16;
    block[keys_start..keys_start + 2].copy_from_slice(b"AA");
    block[keys_start + 2..keys_start + 4].copy_from_slice(b"BB");
    let vend = block_size;
    block[vend - 2..vend].copy_from_slice(b"vv");
    block[vend - 4..vend - 2].copy_from_slice(b"VV");

    let node = BTreeNode::decode(&block).ok().unwrap();
    assert!(node.is_leaf());
    assert!(!node.fixed_kv);
    assert!(!node.is_root);
    assert_eq!(node.nkeys, 2);
    let (k0, v0) = node.entry_at(0, 0, 0).unwrap();
    let (k1, v1) = node.entry_at(1, 0, 0).unwrap();
    assert_eq!(k0, b"AA");
    assert_eq!(v0, b"vv");
    assert_eq!(k1, b"BB");
    assert_eq!(v1, b"VV");
    assert!(node.entry_at(2, 0, 0).is_err());
}

#[test]
fn decode_fixed_kv_root() {
    let block_size = 512usize;
    let mut block = vec![0u8; block_size];
    block[24..28].copy_from_slice(&OBJECT_TYPE_BTREE_NODE.to_le_bytes());
    let flags = BTNODE_ROOT | BTNODE_LEAF | BTNODE_FIXED_KV_SIZE;
    block[32..34].copy_from_slice(&flags.to_le_bytes());
    block[36..40].copy_from_slice(&1u32.to_le_bytes());
    block[40..42].copy_from_slice(&0u16.to_le_bytes());
    block[42..44].copy_from_slice(&4u16.to_le_bytes());
    let toc_base = 56;
    block[toc_base..toc_base + 2].copy_from_slice(&0u16.to_le_bytes());
    block[toc_base + 2..toc_base + 4].copy_from_slice(&16u16.to_le_bytes());
    let keys_start = 60;
    for (i, b) in block.iter_mut().enumerate().skip(keys_start).take(16) {
        *b = (i as u8).wrapping_add(0x10);
    }
    let vals_end = block_size - BTREE_INFO_SIZE;
    for (i, b) in block[vals_end - 16..vals_end].iter_mut().enumerate() {
        *b = (i as u8).wrapping_add(0xa0);
    }
    let info_off = block_size - BTREE_INFO_SIZE;
    block[info_off + 8..info_off + 12].copy_from_slice(&16u32.to_le_bytes());
    block[info_off + 12..info_off + 16].copy_from_slice(&16u32.to_le_bytes());

    let node = BTreeNode::decode(&block).ok().unwrap();
    assert!(node.fixed_kv);
    assert!(node.is_root);
    let (klen, vlen) = node.fixed_kv_size().unwrap();
    assert_eq!((klen, vlen), (16, 16));
    let (k, v) = node.entry_at(0, klen, vlen).unwrap();
    assert_eq!(k.len(), 16);
    assert_eq!(v.len(), 16);
    assert_eq!(k[0], 0x10 + keys_start as u8);
    assert_eq!(v[0], 0xa0);
}

#[test]
fn node_cache_drops_the_least_recently_used() {
    let mut c = NodeCache::new(2);
    c.put(1, vec![1]);
    c.put(2, vec![2]);
    assert_eq!(c.get(1), Some(vec![1]));
    c.put(3, vec![3]);
    assert_eq!(c.get(2), None);
    assert_eq!(c.get(1), Some(vec![1]));
    assert_eq!(c.get(3), Some(vec![3]));
}

#[test]
fn roundtrip_zero_payload() {
    let mut block = [0u8; 64];
    for (i, b) in block.iter_mut().enumerate().skip(8) {
        *b = (i as u8).wrapping_mul(7);
    }
    let cksum = fletcher64(&block);
    block[..8].copy_from_slice(&cksum.to_le_bytes());
    assert!(verify(&block));
}

#[test]
fn flipping_a_byte_breaks_verification() {
    let mut block = [0u8; 64];
    for (i, b) in block.iter_mut().enumerate().skip(8) {
        *b = i as u8;
    }
    let cksum = fletcher64(&block);
    block[..8].copy_from_slice(&cksum.to_le_bytes());
    assert!(verify(&block));
    block[20] ^= 0x01;
    assert!(!verify(&block));
}

#[test]
fn known_pattern_is_self_consistent() {
    let mut block = [0u8; 16];
    block[8..12].copy_from_slice(&0x1234_5678u32.to_le_bytes());
    block[12..16].copy_from_slice(&0xDEAD_BEEFu32.to_le_bytes());
    let cksum = fletcher64(&block);
    block[..8].copy_from_slice(&cksum.to_le_bytes());
    assert!(verify(&block));
}

#[test]
fn empty_and_short_inputs() {
    assert_eq!(fletcher64_payload(&[]), u64::MAX);
    assert!(!verify(&[]));
    assert!(!verify(&[0u8; 7]));
    let mut b = [0u8; 8];
    b.copy_from_slice(&u64::MAX.to_le_bytes());
    assert!(!verify(&b));
}

#[test]
fn checksum_of_one_word() {
    // sum1 = 1 and sum2 = 1, so c1 = MOD - 2 and c2 = MOD - (1 + c1) = 1.
    assert_eq!(fletcher64_payload(&[1, 0, 0, 0]), (1u64 << 32) | 0xffff_fffd);
}

#[test]
fn signed_block_verifies() {
    let mut b: Vec<u8> = (0..64u8).collect();
    sign_block(&mut b);
    assert!(verify(&b));
    assert_eq!(&b[8..], &(8..64u8).collect::<Vec<u8>>()[..]);
}

#[test]
fn cmp_fs_key_orders_by_oid_first() {
    let mut raw1 = [0u8; 8];
    let mut raw2 = [0u8; 8];
    let h1 = ((APFS_TYPE_DIR_REC as u64) << OBJ_TYPE_SHIFT) | (5 & OBJ_ID_MASK);
    let h2 = ((APFS_TYPE_DIR_REC as u64) << OBJ_TYPE_SHIFT) | (6 & OBJ_ID_MASK);
    raw1.copy_from_slice(&h1.to_le_bytes());
    raw2.copy_from_slice(&h2.to_le_bytes());
    let k1 = FsKey::decode(&raw1).ok().unwrap();
    let k2 = FsKey::decode(&raw2).ok().unwrap();
    let t = FsKeyTarget {
        oid: 6,
        kind: APFS_TYPE_DIR_REC,
        tail: &[],
        drec_layout: DrecKeyLayout::Hashed,
    };
    assert!(cmp_fs_key(&k1, &t) == Ordering::Less);
    assert_eq!(cmp_fs_key(&k2, &t), Ordering::Equal);
}

#[test]
fn cmp_fs_key_kind_breaks_oid_tie() {
    let mut raw1 = [0u8; 8];
    let mut raw2 = [0u8; 8];
    let h1 = ((APFS_TYPE_DIR_REC as u64) << OBJ_TYPE_SHIFT) | 5;
    let h2 = ((APFS_TYPE_FILE_EXTENT as u64) << OBJ_TYPE_SHIFT) | 5;
    raw1.copy_from_slice(&h1.to_le_bytes());
    raw2.copy_from_slice(&h2.to_le_bytes());
    let k1 = FsKey::decode(&raw1).ok().unwrap();
    let k2 = FsKey::decode(&raw2).ok().unwrap();
    let t = FsKeyTarget {
        oid: 5,
        kind: APFS_TYPE_DIR_REC,
        tail: &[],
        drec_layout: DrecKeyLayout::Hashed,
    };
    assert_eq!(cmp_fs_key(&k1, &t), Ordering::Equal);
    assert_eq!(cmp_fs_key(&k2, &t), Ordering::Less);
}

#[test]
fn drec_hashed_target_tail_layout() {
    let t = make_drec_target_tail("foo", DrecKeyLayout::Hashed);
    assert_eq!(t.len(), 8);
    let nh = u32::from_le_bytes(t[0..4].try_into().unwrap());
    assert_eq!(nh & J_DREC_LEN_MASK, 4);
}

#[test]
fn file_extent_tail_is_le_u64() {
    let t = make_file_extent_tail(0x1234_5678_9abc_def0);
    assert_eq!(u64::from_le_bytes(t.as_slice().try_into().unwrap()), 0x1234_5678_9abc_def0);
}

fn build_var_node(
    block_size: usize,
    entries: &[(Vec<u8>, Vec<u8>)],
    flags: u16,
    level: u16,
) -> Vec<u8> {
    let mut block = vec![0u8; block_size];
    block[24..28].copy_from_slice(&OBJECT_TYPE_BTREE_NODE.to_le_bytes());
    block[32..34].copy_from_slice(&flags.to_le_bytes());
    block[34..36].copy_from_slice(&level.to_le_bytes());
    block[36..40].copy_from_slice(&(entries.len() as u32).to_le_bytes());
    let toc_len = entries.len() * 8;
    block[42..44].copy_from_slice(&(toc_len as u16).to_le_bytes());
    let toc_base = 56;
    let keys_start = toc_base + toc_len;
    let vals_end = if flags & BTNODE_ROOT != 0 {
        block_size - BTREE_INFO_SIZE
    } else {
        block_size
    };
    let mut k_off = 0usize;
    let mut v_off = 0usize;
    for (i, (kb, vb)) in entries.iter().enumerate() {
        v_off += vb.len();
        let t = toc_base + i * 8;
        block[t..t + 2].copy_from_slice(&(k_off as u16).to_le_bytes());
        block[t + 2..t + 4].copy_from_slice(&(kb.len() as u16).to_le_bytes());
        block[t + 4..t + 6].copy_from_slice(&(v_off as u16).to_le_bytes());
        block[t + 6..t + 8].copy_from_slice(&(vb.len() as u16).to_le_bytes());
        block[keys_start + k_off..keys_start + k_off + kb.len()].copy_from_slice(kb);
        let vs = vals_end - v_off;
        block[vs..vs + vb.len()].copy_from_slice(vb);
        k_off += kb.len();
    }
    block
}

fn build_var_leaf(block_size: usize, entries: &[(Vec<u8>, Vec<u8>)], is_root: bool) -> Vec<u8> {
    let flags = if is_root { BTNODE_LEAF | BTNODE_ROOT } else { BTNODE_LEAF };
    build_var_node(block_size, entries, flags, 0)
}

fn drec_hashed_key(parent_oid: u64, name: &str, fake_hash: u32) -> Vec<u8> {
    let mut out = Vec::new();
    let hdr = ((APFS_TYPE_DIR_REC as u64) << OBJ_TYPE_SHIFT) | (parent_oid & OBJ_ID_MASK);
    out.extend_from_slice(&hdr.to_le_bytes());
    let nh = (fake_hash << 10) | ((name.len() as u32 + 1) & J_DREC_LEN_MASK);
    out.extend_from_slice(&nh.to_le_bytes());
    out.extend_from_slice(name.as_bytes());
    out.push(0);
    out
}

fn drec_val(file_id: u64, dtype: u16) -> Vec<u8> {
    let mut out = vec![0u8; 18];
    out[0..8].copy_from_slice(&file_id.to_le_bytes());
    out[16..18].copy_from_slice(&dtype.to_le_bytes());
    out
}

fn build_omap_node(
    block_size: usize,
    entries: &[(u64, u64, u64)],
    leaf: bool,
    is_root: bool,
) -> Vec<u8> {
    let mut block = vec![0u8; block_size];
    block[24..28].copy_from_slice(&OBJECT_TYPE_BTREE_NODE.to_le_bytes());
    let mut flags = BTNODE_FIXED_KV_SIZE;
    if leaf {
        flags |= BTNODE_LEAF;
    }
    if is_root {
        flags |= BTNODE_ROOT;
    }
    let vsize = if leaf { 16 } else { 8 };
    block[32..34].copy_from_slice(&flags.to_le_bytes());
    block[34..36].copy_from_slice(&(if leaf { 0u16 } else { 1 }).to_le_bytes());
    block[36..40].copy_from_slice(&(entries.len() as u32).to_le_bytes());
    let toc_len = entries.len() * 4;
    block[42..44].copy_from_slice(&(toc_len as u16).to_le_bytes());
    let toc_base = 56;
    let keys_start = toc_base + toc_len;
    let vals_end = if is_root { block_size - BTREE_INFO_SIZE } else { block_size };
    for (i, &(oid, xid, paddr)) in entries.iter().enumerate() {
        let k_off = i * 16;
        let v_off = (i + 1) * vsize;
        let t = toc_base + i * 4;
        block[t..t + 2].copy_from_slice(&(k_off as u16).to_le_bytes());
        block[t + 2..t + 4].copy_from_slice(&(v_off as u16).to_le_bytes());
        let ks = keys_start + k_off;
        block[ks..ks + 8].copy_from_slice(&oid.to_le_bytes());
        block[ks + 8..ks + 16].copy_from_slice(&xid.to_le_bytes());
        let vs = vals_end - v_off;
        let at = if leaf { vs + 8 } else { vs };
        block[at..at + 8].copy_from_slice(&paddr.to_le_bytes());
    }
    if is_root {
        let info_off = block_size - BTREE_INFO_SIZE;
        block[info_off + 8..info_off + 12].copy_from_slice(&16u32.to_le_bytes());
        block[info_off + 12..info_off + 16].copy_from_slice(&16u32.to_le_bytes());
    }
    block
}

fn device_with(block_size: usize, blocks: &[(u64, Vec<u8>)]) -> MemoryBackend {
    let top = blocks.iter().map(|b| b.0 + 1).max().unwrap_or(0);
    let mut dev = MemoryBackend::new(top * block_size as u64);
    for (paddr, b) in blocks {
        dev.write_at(paddr * block_size as u64, b).unwrap();
    }
    dev
}

#[test]
fn range_scan_single_leaf_yields_all_drecs_under_parent() {
    let block_size = 1024usize;
    let entries = vec![
        (drec_hashed_key(2, "bar", 0x100), drec_val(0x11, DT_REG)),
        (drec_hashed_key(2, "foo", 0x200), drec_val(0x12, DT_DIR)),
        (drec_hashed_key(3, "qux", 0x100), drec_val(0x13, DT_REG)),
    ];
    let root = build_var_leaf(block_size, &entries, true);
    let omap_root = build_omap_node(block_size, &[], true, true);
    let mut ctx = FsTreeCtx::new(omap_root, 0, block_size);
    let target = FsKeyTarget {
        oid: 2,
        kind: APFS_TYPE_DIR_REC,
        tail: &[],
        drec_layout: DrecKeyLayout::Hashed,
    };
    // A device without blocks: a walk of a single leaf reads none.
    let dev = MemoryBackend::new(0);
    let mut scan = RangeScan::start(&root, &target, &mut ctx, &dev).ok().unwrap();
    let a = scan.next(&mut ctx, &dev).unwrap().unwrap();
    let b = scan.next(&mut ctx, &dev).unwrap().unwrap();
    let c = scan.next(&mut ctx, &dev).unwrap();
    assert!(c.is_none(), "third call should stop at prefix boundary");
    let k_a = DrecKey::decode_hashed(&a.0).unwrap();
    let k_b = DrecKey::decode_hashed(&b.0).unwrap();
    assert_eq!(k_a.name, "bar");
    assert_eq!(k_b.name, "foo");
}

#[test]
fn range_scan_two_level_descends_via_omap() {
    let block_size = 1024usize;
    let key = |kind: u8, oid: u64| {
        let hdr = ((kind as u64) << OBJ_TYPE_SHIFT) | (oid & OBJ_ID_MASK);
        hdr.to_le_bytes().to_vec()
    };
    let inode_val = vec![0u8; J_INODE_VAL_FIXED_SIZE];
    let inode_leaf = build_var_leaf(block_size, &[(key(APFS_TYPE_INODE, 5), inode_val)], false);
    let drec_entries = vec![
        (drec_hashed_key(5, "a", 0x100), drec_val(0x21, DT_REG)),
        (drec_hashed_key(5, "b", 0x200), drec_val(0x22, DT_REG)),
    ];
    let drec_leaf = build_var_leaf(block_size, &drec_entries, false);
    let omap_root = build_omap_node(block_size, &[(100, 1, 0x10), (101, 1, 0x11)], true, true);
    let fs_root = build_var_node(
        block_size,
        &[
            (key(APFS_TYPE_INODE, 5), 100u64.to_le_bytes().to_vec()),
            (key(APFS_TYPE_DIR_REC, 5), 101u64.to_le_bytes().to_vec()),
        ],
        BTNODE_ROOT,
        1,
    );
    let dev = device_with(block_size, &[(0x10, inode_leaf), (0x11, drec_leaf)]);
    let mut ctx = FsTreeCtx::new(omap_root, 5, block_size);
    let target = FsKeyTarget {
        oid: 5,
        kind: APFS_TYPE_DIR_REC,
        tail: &[],
        drec_layout: DrecKeyLayout::Hashed,
    };
    let mut scan = RangeScan::start(&fs_root, &target, &mut ctx, &dev).ok().unwrap();
    let a = scan.next(&mut ctx, &dev).unwrap().unwrap();
    let b = scan.next(&mut ctx, &dev).unwrap().unwrap();
    let c = scan.next(&mut ctx, &dev).unwrap();
    assert!(c.is_none());
    let k_a = DrecKey::decode_hashed(&a.0).unwrap();
    let k_b = DrecKey::decode_hashed(&b.0).unwrap();
    assert_eq!((k_a.name.as_str(), k_b.name.as_str()), ("a", "b"));
}

#[test]
fn split_obj_id_separates_kind_and_oid() {
    let raw = (3u64 << 60) | 0x42;
    assert_eq!(split_obj_id(raw), (3, 0x42));
    let raw = (8u64 << 60) | 0x0fff_ffff_ffff_ffff;
    assert_eq!(split_obj_id(raw), (8, 0x0fff_ffff_ffff_ffff));
}

#[test]
fn join_undoes_split() {
    let raw = (9u64 << 60) | 0x1234_5678;
    let (kind, oid) = split_obj_id(raw);
    assert_eq!(join_obj_id(kind, oid), raw);
}

#[test]
fn decode_drec_hashed_key_with_name() {
    let mut buf = [0u8; 64];
    let raw = ((APFS_TYPE_DIR_REC as u64) << 60) | 0x123;
    buf[0..8].copy_from_slice(&raw.to_le_bytes());
    let name = b"hello\0";
    let nh = name.len() as u32;
    buf[8..12].copy_from_slice(&nh.to_le_bytes());
    buf[12..12 + name.len()].copy_from_slice(name);
    let key = DrecKey::decode_hashed(&buf[..12 + name.len()]).unwrap();
    assert_eq!(key.parent_oid, 0x123);
    assert_eq!(key.name, "hello");
}

#[test]
fn decode_drec_val_dtype() {
    let mut buf = vec![0u8; 18];
    buf[0..8].copy_from_slice(&0xfeedu64.to_le_bytes());
    buf[16..18].copy_from_slice(&(DT_REG | 0x0200).to_le_bytes());
    let v = DrecVal::decode(&buf).unwrap();
    assert_eq!(v.file_id, 0xfeed);
    assert_eq!(v.dtype(), DT_REG);
}

#[test]
fn drec_type_is_the_low_byte() {
    let v = DrecVal { file_id: 1, flags: 0x0218 };
    assert_eq!(v.dtype(), 0x18);
}

#[test]
fn decode_file_extent_key_val() {
    let mut kb = vec![0u8; 16];
    let raw = ((APFS_TYPE_FILE_EXTENT as u64) << 60) | 0x100;
    kb[0..8].copy_from_slice(&raw.to_le_bytes());
    kb[8..16].copy_from_slice(&4096u64.to_le_bytes());
    let k = FileExtentKey::decode(&kb).unwrap();
    assert_eq!(k.oid, 0x100);
    assert_eq!(k.logical_addr, 4096);

    let mut vb = vec![0u8; 24];
    let lf = 8192u64 | (0x10u64 << 56);
    vb[0..8].copy_from_slice(&lf.to_le_bytes());
    vb[8..16].copy_from_slice(&0x5000u64.to_le_bytes());
    let v = FileExtentVal::decode(&vb).unwrap();
    assert_eq!(v.length, 8192);
    assert_eq!(v.phys_block_num, 0x5000);
}

#[test]
fn decode_inode_with_xfields() {
    let mut buf = vec![0u8; J_INODE_VAL_FIXED_SIZE + 64];
    buf[0..8].copy_from_slice(&1u64.to_le_bytes());
    buf[8..16].copy_from_slice(&7u64.to_le_bytes());
    buf[80..82].copy_from_slice(&0o0100644u16.to_le_bytes());
    let xoff = J_INODE_VAL_FIXED_SIZE;
    buf[xoff..xoff + 2].copy_from_slice(&2u16.to_le_bytes());
    buf[xoff + 2..xoff + 4].copy_from_slice(&48u16.to_le_bytes());
    buf[xoff + 4] = INO_EXT_TYPE_NAME;
    buf[xoff + 5] = 0;
    buf[xoff + 6..xoff + 8].copy_from_slice(&6u16.to_le_bytes());
    buf[xoff + 8] = INO_EXT_TYPE_DSTREAM;
    buf[xoff + 9] = 0;
    buf[xoff + 10..xoff + 12].copy_from_slice(&40u16.to_le_bytes());
    let voff = xoff + 12;
    buf[voff..voff + 4].copy_from_slice(b"abc\0");
    let dstream_off = voff + 8;
    buf[dstream_off..dstream_off + 8].copy_from_slice(&1000u64.to_le_bytes());
    buf[dstream_off + 8..dstream_off + 16].copy_from_slice(&4096u64.to_le_bytes());

    let ino = InodeVal::decode(&buf).unwrap();
    assert_eq!(ino.parent_id, 1);
    assert_eq!(ino.private_id, 7);
    assert_eq!(ino.mode, 0o0100644);
    assert_eq!(ino.name.as_deref(), Some("abc"));
    let d = ino.dstream.expect("dstream xf should be present");
    assert_eq!(d.size, 1000);
    assert_eq!(d.alloced_size, 4096);
}

#[test]
fn decode_simple_obj_phys() {
    let mut buf = [0u8; 32];
    buf[0..8].copy_from_slice(&0x1122_3344_5566_7788u64.to_le_bytes());
    buf[8..16].copy_from_slice(&0x42u64.to_le_bytes());
    buf[16..24].copy_from_slice(&0xa5u64.to_le_bytes());
    buf[24..28].copy_from_slice(&(OBJECT_TYPE_NX_SUPERBLOCK | 0x8000_0000).to_le_bytes());
    buf[28..32].copy_from_slice(&7u32.to_le_bytes());
    let o = ObjPhys::decode(&buf).unwrap();
    assert_eq!(o.cksum, 0x1122_3344_5566_7788);
    assert_eq!(o.oid, 0x42);
    assert_eq!(o.xid, 0xa5);
    assert_eq!(o.obj_type(), OBJECT_TYPE_NX_SUPERBLOCK);
    assert_eq!(o.obj_flags(), 0x8000_0000);
    assert_eq!(o.subtype, 7);
}

#[test]
fn decode_rejects_short_buffer() {
    let buf = [0u8; 16];
    assert!(ObjPhys::decode(&buf).is_err());
}

#[test]
fn lookup_single_leaf_picks_latest_xid_below_target() {
    let block_size = 512usize;
    let root = build_omap_node(
        block_size,
        &[(5, 1, 0x100), (5, 3, 0x200), (5, 7, 0x300)],
        true,
        true,
    );
    // A device without blocks: the lookup in a single leaf reads none.
    let dev = MemoryBackend::new(0);
    let mut cache = NodeCache::new(NodeCache::DEFAULT_CAP);
    let v = lookup_with_cache(&root, 5, 5, &dev, &mut cache).unwrap();
    assert_eq!(v.unwrap().paddr, 0x200);
    let v = lookup_with_cache(&root, 5, 10, &dev, &mut cache).unwrap();
    assert_eq!(v.unwrap().paddr, 0x300);
    let v = lookup_with_cache(&root, 5, 0, &dev, &mut cache).unwrap();
    assert!(v.is_none());
    let v = lookup_with_cache(&root, 99, 5, &dev, &mut cache).unwrap();
    assert!(v.is_none());
}

#[test]
fn lookup_two_level_descends_to_correct_leaf() {
    let block_size = 512usize;
    let leaf_a = build_omap_node(block_size, &[(5, 1, 0x100), (5, 3, 0x200)], true, false);
    let leaf_b = build_omap_node(block_size, &[(9, 2, 0x900)], true, false);
    let root = build_omap_node(block_size, &[(5, 0, 10), (9, 0, 11)], false, true);
    let dev = device_with(block_size, &[(10, leaf_a), (11, leaf_b)]);
    let mut cache = NodeCache::new(NodeCache::DEFAULT_CAP);
    let v = lookup_with_cache(&root, 5, 3, &dev, &mut cache).unwrap();
    assert_eq!(v.unwrap().paddr, 0x200);
    let v = lookup_with_cache(&root, 9, 10, &dev, &mut cache).unwrap();
    assert_eq!(v.unwrap().paddr, 0x900);
    let v = lookup_with_cache(&root, 7, 10, &dev, &mut cache).unwrap();
    assert!(v.is_none());
}

#[test]
fn lookup_rejects_non_decreasing_levels() {
    let block_size = 512usize;
    let cyclic_child = build_omap_node(block_size, &[(5, 0, 10)], false, false);
    let root = build_omap_node(block_size, &[(5, 0, 10)], false, true);
    let dev = device_with(block_size, &[(10, cyclic_child)]);
    let mut cache = NodeCache::new(NodeCache::DEFAULT_CAP);
    let err = lookup_with_cache(&root, 5, 5, &dev, &mut cache);
    assert!(matches!(err, Err(Error::InvalidImage)));
}

#[test]
fn decode_omap_phys() {
    let mut buf = vec![0u8; 4096];
    buf[24..28].copy_from_slice(&OBJECT_TYPE_OMAP.to_le_bytes());
    buf[32..36].copy_from_slice(&1u32.to_le_bytes());
    buf[40..44].copy_from_slice(&0xeu32.to_le_bytes());
    buf[48..56].copy_from_slice(&0x1234u64.to_le_bytes());
    let o = OmapPhys::decode(&buf).unwrap();
    assert_eq!(o.tree_oid, 0x1234);
    assert_eq!(o.flags, 1);
}

#[test]
fn omap_key_val_decode() {
    let mut kb = [0u8; 16];
    kb[0..8].copy_from_slice(&7u64.to_le_bytes());
    kb[8..16].copy_from_slice(&9u64.to_le_bytes());
    let k = OmapKey::decode(&kb).unwrap();
    assert_eq!(k.oid, 7);
    assert_eq!(k.xid, 9);
    let mut vb = [0u8; 16];
    vb[0..4].copy_from_slice(&2u32.to_le_bytes());
    vb[4..8].copy_from_slice(&1u32.to_le_bytes());
    vb[8..16].copy_from_slice(&0x4000u64.to_le_bytes());
    let v = OmapVal::decode(&vb).unwrap();
    assert_eq!(v.flags, 2);
    assert_eq!(v.size, 1);
    assert_eq!(v.paddr, 0x4000);
}

#[test]
fn decode_snap_meta_key_basic() {
    let mut k = [0u8; 8];
    let hdr = ((APFS_TYPE_SNAP_METADATA as u64) << OBJ_TYPE_SHIFT) | 42u64;
    k.copy_from_slice(&hdr.to_le_bytes());
    let (kind, xid) = decode_snap_meta_key(&k).unwrap();
    assert_eq!(kind, APFS_TYPE_SNAP_METADATA);
    assert_eq!(xid, 42);
}

#[test]
fn decode_snap_meta_val_with_name() {
    let mut v = vec![0u8; SnapMetaVal::FIXED_PREFIX + 8];
    v[8..16].copy_from_slice(&0x1234u64.to_le_bytes());
    v[16..24].copy_from_slice(&100u64.to_le_bytes());
    v[48..50].copy_from_slice(&5u16.to_le_bytes());
    v[50..55].copy_from_slice(b"hi\0\0\0");
    let m = SnapMetaVal::decode(&v).unwrap();
    assert_eq!(m.sblock_oid, 0x1234);
    assert_eq!(m.create_time, 100);
    assert_eq!(m.name, "hi");
}

#[test]
fn decode_snap_name_val() {
    let mut v = [0u8; 8];
    v.copy_from_slice(&77u64.to_le_bytes());
    let n = SnapNameVal::decode(&v).unwrap();
    assert_eq!(n.snap_xid, 77);
}

#[test]
fn decode_nxsb_minimal() {
    let mut buf = vec![0u8; 4096];
    buf[24..28].copy_from_slice(&OBJECT_TYPE_NX_SUPERBLOCK.to_le_bytes());
    buf[32..36].copy_from_slice(&NX_MAGIC.to_le_bytes());
    buf[36..40].copy_from_slice(&4096u32.to_le_bytes());
    buf[40..48].copy_from_slice(&1234u64.to_le_bytes());
    buf[104..108].copy_from_slice(&8u32.to_le_bytes());
    buf[112..120].copy_from_slice(&1u64.to_le_bytes());
    buf[136..140].copy_from_slice(&2u32.to_le_bytes());
    buf[140..144].copy_from_slice(&3u32.to_le_bytes());
    buf[160..168].copy_from_slice(&0xfeu64.to_le_bytes());
    buf[180..184].copy_from_slice(&1u32.to_le_bytes());
    buf[184..192].copy_from_slice(&0x4242u64.to_le_bytes());
    let sb = NxSuperblock::decode(&buf).unwrap();
    assert_eq!(sb.magic, NX_MAGIC);
    assert_eq!(sb.block_size, 4096);
    assert_eq!(sb.block_count, 1234);
    assert_eq!(sb.xp_desc_blocks, 8);
    assert_eq!(sb.xp_desc_base, 1);
    assert_eq!(sb.xp_desc_index, 2);
    assert_eq!(sb.xp_desc_len, 3);
    assert_eq!(sb.omap_oid, 0xfe);
    assert_eq!(sb.max_file_systems, 1);
    assert_eq!(sb.fs_oid[0], 0x4242);
    assert_eq!(sb.fs_oid[1], 0);
}

#[test]
fn decode_nxsb_rejects_bad_magic() {
    let mut buf = vec![0u8; 4096];
    buf[24..28].copy_from_slice(&OBJECT_TYPE_NX_SUPERBLOCK.to_le_bytes());
    buf[32..36].copy_from_slice(&0xdead_beefu32.to_le_bytes());
    assert!(NxSuperblock::decode(&buf).is_err());
}

#[test]
fn decode_apsb_minimal() {
    let mut buf = vec![0u8; 4096];
    buf[32..36].copy_from_slice(&APFS_MAGIC.to_le_bytes());
    buf[128..136].copy_from_slice(&0x10u64.to_le_bytes());
    buf[136..144].copy_from_slice(&0x20u64.to_le_bytes());
    let name = b"Macintosh HD";
    buf[704..704 + name.len()].copy_from_slice(name);
    let sb = ApfsSuperblock::decode(&buf).unwrap();
    assert_eq!(sb.magic, APFS_MAGIC);
    assert_eq!(sb.omap_oid, 0x10);
    assert_eq!(sb.root_tree_oid, 0x20);
    assert_eq!(sb.volname, "Macintosh HD");
}

#[test]
fn folded_names_have_one_hash() {
    let upper = apfs_drec_name_len_and_hash("README", true);
    let lower = apfs_drec_name_len_and_hash("readme", true);
    assert_eq!(upper, lower);
    assert_ne!(
        apfs_drec_name_len_and_hash("README", false),
        apfs_drec_name_len_and_hash("readme", false)
    );
    // The low ten bits hold the length of the name with its end mark.
    assert_eq!(lower & J_DREC_LEN_MASK, 7);
}

#[test]
fn decomposed_names_have_the_hash_of_composed_ones() {
    let composed = apfs_drec_name_len_and_hash("\u{e9}", true);
    let decomposed = apfs_drec_name_len_and_hash("e\u{301}", true);
    assert_eq!(composed >> 10, decomposed >> 10);
}

#[test]
fn name_hash_is_a_crc_of_the_name() {
    // CRC-32C over the little-endian UTF-32 of "a".
    let crc = crc32c::crc32c(&[0x61u8, 0, 0, 0]);
    let h = apfs_drec_name_len_and_hash("a", false);
    assert_eq!(h >> 10, crc & 0x3f_ffff);
}

#[test]
fn directory_record_reads_back() {
    let r = build_drec_record(7, "note", 42, DT_REG, DrecKeyLayout::Hashed, true).ok().unwrap();
    let k = DrecKey::decode_hashed(&r.key).unwrap();
    assert_eq!((k.parent_oid, k.name.as_str()), (7, "note"));
    let v = DrecVal::decode(&r.val).unwrap();
    assert_eq!((v.file_id, v.dtype()), (42, DT_REG));
}

#[test]
fn modes_carry_their_kind() {
    assert_eq!(mode_reg(0o644), 0o100644);
    assert_eq!(mode_dir(0o755), 0o040755);
    assert_eq!(mode_lnk(0o777), 0o120777);
}

#[test]
fn oversized_attribute_is_refused() {
    assert!(build_xattr_record(2, "x", &vec![0u8; 3804]).is_ok());
    assert!(matches!(
        build_xattr_record(2, "x", &vec![0u8; 3805]),
        Err(Error::Unsupported)
    ));
}

#[test]
fn every_changed_byte_is_found() {
    let mut block: Vec<u8> = (0..64u8).map(|i| i.wrapping_mul(37)).collect();
    sign_block(&mut block);
    assert!(verify(&block));
    for i in 0..block.len() {
        for d in [1u8, 0x80, 0xff] {
            let mut other = block.clone();
            other[i] = other[i].wrapping_add(d);
            assert!(!verify(&other), "byte {i}");
        }
    }
}
