//! Container and volume superblocks.

use vstd::prelude::*;
use vstd::slice::slice_subrange;

use crate::apfs::obj::{self, ObjPhys, OBJECT_TYPE_NX_SUPERBLOCK};
use crate::bytes::{self, copy_range, find_nul, get_u32, get_u64};
use crate::error::{Error, Result};
use crate::text::{self, from_utf8_lossy};

verus! {

/// Value of `nx_magic` ("NXSB").
pub const NX_MAGIC: u32 = 0x4253_584e;

/// Value of `apfs_magic` ("APSB").
pub const APFS_MAGIC: u32 = 0x4253_5041;

/// Number of volume slots in a container superblock.
pub const NX_MAX_FILE_SYSTEMS: usize = 100;

/// Container superblock, the root object of a container.
///
/// ```text
///   32   nx_magic              u32
///   36   nx_block_size         u32
///   40   nx_block_count        u64
///   48   nx_features           u64
///   56   nx_readonly_compatible_features u64
///   64   nx_incompatible_features u64
///   72   nx_uuid               u8[16]
///   88   nx_next_oid           u64
///   96   nx_next_xid           u64
///  104   nx_xp_desc_blocks     u32
///  112   nx_xp_desc_base       u64
///  136   nx_xp_desc_index      u32
///  140   nx_xp_desc_len        u32
///  152   nx_spaceman_oid       u64
///  160   nx_omap_oid           u64
///  180   nx_max_file_systems   u32
///  184   nx_fs_oid             u64[100]
/// ```
#[derive(Debug)]
pub struct NxSuperblock {
    pub obj: ObjPhys,
    pub magic: u32,
    pub block_size: u32,
    pub block_count: u64,
    pub features: u64,
    pub readonly_compatible_features: u64,
    pub incompatible_features: u64,
    pub uuid: Vec<u8>,
    pub next_oid: u64,
    pub next_xid: u64,
    pub xp_desc_blocks: u32,
    pub xp_desc_base: u64,
    pub xp_desc_index: u32,
    pub xp_desc_len: u32,
    pub omap_oid: u64,
    pub max_file_systems: u32,
    /// All volume slots; zero means "no volume".
    pub fs_oid: Vec<u64>,
}

/// Whether `b` is a container superblock.
pub open spec fn is_nx(b: Seq<u8>) -> bool {
    &&& b.len() >= 984
    &&& obj::type_of(b) == OBJECT_TYPE_NX_SUPERBLOCK
    &&& bytes::get32(b, 32) == NX_MAGIC
}

/// The volume slots of the container superblock `b`.
pub open spec fn nx_fs_oid(b: Seq<u8>) -> Seq<u64> {
    Seq::new(100, |i: int| bytes::get64(b, 184 + 8 * i))
}

impl NxSuperblock {
    /// Bytes needed to decode every field.
    pub const MIN_SIZE: usize = 984;

    /// Whether every field is the one stored in `b`.
    pub open spec fn of(self, b: Seq<u8>) -> bool {
        &&& self.obj == obj::header(b)
        &&& self.magic == bytes::get32(b, 32)
        &&& self.block_size == bytes::get32(b, 36)
        &&& self.block_count == bytes::get64(b, 40)
        &&& self.features == bytes::get64(b, 48)
        &&& self.readonly_compatible_features == bytes::get64(b, 56)
        &&& self.incompatible_features == bytes::get64(b, 64)
        &&& self.uuid@ == b.subrange(72, 88)
        &&& self.next_oid == bytes::get64(b, 88)
        &&& self.next_xid == bytes::get64(b, 96)
        &&& self.xp_desc_blocks == bytes::get32(b, 104)
        &&& self.xp_desc_base == bytes::get64(b, 112)
        &&& self.xp_desc_index == bytes::get32(b, 136)
        &&& self.xp_desc_len == bytes::get32(b, 140)
        &&& self.omap_oid == bytes::get64(b, 160)
        &&& self.max_file_systems == bytes::get32(b, 180)
        &&& self.fs_oid@ == nx_fs_oid(b)
    }

    /// Decode a container superblock. The object type and the magic are
    /// checked; the checksum is not.
    pub fn decode(buf: &[u8]) -> (r: Result<Self>)
        ensures
            match r {
                Ok(sb) => is_nx(buf@) && sb.of(buf@),
                Err(e) => !is_nx(buf@) && e == Error::InvalidImage,
            },
    {
        if buf.len() < 984 {
            return Err(Error::InvalidImage);
        }
        let obj = ObjPhys::decode(buf)?;
        if obj.obj_type() != OBJECT_TYPE_NX_SUPERBLOCK {
            return Err(Error::InvalidImage);
        }
        let magic: u32 = get_u32(buf, 32);
        if magic != NX_MAGIC {
            return Err(Error::InvalidImage);
        }
        let mut fs_oid: Vec<u64> = Vec::new();
        let mut i: usize = 0;
        while i < NX_MAX_FILE_SYSTEMS
            invariant
                i <= 100,
                buf@.len() >= 984,
                fs_oid@ == Seq::new(i as nat, |k: int| bytes::get64(buf@, 184 + 8 * k)),
            decreases 100 - i,
        {
            fs_oid.push(get_u64(buf, 184 + i * 8));
            i = i + 1;
            proof {
                assert(fs_oid@ =~= Seq::new(i as nat, |k: int| bytes::get64(buf@, 184 + 8 * k)));
            }
        }
        Ok(
            NxSuperblock {
                obj,
                magic,
                block_size: get_u32(buf, 36),
                block_count: get_u64(buf, 40),
                features: get_u64(buf, 48),
                readonly_compatible_features: get_u64(buf, 56),
                incompatible_features: get_u64(buf, 64),
                uuid: copy_range(buf, 72, 88),
                next_oid: get_u64(buf, 88),
                next_xid: get_u64(buf, 96),
                xp_desc_blocks: get_u32(buf, 104),
                xp_desc_base: get_u64(buf, 112),
                xp_desc_index: get_u32(buf, 136),
                xp_desc_len: get_u32(buf, 140),
                omap_oid: get_u64(buf, 160),
                max_file_systems: get_u32(buf, 180),
                fs_oid,
            },
        )
    }
}

/// Volume superblock, the root of one volume inside a container.
///
/// ```text
///   32   apfs_magic            u32
///   36   apfs_fs_index         u32
///   40   apfs_features         u64
///   48   apfs_readonly_compatible_features u64
///   56   apfs_incompatible_features u64
///  116   apfs_root_tree_type   u32
///  120   apfs_extentref_tree_type u32
///  124   apfs_snap_meta_tree_type u32
///  128   apfs_omap_oid         u64
///  136   apfs_root_tree_oid    u64
///  144   apfs_extentref_tree_oid u64
///  152   apfs_snap_meta_tree_oid u64
///  176   apfs_next_obj_id      u64
///  184   apfs_num_files        u64
///  192   apfs_num_directories  u64
///  200   apfs_num_symlinks     u64
///  240   apfs_vol_uuid         u8[16]
///  264   apfs_fs_flags         u64
///  704   apfs_volname          u8[256], NUL-terminated UTF-8
///  960   apfs_next_doc_id      u32
///  964   apfs_role             u16
/// ```
#[derive(Debug)]
pub struct ApfsSuperblock {
    pub obj: ObjPhys,
    pub magic: u32,
    pub fs_index: u32,
    pub features: u64,
    pub readonly_compatible_features: u64,
    pub incompatible_features: u64,
    pub root_tree_type: u32,
    pub extentref_tree_type: u32,
    pub snap_meta_tree_type: u32,
    pub omap_oid: u64,
    pub root_tree_oid: u64,
    pub extentref_tree_oid: u64,
    pub snap_meta_tree_oid: u64,
    pub num_files: u64,
    pub num_directories: u64,
    pub num_symlinks: u64,
    pub vol_uuid: Vec<u8>,
    pub fs_flags: u64,
    /// Volume name up to its first NUL.
    pub volname: String,
}

/// Whether `b` is a volume superblock.
pub open spec fn is_apsb(b: Seq<u8>) -> bool {
    &&& b.len() >= 960
    &&& bytes::get32(b, 32) == APFS_MAGIC
}

/// The bytes of the volume name stored in `b`, up to the first NUL.
pub open spec fn volname_bytes(b: Seq<u8>) -> Seq<u8> {
    bytes::until_nul(b.subrange(704, 960))
}

impl ApfsSuperblock {
    /// Bytes needed to decode every field.
    pub const MIN_SIZE: usize = 960;

    /// Whether every field is the one stored in `b`.
    pub open spec fn of(self, b: Seq<u8>) -> bool {
        &&& self.obj == obj::header(b)
        &&& self.magic == bytes::get32(b, 32)
        &&& self.fs_index == bytes::get32(b, 36)
        &&& self.features == bytes::get64(b, 40)
        &&& self.readonly_compatible_features == bytes::get64(b, 48)
        &&& self.incompatible_features == bytes::get64(b, 56)
        &&& self.root_tree_type == bytes::get32(b, 116)
        &&& self.extentref_tree_type == bytes::get32(b, 120)
        &&& self.snap_meta_tree_type == bytes::get32(b, 124)
        &&& self.omap_oid == bytes::get64(b, 128)
        &&& self.root_tree_oid == bytes::get64(b, 136)
        &&& self.extentref_tree_oid == bytes::get64(b, 144)
        &&& self.snap_meta_tree_oid == bytes::get64(b, 152)
        &&& self.num_files == bytes::get64(b, 184)
        &&& self.num_directories == bytes::get64(b, 192)
        &&& self.num_symlinks == bytes::get64(b, 200)
        &&& self.vol_uuid@ == b.subrange(240, 256)
        &&& self.fs_flags == bytes::get64(b, 264)
        &&& self.volname@ == text::text_of(volname_bytes(b))
    }

    /// Decode a volume superblock. Only the magic is checked.
    pub fn decode(buf: &[u8]) -> (r: Result<Self>)
        ensures
            match r {
                Ok(sb) => is_apsb(buf@) && sb.of(buf@),
                Err(e) => !is_apsb(buf@) && e == Error::InvalidImage,
            },
    {
        if buf.len() < 960 {
            return Err(Error::InvalidImage);
        }
        let obj = ObjPhys::decode(buf)?;
        let magic: u32 = get_u32(buf, 32);
        if magic != APFS_MAGIC {
            return Err(Error::InvalidImage);
        }
        let raw = slice_subrange(buf, 704, 960);
        let end: usize = find_nul(raw);
        let volname = from_utf8_lossy(slice_subrange(raw, 0, end));
        Ok(
            ApfsSuperblock {
                obj,
                magic,
                fs_index: get_u32(buf, 36),
                features: get_u64(buf, 40),
                readonly_compatible_features: get_u64(buf, 48),
                incompatible_features: get_u64(buf, 56),
                root_tree_type: get_u32(buf, 116),
                extentref_tree_type: get_u32(buf, 120),
                snap_meta_tree_type: get_u32(buf, 124),
                omap_oid: get_u64(buf, 128),
                root_tree_oid: get_u64(buf, 136),
                extentref_tree_oid: get_u64(buf, 144),
                snap_meta_tree_oid: get_u64(buf, 152),
                num_files: get_u64(buf, 184),
                num_directories: get_u64(buf, 192),
                num_symlinks: get_u64(buf, 200),
                vol_uuid: copy_range(buf, 240, 256),
                fs_flags: get_u64(buf, 264),
                volname,
            },
        )
    }
}

} // verus!
