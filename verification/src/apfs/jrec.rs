//! Records of the filesystem tree.
//!
//! Every key starts with a 64-bit word whose high 4 bits are the record kind
//! and whose low 60 bits are the object id. All fields are little-endian.

use vstd::prelude::*;
use vstd::slice::slice_subrange;

use crate::bytes::{self, find_nul, get_u16, get_u32, get_u64};
use crate::error::{self, Error, Result};
use crate::text::{self, from_utf8_lossy};

verus! {

/// Mask isolating the object id of a key (low 60 bits).
pub const OBJ_ID_MASK: u64 = 0x0fff_ffff_ffff_ffff;

/// Position of the record kind in a key.
pub const OBJ_TYPE_SHIFT: u32 = 60;

/// Weight of the record kind in a key: two to the power of [`OBJ_TYPE_SHIFT`].
pub const KIND_UNIT: u64 = 0x1000_0000_0000_0000;

pub const APFS_TYPE_SNAP_METADATA: u8 = 1;

pub const APFS_TYPE_EXTENT: u8 = 2;

pub const APFS_TYPE_INODE: u8 = 3;

pub const APFS_TYPE_XATTR: u8 = 4;

pub const APFS_TYPE_SIBLING_LINK: u8 = 5;

pub const APFS_TYPE_DSTREAM_ID: u8 = 6;

pub const APFS_TYPE_CRYPTO_STATE: u8 = 7;

pub const APFS_TYPE_FILE_EXTENT: u8 = 8;

pub const APFS_TYPE_DIR_REC: u8 = 9;

pub const APFS_TYPE_DIR_STATS: u8 = 10;

pub const APFS_TYPE_SNAP_NAME: u8 = 11;

pub const APFS_TYPE_SIBLING_MAP: u8 = 12;

pub const INO_EXT_TYPE_NAME: u8 = 4;

pub const INO_EXT_TYPE_DSTREAM: u8 = 8;

/// Mask isolating the length in a file extent (low 56 bits).
pub const J_FILE_EXTENT_LEN_MASK: u64 = 0x00ff_ffff_ffff_ffff;

/// Mask isolating the file type in the flags of a directory record (low 8 bits).
pub const DREC_TYPE_MASK: u16 = 0x00ff;

pub const DT_UNKNOWN: u16 = 0;

pub const DT_FIFO: u16 = 1;

pub const DT_CHR: u16 = 2;

pub const DT_DIR: u16 = 4;

pub const DT_BLK: u16 = 6;

pub const DT_REG: u16 = 8;

pub const DT_LNK: u16 = 10;

pub const DT_SOCK: u16 = 12;

pub const DT_WHT: u16 = 14;

/// Fixed part of an inode value; extended fields follow.
pub const J_INODE_VAL_FIXED_SIZE: usize = 92;

/// Mask isolating the name length in a hashed directory key (low 10 bits).
pub const J_DREC_LEN_MASK: u32 = 0x0000_03ff;

/// Record kind of the key word `raw`.
pub open spec fn kind_of(raw: u64) -> u8 {
    (raw / KIND_UNIT) as u8
}

/// Object id of the key word `raw`.
pub open spec fn oid_of(raw: u64) -> u64 {
    raw % KIND_UNIT
}

/// The key word of a record of kind `kind` under object `oid`.
pub open spec fn key_word(kind: u8, oid: u64) -> u64 {
    (kind * KIND_UNIT + oid % KIND_UNIT) as u64
}

/// Object id of a record key.
pub open spec fn key_oid(key: Seq<u8>) -> u64 {
    oid_of(bytes::get64(key, 0))
}

/// Record kind of a record key.
pub open spec fn key_kind(key: Seq<u8>) -> u8 {
    kind_of(bytes::get64(key, 0))
}

/// A key word splits into the kind and the id it was made of.
pub proof fn lemma_key_word(kind: u8, oid: u64)
    requires
        kind < 16,
    ensures
        kind_of(key_word(kind, oid)) == kind,
        oid_of(key_word(kind, oid)) == oid % KIND_UNIT,
        key_word(kind, oid) as int == kind * KIND_UNIT + oid % KIND_UNIT,
{
    let q = kind as int;
    let r = (oid % KIND_UNIT) as int;
    assert(q * 0x1000_0000_0000_0000 + r <= u64::MAX);
}

/// Split a key word into record kind and object id.
pub fn split_obj_id(raw: u64) -> (r: (u8, u64))
    ensures
        r.0 == kind_of(raw),
        r.1 == oid_of(raw),
        r.0 < 16,
        r.0 as int == raw as int / 0x1000_0000_0000_0000,
{
    assert(raw >> 60u32 == raw / 0x1000_0000_0000_0000) by (bit_vector);
    assert(raw & 0x0fff_ffff_ffff_ffff == raw % 0x1000_0000_0000_0000) by (bit_vector);
    let kind: u8 = (raw >> OBJ_TYPE_SHIFT) as u8;
    let oid: u64 = raw & OBJ_ID_MASK;
    (kind, oid)
}

/// Join a record kind and an object id into a key word.
pub fn join_obj_id(kind: u8, oid: u64) -> (r: u64)
    requires
        kind < 16,
    ensures
        r == key_word(kind, oid),
        kind_of(r) == kind,
        oid_of(r) == oid % KIND_UNIT,
{
    proof {
        lemma_key_word(kind, oid);
    }
    (kind as u64) * KIND_UNIT + oid % KIND_UNIT
}

/// Default data stream of an inode.
#[derive(Clone, Copy, Debug, PartialEq, Eq, Structural)]
pub struct DstreamXf {
    pub size: u64,
    pub alloced_size: u64,
}

/// The data stream that the field value `b` describes.
pub open spec fn dstream_of(b: Seq<u8>) -> Option<DstreamXf> {
    if b.len() < 16 {
        None
    } else {
        Some(DstreamXf { size: bytes::get64(b, 0), alloced_size: bytes::get64(b, 8) })
    }
}

impl DstreamXf {
    /// Size of the field on disk.
    pub const SIZE: usize = 40;

    fn decode(buf: &[u8]) -> (r: Option<Self>)
        ensures
            r == dstream_of(buf@),
    {
        if buf.len() < 16 {
            return None;
        }
        Some(DstreamXf { size: get_u64(buf, 0), alloced_size: get_u64(buf, 8) })
    }
}

/// What the extended fields of an inode amount to after some prefix of them.
pub struct Xfields {
    /// Offset of the next value inside the value area.
    pub rel: int,
    /// Set once a value runs past the end; the rest is ignored.
    pub stopped: bool,
    pub name: Option<Seq<char>>,
    pub dstream: Option<DstreamXf>,
}

/// Extended fields `0..i` of the blob `b`: a count, then one 4-byte descriptor
/// per field (kind, flags, size), then the values, each starting at an offset
/// that is a multiple of 8. The last name and the last data stream count.
pub open spec fn xfields_upto(b: Seq<u8>, i: nat) -> Xfields
    decreases i,
{
    if i == 0 {
        Xfields { rel: 0, stopped: false, name: None, dstream: None }
    } else {
        let p = xfields_upto(b, (i - 1) as nat);
        let d = 4 + 4 * (i - 1);
        let size = bytes::get16(b, d + 2) as int;
        let at = 4 + 4 * bytes::get16(b, 0) + p.rel;
        if p.stopped || at + size > b.len() {
            Xfields { stopped: true, ..p }
        } else {
            let v = b.subrange(at, at + size);
            Xfields {
                rel: (p.rel + size + 7) / 8 * 8,
                stopped: false,
                name: if b[d] == INO_EXT_TYPE_NAME {
                    Some(text::text_of(bytes::until_nul(v)))
                } else {
                    p.name
                },
                dstream: if b[d] == INO_EXT_TYPE_DSTREAM {
                    dstream_of(v)
                } else {
                    p.dstream
                },
            }
        }
    }
}

/// Name and data stream recorded in the extended-field blob `b`.
pub open spec fn xfields(b: Seq<u8>) -> (Option<Seq<char>>, Option<DstreamXf>) {
    if b.len() < 4 || 4 + 4 * bytes::get16(b, 0) > b.len() {
        (None, None)
    } else {
        let x = xfields_upto(b, bytes::get16(b, 0) as nat);
        (x.name, x.dstream)
    }
}

/// The view of an optional string.
pub open spec fn opt_text(s: Option<String>) -> Option<Seq<char>> {
    match s {
        Some(t) => Some(t@),
        None => None,
    }
}

proof fn lemma_xfields_stopped(b: Seq<u8>, i: nat, n: nat)
    requires
        i <= n,
        xfields_upto(b, i).stopped,
    ensures
        xfields_upto(b, n) == xfields_upto(b, i),
    decreases n - i,
{
    if i < n {
        lemma_xfields_stopped(b, i, (n - 1) as nat);
    }
}

/// Pull the name and the data stream out of an extended-field blob.
fn parse_inode_xfields(buf: &[u8]) -> (r: (Option<String>, Option<DstreamXf>))
    ensures
        (opt_text(r.0), r.1) == xfields(buf@),
{
    if buf.len() < 4 {
        return (None, None);
    }
    let num_exts: usize = get_u16(buf, 0) as usize;
    let val_area: usize = 4 + num_exts * 4;
    if val_area > buf.len() {
        return (None, None);
    }
    let mut rel: usize = 0;
    let mut name: Option<String> = None;
    let mut dstream: Option<DstreamXf> = None;
    let mut i: usize = 0;
    while i < num_exts
        invariant
            num_exts == bytes::get16(buf@, 0),
            val_area == 4 + num_exts * 4,
            val_area <= buf@.len(),
            i <= num_exts,
            num_exts <= 0xffff,
            rel <= i * 0x1_0007,
            ({
                let x = xfields_upto(buf@, i as nat);
                &&& !x.stopped
                &&& x.rel == rel
                &&& x.name == opt_text(name)
                &&& x.dstream == dstream
            }),
        decreases num_exts - i,
    {
        let d: usize = 4 + i * 4;
        let xtype: u8 = buf[d];
        let xsize: usize = get_u16(buf, d + 2) as usize;
        assert(i * 0x1_0007 <= 0xffff * 0x1_0007) by (nonlinear_arith)
            requires
                i <= 0xffff,
        ;
        if val_area as u64 + rel as u64 + xsize as u64 > buf.len() as u64 {
            proof {
                lemma_xfields_stopped(buf@, (i + 1) as nat, num_exts as nat);
            }
            return (name, dstream);
        }
        let abs: usize = val_area + rel;
        let val = slice_subrange(buf, abs, abs + xsize);
        if xtype == INO_EXT_TYPE_NAME {
            let end: usize = find_nul(val);
            name = Some(from_utf8_lossy(slice_subrange(val, 0, end)));
        } else if xtype == INO_EXT_TYPE_DSTREAM {
            dstream = DstreamXf::decode(val);
        }
        assert(abs + xsize <= buf.len());
        rel = ((rel as u64 + xsize as u64 + 7) / 8 * 8) as usize;
        i = i + 1;
    }
    (name, dstream)
}

/// A decoded inode value.
///
/// ```text
///   0  parent_id           u64
///   8  private_id          u64
///  16  create_time         u64   nanoseconds since 1970-01-01
///  24  mod_time            u64
///  32  change_time         u64
///  40  access_time         u64
///  48  internal_flags      u64
///  56  nchildren / nlink   i32
///  72  owner               u32
///  76  group               u32
///  80  mode                u16
///  84  uncompressed_size   u64
///  92  xfields[]
/// ```
#[derive(Debug)]
pub struct InodeVal {
    pub parent_id: u64,
    pub private_id: u64,
    pub create_time: u64,
    pub mod_time: u64,
    pub change_time: u64,
    pub access_time: u64,
    pub internal_flags: u64,
    pub nchildren_or_nlink: i32,
    pub owner: u32,
    pub group: u32,
    pub mode: u16,
    pub uncompressed_size: u64,
    /// File name recorded with the inode, up to its first NUL.
    pub name: Option<String>,
    /// Default data stream recorded with the inode.
    pub dstream: Option<DstreamXf>,
}

/// The data stream recorded in the inode value `b`.
pub open spec fn inode_dstream(b: Seq<u8>) -> Option<DstreamXf> {
    xfields(b.subrange(92, b.len() as int)).1
}

impl InodeVal {
    /// Whether every field is the one stored in `b`.
    pub open spec fn of(self, b: Seq<u8>) -> bool {
        &&& self.parent_id == bytes::get64(b, 0)
        &&& self.private_id == bytes::get64(b, 8)
        &&& self.create_time == bytes::get64(b, 16)
        &&& self.mod_time == bytes::get64(b, 24)
        &&& self.change_time == bytes::get64(b, 32)
        &&& self.access_time == bytes::get64(b, 40)
        &&& self.internal_flags == bytes::get64(b, 48)
        &&& self.nchildren_or_nlink == bytes::get32(b, 56) as i32
        &&& self.owner == bytes::get32(b, 72)
        &&& self.group == bytes::get32(b, 76)
        &&& self.mode == bytes::get16(b, 80)
        &&& self.uncompressed_size == bytes::get64(b, 84)
        &&& opt_text(self.name) == xfields(b.subrange(92, b.len() as int)).0
        &&& self.dstream == inode_dstream(b)
    }

    /// Decode an inode value.
    pub fn decode(buf: &[u8]) -> (r: Result<Self>)
        ensures
            match r {
                Ok(v) => buf@.len() >= 92 && v.of(buf@),
                Err(e) => buf@.len() < 92 && e == Error::InvalidImage,
            },
    {
        if buf.len() < J_INODE_VAL_FIXED_SIZE {
            return Err(Error::InvalidImage);
        }
        let (name, dstream) = parse_inode_xfields(
            slice_subrange(buf, J_INODE_VAL_FIXED_SIZE, buf.len()),
        );
        Ok(
            InodeVal {
                parent_id: get_u64(buf, 0),
                private_id: get_u64(buf, 8),
                create_time: get_u64(buf, 16),
                mod_time: get_u64(buf, 24),
                change_time: get_u64(buf, 32),
                access_time: get_u64(buf, 40),
                internal_flags: get_u64(buf, 48),
                nchildren_or_nlink: get_u32(buf, 56) as i32,
                owner: get_u32(buf, 72),
                group: get_u32(buf, 76),
                mode: get_u16(buf, 80),
                uncompressed_size: get_u64(buf, 84),
                name,
                dstream,
            },
        )
    }
}

/// A decoded directory-record key.
#[derive(Debug)]
pub struct DrecKey {
    pub parent_oid: u64,
    pub name: String,
}

impl View for DrecKey {
    type V = (u64, Seq<char>);

    open spec fn view(&self) -> (u64, Seq<char>) {
        (self.parent_oid, self.name@)
    }
}

/// Parent id and name of the hashed directory key `b`: key word, a 32-bit word
/// whose low 10 bits are the name length with its NUL, the name.
pub open spec fn drec_hashed(b: Seq<u8>) -> Result<(u64, Seq<char>)> {
    let n = bytes::get32(b, 8) % 0x400;
    if b.len() < 12 || key_kind(b) != APFS_TYPE_DIR_REC || n == 0 || 12 + n > b.len() {
        Err(Error::InvalidImage)
    } else {
        Ok((key_oid(b), text::text_of(bytes::until_nul(b.subrange(12, 12 + n)))))
    }
}

/// Parent id and name of the plain directory key `b`: key word, 16-bit name
/// length with its NUL, the name.
pub open spec fn drec_plain(b: Seq<u8>) -> Result<(u64, Seq<char>)> {
    let n = bytes::get16(b, 8);
    if b.len() < 10 || key_kind(b) != APFS_TYPE_DIR_REC || n == 0 || 10 + n > b.len() {
        Err(Error::InvalidImage)
    } else {
        Ok((key_oid(b), text::text_of(bytes::until_nul(b.subrange(10, 10 + n)))))
    }
}

impl DrecKey {
    /// Decode a key that carries a name hash.
    pub fn decode_hashed(buf: &[u8]) -> (r: Result<Self>)
        ensures
            error::view_of(r) == drec_hashed(buf@),
    {
        if buf.len() < 12 {
            return Err(Error::InvalidImage);
        }
        let (kind, oid) = split_obj_id(get_u64(buf, 0));
        if kind != APFS_TYPE_DIR_REC {
            return Err(Error::InvalidImage);
        }
        let nh: u32 = get_u32(buf, 8);
        assert(nh & 0x0000_03ff == nh % 0x400) by (bit_vector);
        let nlen: usize = (nh & J_DREC_LEN_MASK) as usize;
        if 12 + nlen > buf.len() || nlen == 0 {
            return Err(Error::InvalidImage);
        }
        let raw = slice_subrange(buf, 12, 12 + nlen);
        let end: usize = find_nul(raw);
        Ok(DrecKey { parent_oid: oid, name: from_utf8_lossy(slice_subrange(raw, 0, end)) })
    }

    /// Decode a key without a name hash.
    pub fn decode_plain(buf: &[u8]) -> (r: Result<Self>)
        ensures
            error::view_of(r) == drec_plain(buf@),
    {
        if buf.len() < 10 {
            return Err(Error::InvalidImage);
        }
        let (kind, oid) = split_obj_id(get_u64(buf, 0));
        if kind != APFS_TYPE_DIR_REC {
            return Err(Error::InvalidImage);
        }
        let nlen: usize = get_u16(buf, 8) as usize;
        if 10 + nlen > buf.len() || nlen == 0 {
            return Err(Error::InvalidImage);
        }
        let raw = slice_subrange(buf, 10, 10 + nlen);
        let end: usize = find_nul(raw);
        Ok(DrecKey { parent_oid: oid, name: from_utf8_lossy(slice_subrange(raw, 0, end)) })
    }
}

/// A decoded directory-record value: the target inode and the type flags.
#[derive(Clone, Copy, Debug, PartialEq, Eq, Structural)]
pub struct DrecVal {
    pub file_id: u64,
    pub flags: u16,
}

/// The directory-record value stored in `b`.
pub open spec fn drec_val(b: Seq<u8>) -> Result<DrecVal> {
    if b.len() < 18 {
        Err(Error::InvalidImage)
    } else {
        Ok(DrecVal { file_id: bytes::get64(b, 0), flags: bytes::get16(b, 16) })
    }
}

impl DrecVal {
    /// Decode a directory-record value.
    pub fn decode(buf: &[u8]) -> (r: Result<Self>)
        ensures
            r == drec_val(buf@),
    {
        if buf.len() < 18 {
            return Err(Error::InvalidImage);
        }
        Ok(DrecVal { file_id: get_u64(buf, 0), flags: get_u16(buf, 16) })
    }

    /// The file-type code.
    pub fn dtype(&self) -> (r: u16)
        ensures
            r == self.flags % 0x100,
            r == self.flags & DREC_TYPE_MASK,
    {
        let f: u16 = self.flags;
        assert(f & 0x00ff == f % 0x100) by (bit_vector);
        f & DREC_TYPE_MASK
    }
}

/// A decoded file-extent key.
#[derive(Clone, Copy, Debug, PartialEq, Eq, Structural)]
pub struct FileExtentKey {
    pub oid: u64,
    pub logical_addr: u64,
}

/// The file-extent key stored in `b`.
pub open spec fn extent_key(b: Seq<u8>) -> Result<FileExtentKey> {
    if b.len() < 16 || key_kind(b) != APFS_TYPE_FILE_EXTENT {
        Err(Error::InvalidImage)
    } else {
        Ok(FileExtentKey { oid: key_oid(b), logical_addr: bytes::get64(b, 8) })
    }
}

impl FileExtentKey {
    /// Decode a file-extent key.
    pub fn decode(buf: &[u8]) -> (r: Result<Self>)
        ensures
            r == extent_key(buf@),
    {
        if buf.len() < 16 {
            return Err(Error::InvalidImage);
        }
        let (kind, oid) = split_obj_id(get_u64(buf, 0));
        if kind != APFS_TYPE_FILE_EXTENT {
            return Err(Error::InvalidImage);
        }
        Ok(FileExtentKey { oid, logical_addr: get_u64(buf, 8) })
    }
}

/// A decoded file-extent value. Block zero means a sparse extent.
#[derive(Clone, Copy, Debug, PartialEq, Eq, Structural)]
pub struct FileExtentVal {
    pub length: u64,
    pub phys_block_num: u64,
}

/// The file-extent value stored in `b`: the low 56 bits of the first word are
/// the length.
pub open spec fn extent_val(b: Seq<u8>) -> Result<FileExtentVal> {
    if b.len() < 24 {
        Err(Error::InvalidImage)
    } else {
        Ok(
            FileExtentVal {
                length: bytes::get64(b, 0) % 0x0100_0000_0000_0000,
                phys_block_num: bytes::get64(b, 8),
            },
        )
    }
}

impl FileExtentVal {
    /// Decode a file-extent value.
    pub fn decode(buf: &[u8]) -> (r: Result<Self>)
        ensures
            r == extent_val(buf@),
    {
        if buf.len() < 24 {
            return Err(Error::InvalidImage);
        }
        let lf: u64 = get_u64(buf, 0);
        assert(lf & 0x00ff_ffff_ffff_ffff == lf % 0x0100_0000_0000_0000) by (bit_vector);
        Ok(FileExtentVal { length: lf & J_FILE_EXTENT_LEN_MASK, phys_block_num: get_u64(buf, 8) })
    }
}

} // verus!
