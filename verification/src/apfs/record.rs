//! Building the records of the filesystem tree.

use caseless::Caseless;
use unicode_normalization::UnicodeNormalization;
use vstd::prelude::*;

use crate::apfs::fstree::DrecKeyLayout;
use crate::apfs::jrec::{
    self, join_obj_id, APFS_TYPE_DIR_REC, APFS_TYPE_DSTREAM_ID, APFS_TYPE_FILE_EXTENT,
    APFS_TYPE_INODE, APFS_TYPE_XATTR, INO_EXT_TYPE_DSTREAM, J_INODE_VAL_FIXED_SIZE,
};
use crate::bytes::{self, le_u16, le_u32, le_u64, push_all, put_u16, put_u32, put_u64, zero_vec};
use crate::error::{Error, Result};
use crate::num::{self, div_ceil};
use crate::text;

verus! {

/// Largest value of an extended attribute that is stored in its record.
pub const APFS_XATTR_MAX_EMBEDDED_SIZE: usize = 3804;

/// Flag of an extended attribute whose value is stored in its record.
pub const XATTR_DATA_EMBEDDED: u16 = 0x0002;

/// One record: key and value bytes.
pub struct FsRecord {
    pub key: Vec<u8>,
    pub val: Vec<u8>,
}

impl View for FsRecord {
    type V = (Seq<u8>, Seq<u8>);

    open spec fn view(&self) -> (Seq<u8>, Seq<u8>) {
        (self.key@, self.val@)
    }
}

/// The views of a list of records.
pub open spec fn recs(s: Seq<FsRecord>) -> Seq<(Seq<u8>, Seq<u8>)> {
    Seq::new(s.len(), |i: int| s[i]@)
}

// ---- names ----

/// The characters that `UnicodeNormalization::nfd` yields for a text.
pub uninterp spec fn nfd_text(s: Seq<char>) -> Seq<char>;

/// Wraps `UnicodeNormalization::nfd`: the canonical decomposition of `s`, a
/// function of its characters alone. What it is on given characters is left
/// unsaid.
#[verifier::external_body]
fn nfd(s: &str) -> (r: Vec<char>)
    ensures
        r@ == nfd_text(s@),
{
    s.nfd().collect()
}

/// The characters that `Caseless::default_case_fold` yields for a text.
pub uninterp spec fn folded_text(s: Seq<char>) -> Seq<char>;

/// Wraps `Caseless::default_case_fold`: the default case folding of `s`, a
/// function of its characters alone. What it is on given characters is left
/// unsaid.
#[verifier::external_body]
fn case_fold(s: Vec<char>) -> (r: Vec<char>)
    ensures
        r@ == folded_text(s@),
{
    s.into_iter().default_case_fold().collect()
}

/// The value that `crc32c::crc32c` computes for a byte string.
pub uninterp spec fn crc32c_of(b: Seq<u8>) -> u32;

/// Wraps `crc32c::crc32c`: the CRC-32C of `b`, a function of its bytes alone.
/// What it is on given bytes is left unsaid.
#[verifier::external_body]
fn crc32c(b: &[u8]) -> (r: u32)
    ensures
        r == crc32c_of(b@),
{
    crc32c::crc32c(b)
}

/// The UTF-32 encoding of `s`, little-endian.
pub open spec fn utf32(s: Seq<char>) -> Seq<u8>
    decreases s.len(),
{
    if s.len() == 0 {
        Seq::empty()
    } else {
        utf32(s.drop_last()) + bytes::le32(s.last() as u32)
    }
}

/// Encode characters as UTF-32, little-endian.
pub fn utf32_le(s: &[char]) -> (r: Vec<u8>)
    ensures
        r@ == utf32(s@),
{
    let mut out: Vec<u8> = Vec::new();
    let mut i: usize = 0;
    while i < s.len()
        invariant
            i <= s@.len(),
            out@ == utf32(s@.take(i as int)),
        decreases s@.len() - i,
    {
        let w = le_u32(s[i] as u32);
        push_all(&mut out, w.as_slice());
        i = i + 1;
        proof {
            assert(s@.take(i as int).drop_last() =~= s@.take(i - 1));
        }
    }
    proof {
        assert(s@.take(i as int) =~= s@);
    }
    out
}

/// Low 22 bits of `crc` above the low 10 bits of the name length with its NUL.
pub open spec fn packed_hash(crc: u32, name_len: int) -> u32 {
    (crc % 0x40_0000 * 0x400 + (name_len + 1) % 0x400) as u32
}

/// Pack a name hash and the length of the name in bytes.
pub fn pack_name_hash(crc: u32, name_len: usize) -> (r: u32)
    ensures
        r == packed_hash(crc, name_len as int),
        r / 0x400 == crc % 0x40_0000,
        r % 0x400 == (name_len + 1) % 0x400,
{
    let n: u32 = ((name_len % 0x400 + 1) % 0x400) as u32;
    crc % 0x40_0000 * 0x400 + n
}

/// The name word of a hashed directory key: the CRC-32C of the decomposed (and
/// case-folded) name in UTF-32, packed with the name length.
pub open spec fn name_word(name: Seq<char>, case_fold: bool) -> u32 {
    let chars = if case_fold {
        folded_text(nfd_text(name))
    } else {
        nfd_text(name)
    };
    packed_hash(crc32c_of(utf32(chars)), text::utf8(name).len() as int)
}

/// Compute the name word of a hashed directory key.
pub fn apfs_drec_name_len_and_hash(name: &str, fold: bool) -> (r: u32)
    ensures
        r == name_word(name@, fold),
{
    let mut chars = nfd(name);
    if fold {
        chars = case_fold(chars);
    }
    let b = utf32_le(chars.as_slice());
    pack_name_hash(crc32c(b.as_slice()), name.as_bytes().len())
}

// ---- directory records ----

/// Key of the directory record of `name` under `parent`.
pub open spec fn drec_key(
    parent: u64,
    name: Seq<char>,
    layout: DrecKeyLayout,
    case_fold: bool,
) -> Seq<u8> {
    let b = text::utf8(name);
    let head = bytes::le64(jrec::key_word(APFS_TYPE_DIR_REC, parent));
    match layout {
        DrecKeyLayout::Plain => head + bytes::le16((b.len() + 1) as u16) + b + seq![0u8],
        DrecKeyLayout::Hashed => head + bytes::le32(name_word(name, case_fold)) + b + seq![0u8],
    }
}

/// Value of a directory record: target, a zero date, type flags.
pub open spec fn drec_value(target: u64, dtype: u16) -> Seq<u8> {
    bytes::put(bytes::put(bytes::zeros(18), 0, bytes::le64(target)), 16, bytes::le16(dtype))
}

/// Longest name, with its NUL, that a directory key can hold.
pub open spec fn drec_name_limit(layout: DrecKeyLayout) -> int {
    match layout {
        DrecKeyLayout::Plain => 0xffff,
        DrecKeyLayout::Hashed => 0x3ff,
    }
}

/// Build the directory record of `name` under `parent_oid`.
pub fn build_drec_record(
    parent_oid: u64,
    name: &str,
    target_oid: u64,
    dtype: u16,
    layout: DrecKeyLayout,
    case_fold: bool,
) -> (r: Result<FsRecord>)
    ensures
        match r {
            Ok(rec) => {
                &&& text::utf8(name@).len() + 1 <= drec_name_limit(layout)
                &&& rec@ == (
                    drec_key(parent_oid, name@, layout, case_fold),
                    drec_value(target_oid, dtype),
                )
            },
            Err(e) => e == Error::InvalidArgument && text::utf8(name@).len() + 1 > drec_name_limit(
                layout,
            ),
        },
{
    let b = name.as_bytes();
    let n: u64 = b.len() as u64;
    let mut key: Vec<u8> = le_u64(join_obj_id(APFS_TYPE_DIR_REC, parent_oid));
    match layout {
        DrecKeyLayout::Plain => {
            if n >= 0xffff {
                return Err(Error::InvalidArgument);
            }
            let w = le_u16((n + 1) as u16);
            push_all(&mut key, w.as_slice());
        },
        DrecKeyLayout::Hashed => {
            if n >= 0x3ff {
                return Err(Error::InvalidArgument);
            }
            let w = le_u32(apfs_drec_name_len_and_hash(name, case_fold));
            push_all(&mut key, w.as_slice());
        },
    }
    push_all(&mut key, b);
    key.push(0);
    proof {
        bytes::lemma_le_lens();
        bytes::lemma_zeros_len(18);
        bytes::lemma_put_len(bytes::zeros(18), 0, bytes::le64(target_oid));
        assert(key@ =~= drec_key(parent_oid, name@, layout, case_fold));
    }
    let mut val = zero_vec(18);
    put_u64(&mut val, 0, target_oid);
    put_u16(&mut val, 16, dtype);
    Ok(FsRecord { key, val })
}

// ---- inodes ----

/// File-type bits of `mode`.
pub open spec fn type_bits(mode: u16) -> int {
    mode - mode % 0x1000
}

/// Mode of a regular file with the permission bits of `perm`.
pub fn mode_reg(perm: u16) -> (r: u16)
    ensures
        r == 0x8000 + perm % 0x1000,
        type_bits(r) == 0x8000,
{
    0x8000 + perm % 0x1000
}

/// Mode of a directory with the permission bits of `perm`.
pub fn mode_dir(perm: u16) -> (r: u16)
    ensures
        r == 0x4000 + perm % 0x1000,
        type_bits(r) == 0x4000,
{
    0x4000 + perm % 0x1000
}

/// Mode of a symbolic link with the permission bits of `perm`.
pub fn mode_lnk(perm: u16) -> (r: u16)
    ensures
        r == 0xa000 + perm % 0x1000,
        type_bits(r) == 0xa000,
{
    0xa000 + perm % 0x1000
}

/// Whether an inode carries a data stream: it has bytes, or it is a regular
/// file or a symbolic link.
pub open spec fn has_dstream(mode: u16, size: u64) -> bool {
    size > 0 || type_bits(mode) == 0x8000 || type_bits(mode) == 0xa000
}

/// The extended fields of an inode with one data stream of `size` bytes.
pub open spec fn dstream_blob(size: u64, block_size: u32) -> Seq<u8> {
    bytes::le16(1) + bytes::le16(40) + seq![INO_EXT_TYPE_DSTREAM, 0u8] + bytes::le16(40)
        + bytes::le64(size) + bytes::le64(
        (num::div_up(size as int, block_size as int) * block_size) as u64,
    ) + bytes::zeros(24)
}

/// The fixed part of an inode value.
pub open spec fn inode_fixed(oid: u64, parent: u64, mode: u16, size: u64, time: u64) -> Seq<u8> {
    let b = bytes::put(bytes::zeros(92), 0, bytes::le64(parent));
    let b = bytes::put(b, 8, bytes::le64(if has_dstream(mode, size) { oid } else { 0 }));
    let b = bytes::put(b, 16, bytes::le64(time));
    let b = bytes::put(b, 24, bytes::le64(time));
    let b = bytes::put(b, 32, bytes::le64(time));
    let b = bytes::put(b, 40, bytes::le64(time));
    let b = bytes::put(b, 56, bytes::le32(if type_bits(mode) == 0x4000 { 2 } else { 1 }));
    let b = bytes::put(b, 80, bytes::le16(mode));
    bytes::put(b, 84, bytes::le64(size))
}

/// Key of the inode record of `oid`.
pub open spec fn inode_key(oid: u64) -> Seq<u8> {
    bytes::le64(jrec::key_word(APFS_TYPE_INODE, oid))
}

/// Value of an inode record.
pub open spec fn inode_value(
    oid: u64,
    parent: u64,
    mode: u16,
    size: u64,
    block_size: u32,
    time: u64,
) -> Seq<u8> {
    let fixed = inode_fixed(oid, parent, mode, size, time);
    if has_dstream(mode, size) {
        fixed + dstream_blob(size, block_size)
    } else {
        fixed
    }
}

/// Build the inode record of `oid`.
pub fn build_inode_record(
    oid: u64,
    parent_oid: u64,
    mode: u16,
    dstream_size: u64,
    block_size: u32,
    mtime_ns: u64,
) -> (r: FsRecord)
    requires
        block_size > 0,
        num::div_up(dstream_size as int, block_size as int) * block_size <= u64::MAX,
    ensures
        r@ == (
            inode_key(oid),
            inode_value(oid, parent_oid, mode, dstream_size, block_size, mtime_ns),
        ),
{
    broadcast use {bytes::lemma_put_len, bytes::lemma_zeros_len};

    let kind: u16 = mode - mode % 0x1000;
    let stream: bool = dstream_size > 0 || kind == 0x8000 || kind == 0xa000;
    let mut val = zero_vec(J_INODE_VAL_FIXED_SIZE);
    put_u64(&mut val, 0, parent_oid);
    put_u64(&mut val, 8, if stream { oid } else { 0 });
    put_u64(&mut val, 16, mtime_ns);
    put_u64(&mut val, 24, mtime_ns);
    put_u64(&mut val, 32, mtime_ns);
    put_u64(&mut val, 40, mtime_ns);
    put_u32(&mut val, 56, if kind == 0x4000 { 2 } else { 1 });
    put_u16(&mut val, 80, mode);
    put_u64(&mut val, 84, dstream_size);
    if stream {
        let ghost fixed = val@;
        let blocks: u64 = div_ceil(dstream_size, block_size as u64);
        let alloc: u64 = blocks * block_size as u64;
        let mut x: Vec<u8> = le_u16(1);
        let w = le_u16(40);
        push_all(&mut x, w.as_slice());
        x.push(INO_EXT_TYPE_DSTREAM);
        x.push(0);
        push_all(&mut x, w.as_slice());
        let w = le_u64(dstream_size);
        push_all(&mut x, w.as_slice());
        let w = le_u64(alloc);
        push_all(&mut x, w.as_slice());
        let w = zero_vec(24);
        push_all(&mut x, w.as_slice());
        proof {
            assert(x@ =~= dstream_blob(dstream_size, block_size));
        }
        push_all(&mut val, x.as_slice());
    }
    let key = le_u64(join_obj_id(APFS_TYPE_INODE, oid));
    FsRecord { key, val }
}

// ---- file extents ----

/// Key of the file-extent record of `oid` at `addr`.
pub open spec fn extent_record_key(oid: u64, addr: u64) -> Seq<u8> {
    bytes::le64(jrec::key_word(APFS_TYPE_FILE_EXTENT, oid)) + bytes::le64(addr)
}

/// Value of a file-extent record: length in whole blocks, first block.
pub open spec fn extent_record_value(length: u64, phys_block: u64, block_size: u32) -> Seq<u8> {
    bytes::put(
        bytes::put(
            bytes::zeros(24),
            0,
            bytes::le64((num::div_up(length as int, block_size as int) * block_size) as u64),
        ),
        8,
        bytes::le64(phys_block),
    )
}

/// The file-extent record and the data-stream record of one extent.
pub open spec fn extent_records(
    oid: u64,
    addr: u64,
    length: u64,
    phys_block: u64,
    block_size: u32,
) -> Seq<(Seq<u8>, Seq<u8>)> {
    seq![
        (extent_record_key(oid, addr), extent_record_value(length, phys_block, block_size)),
        (bytes::le64(jrec::key_word(APFS_TYPE_DSTREAM_ID, oid)), bytes::zeros(4)),
    ]
}

/// Build the file-extent record and the data-stream record of one extent.
pub fn build_file_extent_records(
    dstream_oid: u64,
    logical_addr: u64,
    length: u64,
    phys_block: u64,
    block_size: u32,
) -> (r: (FsRecord, FsRecord))
    requires
        block_size > 0,
        num::div_up(length as int, block_size as int) * block_size <= u64::MAX,
    ensures
        seq![r.0@, r.1@] == extent_records(
            dstream_oid,
            logical_addr,
            length,
            phys_block,
            block_size,
        ),
{
    broadcast use {bytes::lemma_put_len, bytes::lemma_zeros_len};

    let mut key = le_u64(join_obj_id(APFS_TYPE_FILE_EXTENT, dstream_oid));
    let w = le_u64(logical_addr);
    push_all(&mut key, w.as_slice());
    let blocks: u64 = div_ceil(length, block_size as u64);
    let mut val = zero_vec(24);
    put_u64(&mut val, 0, blocks * block_size as u64);
    put_u64(&mut val, 8, phys_block);
    let ds_key = le_u64(join_obj_id(APFS_TYPE_DSTREAM_ID, dstream_oid));
    (FsRecord { key, val }, FsRecord { key: ds_key, val: zero_vec(4) })
}

// ---- extended attributes ----

/// Key of the extended attribute `name` of `oid`.
pub open spec fn xattr_key(oid: u64, name: Seq<char>) -> Seq<u8> {
    let b = text::utf8(name);
    bytes::le64(jrec::key_word(APFS_TYPE_XATTR, oid)) + bytes::le16((b.len() + 1) as u16) + b
        + seq![0u8]
}

/// Record value of an extended attribute that is stored in its record.
pub open spec fn xattr_value(value: Seq<u8>) -> Seq<u8> {
    bytes::le16(XATTR_DATA_EMBEDDED) + bytes::le16(value.len() as u16) + value
}

/// Build the record of the extended attribute `name` of `parent_oid`.
pub fn build_xattr_record(parent_oid: u64, name: &str, value: &[u8]) -> (r: Result<FsRecord>)
    ensures
        match r {
            Ok(rec) => {
                &&& value@.len() <= APFS_XATTR_MAX_EMBEDDED_SIZE
                &&& text::utf8(name@).len() + 1 <= 0xffff
                &&& rec@ == (xattr_key(parent_oid, name@), xattr_value(value@))
            },
            Err(e) => if value@.len() > APFS_XATTR_MAX_EMBEDDED_SIZE {
                e == Error::Unsupported
            } else {
                e == Error::InvalidArgument && text::utf8(name@).len() + 1 > 0xffff
            },
        },
{
    if value.len() > APFS_XATTR_MAX_EMBEDDED_SIZE {
        return Err(Error::Unsupported);
    }
    let b = name.as_bytes();
    let n: u64 = b.len() as u64;
    if n >= 0xffff {
        return Err(Error::InvalidArgument);
    }
    let mut key = le_u64(join_obj_id(APFS_TYPE_XATTR, parent_oid));
    let w = le_u16((n + 1) as u16);
    push_all(&mut key, w.as_slice());
    push_all(&mut key, b);
    key.push(0);
    let mut val = le_u16(XATTR_DATA_EMBEDDED);
    let w = le_u16(value.len() as u16);
    push_all(&mut val, w.as_slice());
    push_all(&mut val, value);
    proof {
        assert(key@ =~= xattr_key(parent_oid, name@));
    }
    Ok(FsRecord { key, val })
}

} // verus!
