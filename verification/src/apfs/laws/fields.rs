//! Decoding the records that a writer makes.

use vstd::prelude::*;

use crate::apfs::content;
use crate::apfs::fstree::DrecKeyLayout;
use crate::apfs::jrec::{self, DrecVal, FileExtentVal};
use crate::apfs::record;
use crate::apfs::volume;
use crate::bytes;
use crate::error::Error;
use crate::num;
use crate::text;

use super::records;

verus! {

/// Bytes without a NUL, and one behind them, read up to the NUL.
pub proof fn lemma_until_nul(b: Seq<u8>, rest: Seq<u8>)
    requires
        forall|i: int| 0 <= i < b.len() ==> (#[trigger] b[i]) != 0,
        rest.len() > 0,
        rest[0] == 0,
    ensures
        bytes::until_nul(b + rest) == b,
{
    let s = b + rest;
    assert(s[b.len() as int] == 0);
    assert(bytes::is_nul_pos(s, b.len() as int));
    bytes::lemma_nul_pos(s, b.len() as int);
    assert(s.subrange(0, b.len() as int) =~= b);
}

/// Whether `name` can be stored with a closing NUL and read back.
pub open spec fn nameable(name: Seq<char>) -> bool {
    &&& forall|i: int| 0 <= i < text::utf8(name).len() ==> (#[trigger] text::utf8(name)[i]) != 0
    &&& text::utf8(name).len() + 1 <= 0xffff
}

/// The name in the key of a directory record reads back.
pub proof fn lemma_drec_name(parent: u64, name: Seq<char>)
    requires
        nameable(name),
    ensures
        volume::drec_name(
            record::drec_key(parent, name, DrecKeyLayout::Plain, false),
            DrecKeyLayout::Plain,
        ) == Ok::<Seq<char>, Error>(name),
{
    let k = record::drec_key(parent, name, DrecKeyLayout::Plain, false);
    let b = text::utf8(name);
    let n = (b.len() + 1) as u16;
    bytes::lemma_le_lens();
    records::lemma_drec_key(parent, name, Seq::empty());
    bytes::lemma_get_le(n, 0, 0);
    assert(k.subrange(8, 10) =~= bytes::le16(n).subrange(0, 2));
    bytes::lemma_get_agree(k, 8, bytes::le16(n), 0);
    assert(k.subrange(10, 10 + n) =~= b + seq![0u8]);
    lemma_until_nul(b, seq![0u8]);
    text::lemma_text_of_utf8(name);
}

/// The value of a directory record reads back.
pub proof fn lemma_drec_value(target: u64, dtype: u16)
    ensures
        jrec::drec_val(record::drec_value(target, dtype)) == Ok::<DrecVal, Error>(
            (DrecVal { file_id: target, flags: dtype }),
        ),
{
    broadcast use bytes::group_fields;

}

/// The value of a file extent reads back, unless its length is too large for
/// the field.
pub proof fn lemma_extent_value(length: u64, paddr: u64, bs: u32)
    requires
        bs > 0,
        num::div_up(length as int, bs as int) * bs < 0x0100_0000_0000_0000,
    ensures
        jrec::extent_val(record::extent_record_value(length, paddr, bs)) == Ok::<
            FileExtentVal,
            Error,
        >(
            (FileExtentVal {
                length: (num::div_up(length as int, bs as int) * bs) as u64,
                phys_block_num: paddr,
            }),
        ),
{
    broadcast use bytes::group_fields;

    num::lemma_div_up(length as int, bs as int);
}

/// The data stream in the extended fields of an inode reads back.
proof fn lemma_dstream(size: u64, bs: u32)
    ensures
        jrec::xfields(record::dstream_blob(size, bs)).1 matches Some(x) && x.size == size,
{
    let alloced = (num::div_up(size as int, bs as int) * bs) as u64;
    let b = record::dstream_blob(size, bs);
    bytes::lemma_le_lens();
    broadcast use bytes::lemma_zeros_len;

    assert(b.len() == 48);
    bytes::lemma_get_le(1, 0, size);
    bytes::lemma_get_le(40, 0, alloced);
    assert(b.subrange(0, 2) =~= bytes::le16(1).subrange(0, 2));
    bytes::lemma_get_agree(b, 0, bytes::le16(1), 0);
    assert(b.subrange(6, 8) =~= bytes::le16(40).subrange(0, 2));
    bytes::lemma_get_agree(b, 6, bytes::le16(40), 0);
    assert(b[4] == jrec::INO_EXT_TYPE_DSTREAM);
    let v = b.subrange(8, 48);
    assert(v.subrange(0, 8) =~= bytes::le64(size).subrange(0, 8));
    bytes::lemma_get_agree(v, 0, bytes::le64(size), 0);
    reveal_with_fuel(jrec::xfields_upto, 2);
    assert(jrec::xfields_upto(b, 1).dstream == jrec::dstream_of(v));
}

/// The times, links and owners in the fixed part of an inode value.
proof fn lemma_inode_fixed(oid: u64, parent: u64, mode: u16, size: u64, time: u64)
    ensures
        ({
            let f = record::inode_fixed(oid, parent, mode, size, time);
            &&& f.len() == 92
            &&& bytes::get64(f, 32) == time
            &&& bytes::get64(f, 40) == time
            &&& bytes::get32(f, 56) == if record::type_bits(mode) == 0x4000 {
                2u32
            } else {
                1u32
            }
            &&& bytes::get32(f, 72) == 0
            &&& bytes::get32(f, 76) == 0
        }),
{
    broadcast use bytes::group_fields;

}

/// What an inode value reads back as.
pub proof fn lemma_inode_value(oid: u64, parent: u64, mode: u16, size: u64, bs: u32, time: u64)
    ensures
        ({
            let b = record::inode_value(oid, parent, mode, size, bs, time);
            &&& b.len() >= 92
            &&& bytes::get64(b, 0) == parent
            &&& bytes::get64(b, 8) == if record::has_dstream(mode, size) {
                oid
            } else {
                0
            }
            &&& bytes::get64(b, 24) == time
            &&& bytes::get64(b, 32) == time
            &&& bytes::get64(b, 40) == time
            &&& bytes::get32(b, 56) == if record::type_bits(mode) == 0x4000 {
                2u32
            } else {
                1u32
            }
            &&& bytes::get32(b, 72) == 0
            &&& bytes::get32(b, 76) == 0
            &&& bytes::get16(b, 80) == mode
            &&& volume::inode_size(b) == size
        }),
{
    let b = record::inode_value(oid, parent, mode, size, bs, time);
    let f = record::inode_fixed(oid, parent, mode, size, time);
    assert(f.len() == 92 && bytes::get64(f, 0) == parent && bytes::get64(f, 24) == time
        && bytes::get16(f, 80) == mode && bytes::get64(f, 8) == if record::has_dstream(mode, size) {
        oid
    } else {
        0
    }) by {
        broadcast use bytes::group_fields;

    }
    lemma_inode_fixed(oid, parent, mode, size, time);
    assert(b.subrange(0, 92) =~= f);
    bytes::lemma_get_sub(b, 0, 92, 0);
    bytes::lemma_get_sub(b, 0, 92, 8);
    bytes::lemma_get_sub(b, 0, 92, 32);
    bytes::lemma_get_sub(b, 0, 92, 40);
    bytes::lemma_get_sub(b, 0, 92, 56);
    bytes::lemma_get_sub(b, 0, 92, 72);
    bytes::lemma_get_sub(b, 0, 92, 76);
    bytes::lemma_get_sub(b, 0, 92, 24);
    bytes::lemma_get_sub(b, 0, 92, 80);
    let x = b.subrange(92, b.len() as int);
    if record::has_dstream(mode, size) {
        assert(x =~= record::dstream_blob(size, bs));
        lemma_dstream(size, bs);
    } else {
        assert(x.len() == 0);
    }
}

/// The key of an attribute tells its name, whatever the value.
pub proof fn lemma_xattr_name(oid: u64, name: Seq<char>, v: Seq<u8>)
    requires
        nameable(name),
    ensures
        content::xattr_of((record::xattr_key(oid, name), v)) matches Some(p) ==> p.0 == name,
{
    let k = record::xattr_key(oid, name);
    let b = text::utf8(name);
    let n = (b.len() + 1) as u16;
    bytes::lemma_le_lens();
    records::lemma_xattr_key(oid, name, v);
    bytes::lemma_get_le(n, 0, 0);
    assert(k.subrange(8, 10) =~= bytes::le16(n).subrange(0, 2));
    bytes::lemma_get_agree(k, 8, bytes::le16(n), 0);
    assert(k.subrange(10, 10 + n) =~= b + seq![0u8]);
    lemma_until_nul(b, seq![0u8]);
    text::lemma_text_of_utf8(name);
}

/// An extended attribute that is stored in its record reads back.
pub proof fn lemma_xattr(oid: u64, name: Seq<char>, value: Seq<u8>)
    requires
        nameable(name),
        value.len() <= 0xffff,
    ensures
        content::xattr_of((record::xattr_key(oid, name), record::xattr_value(value))) == Some(
            (name, value),
        ),
{
    let k = record::xattr_key(oid, name);
    let v = record::xattr_value(value);
    let b = text::utf8(name);
    let n = (b.len() + 1) as u16;
    let m = value.len() as u16;
    bytes::lemma_le_lens();
    records::lemma_xattr_key(oid, name, v);
    bytes::lemma_get_le(n, 0, 0);
    bytes::lemma_get_le(m, 0, 0);
    bytes::lemma_get_le(record::XATTR_DATA_EMBEDDED, 0, 0);
    assert(k.subrange(8, 10) =~= bytes::le16(n).subrange(0, 2));
    bytes::lemma_get_agree(k, 8, bytes::le16(n), 0);
    assert(k.subrange(10, 10 + n) =~= b + seq![0u8]);
    lemma_until_nul(b, seq![0u8]);
    text::lemma_text_of_utf8(name);
    assert(v.subrange(0, 2) =~= bytes::le16(record::XATTR_DATA_EMBEDDED).subrange(0, 2));
    bytes::lemma_get_agree(v, 0, bytes::le16(record::XATTR_DATA_EMBEDDED), 0);
    assert(v.subrange(2, 4) =~= bytes::le16(m).subrange(0, 2));
    bytes::lemma_get_agree(v, 2, bytes::le16(m), 0);
    assert(v.subrange(4, 4 + m) =~= value);
}

} // verus!
