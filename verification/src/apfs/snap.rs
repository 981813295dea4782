//! Records of the snapshot-metadata tree.
//!
//! Keys start with the usual key word: for a metadata record its low 60 bits
//! are the snapshot's transaction id. Metadata and name records share the tree
//! and are told apart by the record kind.

use vstd::prelude::*;
use vstd::slice::slice_subrange;

use crate::apfs::jrec::{self, split_obj_id};
use crate::bytes::{self, find_nul, get_u16, get_u32, get_u64};
use crate::error::{Error, Result};
use crate::text::{self, from_utf8_lossy};

verus! {

/// Record kind and low 60 bits of a snapshot-tree key.
pub fn decode_snap_meta_key(buf: &[u8]) -> (r: Result<(u8, u64)>)
    ensures
        r == if buf@.len() < 8 {
            Err::<(u8, u64), Error>(Error::InvalidImage)
        } else {
            Ok((jrec::key_kind(buf@), jrec::key_oid(buf@)))
        },
{
    if buf.len() < 8 {
        return Err(Error::InvalidImage);
    }
    Ok(split_obj_id(get_u64(buf, 0)))
}

/// A decoded snapshot-metadata value.
#[derive(Debug)]
pub struct SnapMetaVal {
    pub extentref_tree_oid: u64,
    pub sblock_oid: u64,
    pub create_time: u64,
    pub change_time: u64,
    pub inum: u64,
    pub extentref_tree_type: u32,
    pub flags: u32,
    pub name: String,
}

/// Name of the snapshot that the metadata value `b` describes: at most the
/// stored length, at most to the end of the value, up to the first NUL.
pub open spec fn snap_name(b: Seq<u8>) -> Seq<char> {
    let end = if 50 + bytes::get16(b, 48) < b.len() {
        50 + bytes::get16(b, 48)
    } else {
        b.len() as int
    };
    text::text_of(bytes::until_nul(b.subrange(50, end)))
}

impl SnapMetaVal {
    /// Size of everything before the name.
    pub const FIXED_PREFIX: usize = 50;

    /// Whether every field is the one stored in `b`.
    pub open spec fn of(self, b: Seq<u8>) -> bool {
        &&& self.extentref_tree_oid == bytes::get64(b, 0)
        &&& self.sblock_oid == bytes::get64(b, 8)
        &&& self.create_time == bytes::get64(b, 16)
        &&& self.change_time == bytes::get64(b, 24)
        &&& self.inum == bytes::get64(b, 32)
        &&& self.extentref_tree_type == bytes::get32(b, 40)
        &&& self.flags == bytes::get32(b, 44)
        &&& self.name@ == snap_name(b)
    }

    /// Decode a snapshot-metadata value.
    pub fn decode(buf: &[u8]) -> (r: Result<Self>)
        ensures
            match r {
                Ok(v) => buf@.len() >= 50 && v.of(buf@),
                Err(e) => buf@.len() < 50 && e == Error::InvalidImage,
            },
    {
        if buf.len() < 50 {
            return Err(Error::InvalidImage);
        }
        let name_len: usize = get_u16(buf, 48) as usize;
        let end: usize = if 50 + name_len < buf.len() {
            50 + name_len
        } else {
            buf.len()
        };
        let raw = slice_subrange(buf, 50, end);
        let nul: usize = find_nul(raw);
        Ok(
            SnapMetaVal {
                extentref_tree_oid: get_u64(buf, 0),
                sblock_oid: get_u64(buf, 8),
                create_time: get_u64(buf, 16),
                change_time: get_u64(buf, 24),
                inum: get_u64(buf, 32),
                extentref_tree_type: get_u32(buf, 40),
                flags: get_u32(buf, 44),
                name: from_utf8_lossy(slice_subrange(raw, 0, nul)),
            },
        )
    }
}

/// A decoded snapshot-name value: the snapshot's transaction id.
#[derive(Clone, Copy, Debug, PartialEq, Eq, Structural)]
pub struct SnapNameVal {
    pub snap_xid: u64,
}

impl SnapNameVal {
    /// Size of the value.
    pub const SIZE: usize = 8;

    /// Decode a snapshot-name value.
    pub fn decode(buf: &[u8]) -> (r: Result<Self>)
        ensures
            r == if buf@.len() < 8 {
                Err::<Self, Error>(Error::InvalidImage)
            } else {
                Ok(SnapNameVal { snap_xid: bytes::get64(buf@, 0) })
            },
    {
        if buf.len() < 8 {
            return Err(Error::InvalidImage);
        }
        Ok(SnapNameVal { snap_xid: get_u64(buf, 0) })
    }
}

} // verus!
