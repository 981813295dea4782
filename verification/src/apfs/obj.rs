//! The 32-byte header that starts every on-disk object.
//!
//! ```text
//!   0  o_cksum   u64   Fletcher-64 over the rest of the object
//!   8  o_oid     u64   object identifier
//!  16  o_xid     u64   transaction identifier
//!  24  o_type    u32   low 16 bits: type, high 16 bits: flags
//!  28  o_subtype u32
//! ```

use vstd::prelude::*;

use crate::bytes::{self, get_u32, get_u64};
use crate::error::{Error, Result};

verus! {

/// Mask isolating the type bits of `o_type`.
pub const OBJECT_TYPE_MASK: u32 = 0x0000_ffff;

/// Mask isolating the flag bits of `o_type`.
pub const OBJECT_TYPE_FLAGS_MASK: u32 = 0xffff_0000;

pub const OBJECT_TYPE_NX_SUPERBLOCK: u32 = 0x0000_0001;

pub const OBJECT_TYPE_BTREE: u32 = 0x0000_0002;

pub const OBJECT_TYPE_BTREE_NODE: u32 = 0x0000_0003;

pub const OBJECT_TYPE_OMAP: u32 = 0x0000_000b;

pub const OBJECT_TYPE_CHECKPOINT_MAP: u32 = 0x0000_000c;

pub const OBJECT_TYPE_FS: u32 = 0x0000_000d;

pub const OBJECT_TYPE_FSTREE: u32 = 0x0000_000e;

/// Header that precedes every on-disk object.
#[derive(Clone, Copy, Debug)]
pub struct ObjPhys {
    pub cksum: u64,
    pub oid: u64,
    pub xid: u64,
    pub type_and_flags: u32,
    pub subtype: u32,
}

/// The header that `b` starts with.
pub open spec fn header(b: Seq<u8>) -> ObjPhys {
    ObjPhys {
        cksum: bytes::get64(b, 0),
        oid: bytes::get64(b, 8),
        xid: bytes::get64(b, 16),
        type_and_flags: bytes::get32(b, 24),
        subtype: bytes::get32(b, 28),
    }
}

/// Object type of a block: the low 16 bits of `o_type`.
pub open spec fn type_of(b: Seq<u8>) -> u32 {
    bytes::get32(b, 24) % 0x1_0000
}

impl ObjPhys {
    /// Size of the header in bytes.
    pub const SIZE: usize = 32;

    /// Decode the header that `buf` starts with.
    pub fn decode(buf: &[u8]) -> (r: Result<Self>)
        ensures
            r == if buf@.len() < 32 {
                Err::<Self, Error>(Error::InvalidImage)
            } else {
                Ok(header(buf@))
            },
    {
        if buf.len() < 32 {
            return Err(Error::InvalidImage);
        }
        Ok(
            ObjPhys {
                cksum: get_u64(buf, 0),
                oid: get_u64(buf, 8),
                xid: get_u64(buf, 16),
                type_and_flags: get_u32(buf, 24),
                subtype: get_u32(buf, 28),
            },
        )
    }

    /// Object type: the low 16 bits of `o_type`.
    pub fn obj_type(&self) -> (r: u32)
        ensures
            r == self.type_and_flags % 0x1_0000,
            r == self.type_and_flags & OBJECT_TYPE_MASK,
    {
        let t: u32 = self.type_and_flags;
        assert(t & 0x0000_ffff == t % 0x1_0000) by (bit_vector);
        t & OBJECT_TYPE_MASK
    }

    /// Object flags: the high 16 bits of `o_type`, in place.
    pub fn obj_flags(&self) -> (r: u32)
        ensures
            r == self.type_and_flags / 0x1_0000 * 0x1_0000,
            r == self.type_and_flags & OBJECT_TYPE_FLAGS_MASK,
    {
        let t: u32 = self.type_and_flags;
        assert(t & 0xffff_0000 == t / 0x1_0000 * 0x1_0000) by (bit_vector);
        t & OBJECT_TYPE_FLAGS_MASK
    }
}

} // verus!
