//! Filesystem images and archives as plain values: APFS containers (read,
//! write, reopen and mutate) and the archive formats that present themselves
//! as a read-only tree.
//!
//! Every item of this crate is verified. A device is a [`block::MemoryBackend`],
//! whose view is its byte sequence, and every contract speaks of those bytes.

pub mod apfs;
pub mod archive;
pub mod block;
pub mod bytes;
pub mod entry;
pub mod error;
pub mod num;
pub mod options;
pub mod order;
pub mod path;
pub mod text;
