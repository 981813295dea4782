//! Archives read, and some of them written, like filesystems.

pub mod ar;
pub mod arc;
pub mod arc_laws;
pub mod cab;
pub mod codec;
pub mod cpio;
pub mod digits;
pub mod dos;
pub mod entry_laws;
pub mod fs;
pub mod index;
pub mod laws;
pub mod layout;
pub mod lha;
pub mod lha_laws;
pub mod listing;
pub mod lzx;
pub mod lzx_laws;
pub mod mem;
pub mod names;
pub mod rar;
pub mod table;
pub mod writer;

pub use fs::{ArchiveBuilder, ArchiveFs, NoBuilder};
pub use index::{ArchiveEntry, ArchiveIndex, DataLocator, EntryKind, Method};
