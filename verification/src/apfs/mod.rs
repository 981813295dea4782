//! APFS containers.

pub mod btree;
pub mod change;
pub mod checksum;
pub mod container;
pub mod content;
pub mod fs;
pub mod fstree;
pub mod handle;
pub mod jrec;
pub mod laws;
pub mod mutate;
pub mod node;
pub mod obj;
pub mod omap;
pub mod ops;
pub mod opts;
pub mod pack;
pub mod pending;
pub mod plan;
pub mod rangescan;
pub mod record;
pub mod rw;
pub mod snap;
pub mod spaceman;
pub mod superblock;
pub mod volume;
pub mod write;

pub use fs::{probe, Apfs};
pub use handle::ApfsFileHandle;
pub use opts::ApfsFormatOpts;
