//! Laws that span the writers and the readers: what was written is what is
//! read back, and a commit leaves earlier states in place.

pub mod changes;
pub mod commit;
pub mod contents;
pub mod dirs;
pub mod edits;
pub mod entries;
pub mod extents;
pub mod fields;
pub mod files;
pub mod flush;
pub mod formats;
pub mod handles;
pub mod image;
pub mod inplace;
pub mod kinds;
pub mod layout;
pub mod lookups;
pub mod maps;
pub mod names;
pub mod objects;
pub mod paths;
pub mod records;
pub mod removal;
pub mod rewrite;
pub mod scans;
pub mod snapshots;
pub mod start;
pub mod stored;
pub mod tree;
pub mod trips;
pub mod versions;
pub mod views;
