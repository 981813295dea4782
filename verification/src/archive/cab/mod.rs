//! Microsoft cabinets: files are slices of folders, and a folder is one packed
//! stream.

pub mod folder;
pub mod laws;
pub mod scan;

use vstd::prelude::*;

use crate::archive::cab::folder::decode_folder_reader;
use crate::archive::cab::scan::{FileSlice, Folder};
use crate::archive::fs::{self, ArchiveFs, NoBuilder};
use crate::archive::mem::{self, bytes_needed, mem_handle, slice_stream, MemHandle};
use crate::archive::names::{self, normalise_path};
use crate::archive::table::PathTable;
use crate::block::MemoryBackend;
use crate::error::{self, Error, Result};

verus! {

/// What a path leads to.
#[derive(Clone, Copy, Debug, PartialEq, Eq, Structural)]
pub enum CabLookup {
    /// A file that can be read.
    Slice(FileSlice),
    /// A file that does not lie in this cabinet.
    Unextractable,
    NotRegular,
}

/// A cabinet.
pub struct CabFs {
    pub fs: ArchiveFs<NoBuilder>,
    pub folders: Vec<Folder>,
    pub files: PathTable<Option<FileSlice>>,
}

/// The bytes of the slice `s` of the folder `f`.
pub open spec fn slice_of(img: Seq<u8>, f: scan::Chain, s: FileSlice) -> Result<Seq<u8>> {
    match folder::folder_prefix(img, f, mem::needed(s.uncomp_offset, s.len)) {
        Err(e) => Err(e),
        Ok(b) => mem::sliced(b, s.uncomp_offset as int, s.len as int),
    }
}

impl CabFs {
    /// Every file with a slice lies in one of the folders.
    pub open spec fn wf(self) -> bool {
        scan::in_folders(self.files@, self.folders@.len() as int)
    }

    /// The bytes of the file at the path `p`.
    pub open spec fn contents(self, img: Seq<u8>, p: Seq<char>) -> Result<Seq<u8>> {
        let q = names::normal(p);
        if !self.files@.dom().contains(q) {
            self.fs@.contents(img, p)
        } else {
            match self.files@[q] {
                Some(s) => slice_of(img, self.folders@[s.folder as int]@, s),
                None => Err(Error::Unsupported),
            }
        }
    }

    /// Scan the cabinet on `dev`.
    pub fn open(dev: &MemoryBackend) -> (r: Result<Self>)
        ensures
            match r {
                Ok(a) => {
                    &&& scan::scanned(dev@) matches Ok(s)
                    &&& a.fs@ == fs::read_only(s.tree)
                    &&& scan::chains(a.folders@) == s.folders
                    &&& a.files@ == s.files
                    &&& a.wf()
                },
                Err(e) => scan::scanned(dev@) == Err::<scan::Scanned, Error>(e),
            },
    {
        let p = scan::scan(dev)?;
        Ok(CabFs { fs: ArchiveFs::from_index(p.index), folders: p.folders, files: p.files })
    }

    /// Cabinets cannot be created.
    pub fn format(dev: &MemoryBackend) -> (r: Result<Self>)
        ensures
            r matches Err(e) && e == Error::Unsupported,
    {
        Err(Error::Unsupported)
    }

    /// What `path` leads to.
    pub fn lookup(&self, path: &str) -> (r: CabLookup)
        ensures
            r == if !self.files@.dom().contains(names::normal(path@)) {
                CabLookup::NotRegular
            } else {
                match self.files@[names::normal(path@)] {
                    Some(s) => CabLookup::Slice(s),
                    None => CabLookup::Unextractable,
                }
            },
    {
        let key = normalise_path(path);
        match self.files.get(key.as_str()) {
            Some(Some(s)) => CabLookup::Slice(*s),
            Some(None) => CabLookup::Unextractable,
            None => CabLookup::NotRegular,
        }
    }

    /// The bytes of the file at `path`.
    pub fn read_file(&self, dev: &MemoryBackend, path: &str) -> (r: Result<Vec<u8>>)
        requires
            self.wf(),
        ensures
            error::view_of(r) == self.contents(dev@, path@),
    {
        match self.lookup(path) {
            CabLookup::Slice(s) => {
                let n: u64 = bytes_needed(s.uncomp_offset, s.len);
                let b = decode_folder_reader(dev, &self.folders[s.folder], n)?;
                slice_stream(b.as_slice(), s.uncomp_offset, s.len)
            },
            CabLookup::Unextractable => Err(Error::Unsupported),
            CabLookup::NotRegular => self.fs.read_file(dev, path),
        }
    }

    /// A seekable reader over the file at `path`.
    pub fn open_file_ro(&self, dev: &MemoryBackend, path: &str) -> (r: Result<MemHandle>)
        requires
            self.wf(),
        ensures
            match r {
                Ok(h) => h.pos == 0 && self.contents(dev@, path@) == Ok::<Seq<u8>, Error>(h.bytes@),
                Err(e) => self.contents(dev@, path@) == Err::<Seq<u8>, Error>(e),
            },
    {
        let b = self.read_file(dev, path)?;
        Ok(mem_handle(b))
    }
}

} // verus!
