//! `cpio` archives: the "newc" and "odc" formats are read, and "newc" is written.

pub mod emit;
pub mod forms;
pub mod laws;
pub mod scan;

use vstd::prelude::*;

use crate::archive::cpio::emit::{CpioW, CpioWriter};
use crate::archive::cpio::scan::scan;
use crate::archive::fs::{Arch, ArchiveFs};
use crate::archive::index::Tree;
use crate::block::MemoryBackend;
use crate::entry::MutationCapability;
use crate::error::{Error, Result};
use crate::options::OptionMap;

verus! {

/// Options of a new archive; there are none.
#[derive(Clone, Copy, Debug, PartialEq, Eq, Structural)]
pub struct CpioFormatOpts;

impl CpioFormatOpts {
    /// No option is taken.
    pub fn apply_options(&mut self, bag: &mut OptionMap) -> (r: Result<()>)
        ensures
            r == Ok::<(), Error>(()),
            final(bag)@ == old(bag)@,
            *final(self) == *old(self),
    {
        Ok(())
    }
}

/// A `cpio` archive.
pub struct CpioFs(pub ArchiveFs<CpioWriter>);

impl CpioFs {
    /// Scan the archive on `dev`.
    pub fn open(dev: &MemoryBackend) -> (r: Result<Self>)
        ensures
            match r {
                Ok(f) => {
                    &&& crate::archive::cpio::scan::scanned(dev@) matches Ok(t)
                    &&& f.0@ == (Arch {
                        tree: t,
                        builder: None::<CpioW>,
                        cap: MutationCapability::Streaming,
                        scaffold: false,
                        flushed: None,
                    })
                },
                Err(e) => crate::archive::cpio::scan::scanned(dev@) == Err::<Tree, Error>(e),
            },
    {
        let ix = scan(dev)?;
        Ok(CpioFs(ArchiveFs::from_index(ix)))
    }

    /// A new archive.
    pub fn format(opts: &CpioFormatOpts) -> (r: Result<Self>)
        ensures
            r matches Ok(f) && f.0@ == (Arch {
                tree: Tree::empty(),
                builder: Some(CpioW { pos: 0, ino: 1 }),
                cap: MutationCapability::Streaming,
                scaffold: false,
                flushed: None,
            }),
    {
        Ok(CpioFs(ArchiveFs::writer("cpio", CpioWriter::new())))
    }
}

} // verus!
