//! The one error type of the crate.

use vstd::prelude::*;

verus! {

/// Why an operation was refused.
#[derive(Clone, Copy, Debug, PartialEq, Eq, Structural)]
pub enum Error {
    /// The bytes do not form a valid structure of the format.
    InvalidImage,
    /// The caller asked for something that cannot be: a missing path, a name
    /// that is already taken, a geometry that does not fit.
    InvalidArgument,
    /// A valid request that this crate does not implement.
    Unsupported,
    /// A device access past the end of the device.
    OutOfBounds,
    /// The filesystem never accepts writes.
    Immutable,
    /// The filesystem was opened for reading; it is only written in one pass.
    Streaming,
}

/// Result of every fallible operation of the crate.
pub type Result<T> = core::result::Result<T, Error>;

/// A fallible result with the value replaced by its view.
pub open spec fn view_of<T: View>(r: Result<T>) -> Result<T::V> {
    match r {
        Ok(v) => Ok(v@),
        Err(e) => Err(e),
    }
}

} // verus!
