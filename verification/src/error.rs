//! The error surfaced to users of the store.

use vstd::prelude::*;

verus! {

/// A list of possible errors returned to users of the store.
#[derive(Clone, Copy, Debug, PartialEq, Eq, Structural)]
pub enum Error {
    /// Some data is corrupted.
    Corrupted,
}

impl Error {
    /// Adopts a page-store error at the user boundary. Only corruption
    /// crosses it: every other page-store error is handled internally.
    pub fn from(err: crate::page_file::Error) -> (r: Error)
        requires
            err is Corrupted,
        ensures
            r is Corrupted,
    {
        match err {
            crate::page_file::Error::Corrupted => Error::Corrupted,
            _ => Error::Corrupted,
        }
    }
}

} // verus!
