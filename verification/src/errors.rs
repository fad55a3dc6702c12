//! The error kinds reported by the store.
use vstd::prelude::*;

verus! {

/// What can go wrong in the store.
#[derive(Debug, PartialEq, Eq)]
pub enum Error {
    /// The operation is reserved and has no behaviour yet.
    NotImplemented,
    /// The input does not describe a value, a header or a location.
    InvalidArgument,
    /// The backing storage could not serve the request; the text says why.
    IOError(String),
    /// Another process owns the file.
    Locked,
}

} // verus!
