use vstd::prelude::*;

verus! {

/// Error type when decoding fails. It carries no information about the cause.
#[derive(Copy, Clone, Debug, PartialEq, Eq)]
pub struct Error;

/// Result type returned by decoding functions.
pub type Result<T> = core::result::Result<T, Error>;

} // verus!
