//! Error types
use vstd::prelude::*;

verus! {

/// Error returned when converting a `char` that is not a recognized newline
/// sequence to a [`Newline`](crate::nl::Newline).
#[derive(Copy, Clone, Debug, PartialEq, Eq, PartialOrd, Ord, Hash, Structural)]
pub struct TryFromCharError(
    /// The character provided to the conversion
    pub char,
);

/// Error returned when converting a `&str` that is not a recognized newline
/// sequence to a [`Newline`](crate::nl::Newline).
#[derive(Copy, Clone, Debug, PartialEq, Eq, PartialOrd, Ord, Hash, Structural)]
pub struct TryFromStrError;

} // verus!
