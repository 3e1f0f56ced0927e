//! The seal of the search trait.
use crate::nl::Newline;
use crate::nlset::NewlineSet;
use vstd::prelude::*;

verus! {

/// The trait that keeps [`NewlinePattern`](crate::traits::NewlinePattern)
/// to the types of this library.
pub trait Sealed {

}

impl Sealed for Newline {

}

impl Sealed for NewlineSet {

}

} // verus!
