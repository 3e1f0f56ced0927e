//! Newline sequences and sets of them.
//!
//! [`Newline`] is the enumeration of the newline sequences: the line breaks
//! of ASCII and of Unicode, with the two-character sequence CR LF among
//! them.  [`NewlineSet`] is a set of them that keeps the first characters of
//! its members in a small ordered array, the pattern with which a string is
//! searched, and tells apart by two flags whether the `'\r'` of the pattern
//! stands for `CarriageReturn`, for `CrLf` or for both.  The sets are
//! combined by union, intersection, difference, symmetric difference and
//! complement, as traversals in ascending order and as the operators `|`,
//! `&`, `-`, `^` and `!`, and a string is searched for the first or the last
//! newline sequence of a set through [`NewlinePattern`].
//!
//! Every function carries its contract, stated over the members of a set as
//! a mathematical set and over what a traversal still has to yield as a
//! sequence, and is verified against it.
pub mod charset;
pub mod errors;
pub mod iter;
pub mod model;
pub mod nl;
pub mod nlset;
pub mod ops;
pub mod order;
mod sealed;
pub mod show;
pub mod traits;

pub use crate::nl::Newline;
pub use crate::nlset::NewlineSet;
pub use crate::traits::{Match, NewlinePattern};
