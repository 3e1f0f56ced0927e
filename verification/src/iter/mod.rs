//! Traversals of sets of newline sequences.
pub mod complement;
pub mod diff;
pub mod inner;
pub mod intersection;
pub mod into_iter;
pub mod merge;
pub mod symdiff;
pub mod union;

pub use self::complement::Complement;
pub use self::diff::Difference;
pub use self::intersection::Intersection;
pub use self::into_iter::IntoIter;
pub use self::symdiff::SymmetricDifference;
pub use self::union::Union;
