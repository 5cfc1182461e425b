//! A live, filtered view of a growing text: a root document receives every
//! line read from a file, and a tree of documents each keeps the indices of
//! the lines of its parent that its matcher accepts.

pub mod content;
pub mod document;
pub mod matcher;
pub mod tree;

use vstd::prelude::*;

verus! {

/// Errors reported by the library.
#[derive(Debug, Clone, Copy, PartialEq, Eq)]
pub enum FilterError {
    /// The pattern given for a document is not a valid regular expression.
    InvalidPattern,
}

} // verus!
