//! Errors reported by the tree.
use vstd::prelude::*;

verus! {

/// Why a deletion did not happen.
#[derive(Debug, Clone, Copy, PartialEq, Eq, Structural)]
pub enum DeleteError {
    /// The value does not occur in the tree.
    NotFound,
}

impl DeleteError {
    /// A short description of the error.
    pub fn message(&self) -> (r: String) {
        match self {
            DeleteError::NotFound => String::from_str("the value to delete is not in the tree"),
        }
    }
}

} // verus!
