//! Errors reported by the library.
use vstd::prelude::*;

verus! {

/// Error of an index or query operation, with its message.
#[derive(Debug)]
pub enum IronBaseError {
    /// An index rejected an operation (duplicate key, unknown index, ...).
    IndexError(String),
    /// A query filter is malformed.
    InvalidQuery(String),
    /// Persisted data does not have the shape it should.
    Corruption(String),
}

impl IronBaseError {
    /// The error's message.
    pub fn to_string(&self) -> (s: String)
        ensures
            s@ == self.message(),
    {
        match self {
            IronBaseError::IndexError(m) => m.clone(),
            IronBaseError::InvalidQuery(m) => m.clone(),
            IronBaseError::Corruption(m) => m.clone(),
        }
    }

    pub open spec fn message(&self) -> Seq<char> {
        match self {
            IronBaseError::IndexError(m) => m@,
            IronBaseError::InvalidQuery(m) => m@,
            IronBaseError::Corruption(m) => m@,
        }
    }
}

} // verus!
