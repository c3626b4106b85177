//! Typed failures of the stores. The boundary may flatten these to text,
//! but the kind is kept internally.
use vstd::prelude::*;

verus! {

/// What went wrong in a store operation.
#[derive(Debug)]
pub enum StoreError {
    /// A record was rejected at the boundary (unrecognized status value).
    Validation(String),
    /// The embedded database reported a failure; the text names the cause.
    Sql(String),
}

impl StoreError {
    /// Whether this is the boundary-validation failure.
    pub open spec fn is_validation(&self) -> bool {
        self is Validation
    }

    /// A human-readable description of the failure.
    pub fn message(&self) -> (r: &String) {
        match self {
            StoreError::Validation(m) => m,
            StoreError::Sql(m) => m,
        }
    }
}

} // verus!
