//! Shared error type of the task and label stores.

use vstd::prelude::*;

pub mod label;
pub mod todo;

verus! {

/// A single violated input constraint, reported by the validation gate.
#[derive(PartialEq, Eq, Structural, Debug)]
pub enum Violation {
    TitleEmpty,
    TitleTooLong,
    NameEmpty,
    NameTooLong,
}

/// Every way a store operation can fail.  `NotFound` and `Duplicate` are
/// expected outcomes a caller can recover from; `ValidationFailed` is produced
/// before any store mutation; `Unexpected` wraps a backend-level fault.
#[derive(Debug)]
pub enum RepositoryError {
    NotFound(i32),
    Duplicate(i32),
    ValidationFailed(Vec<Violation>),
    Unexpected(String),
}

} // verus!
