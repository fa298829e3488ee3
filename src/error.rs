//! The errors that the engine reports.
use vstd::prelude::*;

verus! {

/// Why an operation of the engine failed.
#[derive(Clone, Copy, Debug, PartialEq, Eq, Structural)]
pub enum EngineError {
    /// A field name that is already declared, or one that is not.
    SchemaError,
    /// A document id that is already taken.
    IdentityConflict,
    /// A document that the collection does not hold.
    NotFound,
    /// Bytes that are not a well-formed collection file.
    DecodeError,
}

} // verus!
