//! The error type that the library's operations report.
use vstd::prelude::*;

verus! {

/// `anyhow::Error`, carried through by `CoiError::Other`.
#[verifier::external_type_specification]
#[verifier::external_body]
pub struct ExAnyhowError(anyhow::Error);

/// What can go wrong, with the details each message needs.
#[derive(Debug)]
pub enum CoiError {
    /// The document folder does not exist.
    InvalidPath { path: String },
    /// No configuration has been saved yet.
    NotInitialized,
    /// The user's input is not acceptable.
    InvalidInput { reason: String },
    /// A document could not be read into text.
    ParseError { file: String, reason: String },
    /// The embedding model could not be loaded or run.
    ModelError { reason: String },
    /// The data folder could not be removed.
    ClearError { reason: String },
    /// Any other failure.
    Other(anyhow::Error),
}

} // verus!
