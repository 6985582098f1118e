//! The error kinds the library reports.

use vstd::prelude::*;

verus! {

/// What went wrong in an operation of the library.
#[derive(Debug)]
pub enum AgentGearError {
    /// A filesystem operation failed; the text describes the failure.
    Io(String),
    /// The path does not exist or is not what the operation needs.
    PathNotFound(String),
    /// A pattern was rejected.
    Pattern(String),
    /// The text to replace occurs this many times, where once was required.
    TextNotUnique(usize),
    /// The text to replace does not occur.
    TextNotFound,
    /// The index is not built yet, or is being rebuilt.
    IndexNotReady,
    /// The glob pattern was rejected.
    Glob(globset::Error),
    /// The regular expression was rejected; the text gives the reason.
    Regex(String),
    /// An internal failure.
    Internal(String),
}

/// A rejected glob pattern, held opaque.
#[verifier::external_type_specification]
#[verifier::external_body]
pub struct ExGlobError(globset::Error);

} // verus!
